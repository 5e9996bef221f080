//! Fixed-width integers on the wire, and the buffer operations that read and
//! write them.
//!
//! Every integer of the block and table formats is stored big-endian. The
//! executable functions here hand the work to the `bytes` crate; their
//! contracts are taken on trust from that crate's documentation.

use bytes::Buf;
use bytes::BufMut;
use bytes::Bytes;
use vstd::prelude::*;

verus! {

/// The two bytes that store `n`, most significant first.
pub open spec fn be16(n: u16) -> Seq<u8> {
    seq![(n / 256) as u8, (n % 256) as u8]
}

/// The four bytes that store `n`, most significant first.
pub open spec fn be32(n: u32) -> Seq<u8> {
    seq![
        (n / 0x100_0000) as u8,
        (n / 0x1_0000 % 256) as u8,
        (n / 0x100 % 256) as u8,
        (n % 256) as u8,
    ]
}

/// The 16-bit integer stored at position `i` of `s`.
pub open spec fn be16_at(s: Seq<u8>, i: int) -> int {
    s[i] as int * 256 + s[i + 1] as int
}

/// The 32-bit integer stored at position `i` of `s`.
pub open spec fn be32_at(s: Seq<u8>, i: int) -> int {
    ((s[i] as int * 256 + s[i + 1] as int) * 256 + s[i + 2] as int) * 256 + s[i + 3] as int
}

/// Reading back what `be16` wrote gives the number written.
pub proof fn lemma_be16_round_trip(n: u16)
    ensures
        be16(n).len() == 2,
        be16_at(be16(n), 0) == n,
{
}

/// Reading back what `be32` wrote gives the number written.
pub proof fn lemma_be32_round_trip(n: u32)
    ensures
        be32(n).len() == 4,
        be32_at(be32(n), 0) == n,
{
}

/// The bytes that an immutable shared buffer holds.
pub uninterp spec fn bytes_seq(b: Bytes) -> Seq<u8>;

/// `bytes::Bytes`, an immutable reference-counted byte buffer. Its contents
/// are known only through `bytes_seq`.
#[verifier::external_type_specification]
#[verifier::external_body]
pub struct ExBytes(Bytes);

/// `Buf::get_u16` on a byte slice: the first two bytes of the slice, read as
/// a big-endian integer. The crate panics on a slice shorter than two bytes.
#[verifier::external_body]
pub(crate) fn get_u16(buf: &[u8]) -> (n: u16)
    requires
        buf@.len() >= 2,
    ensures
        n as int == be16_at(buf@, 0),
{
    let mut cursor = buf;
    cursor.get_u16()
}

/// `BufMut::put_u16` on a vector: appends the two big-endian bytes of `n`.
/// A vector cannot grow past `isize::MAX` bytes.
#[verifier::external_body]
pub(crate) fn put_u16(buf: &mut Vec<u8>, n: u16)
    requires
        old(buf)@.len() + 2 <= isize::MAX,
    ensures
        final(buf)@ == old(buf)@ + be16(n),
{
    buf.put_u16(n);
}

/// `BufMut::put_u32` on a vector: appends the four big-endian bytes of `n`.
/// A vector cannot grow past `isize::MAX` bytes.
#[verifier::external_body]
pub(crate) fn put_u32(buf: &mut Vec<u8>, n: u32)
    requires
        old(buf)@.len() + 4 <= isize::MAX,
    ensures
        final(buf)@ == old(buf)@ + be32(n),
{
    buf.put_u32(n);
}

/// `BufMut::put` on a vector, with a byte slice as the source: appends the
/// whole slice. A vector cannot grow past `isize::MAX` bytes.
#[verifier::external_body]
pub(crate) fn put_slice(buf: &mut Vec<u8>, src: &[u8])
    requires
        old(buf)@.len() + src@.len() <= isize::MAX,
    ensures
        final(buf)@ == old(buf)@ + src@,
{
    buf.put(src);
}

/// `Bytes::from` on a vector: the buffer takes the vector over and holds the
/// same bytes.
#[verifier::external_body]
pub(crate) fn bytes_from_vec(v: Vec<u8>) -> (b: Bytes)
    ensures
        bytes_seq(b) == v@,
{
    Bytes::from(v)
}

/// `AsRef<[u8]>::as_ref` on `Bytes`: the bytes that the buffer holds, as a
/// slice.
#[verifier::external_body]
pub(crate) fn bytes_as_slice(b: &Bytes) -> (s: &[u8])
    ensures
        s@ == bytes_seq(*b),
{
    b.as_ref()
}

/// `Clone::clone` on `Bytes`: a second handle on the same bytes.
#[verifier::external_body]
pub(crate) fn bytes_clone(b: &Bytes) -> (c: Bytes)
    ensures
        bytes_seq(c) == bytes_seq(*b),
{
    b.clone()
}

} // verus!
