//! The block: a bounded run of key-value entries in one flat buffer, with an
//! index of where each entry starts.
//!
//! ```text
//! entry := key_len:u16 | key | value_len:u16 | value
//! block := entry* | offset:u16 per entry, in entry order
//! ```
//!
//! A value of length zero marks its key as deleted.

use crate::wire::be16;
use crate::wire::be16_at;
use crate::wire::bytes_from_vec;
use crate::wire::bytes_seq;
use crate::wire::get_u16;
use crate::wire::put_slice;
use crate::wire::put_u16;
use bytes::Bytes;
use vstd::prelude::*;
use vstd::slice::slice_subrange;
use vstd::slice::slice_to_vec;

pub mod iterator;

verus! {

/// One key-value pair, as the contracts of this library speak of it.
pub struct Entry {
    pub key: Seq<u8>,
    pub value: Seq<u8>,
}

/// An entry that a block can hold: the key is not empty, and both lengths
/// fit the 16-bit length fields.
pub open spec fn entry_wf(e: Entry) -> bool {
    0 < e.key.len() <= u16::MAX && e.value.len() <= u16::MAX
}

/// Every entry of `es` can be held by a block.
pub open spec fn entries_wf(es: Seq<Entry>) -> bool {
    forall|i: int| 0 <= i < es.len() ==> entry_wf(#[trigger] es[i])
}

/// The number of bytes that an entry takes in a block's buffer.
pub open spec fn encoded_len(e: Entry) -> nat {
    e.key.len() + e.value.len() + 4
}

/// The bytes of one entry.
pub open spec fn encode_entry(e: Entry) -> Seq<u8> {
    be16(e.key.len() as u16) + e.key + be16(e.value.len() as u16) + e.value
}

/// The bytes of a run of entries, one after the other.
pub open spec fn encode_entries(es: Seq<Entry>) -> Seq<u8>
    decreases es.len(),
{
    if es.len() == 0 {
        Seq::empty()
    } else {
        encode_entries(es.drop_last()) + encode_entry(es.last())
    }
}

/// Where entry `i` starts in the buffer: the size of the entries before it.
pub open spec fn entry_offset(es: Seq<Entry>, i: int) -> int {
    encode_entries(es.take(i)).len() as int
}

/// The offset index of a block that holds `es`.
pub open spec fn block_offsets(es: Seq<Entry>) -> Seq<u16> {
    Seq::new(es.len(), |i: int| entry_offset(es, i) as u16)
}

/// The bytes of an offset index.
pub open spec fn encode_offsets(offsets: Seq<u16>) -> Seq<u8>
    decreases offsets.len(),
{
    if offsets.len() == 0 {
        Seq::empty()
    } else {
        encode_offsets(offsets.drop_last()) + be16(offsets.last())
    }
}

/// Entries that fit one block: each can be held, and each starts at an
/// offset that fits 16 bits.
pub open spec fn block_encodable(es: Seq<Entry>) -> bool {
    &&& entries_wf(es)
    &&& forall|i: int| 0 <= i < es.len() ==> #[trigger] entry_offset(es, i) <= u16::MAX
}

/// The bytes of a block: its entries, then its offset index.
pub open spec fn encode_block(es: Seq<Entry>) -> Seq<u8> {
    encode_entries(es) + encode_offsets(block_offsets(es))
}

/// Whether a block that holds `es`, and is meant not to exceed `block_size`
/// bytes, takes one more entry with a key of `key_len` and a value of
/// `value_len` bytes. An empty block takes any entry. Later entries must
/// leave the encoded block within the block size, and must start at an
/// offset that fits 16 bits.
pub open spec fn has_room(es: Seq<Entry>, block_size: usize, key_len: nat, value_len: nat) -> bool {
    es.len() == 0 || (encode_block(es).len() + key_len + value_len + 6 <= block_size
        && encode_entries(es).len() <= u16::MAX)
}

/// Appending an entry appends its bytes.
pub proof fn lemma_encode_entries_push(es: Seq<Entry>, e: Entry)
    ensures
        encode_entries(es.push(e)) == encode_entries(es) + encode_entry(e),
        encode_entry(e).len() == encoded_len(e),
{
    assert(es.push(e).drop_last() =~= es);
}

/// The bytes of the first `j` entries open the bytes of all of them.
pub proof fn lemma_encode_entries_prefix(es: Seq<Entry>, j: int)
    requires
        0 <= j <= es.len(),
    ensures
        entry_offset(es, j) <= encode_entries(es).len(),
        encode_entries(es).subrange(0, entry_offset(es, j) as int) == encode_entries(es.take(j)),
    decreases es.len(),
{
    if j == es.len() {
        assert(es.take(j) =~= es);
        assert(encode_entries(es).subrange(0, encode_entries(es).len() as int) =~= encode_entries(
            es,
        ));
    } else {
        let init = es.drop_last();
        assert(init.take(j) =~= es.take(j));
        lemma_encode_entries_prefix(init, j);
        assert(encode_entries(es).subrange(0, entry_offset(es, j) as int) =~= encode_entries(
            init,
        ).subrange(0, entry_offset(es, j) as int));
    }
}

/// Entry `i` lies in the buffer from its offset to the offset of the next.
pub proof fn lemma_entry_span(es: Seq<Entry>, i: int)
    requires
        0 <= i < es.len(),
    ensures
        entry_offset(es, i + 1) == entry_offset(es, i) + encoded_len(es[i]),
        entry_offset(es, i + 1) <= encode_entries(es).len(),
        encode_entries(es).subrange(entry_offset(es, i) as int, entry_offset(es, i + 1) as int)
            == encode_entry(es[i]),
{
    let upto = es.take(i + 1);
    assert(upto.drop_last() =~= es.take(i));
    assert(upto.last() == es[i]);
    lemma_encode_entries_push(es.take(i), es[i]);
    lemma_encode_entries_prefix(es, i + 1);
    let lo = entry_offset(es, i) as int;
    let hi = entry_offset(es, i + 1) as int;
    assert(encode_entries(es).subrange(lo, hi) =~= encode_entries(es).subrange(0, hi).subrange(
        lo,
        hi,
    ));
    assert(encode_entries(upto).subrange(lo, hi) =~= encode_entry(es[i]));
}

/// What a reader finds at the offset of entry `i`: the key's length, the key,
/// the value's length, the value.
pub proof fn lemma_entry_layout(es: Seq<Entry>, i: int)
    requires
        entries_wf(es),
        0 <= i < es.len(),
    ensures
        entry_offset(es, i) + encoded_len(es[i]) <= encode_entries(es).len(),
        be16_at(encode_entries(es), entry_offset(es, i) as int) == es[i].key.len(),
        encode_entries(es).subrange(
            entry_offset(es, i) + 2,
            entry_offset(es, i) + 2 + es[i].key.len(),
        ) == es[i].key,
        be16_at(encode_entries(es), entry_offset(es, i) + 2 + es[i].key.len()) == es[i].value.len(),
        encode_entries(es).subrange(
            entry_offset(es, i) + 4 + es[i].key.len(),
            entry_offset(es, i) + 4 + es[i].key.len() + es[i].value.len(),
        ) == es[i].value,
{
    lemma_entry_span(es, i);
    let all = encode_entries(es);
    let lo = entry_offset(es, i) as int;
    let hi = entry_offset(es, i + 1) as int;
    let e = es[i];
    let enc = encode_entry(e);
    let kl = e.key.len() as int;
    let vl = e.value.len() as int;
    assert(entry_wf(e));
    assert(all.subrange(lo, hi) == enc);
    assert forall|k: int| 0 <= k < enc.len() implies all[lo + k] == enc[k] by {
        assert(all.subrange(lo, hi)[k] == all[lo + k]);
    }
    assert(enc[0] == be16(kl as u16)[0]);
    assert(enc[1] == be16(kl as u16)[1]);
    assert(enc[2 + kl] == be16(vl as u16)[0]);
    assert(enc[3 + kl] == be16(vl as u16)[1]);
    assert(all[lo] == enc[0]);
    assert(all[lo + 1] == enc[1]);
    assert(all[lo + 2 + kl] == enc[2 + kl]);
    assert(all[lo + 3 + kl] == enc[3 + kl]);
    assert(all.subrange(lo + 2, lo + 2 + kl) =~= e.key) by {
        assert forall|k: int| 0 <= k < kl implies all[lo + 2 + k] == e.key[k] by {
            assert(enc[2 + k] == e.key[k]);
        }
    }
    assert(all.subrange(lo + 4 + kl, lo + 4 + kl + vl) =~= e.value) by {
        assert forall|k: int| 0 <= k < vl implies all[lo + 4 + kl + k] == e.value[k] by {
            assert(enc[4 + kl + k] == e.value[k]);
        }
    }
}

/// The offsets of a block grow by at least five bytes from entry to entry.
pub proof fn lemma_entry_offset_grows(es: Seq<Entry>, i: int)
    requires
        entries_wf(es),
        0 <= i <= es.len(),
    ensures
        entry_offset(es, i) >= 5 * i,
    decreases i,
{
    if i > 0 {
        lemma_entry_offset_grows(es, i - 1);
        lemma_entry_span(es, i - 1);
        assert(entry_wf(es[i - 1]));
    } else {
        assert(es.take(0) =~= Seq::<Entry>::empty());
    }
}

/// A block holds at most 13108 entries in at most 196609 bytes.
pub proof fn lemma_block_bounds(es: Seq<Entry>)
    requires
        block_encodable(es),
    ensures
        es.len() <= 13108,
        encode_entries(es).len() <= 196609,
        encode_entries(es).len() == entry_offset(es, es.len() as int),
{
    assert(es.take(es.len() as int) =~= es);
    if es.len() > 0 {
        let last = es.len() - 1;
        lemma_entry_offset_grows(es, last);
        lemma_entry_span(es, last);
        assert(entry_wf(es[last]));
        assert(entry_offset(es, last) <= u16::MAX);
    }
}

/// The offset index takes two bytes per entry, and the offset of entry `i`
/// is stored at byte `2 * i`.
pub proof fn lemma_encode_offsets_layout(offsets: Seq<u16>, i: int)
    requires
        0 <= i < offsets.len(),
    ensures
        encode_offsets(offsets).len() == 2 * offsets.len(),
        be16_at(encode_offsets(offsets), 2 * i) == offsets[i],
    decreases offsets.len(),
{
    let init = offsets.drop_last();
    lemma_encode_offsets_len(init);
    if i < offsets.len() - 1 {
        lemma_encode_offsets_layout(init, i);
        assert(encode_offsets(offsets)[2 * i] == encode_offsets(init)[2 * i]);
        assert(encode_offsets(offsets)[2 * i + 1] == encode_offsets(init)[2 * i + 1]);
    } else {
        assert(encode_offsets(offsets)[2 * i] == be16(offsets.last())[0]);
        assert(encode_offsets(offsets)[2 * i + 1] == be16(offsets.last())[1]);
    }
}

/// The offset index takes two bytes per entry.
pub proof fn lemma_encode_offsets_len(offsets: Seq<u16>)
    ensures
        encode_offsets(offsets).len() == 2 * offsets.len(),
    decreases offsets.len(),
{
    if offsets.len() > 0 {
        lemma_encode_offsets_len(offsets.drop_last());
    }
}

/// `bytes` are the bytes of a block that holds `es`.
pub open spec fn is_block_encoding(bytes: Seq<u8>, es: Seq<Entry>) -> bool {
    block_encodable(es) && encode_block(es) == bytes
}

/// The entries of the block that `bytes` encode.
pub open spec fn decode_block(bytes: Seq<u8>) -> Seq<Entry> {
    choose|es: Seq<Entry>| is_block_encoding(bytes, es)
}

/// An encoded block is its buffer followed by two bytes for each entry,
/// which hold the entry's offset.
pub proof fn lemma_block_layout(es: Seq<Entry>)
    requires
        block_encodable(es),
    ensures
        encode_block(es).len() == encode_entries(es).len() + 2 * es.len(),
        encode_block(es).subrange(0, encode_entries(es).len() as int) == encode_entries(es),
        forall|i: int|
            0 <= i < es.len() ==> be16_at(encode_block(es), encode_entries(es).len() + 2 * i)
                == #[trigger] entry_offset(es, i),
        es.len() > 0 ==> encode_entries(es).len() >= 5,
{
    let b = encode_block(es);
    let d = encode_entries(es);
    let o = encode_offsets(block_offsets(es));
    lemma_encode_offsets_len(block_offsets(es));
    assert(b.subrange(0, d.len() as int) =~= d);
    assert forall|i: int| 0 <= i < es.len() implies be16_at(b, d.len() + 2 * i)
        == #[trigger] entry_offset(es, i) by {
        lemma_encode_offsets_layout(block_offsets(es), i);
        assert(b[d.len() + 2 * i] == o[2 * i]);
        assert(b[d.len() + 2 * i + 1] == o[2 * i + 1]);
    }
    if es.len() > 0 {
        lemma_block_bounds(es);
        lemma_entry_offset_grows(es, es.len() as int);
    }
}

/// The last two bytes of an encoded block lead to its last entry, and that
/// entry ends where the buffer ends.
pub proof fn lemma_block_tail(es: Seq<Entry>)
    requires
        block_encodable(es),
        es.len() > 0,
    ensures
        ({
            let b = encode_block(es);
            let last = be16_at(b, b.len() - 2);
            let key_len = be16_at(b, last);
            let value_len = be16_at(b, last + 2 + key_len);
            &&& b.len() >= 7
            &&& last == entry_offset(es, es.len() - 1)
            &&& key_len == es.last().key.len()
            &&& value_len == es.last().value.len()
            &&& last + 4 + key_len + value_len == encode_entries(es).len()
        }),
{
    let b = encode_block(es);
    let d = encode_entries(es);
    let n = es.len() as int;
    lemma_block_layout(es);
    lemma_block_bounds(es);
    lemma_entry_layout(es, n - 1);
    lemma_entry_span(es, n - 1);
    let last = entry_offset(es, n - 1);
    assert(be16_at(b, d.len() + 2 * (n - 1)) == last);
    let kl = es.last().key.len() as int;
    assert(b[last] == d[last]);
    assert(b[last + 1] == d[last + 1]);
    assert(b[last + 2 + kl] == d[last + 2 + kl]);
    assert(b[last + 3 + kl] == d[last + 3 + kl]);
}

/// Entries are what their bytes and their offsets say.
pub proof fn lemma_entries_determined(es1: Seq<Entry>, es2: Seq<Entry>)
    requires
        entries_wf(es1),
        entries_wf(es2),
        es1.len() == es2.len(),
        encode_entries(es1) == encode_entries(es2),
        forall|i: int| 0 <= i < es1.len() ==> entry_offset(es1, i) == entry_offset(es2, i),
    ensures
        es1 == es2,
{
    assert forall|i: int| 0 <= i < es1.len() implies es1[i] == es2[i] by {
        lemma_entry_layout(es1, i);
        lemma_entry_layout(es2, i);
        assert(es1[i].key.len() == es2[i].key.len());
        assert(es1[i].key == es2[i].key);
        assert(es1[i].value.len() == es2[i].value.len());
        assert(es1[i].value == es2[i].value);
    }
    assert(es1 =~= es2);
}

/// Two runs of entries with the same encoding as a block are the same.
pub proof fn lemma_encode_block_injective(es1: Seq<Entry>, es2: Seq<Entry>)
    requires
        block_encodable(es1),
        block_encodable(es2),
        encode_block(es1) == encode_block(es2),
    ensures
        es1 == es2,
{
    let b = encode_block(es1);
    lemma_block_layout(es1);
    lemma_block_layout(es2);
    if es1.len() == 0 || es2.len() == 0 {
        assert(es1.len() == 0 && es2.len() == 0);
        assert(es1 =~= es2);
    } else {
        lemma_block_tail(es1);
        lemma_block_tail(es2);
        assert(encode_entries(es1).len() == encode_entries(es2).len());
        assert(es1.len() == es2.len());
        lemma_entries_determined(es1, es2);
    }
}

/// Decoding the bytes of a block gives back the entries that were encoded.
pub proof fn lemma_decode_encode(es: Seq<Entry>)
    requires
        block_encodable(es),
    ensures
        decode_block(encode_block(es)) == es,
{
    assert(is_block_encoding(encode_block(es), es));
    lemma_encode_block_injective(decode_block(encode_block(es)), es);
}

/// An immutable block of entries, ready to be shared by any number of
/// cursors.
pub struct Block {
    data: Vec<u8>,
    offsets: Vec<u16>,
    entries: Ghost<Seq<Entry>>,
}

impl View for Block {
    type V = Seq<Entry>;

    /// The entries of the block, in the order in which they are stored.
    closed spec fn view(&self) -> Seq<Entry> {
        self.entries@
    }
}

impl Block {
    /// The buffer holds the bytes of the entries and the index holds their
    /// offsets.
    pub closed spec fn wf(&self) -> bool {
        &&& block_encodable(self@)
        &&& self.data@ == encode_entries(self@)
        &&& self.offsets@ == block_offsets(self@)
    }

    /// The entries of a well-formed block fit one block.
    pub proof fn lemma_wf_encodable(&self)
        requires
            self.wf(),
        ensures
            block_encodable(self@),
    {
    }

    /// The buffer that holds the entries, one after the other.
    pub fn data(&self) -> (d: &[u8])
        requires
            self.wf(),
        ensures
            d@ == encode_entries(self@),
    {
        self.data.as_slice()
    }

    /// The offset at which each entry starts in the buffer.
    pub fn offsets(&self) -> (o: &[u16])
        requires
            self.wf(),
        ensures
            o@ == block_offsets(self@),
    {
        self.offsets.as_slice()
    }

    /// The number of entries in the block.
    pub fn len(&self) -> (n: usize)
        requires
            self.wf(),
        ensures
            n == self@.len(),
    {
        self.offsets.len()
    }

    /// The block that `bytes` encode. The bytes must be those of a block:
    /// nothing else is told apart from them.
    pub fn decode(bytes: &[u8]) -> (b: Block)
        requires
            exists|es: Seq<Entry>| is_block_encoding(bytes@, es),
        ensures
            b.wf(),
            b@ == decode_block(bytes@),
            encode_block(b@) == bytes@,
    {
        let ghost es = decode_block(bytes@);
        proof {
            lemma_block_layout(es);
            lemma_block_bounds(es);
        }
        let len = bytes.len();
        if len == 0 {
            let b = Block { data: Vec::new(), offsets: Vec::new(), entries: Ghost(es) };
            assert(b.data@ =~= encode_entries(es));
            assert(b.offsets@ =~= block_offsets(es));
            return b;
        }
        proof {
            lemma_block_tail(es);
        }
        let last = get_u16(slice_subrange(bytes, len - 2, len)) as usize;
        let key_len = get_u16(slice_subrange(bytes, last, len)) as usize;
        let value_len = get_u16(slice_subrange(bytes, last + 2 + key_len, len)) as usize;
        let data_end = last + 4 + key_len + value_len;
        let n = (len - data_end) / 2;
        let mut offsets: Vec<u16> = Vec::new();
        let mut i: usize = 0;
        while i < n
            invariant
                i <= n,
                n == es.len(),
                len == bytes@.len(),
                len == data_end + 2 * n,
                data_end == encode_entries(es).len(),
                is_block_encoding(bytes@, es),
                offsets@ == block_offsets(es).take(i as int),
            decreases n - i,
        {
            proof {
                lemma_block_layout(es);
                assert(entry_offset(es, i as int) <= u16::MAX);
            }
            let offset = get_u16(slice_subrange(bytes, data_end + 2 * i, len));
            offsets.push(offset);
            i += 1;
            assert(offsets@ =~= block_offsets(es).take(i as int));
        }
        assert(block_offsets(es).take(n as int) =~= block_offsets(es));
        let data = slice_to_vec(slice_subrange(bytes, 0, data_end));
        Block { data, offsets, entries: Ghost(es) }
    }

    /// The bytes of the block: the entries, then the offset of each entry.
    pub fn encode(&self) -> (bytes: Bytes)
        requires
            self.wf(),
        ensures
            bytes_seq(bytes) == encode_block(self@),
    {
        proof {
            lemma_block_bounds(self@);
        }
        let mut buf = self.data.clone();
        assert(buf@ =~= self.data@);
        let n = self.offsets.len();
        let mut i: usize = 0;
        while i < n
            invariant
                n == self.offsets@.len(),
                n <= 13108,
                self.data@.len() <= 196609,
                i <= n,
                buf@ == self.data@ + encode_offsets(self.offsets@.take(i as int)),
            decreases n - i,
        {
            proof {
                lemma_encode_offsets_len(self.offsets@.take(i as int));
                assert(self.offsets@.take(i + 1).drop_last() =~= self.offsets@.take(i as int));
            }
            put_u16(&mut buf, self.offsets[i]);
            i += 1;
            assert(buf@ =~= self.data@ + encode_offsets(self.offsets@.take(i as int)));
        }
        assert(self.offsets@.take(n as int) =~= self.offsets@);
        bytes_from_vec(buf)
    }
}

/// Collects entries into a block of a bounded size.
pub struct BlockBuilder {
    offsets: Vec<u16>,
    data: Vec<u8>,
    block_size: usize,
    entries: Ghost<Seq<Entry>>,
}

impl View for BlockBuilder {
    type V = Seq<Entry>;

    /// The entries collected so far.
    closed spec fn view(&self) -> Seq<Entry> {
        self.entries@
    }
}

impl BlockBuilder {
    /// The buffer holds the bytes of the entries and the index holds their
    /// offsets.
    pub closed spec fn wf(&self) -> bool {
        &&& block_encodable(self@)
        &&& self.data@ == encode_entries(self@)
        &&& self.offsets@ == block_offsets(self@)
    }

    /// The size that the block is meant not to exceed.
    pub closed spec fn block_size(&self) -> usize {
        self.block_size
    }

    /// The entries of a well-formed builder fit one block.
    pub proof fn lemma_wf_encodable(&self)
        requires
            self.wf(),
        ensures
            block_encodable(self@),
    {
    }

    /// An empty builder for blocks of about `block_size` bytes.
    pub fn new(block_size: usize) -> (b: BlockBuilder)
        ensures
            b.wf(),
            b@ == Seq::<Entry>::empty(),
            b.block_size() == block_size,
    {
        let b = BlockBuilder {
            offsets: Vec::new(),
            data: Vec::new(),
            block_size,
            entries: Ghost(Seq::empty()),
        };
        assert(b.offsets@ =~= block_offsets(b@));
        b
    }

    /// Whether no entry has been added.
    pub fn is_empty(&self) -> (b: bool)
        requires
            self.wf(),
        ensures
            b == (self@.len() == 0),
    {
        self.offsets.is_empty()
    }

    /// The size of the block as it would be encoded now.
    pub fn estimated_size(&self) -> (n: usize)
        requires
            self.wf(),
        ensures
            n == encode_block(self@).len(),
    {
        proof {
            lemma_block_bounds(self@);
            lemma_encode_offsets_len(block_offsets(self@));
        }
        self.data.len() + 2 * self.offsets.len()
    }

    /// Adds an entry if the builder has room for it, and says whether it
    /// did.
    pub fn add(&mut self, key: &[u8], value: &[u8]) -> (accepted: bool)
        requires
            old(self).wf(),
            0 < key@.len() <= u16::MAX,
            value@.len() <= u16::MAX,
        ensures
            final(self).wf(),
            final(self).block_size() == old(self).block_size(),
            accepted == has_room(old(self)@, old(self).block_size(), key@.len(), value@.len()),
            accepted ==> final(self)@ == old(self)@.push(Entry { key: key@, value: value@ }),
            !accepted ==> *final(self) == *old(self),
    {
        proof {
            lemma_block_bounds(self@);
            lemma_encode_offsets_len(block_offsets(self@));
        }
        if !self.is_empty() {
            let size = self.estimated_size();
            if size + key.len() + value.len() + 6 > self.block_size || self.data.len()
                > 0xffff {
                return false;
            }
        }
        let ghost old_entries = self@;
        let ghost old_data = self.data@;
        let ghost e = Entry { key: key@, value: value@ };
        let offset = self.data.len() as u16;
        self.offsets.push(offset);
        put_u16(&mut self.data, key.len() as u16);
        put_slice(&mut self.data, key);
        put_u16(&mut self.data, value.len() as u16);
        put_slice(&mut self.data, value);
        self.entries = Ghost(old_entries.push(e));
        proof {
            let new_entries = old_entries.push(e);
            lemma_encode_entries_push(old_entries, e);
            assert(self.data@ =~= old_data + encode_entry(e));
            assert(new_entries.take(old_entries.len() as int) =~= old_entries);
            assert forall|i: int| 0 <= i < new_entries.len() implies #[trigger] entry_offset(
                new_entries,
                i,
            ) == (if i < old_entries.len() {
                entry_offset(old_entries, i)
            } else {
                old_data.len() as int
            }) by {
                if i < old_entries.len() {
                    assert(new_entries.take(i) =~= old_entries.take(i));
                }
            }
            assert(entry_wf(e));
            assert(self.offsets@ =~= block_offsets(new_entries));
        }
        true
    }

    /// The block of the entries collected.
    pub fn build(self) -> (b: Block)
        requires
            self.wf(),
        ensures
            b.wf(),
            b@ == self@,
    {
        Block { data: self.data, offsets: self.offsets, entries: self.entries }
    }
}

} // verus!
