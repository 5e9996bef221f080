//! The total order on keys.
//!
//! A key is a byte string; keys compare lexicographically, byte by byte, and a
//! proper prefix sorts before every key that extends it.

use vstd::prelude::*;

verus! {

/// The outcome of comparing two keys.
#[derive(Clone, Copy, Debug, PartialEq, Eq, Structural)]
pub enum KeyOrder {
    Less,
    Equal,
    Greater,
}

/// `a` and `b` agree on their first `n` bytes.
pub open spec fn common_prefix(a: Seq<u8>, b: Seq<u8>, n: int) -> bool {
    &&& 0 <= n <= a.len()
    &&& n <= b.len()
    &&& forall|i: int| 0 <= i < n ==> a[i] == b[i]
}

/// `a` sorts strictly before `b`: after some common prefix either `a` ends
/// and `b` goes on, or `a` has the smaller byte.
pub open spec fn key_lt(a: Seq<u8>, b: Seq<u8>) -> bool {
    exists|n: int| #[trigger]
        common_prefix(a, b, n) && ((n == a.len() && n < b.len()) || (n < a.len() && n < b.len()
            && a[n] < b[n]))
}

/// `a` sorts before `b` or equals it.
pub open spec fn key_le(a: Seq<u8>, b: Seq<u8>) -> bool {
    a == b || key_lt(a, b)
}

/// The three-way comparison of `a` with `b`.
pub open spec fn key_order(a: Seq<u8>, b: Seq<u8>) -> KeyOrder {
    if key_lt(a, b) {
        KeyOrder::Less
    } else if a == b {
        KeyOrder::Equal
    } else {
        KeyOrder::Greater
    }
}

/// No key sorts before itself.
pub proof fn lemma_key_lt_irreflexive(a: Seq<u8>)
    ensures
        !key_lt(a, a),
{
}

/// If `a` sorts before `b`, then `b` does not sort before `a`.
pub proof fn lemma_key_lt_asymmetric(a: Seq<u8>, b: Seq<u8>)
    requires
        key_lt(a, b),
    ensures
        !key_lt(b, a),
        a != b,
{
    let n = choose|n: int| #[trigger]
        common_prefix(a, b, n) && ((n == a.len() && n < b.len()) || (n < a.len() && n < b.len()
            && a[n] < b[n]));
    if key_lt(b, a) {
        let m = choose|m: int| #[trigger]
            common_prefix(b, a, m) && ((m == b.len() && m < a.len()) || (m < b.len() && m < a.len()
                && b[m] < a[m]));
        if m < n {
            assert(a[m] == b[m]);
        } else if n < m {
            assert(b[n] == a[n]);
        }
    }
}

/// The order is transitive.
pub proof fn lemma_key_lt_transitive(a: Seq<u8>, b: Seq<u8>, c: Seq<u8>)
    requires
        key_lt(a, b),
        key_lt(b, c),
    ensures
        key_lt(a, c),
{
    let n = choose|n: int| #[trigger]
        common_prefix(a, b, n) && ((n == a.len() && n < b.len()) || (n < a.len() && n < b.len()
            && a[n] < b[n]));
    let m = choose|m: int| #[trigger]
        common_prefix(b, c, m) && ((m == b.len() && m < c.len()) || (m < b.len() && m < c.len()
            && b[m] < c[m]));
    let k = if n <= m { n } else { m };
    assert forall|i: int| 0 <= i < k implies a[i] == c[i] by {
        assert(a[i] == b[i]);
        assert(b[i] == c[i]);
    }
    if m < n {
        assert(a[m] == b[m]);
    } else if n < m {
        assert(b[n] == c[n]);
    }
    assert(common_prefix(a, c, k));
}

/// Two keys that agree on their first `n` bytes are equal or sorted one way.
proof fn lemma_key_total_from(a: Seq<u8>, b: Seq<u8>, n: int)
    requires
        common_prefix(a, b, n),
    ensures
        a == b || key_lt(a, b) || key_lt(b, a),
    decreases a.len() - n,
{
    if n == a.len() || n == b.len() {
        if a.len() == b.len() {
            assert(a =~= b);
        } else if n == a.len() {
            assert(common_prefix(a, b, n));
        } else {
            assert(common_prefix(b, a, n));
        }
    } else if a[n] < b[n] {
        assert(common_prefix(a, b, n));
    } else if b[n] < a[n] {
        assert(common_prefix(b, a, n));
    } else {
        assert(common_prefix(a, b, n + 1));
        lemma_key_total_from(a, b, n + 1);
    }
}

/// The order is total: two distinct keys are sorted one way or the other.
pub proof fn lemma_key_total(a: Seq<u8>, b: Seq<u8>)
    ensures
        a == b || key_lt(a, b) || key_lt(b, a),
{
    assert(common_prefix(a, b, 0));
    lemma_key_total_from(a, b, 0);
}

/// Exactly one of `a < b`, `a == b`, `b < a` holds, and `key_order` names it.
pub proof fn lemma_key_order(a: Seq<u8>, b: Seq<u8>)
    ensures
        key_order(a, b) == KeyOrder::Less <==> key_lt(a, b),
        key_order(a, b) == KeyOrder::Equal <==> a == b,
        key_order(a, b) == KeyOrder::Greater <==> key_lt(b, a),
{
    lemma_key_total(a, b);
    lemma_key_lt_irreflexive(a);
    if key_lt(a, b) {
        lemma_key_lt_asymmetric(a, b);
    }
    if key_lt(b, a) {
        lemma_key_lt_asymmetric(b, a);
    }
}

/// Compares two keys byte by byte.
pub fn compare_keys(a: &[u8], b: &[u8]) -> (r: KeyOrder)
    ensures
        r == key_order(a@, b@),
{
    let mut i: usize = 0;
    while i < a.len() && i < b.len()
        invariant
            common_prefix(a@, b@, i as int),
        decreases a.len() - i,
    {
        if a[i] < b[i] {
            proof {
                assert(common_prefix(a@, b@, i as int));
            }
            return KeyOrder::Less;
        }
        if a[i] > b[i] {
            proof {
                assert(common_prefix(b@, a@, i as int));
                lemma_key_order(a@, b@);
            }
            return KeyOrder::Greater;
        }
        i += 1;
    }
    proof {
        lemma_key_order(a@, b@);
        if a.len() == b.len() {
            assert(a@ =~= b@);
        } else if i == a.len() {
            assert(common_prefix(a@, b@, i as int));
        } else {
            assert(common_prefix(b@, a@, i as int));
        }
    }
    if a.len() < b.len() {
        KeyOrder::Less
    } else if a.len() == b.len() {
        KeyOrder::Equal
    } else {
        KeyOrder::Greater
    }
}

} // verus!
