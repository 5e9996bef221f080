//! The contract of an ordered source of entries, and what it means to merge
//! such sources.

use crate::block::Entry;
use crate::key::key_lt;
use crate::key::lemma_key_lt_asymmetric;
use crate::key::lemma_key_lt_irreflexive;
use crate::key::lemma_key_lt_transitive;
use crate::key::lemma_key_total;
use vstd::prelude::*;

pub mod merge_iterator;
pub mod two_merge_iterator;

verus! {

/// `anyhow::Error`, the error that a source reports when it cannot advance.
/// The library carries such an error through and never looks inside.
#[verifier::external_type_specification]
#[verifier::external_body]
pub struct ExAnyhowError(anyhow::Error);

/// Why an iterator could not advance.
#[derive(Debug)]
pub enum IterError {
    /// A source failed to advance; the error is the source's own.
    Source(anyhow::Error),
    /// The iterator was used after an earlier advance had failed.
    Tainted,
}

/// The keys of `s` ascend strictly: no key repeats, none sorts before an
/// earlier one.
pub open spec fn strictly_ascending(s: Seq<Entry>) -> bool {
    forall|i: int, j: int| 0 <= i < j < s.len() ==> key_lt(#[trigger] s[i].key, #[trigger] s[j].key)
}

/// What is left of `s` after one step: `s` without its first entry, and `s`
/// itself when it is empty.
pub open spec fn rest(s: Seq<Entry>) -> Seq<Entry> {
    if s.len() > 0 {
        s.drop_first()
    } else {
        s
    }
}

/// Some entry of `s` has the key `k`.
pub open spec fn has_key(s: Seq<Entry>, k: Seq<u8>) -> bool {
    exists|i: int| 0 <= i < s.len() && #[trigger] s[i].key == k
}

/// The merge of two ascending sequences into one. Where both hold a key, the
/// entry of the left one is kept and that of the right one is dropped.
pub open spec fn merge2(a: Seq<Entry>, b: Seq<Entry>) -> Seq<Entry>
    decreases a.len() + b.len(),
{
    if a.len() == 0 {
        b
    } else if b.len() == 0 {
        a
    } else if key_lt(a[0].key, b[0].key) {
        seq![a[0]] + merge2(a.drop_first(), b)
    } else if key_lt(b[0].key, a[0].key) {
        seq![b[0]] + merge2(a, b.drop_first())
    } else {
        seq![a[0]] + merge2(a.drop_first(), b.drop_first())
    }
}

/// Whether the left of two sequences supplies the next entry of their merge:
/// it has an entry, and the right one has none or none with a smaller key.
pub open spec fn left_first(a: Seq<Entry>, b: Seq<Entry>) -> bool {
    a.len() > 0 && (b.len() == 0 || !key_lt(b[0].key, a[0].key))
}

/// An ordered source of entries: a cursor with a current key and value, a
/// validity flag, and a step to the next entry.
///
/// The four functions `inv`, `remaining`, `infallible` and
/// `active_iterators` say what an implementation claims of itself, and the
/// contracts of the others are stated over them. An implementation that
/// leaves them as they are here claims nothing: its `inv` never holds, so
/// nothing is proved of a merge that reads it.
pub trait StorageIterator {
    /// The state of the iterator is well-formed.
    open spec fn inv(&self) -> bool {
        false
    }

    /// The entries that the iterator has yet to yield, the current one
    /// first. The iterator is valid while there is one.
    open spec fn remaining(&self) -> Seq<Entry> {
        Seq::empty()
    }

    /// No advance of this iterator can fail.
    open spec fn infallible(&self) -> bool {
        false
    }

    /// The number of underlying iterators that this one still reads.
    open spec fn active_iterators(&self) -> nat {
        1
    }

    /// Get the current value.
    fn value(&self) -> (v: &[u8])
        requires
            self.inv(),
            self.remaining().len() > 0,
        ensures
            v@ == self.remaining()[0].value,
    ;

    /// Get the current key.
    fn key(&self) -> (k: &[u8])
        requires
            self.inv(),
            self.remaining().len() > 0,
        ensures
            k@ == self.remaining()[0].key,
    ;

    /// Check if the current iterator is valid.
    fn is_valid(&self) -> (b: bool)
        requires
            self.inv(),
        ensures
            b == (self.remaining().len() > 0),
    ;

    /// Move to the next position. Where the advance succeeds, the current
    /// entry is gone and the others are as they were.
    fn next(&mut self) -> (r: Result<(), IterError>)
        requires
            old(self).inv(),
        ensures
            r is Ok ==> final(self).inv(),
            r is Ok ==> final(self).remaining() == rest(old(self).remaining()),
            r is Ok && old(self).infallible() ==> final(self).infallible(),
            old(self).infallible() ==> r is Ok,
    ;

    /// Number of underlying active iterators for this iterator, as far as a
    /// `usize` can count them.
    fn num_active_iterators(&self) -> (n: usize)
        requires
            self.inv(),
        ensures
            n == if self.active_iterators() <= usize::MAX {
                self.active_iterators()
            } else {
                usize::MAX as nat
            },
    ;
}

/// What is left of an ascending sequence ascends, and starts after the
/// entry that went.
pub proof fn lemma_ascending_rest(s: Seq<Entry>)
    requires
        strictly_ascending(s),
    ensures
        strictly_ascending(rest(s)),
        s.len() >= 2 ==> key_lt(s[0].key, rest(s)[0].key),
{
    if s.len() > 0 {
        let t = s.drop_first();
        assert forall|i: int, j: int| 0 <= i < j < t.len() implies key_lt(
            #[trigger] t[i].key,
            #[trigger] t[j].key,
        ) by {
            assert(t[i] == s[i + 1]);
            assert(t[j] == s[j + 1]);
        }
        if s.len() >= 2 {
            assert(t[0] == s[1]);
        }
    }
}

/// The merge has an entry exactly when one of the two sequences has, and
/// its first entry is the first of the sequence that `left_first` names.
pub proof fn lemma_merge2_head(a: Seq<Entry>, b: Seq<Entry>)
    ensures
        merge2(a, b).len() > 0 <==> (a.len() > 0 || b.len() > 0),
        left_first(a, b) ==> merge2(a, b)[0] == a[0],
        !left_first(a, b) && b.len() > 0 ==> merge2(a, b)[0] == b[0],
{
}

/// A first entry on the right whose key the left also starts with does not
/// show in the merge.
pub proof fn lemma_merge2_shadowed(a: Seq<Entry>, b: Seq<Entry>)
    requires
        a.len() > 0,
        b.len() > 0,
        a[0].key == b[0].key,
        strictly_ascending(b),
    ensures
        merge2(a, b) == merge2(a, b.drop_first()),
{
    lemma_key_lt_irreflexive(a[0].key);
    lemma_ascending_rest(b);
    let bt = b.drop_first();
    if bt.len() > 0 {
        lemma_key_lt_asymmetric(a[0].key, bt[0].key);
    } else {
        assert(bt =~= Seq::<Entry>::empty());
        lemma_merge2_right_empty(a.drop_first());
        assert(seq![a[0]] + a.drop_first() =~= a);
    }
}

/// Merging with nothing on the right gives the left sequence.
pub proof fn lemma_merge2_right_empty(a: Seq<Entry>)
    ensures
        merge2(a, Seq::empty()) == a,
{
}

/// With the left sequence first, and no equal key at the head of the right
/// one, one step of the merge is one step of the left sequence.
pub proof fn lemma_merge2_step_left(a: Seq<Entry>, b: Seq<Entry>)
    requires
        left_first(a, b),
        b.len() > 0 ==> a[0].key != b[0].key,
    ensures
        rest(merge2(a, b)) == merge2(a.drop_first(), b),
{
    if b.len() == 0 {
        lemma_merge2_right_empty(a);
        lemma_merge2_right_empty(a.drop_first());
    } else {
        lemma_key_total(a[0].key, b[0].key);
        assert((seq![a[0]] + merge2(a.drop_first(), b)).drop_first() =~= merge2(
            a.drop_first(),
            b,
        ));
    }
}

/// With the right sequence first, one step of the merge is one step of the
/// right sequence.
pub proof fn lemma_merge2_step_right(a: Seq<Entry>, b: Seq<Entry>)
    requires
        b.len() > 0,
        !left_first(a, b),
    ensures
        rest(merge2(a, b)) == merge2(a, b.drop_first()),
{
    if a.len() > 0 {
        lemma_key_lt_asymmetric(b[0].key, a[0].key);
        assert((seq![b[0]] + merge2(a, b.drop_first())).drop_first() =~= merge2(
            a,
            b.drop_first(),
        ));
    }
}

/// Every key of a merge comes from one of the two sequences.
pub proof fn lemma_merge2_keys(a: Seq<Entry>, b: Seq<Entry>, k: Seq<u8>)
    ensures
        has_key(merge2(a, b), k) <==> (has_key(a, k) || has_key(b, k)),
    decreases a.len() + b.len(),
{
    let m = merge2(a, b);
    if a.len() == 0 || b.len() == 0 {
    } else {
        let (head, ta, tb) = if key_lt(a[0].key, b[0].key) {
            (a[0], a.drop_first(), b)
        } else if key_lt(b[0].key, a[0].key) {
            (b[0], a, b.drop_first())
        } else {
            (a[0], a.drop_first(), b.drop_first())
        };
        let t = merge2(ta, tb);
        assert(m == seq![head] + t);
        lemma_merge2_keys(ta, tb, k);
        lemma_key_total(a[0].key, b[0].key);
        if has_key(m, k) {
            let i = choose|i: int| 0 <= i < m.len() && #[trigger] m[i].key == k;
            if i == 0 {
                assert(a[0].key == k || b[0].key == k);
            } else {
                assert(t[i - 1].key == k);
                assert(has_key(t, k));
                lemma_has_key_drop_first(a, k);
                lemma_has_key_drop_first(b, k);
            }
        }
        if has_key(a, k) || has_key(b, k) {
            lemma_has_key_drop_first(a, k);
            lemma_has_key_drop_first(b, k);
            if head.key == k {
                assert(m[0].key == k);
            } else {
                assert(has_key(ta, k) || has_key(tb, k));
                let i = choose|i: int| 0 <= i < t.len() && #[trigger] t[i].key == k;
                assert(m[i + 1].key == k);
            }
        }
    }
}

/// A sequence has a key when its first entry has it or the rest has it.
pub proof fn lemma_has_key_drop_first(s: Seq<Entry>, k: Seq<u8>)
    requires
        s.len() > 0,
    ensures
        has_key(s, k) <==> (s[0].key == k || has_key(s.drop_first(), k)),
{
    let t = s.drop_first();
    if has_key(s, k) {
        let i = choose|i: int| 0 <= i < s.len() && #[trigger] s[i].key == k;
        if i > 0 {
            assert(t[i - 1].key == k);
        }
    }
    if has_key(t, k) {
        let i = choose|i: int| 0 <= i < t.len() && #[trigger] t[i].key == k;
        assert(s[i + 1].key == k);
    }
}

/// The merge of two ascending sequences ascends: it holds each key once.
pub proof fn lemma_merge2_ascending(a: Seq<Entry>, b: Seq<Entry>)
    requires
        strictly_ascending(a),
        strictly_ascending(b),
    ensures
        strictly_ascending(merge2(a, b)),
    decreases a.len() + b.len(),
{
    let m = merge2(a, b);
    if a.len() == 0 || b.len() == 0 {
    } else {
        let (head, ta, tb) = if key_lt(a[0].key, b[0].key) {
            (a[0], a.drop_first(), b)
        } else if key_lt(b[0].key, a[0].key) {
            (b[0], a, b.drop_first())
        } else {
            (a[0], a.drop_first(), b.drop_first())
        };
        let t = merge2(ta, tb);
        assert(m == seq![head] + t);
        lemma_ascending_rest(a);
        lemma_ascending_rest(b);
        lemma_merge2_ascending(ta, tb);
        lemma_key_total(a[0].key, b[0].key);
        assert forall|j: int| 0 <= j < t.len() implies key_lt(head.key, #[trigger] t[j].key) by {
            let k = t[j].key;
            lemma_merge2_keys(ta, tb, k);
            assert(has_key(t, k));
            if has_key(ta, k) {
                let i = choose|i: int| 0 <= i < ta.len() && #[trigger] ta[i].key == k;
                if key_lt(b[0].key, a[0].key) && !key_lt(a[0].key, b[0].key) {
                    if i > 0 {
                        lemma_key_lt_transitive(b[0].key, a[0].key, a[i].key);
                    }
                } else {
                    assert(ta[i] == a[i + 1]);
                }
            } else {
                let i = choose|i: int| 0 <= i < tb.len() && #[trigger] tb[i].key == k;
                if key_lt(a[0].key, b[0].key) {
                    if i > 0 {
                        lemma_key_lt_transitive(a[0].key, b[0].key, b[i].key);
                    }
                } else {
                    assert(tb[i] == b[i + 1]);
                }
            }
        }
        assert forall|i: int, j: int| 0 <= i < j < m.len() implies key_lt(
            #[trigger] m[i].key,
            #[trigger] m[j].key,
        ) by {
            assert(m[j] == t[j - 1]);
            if i > 0 {
                assert(m[i] == t[i - 1]);
            }
        }
    }
}

/// A source that starts with the key `ka` and has the index `a` comes no
/// later in a merge than one that starts with `kb` and has the index `b`:
/// the smaller key goes first, and of equal keys the lower index.
pub open spec fn rank_le(ka: Seq<u8>, a: int, kb: Seq<u8>, b: int) -> bool {
    key_lt(ka, kb) || (ka == kb && a <= b)
}

/// Of two sources, one comes no later than the other.
pub proof fn lemma_rank_le_total(ka: Seq<u8>, a: int, kb: Seq<u8>, b: int)
    ensures
        rank_le(ka, a, kb, b) || rank_le(kb, b, ka, a),
{
    lemma_key_total(ka, kb);
}

/// The order of sources in a merge is transitive.
pub proof fn lemma_rank_le_transitive(
    ka: Seq<u8>,
    a: int,
    kb: Seq<u8>,
    b: int,
    kc: Seq<u8>,
    c: int,
)
    requires
        rank_le(ka, a, kb, b),
        rank_le(kb, b, kc, c),
    ensures
        rank_le(ka, a, kc, c),
{
    if key_lt(ka, kb) && key_lt(kb, kc) {
        lemma_key_lt_transitive(ka, kb, kc);
    }
}

/// Source `c` supplies the next entry of the merge of `srcs`: it has an
/// entry, no source starts with a smaller key, and no source before it
/// starts with the same key.
pub open spec fn is_winner(srcs: Seq<Seq<Entry>>, c: int) -> bool {
    &&& 0 <= c < srcs.len()
    &&& srcs[c].len() > 0
    &&& forall|j: int|
        0 <= j < srcs.len() && (#[trigger] srcs[j]).len() > 0 ==> rank_le(
            srcs[c][0].key,
            c,
            srcs[j][0].key,
            j,
        )
}

/// The sources after each that starts with the key `k` has stepped past it.
pub open spec fn skip_key(srcs: Seq<Seq<Entry>>, k: Seq<u8>) -> Seq<Seq<Entry>> {
    Seq::new(
        srcs.len(),
        |i: int|
            if srcs[i].len() > 0 && srcs[i][0].key == k {
                srcs[i].drop_first()
            } else {
                srcs[i]
            },
    )
}

/// The number of entries in all the sources together.
pub open spec fn total_len(srcs: Seq<Seq<Entry>>) -> nat
    decreases srcs.len(),
{
    if srcs.len() == 0 {
        0
    } else {
        total_len(srcs.drop_last()) + srcs.last().len()
    }
}

/// The merge of any number of ascending sequences into one. The next entry
/// is that of the source with the smallest first key, the one with the
/// lowest index where several start with that key; the others that start
/// with that key step past it.
pub open spec fn merge_all(srcs: Seq<Seq<Entry>>) -> Seq<Entry>
    decreases total_len(srcs),
{
    if exists|c: int| is_winner(srcs, c) {
        let c = choose|c: int| is_winner(srcs, c);
        proof {
            lemma_skip_key_shrinks(srcs, c);
        }
        seq![srcs[c][0]] + merge_all(skip_key(srcs, srcs[c][0].key))
    } else {
        Seq::empty()
    }
}

/// Sources that are pointwise no longer hold no more entries in all.
pub proof fn lemma_total_len_le(s: Seq<Seq<Entry>>, t: Seq<Seq<Entry>>)
    requires
        s.len() == t.len(),
        forall|i: int| 0 <= i < s.len() ==> (#[trigger] t[i]).len() <= s[i].len(),
    ensures
        total_len(t) <= total_len(s),
    decreases s.len(),
{
    if s.len() > 0 {
        lemma_total_len_le(s.drop_last(), t.drop_last());
    }
}

/// Sources that are pointwise no longer, and shorter in one place, hold
/// fewer entries in all.
pub proof fn lemma_total_len_lt(s: Seq<Seq<Entry>>, t: Seq<Seq<Entry>>, c: int)
    requires
        s.len() == t.len(),
        forall|i: int| 0 <= i < s.len() ==> (#[trigger] t[i]).len() <= s[i].len(),
        0 <= c < s.len(),
        t[c].len() < s[c].len(),
    ensures
        total_len(t) < total_len(s),
    decreases s.len(),
{
    if c == s.len() - 1 {
        lemma_total_len_le(s.drop_last(), t.drop_last());
    } else {
        lemma_total_len_lt(s.drop_last(), t.drop_last(), c);
    }
}

/// Stepping past the first key of a source that has an entry leaves fewer
/// entries in all.
pub proof fn lemma_skip_key_shrinks(srcs: Seq<Seq<Entry>>, c: int)
    requires
        0 <= c < srcs.len(),
        srcs[c].len() > 0,
    ensures
        total_len(skip_key(srcs, srcs[c][0].key)) < total_len(srcs),
{
    lemma_total_len_lt(srcs, skip_key(srcs, srcs[c][0].key), c);
}

/// At most one source supplies the next entry.
pub proof fn lemma_winner_unique(srcs: Seq<Seq<Entry>>, c: int, d: int)
    requires
        is_winner(srcs, c),
        is_winner(srcs, d),
    ensures
        c == d,
{
    let kc = srcs[c][0].key;
    let kd = srcs[d][0].key;
    assert(srcs[d].len() > 0);
    assert(srcs[c].len() > 0);
    if key_lt(kc, kd) {
        lemma_key_lt_asymmetric(kc, kd);
    }
    if key_lt(kd, kc) {
        lemma_key_lt_asymmetric(kd, kc);
    }
}

/// The merge starts with the entry of the winner and goes on with the merge
/// of the sources that have stepped past its key.
pub proof fn lemma_merge_all_unfold(srcs: Seq<Seq<Entry>>, c: int)
    requires
        is_winner(srcs, c),
    ensures
        merge_all(srcs) == seq![srcs[c][0]] + merge_all(skip_key(srcs, srcs[c][0].key)),
        merge_all(srcs).len() > 0,
        merge_all(srcs)[0] == srcs[c][0],
{
    let d = choose|d: int| is_winner(srcs, d);
    lemma_winner_unique(srcs, c, d);
}

/// The merge of sources without entries is empty.
pub proof fn lemma_merge_all_empty(srcs: Seq<Seq<Entry>>)
    requires
        forall|i: int| 0 <= i < srcs.len() ==> (#[trigger] srcs[i]).len() == 0,
    ensures
        merge_all(srcs) == Seq::<Entry>::empty(),
{
}

/// A source other than the winner that starts with the winner's key can
/// step past it: the winner stays the winner and the merge stays the same.
pub proof fn lemma_merge_all_shadowed(srcs: Seq<Seq<Entry>>, c: int, j: int)
    requires
        is_winner(srcs, c),
        0 <= j < srcs.len(),
        j != c,
        srcs[j].len() > 0,
        srcs[j][0].key == srcs[c][0].key,
        strictly_ascending(srcs[j]),
    ensures
        is_winner(srcs.update(j, srcs[j].drop_first()), c),
        merge_all(srcs.update(j, srcs[j].drop_first())) == merge_all(srcs),
{
    let k = srcs[c][0].key;
    let after = srcs.update(j, srcs[j].drop_first());
    lemma_ascending_rest(srcs[j]);
    lemma_key_lt_irreflexive(k);
    assert forall|i: int| 0 <= i < after.len() && (#[trigger] after[i]).len() > 0 implies rank_le(
        after[c][0].key,
        c,
        after[i][0].key,
        i,
    ) by {
        if i != j {
            assert(srcs[i].len() > 0);
        }
    }
    assert(is_winner(after, c));
    assert(skip_key(after, k) =~= skip_key(srcs, k)) by {
        assert forall|i: int| 0 <= i < srcs.len() implies skip_key(after, k)[i] == skip_key(
            srcs,
            k,
        )[i] by {
            if i == j && after[j].len() > 0 {
                assert(after[j][0] == srcs[j][1]);
            }
        }
    }
    lemma_merge_all_unfold(srcs, c);
    lemma_merge_all_unfold(after, c);
}

/// Where no other source starts with the winner's key, one step of the
/// merge is one step of the winner.
pub proof fn lemma_merge_all_step(srcs: Seq<Seq<Entry>>, c: int)
    requires
        is_winner(srcs, c),
        forall|j: int|
            0 <= j < srcs.len() && j != c && (#[trigger] srcs[j]).len() > 0 ==> srcs[j][0].key
                != srcs[c][0].key,
    ensures
        rest(merge_all(srcs)) == merge_all(srcs.update(c, srcs[c].drop_first())),
{
    let k = srcs[c][0].key;
    lemma_merge_all_unfold(srcs, c);
    assert(skip_key(srcs, k) =~= srcs.update(c, srcs[c].drop_first()));
    assert((seq![srcs[c][0]] + merge_all(skip_key(srcs, k))).drop_first() =~= merge_all(
        skip_key(srcs, k),
    ));
}

/// Every entry of the merge is an entry of one of the sources.
pub proof fn lemma_merge_all_entry_source(srcs: Seq<Seq<Entry>>, j: int) -> (at: (int, int))
    requires
        0 <= j < merge_all(srcs).len(),
    ensures
        0 <= at.0 < srcs.len(),
        0 <= at.1 < srcs[at.0].len(),
        srcs[at.0][at.1] == merge_all(srcs)[j],
    decreases total_len(srcs),
{
    let c = choose|c: int| is_winner(srcs, c);
    if j == 0 {
        (c, 0)
    } else {
        let k = srcs[c][0].key;
        let after = skip_key(srcs, k);
        lemma_skip_key_shrinks(srcs, c);
        let (i, p) = lemma_merge_all_entry_source(after, j - 1);
        if srcs[i].len() > 0 && srcs[i][0].key == k {
            assert(after[i][p] == srcs[i][p + 1]);
            (i, p + 1)
        } else {
            (i, p)
        }
    }
}

/// The merge of ascending sources ascends: it holds each key once.
pub proof fn lemma_merge_all_ascending(srcs: Seq<Seq<Entry>>)
    requires
        forall|i: int| 0 <= i < srcs.len() ==> strictly_ascending(#[trigger] srcs[i]),
    ensures
        strictly_ascending(merge_all(srcs)),
    decreases total_len(srcs),
{
    if exists|c: int| is_winner(srcs, c) {
        let c = choose|c: int| is_winner(srcs, c);
        let k = srcs[c][0].key;
        let after = skip_key(srcs, k);
        let m = merge_all(srcs);
        let t = merge_all(after);
        lemma_skip_key_shrinks(srcs, c);
        assert forall|i: int| 0 <= i < after.len() implies strictly_ascending(
            #[trigger] after[i],
        ) by {
            assert(strictly_ascending(srcs[i]));
            lemma_ascending_rest(srcs[i]);
        }
        lemma_merge_all_ascending(after);
        assert forall|j: int| 0 <= j < t.len() implies key_lt(k, #[trigger] t[j].key) by {
            let (i, p) = lemma_merge_all_entry_source(after, j);
            assert(strictly_ascending(srcs[i]));
            assert(srcs[i].len() > 0);
            if srcs[i][0].key == k {
                assert(after[i][p] == srcs[i][p + 1]);
            } else {
                assert(key_lt(k, srcs[i][0].key));
                if p > 0 {
                    lemma_key_lt_transitive(k, srcs[i][0].key, srcs[i][p].key);
                }
            }
        }
        assert forall|i: int, j: int| 0 <= i < j < m.len() implies key_lt(
            #[trigger] m[i].key,
            #[trigger] m[j].key,
        ) by {
            assert(m[j] == t[j - 1]);
            if i > 0 {
                assert(m[i] == t[i - 1]);
            }
        }
    }
}

/// Every entry of the left sequence is in the merge.
pub proof fn lemma_merge2_keeps_left(a: Seq<Entry>, b: Seq<Entry>, i: int)
    requires
        0 <= i < a.len(),
    ensures
        merge2(a, b).contains(a[i]),
    decreases a.len() + b.len(),
{
    let m = merge2(a, b);
    if b.len() == 0 {
        assert(m[i] == a[i]);
    } else if key_lt(b[0].key, a[0].key) && !key_lt(a[0].key, b[0].key) {
        let t = merge2(a, b.drop_first());
        lemma_merge2_keeps_left(a, b.drop_first(), i);
        let j = choose|j: int| 0 <= j < t.len() && t[j] == a[i];
        assert(m[j + 1] == t[j]);
    } else if i == 0 {
        assert(m[0] == a[0]);
    } else {
        let tb = if key_lt(a[0].key, b[0].key) {
            b
        } else {
            b.drop_first()
        };
        let t = merge2(a.drop_first(), tb);
        lemma_merge2_keeps_left(a.drop_first(), tb, i - 1);
        let j = choose|j: int| 0 <= j < t.len() && t[j] == a.drop_first()[i - 1];
        assert(m[j + 1] == t[j]);
    }
}

/// Every entry of the right sequence is in the merge, unless the left
/// sequence holds its key.
pub proof fn lemma_merge2_keeps_right(a: Seq<Entry>, b: Seq<Entry>, i: int)
    requires
        0 <= i < b.len(),
        !has_key(a, b[i].key),
    ensures
        merge2(a, b).contains(b[i]),
    decreases a.len() + b.len(),
{
    let m = merge2(a, b);
    if a.len() == 0 {
        assert(m[i] == b[i]);
    } else {
        lemma_has_key_drop_first(a, b[i].key);
        if key_lt(a[0].key, b[0].key) {
            let t = merge2(a.drop_first(), b);
            lemma_merge2_keeps_right(a.drop_first(), b, i);
            let j = choose|j: int| 0 <= j < t.len() && t[j] == b[i];
            assert(m[j + 1] == t[j]);
        } else if i == 0 {
            lemma_key_total(a[0].key, b[0].key);
            assert(m[0] == b[0]);
        } else {
            let ta = if key_lt(b[0].key, a[0].key) {
                a
            } else {
                a.drop_first()
            };
            let t = merge2(ta, b.drop_first());
            lemma_merge2_keeps_right(ta, b.drop_first(), i - 1);
            let j = choose|j: int| 0 <= j < t.len() && t[j] == b.drop_first()[i - 1];
            assert(m[j + 1] == t[j]);
        }
    }
}

/// Among the first `n` sources, source `c` comes first.
spec fn is_winner_among(srcs: Seq<Seq<Entry>>, c: int, n: int) -> bool {
    &&& 0 <= c < n
    &&& srcs[c].len() > 0
    &&& forall|j: int|
        0 <= j < n && (#[trigger] srcs[j]).len() > 0 ==> rank_le(
            srcs[c][0].key,
            c,
            srcs[j][0].key,
            j,
        )
}

/// Among the first `n` sources, one comes first, unless none has an entry.
proof fn lemma_winner_among(srcs: Seq<Seq<Entry>>, n: int) -> (c: int)
    requires
        0 <= n <= srcs.len(),
        exists|i: int| 0 <= i < n && (#[trigger] srcs[i]).len() > 0,
    ensures
        is_winner_among(srcs, c, n),
    decreases n,
{
    let last = n - 1;
    if exists|i: int| 0 <= i < last && (#[trigger] srcs[i]).len() > 0 {
        let c = lemma_winner_among(srcs, last);
        if srcs[last].len() == 0 {
            c
        } else {
            let kc = srcs[c][0].key;
            let kl = srcs[last][0].key;
            lemma_rank_le_total(kc, c, kl, last);
            if rank_le(kc, c, kl, last) {
                c
            } else {
                assert forall|j: int| 0 <= j < n && (#[trigger] srcs[j]).len() > 0 implies rank_le(
                    kl,
                    last,
                    srcs[j][0].key,
                    j,
                ) by {
                    if j < last {
                        lemma_rank_le_transitive(kl, last, kc, c, srcs[j][0].key, j);
                    }
                }
                last
            }
        }
    } else {
        let i = choose|i: int| 0 <= i < n && (#[trigger] srcs[i]).len() > 0;
        assert(i == last);
        last
    }
}

/// The merge has an entry as soon as one of the sources has.
pub proof fn lemma_merge_all_nonempty(srcs: Seq<Seq<Entry>>)
    requires
        exists|i: int| 0 <= i < srcs.len() && (#[trigger] srcs[i]).len() > 0,
    ensures
        exists|c: int| is_winner(srcs, c),
        merge_all(srcs).len() > 0,
{
    let c = lemma_winner_among(srcs, srcs.len() as int);
    assert(is_winner(srcs, c));
    lemma_merge_all_unfold(srcs, c);
}

/// An entry of a source is in the merge, unless a source with a lower index
/// holds its key: of the entries with one key, the merge keeps that of the
/// source that comes first.
pub proof fn lemma_merge_all_keeps_first(srcs: Seq<Seq<Entry>>, i: int, p: int)
    requires
        forall|t: int| 0 <= t < srcs.len() ==> strictly_ascending(#[trigger] srcs[t]),
        0 <= i < srcs.len(),
        0 <= p < srcs[i].len(),
        forall|t: int| 0 <= t < i ==> !has_key(#[trigger] srcs[t], srcs[i][p].key),
    ensures
        merge_all(srcs).contains(srcs[i][p]),
    decreases total_len(srcs),
{
    let e = srcs[i][p];
    assert(srcs[i].len() > 0);
    lemma_merge_all_nonempty(srcs);
    let c = choose|c: int| is_winner(srcs, c);
    let k = srcs[c][0].key;
    let m = merge_all(srcs);
    lemma_merge_all_unfold(srcs, c);
    assert(strictly_ascending(srcs[i]));
    assert(rank_le(k, c, srcs[i][0].key, i));
    if e.key == k {
        if p > 0 {
            assert(key_lt(srcs[i][0].key, e.key));
            if key_lt(k, srcs[i][0].key) {
                lemma_key_lt_asymmetric(k, srcs[i][0].key);
            } else {
                lemma_key_lt_irreflexive(k);
            }
        }
        assert(p == 0);
        lemma_key_lt_irreflexive(k);
        if c < i {
            assert(srcs[c][0].key == e.key);
            assert(has_key(srcs[c], e.key));
        }
        assert(c == i);
        assert(m[0] == e);
    } else {
        let after = skip_key(srcs, k);
        let t = merge_all(after);
        lemma_skip_key_shrinks(srcs, c);
        assert forall|x: int| 0 <= x < after.len() implies strictly_ascending(
            #[trigger] after[x],
        ) by {
            assert(strictly_ascending(srcs[x]));
            lemma_ascending_rest(srcs[x]);
        }
        let q = if srcs[i][0].key == k {
            p - 1
        } else {
            p
        };
        assert(after[i][q] == e);
        assert forall|x: int| 0 <= x < i implies !has_key(#[trigger] after[x], after[i][q].key) by {
            assert(!has_key(srcs[x], e.key));
            if has_key(after[x], e.key) {
                let y = choose|y: int| 0 <= y < after[x].len() && #[trigger] after[x][y].key == e.key;
                if srcs[x].len() > 0 && srcs[x][0].key == k {
                    assert(srcs[x][y + 1].key == e.key);
                } else {
                    assert(srcs[x][y].key == e.key);
                }
            }
        }
        lemma_merge_all_keeps_first(after, i, q);
        let j = choose|j: int| 0 <= j < t.len() && t[j] == e;
        assert(m[j + 1] == t[j]);
    }
}

} // verus!
