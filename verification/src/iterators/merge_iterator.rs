//! The merge of any number of sources of one type, the source given first
//! winning where several hold a key.

use crate::block::Entry;
use crate::iterators::is_winner;
use crate::iterators::lemma_ascending_rest;
use crate::iterators::lemma_merge_all_ascending;
use crate::iterators::lemma_merge_all_empty;
use crate::iterators::lemma_merge_all_shadowed;
use crate::iterators::lemma_merge_all_step;
use crate::iterators::lemma_merge_all_unfold;
use crate::iterators::lemma_rank_le_total;
use crate::iterators::lemma_rank_le_transitive;
use crate::iterators::lemma_total_len_lt;
use crate::iterators::merge_all;
use crate::iterators::rank_le;
use crate::iterators::strictly_ascending;
use crate::iterators::total_len;
use crate::iterators::IterError;
use crate::iterators::StorageIterator;
use crate::key::compare_keys;
use crate::key::key_lt;
use crate::key::lemma_key_lt_asymmetric;
use crate::key::lemma_key_lt_transitive;
use crate::key::lemma_key_order;
use crate::key::KeyOrder;
use vstd::prelude::*;

verus! {

/// A source together with its place in the list that the merge was made
/// from; the place decides between sources that are on the same key.
struct HeapWrapper<I: StorageIterator>(pub usize, pub Box<I>);

/// The key that a source is on.
spec fn head_key<I: StorageIterator>(w: HeapWrapper<I>) -> Seq<u8> {
    w.1.remaining()[0].key
}

/// `x` comes no later in the merge than `y`.
spec fn precedes<I: StorageIterator>(x: HeapWrapper<I>, y: HeapWrapper<I>) -> bool {
    rank_le(head_key(x), x.0 as int, head_key(y), y.0 as int)
}

/// The sources in `iters` are on an entry, each is the source of `srcs`
/// that its index names, and `place` knows where each is.
spec fn tracked_all<I: StorageIterator>(
    iters: Seq<HeapWrapper<I>>,
    srcs: Seq<Seq<Entry>>,
    place: Seq<int>,
) -> bool {
    forall|i: int|
        0 <= i < iters.len() ==> {
            let w = #[trigger] iters[i];
            &&& w.0 < srcs.len()
            &&& w.1.inv()
            &&& w.1.remaining() == srcs[w.0 as int]
            &&& srcs[w.0 as int].len() > 0
            &&& place[w.0 as int] == i
        }
}

/// Every source that has entries is in `iters`, but for those in `out`,
/// which are held elsewhere.
spec fn covered<I: StorageIterator>(
    iters: Seq<HeapWrapper<I>>,
    out: Set<int>,
    srcs: Seq<Seq<Entry>>,
    place: Seq<int>,
) -> bool {
    &&& forall|t: int|
        0 <= t < srcs.len() && !out.contains(t) && (#[trigger] srcs[t]).len() > 0 ==> holds(
            iters,
            place,
            t,
        )
    &&& forall|t: int| #[trigger] out.contains(t) ==> 0 <= t < srcs.len() && place[t] < 0
}

/// The heap `iters` and the sources held elsewhere, `out`, are together the
/// sources of `srcs` that have entries, and each source ascends.
spec fn linked<I: StorageIterator>(
    iters: Seq<HeapWrapper<I>>,
    out: Set<int>,
    srcs: Seq<Seq<Entry>>,
    place: Seq<int>,
) -> bool {
    &&& place.len() == srcs.len()
    &&& forall|t: int| 0 <= t < srcs.len() ==> strictly_ascending(#[trigger] srcs[t])
    &&& tracked_all(iters, srcs, place)
    &&& covered(iters, out, srcs, place)
}

/// The indices below `n`.
spec fn below(n: int) -> Set<int> {
    Set::new(|t: int| 0 <= t < n)
}

/// Every source in `iters` never fails to advance.
spec fn all_infallible<I: StorageIterator>(iters: Seq<HeapWrapper<I>>) -> bool {
    forall|i: int| 0 <= i < iters.len() ==> (#[trigger] iters[i]).1.infallible()
}

/// The underlying iterators that the sources in `iters` still read.
spec fn sum_active<I: StorageIterator>(iters: Seq<HeapWrapper<I>>) -> nat
    decreases iters.len(),
{
    if iters.len() == 0 {
        0
    } else {
        sum_active(iters.drop_last()) + iters.last().1.active_iterators()
    }
}

/// What each of the iterators has yet to yield.
pub open spec fn sources_of<I: StorageIterator>(iters: Seq<Box<I>>) -> Seq<Seq<Entry>> {
    Seq::new(iters.len(), |i: int| iters[i].remaining())
}

impl<I: StorageIterator> HeapWrapper<I> {
    /// Whether this source comes no later in the merge than `other`.
    fn comes_before(&self, other: &Self) -> (b: bool)
        requires
            self.1.inv(),
            other.1.inv(),
            self.1.remaining().len() > 0,
            other.1.remaining().len() > 0,
        ensures
            b == precedes(*self, *other),
    {
        proof {
            lemma_key_order(head_key(*self), head_key(*other));
            if key_lt(head_key(*other), head_key(*self)) {
                lemma_key_lt_asymmetric(head_key(*other), head_key(*self));
            }
        }
        match compare_keys(self.1.key(), other.1.key()) {
            KeyOrder::Less => true,
            KeyOrder::Greater => false,
            KeyOrder::Equal => self.0 <= other.0,
        }
    }
}

/// `<[T]>::swap` of the standard library, on a vector: the elements at `i`
/// and `j` change places. It panics on an index out of bounds.
#[verifier::external_body]
fn swap_elements<T>(v: &mut Vec<T>, i: usize, j: usize)
    requires
        i < old(v)@.len(),
        j < old(v)@.len(),
    ensures
        final(v)@ == old(v)@.update(i as int, old(v)@[j as int]).update(j as int, old(v)@[i as int]),
{
    v.swap(i, j);
}

/// Every source in `iters` is well-formed and on an entry.
spec fn all_valid<I: StorageIterator>(iters: Seq<HeapWrapper<I>>) -> bool {
    forall|i: int|
        0 <= i < iters.len() ==> (#[trigger] iters[i]).1.inv() && iters[i].1.remaining().len() > 0
}

/// `place` knows where each source of `iters` is.
spec fn indexed<I: StorageIterator>(iters: Seq<HeapWrapper<I>>, place: Seq<int>) -> bool {
    forall|i: int|
        0 <= i < iters.len() ==> 0 <= (#[trigger] iters[i]).0 < place.len() && place[iters[i].0 as int]
            == i
}

/// The source with the index `t` is in `iters`, where `place` says.
spec fn holds<I: StorageIterator>(iters: Seq<HeapWrapper<I>>, place: Seq<int>, t: int) -> bool {
    0 <= t < place.len() && 0 <= place[t] < iters.len() && iters[place[t]].0 == t
}

/// `after` holds the sources of `before` in another order, and `place2`
/// knows where each is now.
spec fn rearranged<I: StorageIterator>(
    before: Seq<HeapWrapper<I>>,
    after: Seq<HeapWrapper<I>>,
    place: Seq<int>,
    place2: Seq<int>,
) -> bool {
    &&& after.len() == before.len()
    &&& place2.len() == place.len()
    &&& indexed(after, place2)
    &&& forall|i: int|
        0 <= i < after.len() ==> holds(before, place, (#[trigger] after[i]).0 as int) && after[i]
            == before[place[after[i].0 as int]]
    &&& forall|j: int|
        0 <= j < before.len() ==> holds(after, place2, (#[trigger] before[j]).0 as int)
            && after[place2[before[j].0 as int]] == before[j]
    &&& forall|t: int|
        0 <= t < place.len() && !holds(before, place, t) ==> #[trigger] place2[t] == place[t]
}

/// Every source comes no later than its two children: the sources form a
/// heap with the first of them at the root.
spec fn heap_ordered<I: StorageIterator>(s: Seq<HeapWrapper<I>>) -> bool {
    forall|i: int| 1 <= i < s.len() ==> precedes(s[(i - 1) / 2], #[trigger] s[i])
}

/// The sources form a heap but for the one at `h`, which may come later
/// than its children.
spec fn ordered_below<I: StorageIterator>(s: Seq<HeapWrapper<I>>, h: int) -> bool {
    &&& forall|i: int|
        1 <= i < s.len() && (i - 1) / 2 != h ==> precedes(s[(i - 1) / 2], #[trigger] s[i])
    &&& h >= 1 ==> forall|i: int|
        1 <= i < s.len() && (i - 1) / 2 == h ==> precedes(s[(h - 1) / 2], #[trigger] s[i])
}

/// The sources form a heap but for the one at `k`, which may come before
/// its parent.
spec fn ordered_above<I: StorageIterator>(s: Seq<HeapWrapper<I>>, k: int) -> bool {
    &&& forall|i: int| 1 <= i < s.len() && i != k ==> precedes(s[(i - 1) / 2], #[trigger] s[i])
    &&& k >= 1 ==> forall|i: int|
        1 <= i < s.len() && (i - 1) / 2 == k ==> precedes(s[(k - 1) / 2], #[trigger] s[i])
}

/// Of two sources, one comes no later than the other.
proof fn lemma_precedes_total<I: StorageIterator>(x: HeapWrapper<I>, y: HeapWrapper<I>)
    ensures
        precedes(x, y) || precedes(y, x),
{
    lemma_rank_le_total(head_key(x), x.0 as int, head_key(y), y.0 as int);
}

/// The order of the sources is transitive.
proof fn lemma_precedes_transitive<I: StorageIterator>(
    x: HeapWrapper<I>,
    y: HeapWrapper<I>,
    z: HeapWrapper<I>,
)
    requires
        precedes(x, y),
        precedes(y, z),
    ensures
        precedes(x, z),
{
    lemma_rank_le_transitive(
        head_key(x),
        x.0 as int,
        head_key(y),
        y.0 as int,
        head_key(z),
        z.0 as int,
    );
}

/// The root of a heap comes no later than any other source.
proof fn lemma_root_first<I: StorageIterator>(s: Seq<HeapWrapper<I>>, j: int)
    requires
        heap_ordered(s),
        0 <= j < s.len(),
    ensures
        precedes(s[0], s[j]),
    decreases j,
{
    if j > 0 {
        lemma_root_first(s, (j - 1) / 2);
        lemma_precedes_transitive(s[0], s[(j - 1) / 2], s[j]);
    }
}

/// Two sources change places: the new order holds the same sources.
#[verifier::rlimit(40)]
proof fn lemma_swap_rearranged<I: StorageIterator>(
    before: Seq<HeapWrapper<I>>,
    now: Seq<HeapWrapper<I>>,
    place: Seq<int>,
    place2: Seq<int>,
    a: int,
    b: int,
)
    requires
        indexed(before, place),
        rearranged(before, now, place, place2),
        0 <= a < now.len(),
        0 <= b < now.len(),
        a != b,
    ensures
        rearranged(
            before,
            now.update(a, now[b]).update(b, now[a]),
            place,
            place2.update(now[a].0 as int, b).update(now[b].0 as int, a),
        ),
{
    let after = now.update(a, now[b]).update(b, now[a]);
    let place3 = place2.update(now[a].0 as int, b).update(now[b].0 as int, a);
    assert(now[a].0 != now[b].0);
    assert forall|i: int| 0 <= i < after.len() implies 0 <= (#[trigger] after[i]).0 < place3.len()
        && place3[after[i].0 as int] == i by {
        if i != a && i != b {
            assert(after[i] == now[i]);
        }
    }
    assert forall|i: int| 0 <= i < after.len() implies holds(
        before,
        place,
        (#[trigger] after[i]).0 as int,
    ) && after[i] == before[place[after[i].0 as int]] by {
        if i == a {
            assert(after[i] == now[b]);
        } else if i == b {
            assert(after[i] == now[a]);
        } else {
            assert(after[i] == now[i]);
        }
    }
    assert forall|j: int| 0 <= j < before.len() implies holds(
        after,
        place3,
        (#[trigger] before[j]).0 as int,
    ) && after[place3[before[j].0 as int]] == before[j] by {
        let x = place2[before[j].0 as int];
        assert(now[x] == before[j]);
    }
    assert forall|t: int| 0 <= t < place.len() && !holds(before, place, t) implies #[trigger] place3[t]
        == place[t] by {
        assert(holds(before, place, now[a].0 as int));
        assert(holds(before, place, now[b].0 as int));
        assert(place2[t] == place[t]);
    }
}

/// A source that comes no later than the first of its children is where
/// it belongs.
proof fn lemma_sift_down_done<I: StorageIterator>(s: Seq<HeapWrapper<I>>, h: int, c: int)
    requires
        ordered_below(s, h),
        0 <= h,
        c == 2 * h + 1 || c == 2 * h + 2,
        c < s.len(),
        precedes(s[h], s[c]),
        forall|i: int| 1 <= i < s.len() && (i - 1) / 2 == h ==> precedes(s[c], #[trigger] s[i]),
    ensures
        heap_ordered(s),
{
    assert forall|i: int| 1 <= i < s.len() implies precedes(s[(i - 1) / 2], #[trigger] s[i]) by {
        if (i - 1) / 2 == h {
            lemma_precedes_transitive(s[h], s[c], s[i]);
        }
    }
}

/// After a source has changed places with the first of its children, the
/// sources form a heap but for that source in its new place.
proof fn lemma_sift_down_step<I: StorageIterator>(s: Seq<HeapWrapper<I>>, h: int, c: int)
    requires
        ordered_below(s, h),
        0 <= h,
        c == 2 * h + 1 || c == 2 * h + 2,
        c < s.len(),
        precedes(s[c], s[h]),
        forall|i: int| 1 <= i < s.len() && (i - 1) / 2 == h ==> precedes(s[c], #[trigger] s[i]),
    ensures
        ordered_below(s.update(h, s[c]).update(c, s[h]), c),
{
    let t = s.update(h, s[c]).update(c, s[h]);
    assert forall|i: int| 1 <= i < t.len() && (i - 1) / 2 != c implies precedes(
        t[(i - 1) / 2],
        #[trigger] t[i],
    ) by {
        if (i - 1) / 2 == h {
            assert(precedes(s[c], s[i]));
        } else if i == h {
            assert(precedes(s[(h - 1) / 2], s[c]));
        } else {
            assert(precedes(s[(i - 1) / 2], s[i]));
        }
    }
    assert forall|i: int| 1 <= i < t.len() && (i - 1) / 2 == c implies precedes(
        t[(c - 1) / 2],
        #[trigger] t[i],
    ) by {
        assert(precedes(s[(i - 1) / 2], s[i]));
    }
}

/// After a source has changed places with its parent, the sources form a
/// heap but for that source in its new place.
proof fn lemma_sift_up_step<I: StorageIterator>(s: Seq<HeapWrapper<I>>, p: int, k: int)
    requires
        ordered_above(s, k),
        1 <= k < s.len(),
        p == (k - 1) / 2,
        precedes(s[k], s[p]),
    ensures
        ordered_above(s.update(p, s[k]).update(k, s[p]), p),
{
    let t = s.update(p, s[k]).update(k, s[p]);
    assert forall|i: int| 1 <= i < t.len() && i != p implies precedes(
        t[(i - 1) / 2],
        #[trigger] t[i],
    ) by {
        if i == k {
        } else if (i - 1) / 2 == p {
            assert(precedes(s[p], s[i]));
            lemma_precedes_transitive(s[k], s[p], s[i]);
        } else if (i - 1) / 2 == k {
            assert(precedes(s[p], s[i]));
        } else {
            assert(precedes(s[(i - 1) / 2], s[i]));
        }
    }
    if p >= 1 {
        assert forall|i: int| 1 <= i < t.len() && (i - 1) / 2 == p implies precedes(
            t[(p - 1) / 2],
            #[trigger] t[i],
        ) by {
            assert(precedes(s[(p - 1) / 2], s[p]));
            if i != k {
                assert(precedes(s[p], s[i]));
                lemma_precedes_transitive(s[(p - 1) / 2], s[p], s[i]);
            }
        }
    }
}

/// Moves the root of what is a heap but for its root down to where it
/// belongs.
#[verifier::rlimit(40)]
fn sift_down<I: StorageIterator>(iters: &mut Vec<HeapWrapper<I>>, Ghost(place): Ghost<Seq<int>>) -> (out:
    Ghost<Seq<int>>)
    requires
        all_valid(old(iters)@),
        indexed(old(iters)@, place),
        ordered_below(old(iters)@, 0),
    ensures
        all_valid(final(iters)@),
        heap_ordered(final(iters)@),
        rearranged(old(iters)@, final(iters)@, place, out@),
{
    let n = iters.len();
    let ghost mut cur = place;
    let mut h: usize = 0;
    loop
        invariant
            n == iters@.len(),
            h < n || n == 0,
            all_valid(iters@),
            indexed(old(iters)@, place),
            rearranged(old(iters)@, iters@, place, cur),
            ordered_below(iters@, h as int),
        ensures
            n == iters@.len(),
            all_valid(iters@),
            rearranged(old(iters)@, iters@, place, cur),
            heap_ordered(iters@),
        decreases n - h,
    {
        if h >= n / 2 {
            break ;
        }
        let l = 2 * h + 1;
        let r = l + 1;
        let mut c = l;
        if r < n && !iters[l].comes_before(&iters[r]) {
            proof {
                lemma_precedes_total(iters@[l as int], iters@[r as int]);
            }
            c = r;
        }
        let ghost s = iters@;
        proof {
            assert forall|i: int| 1 <= i < s.len() && (i - 1) / 2 == h implies precedes(
                s[c as int],
                #[trigger] s[i],
            ) by {
                assert(i == l || i == r);
            }
        }
        if iters[h].comes_before(&iters[c]) {
            proof {
                lemma_sift_down_done(s, h as int, c as int);
            }
            break ;
        }
        proof {
            lemma_precedes_total(s[h as int], s[c as int]);
            lemma_swap_rearranged(old(iters)@, s, place, cur, h as int, c as int);
            cur = cur.update(s[h as int].0 as int, c as int).update(s[c as int].0 as int, h as int);
        }
        swap_elements(iters, h, c);
        proof {
            lemma_sift_down_step(s, h as int, c as int);
        }
        h = c;
    }
    Ghost(cur)
}

/// Moves the last source of what is a heap but for that source up to where
/// it belongs.
#[verifier::rlimit(40)]
fn sift_up<I: StorageIterator>(iters: &mut Vec<HeapWrapper<I>>, Ghost(place): Ghost<Seq<int>>) -> (out:
    Ghost<Seq<int>>)
    requires
        old(iters)@.len() > 0,
        all_valid(old(iters)@),
        indexed(old(iters)@, place),
        ordered_above(old(iters)@, old(iters)@.len() - 1),
    ensures
        all_valid(final(iters)@),
        heap_ordered(final(iters)@),
        rearranged(old(iters)@, final(iters)@, place, out@),
{
    let n = iters.len();
    let ghost mut cur = place;
    let mut k: usize = n - 1;
    loop
        invariant
            n == iters@.len(),
            k < n,
            all_valid(iters@),
            indexed(old(iters)@, place),
            rearranged(old(iters)@, iters@, place, cur),
            ordered_above(iters@, k as int),
        ensures
            n == iters@.len(),
            all_valid(iters@),
            rearranged(old(iters)@, iters@, place, cur),
            heap_ordered(iters@),
        decreases k,
    {
        if k == 0 {
            break ;
        }
        let p = (k - 1) / 2;
        let ghost s = iters@;
        if iters[p].comes_before(&iters[k]) {
            break ;
        }
        proof {
            lemma_precedes_total(s[p as int], s[k as int]);
            lemma_swap_rearranged(old(iters)@, s, place, cur, p as int, k as int);
            cur = cur.update(s[p as int].0 as int, k as int).update(s[k as int].0 as int, p as int);
        }
        swap_elements(iters, p, k);
        proof {
            lemma_sift_up_step(s, p as int, k as int);
        }
        k = p;
    }
    Ghost(cur)
}

/// Sources that are linked stay linked when they change their order.
proof fn lemma_linked_rearranged<I: StorageIterator>(
    before: Seq<HeapWrapper<I>>,
    after: Seq<HeapWrapper<I>>,
    out: Set<int>,
    srcs: Seq<Seq<Entry>>,
    place: Seq<int>,
    place2: Seq<int>,
)
    requires
        linked(before, out, srcs, place),
        rearranged(before, after, place, place2),
    ensures
        linked(after, out, srcs, place2),
        all_infallible(before) ==> all_infallible(after),
{
    assert(tracked_all(after, srcs, place2)) by {
        assert forall|i: int| 0 <= i < after.len() implies {
            let w = #[trigger] after[i];
            &&& w.0 < srcs.len()
            &&& w.1.inv()
            &&& w.1.remaining() == srcs[w.0 as int]
            &&& srcs[w.0 as int].len() > 0
            &&& place2[w.0 as int] == i
        } by {
            let j = place[after[i].0 as int];
            assert(after[i] == before[j]);
        }
    }
    assert(covered(after, out, srcs, place2)) by {
        assert forall|t: int|
            0 <= t < srcs.len() && !out.contains(t) && (#[trigger] srcs[t]).len()
                > 0 implies holds(after, place2, t) by {
            assert(holds(before, place, t));
            let j = place[t];
            assert(before[j].0 == t);
        }
        assert forall|t: int| #[trigger] out.contains(t) implies 0 <= t < srcs.len() && place2[t]
            < 0 by {
            assert(!holds(before, place, t));
        }
    }
    if all_infallible(before) {
        assert forall|i: int| 0 <= i < after.len() implies (#[trigger] after[i]).1.infallible() by {
            let j = place[after[i].0 as int];
            assert(after[i] == before[j]);
        }
    }
}

/// Sources stay linked when one that was held elsewhere joins them at the
/// end.
proof fn lemma_linked_push<I: StorageIterator>(
    s0: Seq<HeapWrapper<I>>,
    w: HeapWrapper<I>,
    out: Set<int>,
    srcs: Seq<Seq<Entry>>,
    place: Seq<int>,
)
    requires
        linked(s0, out, srcs, place),
        out.contains(w.0 as int),
        w.1.inv(),
        w.1.remaining() == srcs[w.0 as int],
        srcs[w.0 as int].len() > 0,
    ensures
        linked(s0.push(w), out.remove(w.0 as int), srcs, place.update(w.0 as int, s0.len() as int)),
        all_valid(s0.push(w)),
        indexed(s0.push(w), place.update(w.0 as int, s0.len() as int)),
        all_infallible(s0) && w.1.infallible() ==> all_infallible(s0.push(w)),
{
    let s1 = s0.push(w);
    let j = w.0 as int;
    let p1 = place.update(j, s0.len() as int);
    let out1 = out.remove(j);
    assert(0 <= j < srcs.len() && place[j] < 0);
    assert forall|i: int| 0 <= i < s1.len() implies {
        let x = #[trigger] s1[i];
        &&& x.0 < srcs.len()
        &&& x.1.inv()
        &&& x.1.remaining() == srcs[x.0 as int]
        &&& srcs[x.0 as int].len() > 0
        &&& p1[x.0 as int] == i
    } by {
        if i < s0.len() {
            assert(s1[i] == s0[i]);
        }
    }
    assert(tracked_all(s1, srcs, p1));
    assert forall|t: int|
        0 <= t < srcs.len() && !out1.contains(t) && (#[trigger] srcs[t]).len() > 0 implies holds(
        s1,
        p1,
        t,
    ) by {
        if t != j {
            assert(holds(s0, place, t));
            assert(s1[place[t]] == s0[place[t]]);
        } else {
            assert(s1[s0.len() as int] == w);
        }
    }
    assert forall|t: int| #[trigger] out1.contains(t) implies 0 <= t < srcs.len() && p1[t] < 0 by {
        assert(out.contains(t));
    }
    assert(covered(s1, out1, srcs, p1));
}

/// Sources stay linked when the last of them takes the place of the first,
/// which is held elsewhere from then on.
#[verifier::rlimit(40)]
proof fn lemma_linked_pop<I: StorageIterator>(
    s0: Seq<HeapWrapper<I>>,
    out: Set<int>,
    srcs: Seq<Seq<Entry>>,
    place: Seq<int>,
)
    requires
        s0.len() > 0,
        linked(s0, out, srcs, place),
        heap_ordered(s0),
    ensures
        ({
            let s1 = s0.update(0, s0.last()).drop_last();
            let p1 = place.update(s0.last().0 as int, 0).update(s0[0].0 as int, -1);
            &&& linked(s1, out.insert(s0[0].0 as int), srcs, p1)
            &&& all_valid(s1)
            &&& indexed(s1, p1)
            &&& ordered_below(s1, 0)
            &&& all_infallible(s0) ==> all_infallible(s1)
        }),
{
    let n = s0.len() as int;
    let w = s0[0];
    let last = s0.last();
    let s1 = s0.update(0, last).drop_last();
    let p1 = place.update(last.0 as int, 0).update(w.0 as int, -1);
    let out1 = out.insert(w.0 as int);
    assert(s0[n - 1] == last);
    assert forall|i: int| 0 <= i < s1.len() implies {
        let x = #[trigger] s1[i];
        &&& x.0 < srcs.len()
        &&& x.1.inv()
        &&& x.1.remaining() == srcs[x.0 as int]
        &&& srcs[x.0 as int].len() > 0
        &&& p1[x.0 as int] == i
        &&& (all_infallible(s0) ==> x.1.infallible())
    } by {
        if i == 0 {
            assert(s1[i] == s0[n - 1]);
        } else {
            assert(s1[i] == s0[i]);
        }
    }
    assert(tracked_all(s1, srcs, p1));
    assert forall|t: int|
        0 <= t < srcs.len() && !out1.contains(t) && (#[trigger] srcs[t]).len() > 0 implies holds(
        s1,
        p1,
        t,
    ) by {
        assert(holds(s0, place, t));
        let j = place[t];
        assert(s0[j].0 == t);
        if j == n - 1 {
            assert(s1[0] == last);
        } else {
            assert(s1[j] == s0[j]);
        }
    }
    assert forall|t: int| #[trigger] out1.contains(t) implies 0 <= t < srcs.len() && p1[t] < 0 by {
        if t != w.0 {
            assert(out.contains(t));
            assert(place[last.0 as int] == n - 1);
        }
    }
    assert(covered(s1, out1, srcs, p1));
    assert forall|i: int| 1 <= i < s1.len() && (i - 1) / 2 != 0 implies precedes(
        s1[(i - 1) / 2],
        #[trigger] s1[i],
    ) by {
        assert(s1[i] == s0[i]);
        assert(s1[(i - 1) / 2] == s0[(i - 1) / 2]);
        assert(precedes(s0[(i - 1) / 2], s0[i]));
    }
}

/// Adds a source to the heap.
fn heap_push<I: StorageIterator>(
    iters: &mut Vec<HeapWrapper<I>>,
    w: HeapWrapper<I>,
    Ghost(out): Ghost<Set<int>>,
    Ghost(srcs): Ghost<Seq<Seq<Entry>>>,
    Ghost(place): Ghost<Seq<int>>,
) -> (res: Ghost<Seq<int>>)
    requires
        linked(old(iters)@, out, srcs, place),
        heap_ordered(old(iters)@),
        out.contains(w.0 as int),
        w.0 < srcs.len(),
        w.1.inv(),
        w.1.remaining() == srcs[w.0 as int],
        srcs[w.0 as int].len() > 0,
    ensures
        linked(final(iters)@, out.remove(w.0 as int), srcs, res@),
        heap_ordered(final(iters)@),
        final(iters)@.len() == old(iters)@.len() + 1,
        all_infallible(old(iters)@) && w.1.infallible() ==> all_infallible(final(iters)@),
{
    let ghost s0 = iters@;
    let ghost s1 = s0.push(w);
    let ghost p1 = place.update(w.0 as int, s0.len() as int);
    proof {
        lemma_linked_push(s0, w, out, srcs, place);
        assert(ordered_above(s1, s1.len() - 1)) by {
            assert forall|i: int| 1 <= i < s1.len() && i != s1.len() - 1 implies precedes(
                s1[(i - 1) / 2],
                #[trigger] s1[i],
            ) by {
                assert(s1[i] == s0[i]);
                assert(s1[(i - 1) / 2] == s0[(i - 1) / 2]);
                assert(precedes(s0[(i - 1) / 2], s0[i]));
            }
        }
    }
    iters.push(w);
    let res = sift_up(iters, Ghost(p1));
    proof {
        lemma_linked_rearranged(s1, iters@, out.remove(w.0 as int), srcs, p1, res@);
    }
    res
}

/// Takes the first source from the heap.
fn heap_pop<I: StorageIterator>(
    iters: &mut Vec<HeapWrapper<I>>,
    Ghost(out): Ghost<Set<int>>,
    Ghost(srcs): Ghost<Seq<Seq<Entry>>>,
    Ghost(place): Ghost<Seq<int>>,
) -> (res: (HeapWrapper<I>, Ghost<Seq<int>>))
    requires
        old(iters)@.len() > 0,
        linked(old(iters)@, out, srcs, place),
        heap_ordered(old(iters)@),
    ensures
        res.0 == old(iters)@[0],
        linked(final(iters)@, out.insert(res.0.0 as int), srcs, res.1@),
        heap_ordered(final(iters)@),
        final(iters)@.len() == old(iters)@.len() - 1,
        all_infallible(old(iters)@) ==> all_infallible(final(iters)@),
{
    let ghost s0 = iters@;
    let ghost p1 = place.update(s0.last().0 as int, 0).update(s0[0].0 as int, -1);
    let ghost out1 = out.insert(s0[0].0 as int);
    proof {
        lemma_linked_pop(s0, out, srcs, place);
    }
    let w = iters.swap_remove(0);
    let ghost s1 = iters@;
    let res = sift_down(iters, Ghost(p1));
    proof {
        lemma_linked_rearranged(s1, iters@, out1, srcs, p1, res@);
    }
    (w, res)
}

/// The first source of a heap comes first among all the sources that have
/// entries and are not held elsewhere.
proof fn lemma_root_wins<I: StorageIterator>(
    iters: Seq<HeapWrapper<I>>,
    out: Set<int>,
    srcs: Seq<Seq<Entry>>,
    place: Seq<int>,
    x: int,
)
    requires
        linked(iters, out, srcs, place),
        heap_ordered(iters),
        iters.len() > 0,
        0 <= x < srcs.len(),
        !out.contains(x),
        srcs[x].len() > 0,
    ensures
        rank_le(srcs[iters[0].0 as int][0].key, iters[0].0 as int, srcs[x][0].key, x),
{
    assert(holds(iters, place, x));
    lemma_root_first(iters, place[x]);
}

/// Merge multiple iterators of the same type. If the same key occurs
/// multiple times in some iterators, prefer the one with smaller index.
pub struct MergeIterator<I: StorageIterator> {
    /// The valid sources other than the current one, as a heap: the one
    /// that comes first is at the root.
    iters: Vec<HeapWrapper<I>>,
    /// The source that supplies the current entry.
    current: Option<HeapWrapper<I>>,
    /// What each source has yet to yield, by its index; nothing for a source
    /// that the merge has let go.
    srcs: Ghost<Seq<Seq<Entry>>>,
    /// Where each source of the heap is.
    place: Ghost<Seq<int>>,
}

impl<I: StorageIterator> MergeIterator<I> {
    /// The indices of the sources that are held outside the heap: that of
    /// the current source, if there is one.
    spec fn held(&self) -> Set<int> {
        match self.current {
            Some(c) => set![c.0 as int],
            None => Set::empty(),
        }
    }

    /// What each source has yet to yield, by its index in the list that the
    /// merge was made from.
    pub closed spec fn sources(&self) -> Seq<Seq<Entry>> {
        self.srcs@
    }

    /// Merges `iters`; where several hold a key, the one that comes first in
    /// `iters` supplies the entry.
    #[verifier::rlimit(40)]
    pub fn create(iters: Vec<Box<I>>) -> (it: Self)
        requires
            forall|i: int|
                0 <= i < iters@.len() ==> (#[trigger] iters@[i]).inv() && strictly_ascending(
                    iters@[i].remaining(),
                ),
        ensures
            it.inv(),
            it.sources() == sources_of(iters@),
            it.remaining() == merge_all(sources_of(iters@)),
            strictly_ascending(it.remaining()),
            (forall|i: int| 0 <= i < iters@.len() ==> (#[trigger] iters@[i]).infallible())
                ==> it.infallible(),
    {
        let ghost orig = iters@;
        let ghost srcs = sources_of(orig);
        let ghost mut place: Seq<int> = Seq::new(orig.len(), |t: int| -2);
        let mut iters = iters;
        let mut heap: Vec<HeapWrapper<I>> = Vec::new();
        while iters.len() > 0
            invariant
                iters@ == orig.take(iters@.len() as int),
                iters@.len() <= orig.len(),
                srcs == sources_of(orig),
                forall|i: int|
                    0 <= i < orig.len() ==> (#[trigger] orig[i]).inv() && strictly_ascending(
                        orig[i].remaining(),
                    ),
                linked(heap@, below(iters@.len() as int), srcs, place),
                heap_ordered(heap@),
                (forall|i: int| 0 <= i < orig.len() ==> (#[trigger] orig[i]).infallible())
                    ==> all_infallible(heap@),
            decreases iters@.len(),
        {
            let index = iters.len() - 1;
            let ghost todo = below(index + 1);
            let iter = iters.pop().unwrap();
            assert(iter == orig[index as int]);
            if iter.is_valid() {
                let res = heap_push(
                    &mut heap,
                    HeapWrapper(index, iter),
                    Ghost(todo),
                    Ghost(srcs),
                    Ghost(place),
                );
                proof {
                    place = res@;
                }
            }
            assert(linked(heap@, below(index as int), srcs, place)) by {
                if srcs[index as int].len() > 0 {
                    assert(todo.remove(index as int) =~= below(index as int));
                } else {
                    assert(covered(heap@, todo, srcs, place));
                    assert forall|t: int| #[trigger] below(index as int).contains(t) implies 0 <= t
                        < srcs.len() && place[t] < 0 by {
                        assert(todo.contains(t));
                    }
                }
            }
        }
        let ghost none = Set::<int>::empty();
        assert(below(0) =~= none);
        let current = if heap.len() > 0 {
            let ghost heap0 = heap@;
            let ghost place0 = place;
            let (w, res) = heap_pop(&mut heap, Ghost(none), Ghost(srcs), Ghost(place));
            proof {
                place = res@;
                assert(none.insert(w.0 as int) =~= set![w.0 as int]);
                assert forall|j: int| 0 <= j < srcs.len() && (#[trigger] srcs[j]).len()
                    > 0 implies rank_le(srcs[w.0 as int][0].key, w.0 as int, srcs[j][0].key, j) by {
                    lemma_root_wins(heap0, none, srcs, place0, j);
                }
            }
            Some(w)
        } else {
            None
        };
        let it = MergeIterator { iters: heap, current, srcs: Ghost(srcs), place: Ghost(place) };
        assert(srcs =~= sources_of(orig));
        proof {
            lemma_merge_all_ascending(srcs);
        }
        it
    }
}

impl<I: StorageIterator> StorageIterator for MergeIterator<I> {
    closed spec fn inv(&self) -> bool {
        let srcs = self.srcs@;
        &&& linked(self.iters@, self.held(), srcs, self.place@)
        &&& heap_ordered(self.iters@)
        &&& match self.current {
            Some(c) => {
                &&& c.0 < srcs.len()
                &&& c.1.inv()
                &&& c.1.remaining() == srcs[c.0 as int]
                &&& srcs[c.0 as int].len() > 0 ==> is_winner(srcs, c.0 as int)
                &&& srcs[c.0 as int].len() == 0 ==> self.iters@.len() == 0
            },
            None => self.iters@.len() == 0,
        }
    }

    closed spec fn remaining(&self) -> Seq<Entry> {
        merge_all(self.srcs@)
    }

    closed spec fn infallible(&self) -> bool {
        &&& all_infallible(self.iters@)
        &&& self.current matches Some(c) ==> c.1.infallible()
    }

    closed spec fn active_iterators(&self) -> nat {
        sum_active(self.iters@) + match self.current {
            Some(c) => c.1.active_iterators(),
            None => 0,
        }
    }

    fn num_active_iterators(&self) -> (n: usize) {
        let mut n: usize = 0;
        let mut i: usize = 0;
        while i < self.iters.len()
            invariant
                i <= self.iters@.len(),
                self.inv(),
                n == if sum_active(self.iters@.take(i as int)) <= usize::MAX {
                    sum_active(self.iters@.take(i as int))
                } else {
                    usize::MAX as nat
                },
            decreases self.iters@.len() - i,
        {
            assert(self.iters@.take(i + 1).drop_last() =~= self.iters@.take(i as int));
            let m = self.iters[i].1.num_active_iterators();
            n = n.saturating_add(m);
            i += 1;
        }
        assert(self.iters@.take(i as int) =~= self.iters@);
        match &self.current {
            Some(c) => n.saturating_add(c.1.num_active_iterators()),
            None => n,
        }
    }

    fn key(&self) -> (k: &[u8]) {
        proof {
            self.lemma_valid();
        }
        match &self.current {
            Some(c) => c.1.key(),
            None => unreached(),
        }
    }

    fn value(&self) -> (v: &[u8]) {
        proof {
            self.lemma_valid();
        }
        match &self.current {
            Some(c) => c.1.value(),
            None => unreached(),
        }
    }

    fn is_valid(&self) -> (b: bool) {
        proof {
            self.lemma_valid();
        }
        match &self.current {
            Some(c) => c.1.is_valid(),
            None => false,
        }
    }

    /// Moves to the next key. An iterator that is not valid stays as it is.
    #[verifier::rlimit(40)]
    fn next(&mut self) -> (r: Result<(), IterError>)
        ensures
            old(self).remaining().len() == 0 ==> r is Ok && *final(self) == *old(self),
    {
        proof {
            self.lemma_valid();
        }
        let mut current = match self.current.take() {
            Some(c) => c,
            None => {
                return Ok(());
            },
        };
        if !current.1.is_valid() {
            self.current = Some(current);
            return Ok(());
        }
        let ghost before = self.srcs@;
        let ghost c = current.0 as int;
        let ghost held = set![c];
        // Step past the current key in every other source that is on it.
        loop
            invariant
                self.current is None,
                old(self).remaining().len() > 0,
                held == set![c],
                linked(self.iters@, held, self.srcs@, self.place@),
                heap_ordered(self.iters@),
                current.0 == c,
                current.1.inv(),
                current.1.remaining() == self.srcs@[c],
                is_winner(self.srcs@, c),
                merge_all(self.srcs@) == merge_all(before),
                old(self).infallible() ==> current.1.infallible() && all_infallible(self.iters@),
            ensures
                forall|j: int|
                    0 <= j < self.srcs@.len() && j != c && (#[trigger] self.srcs@[j]).len() > 0
                        ==> self.srcs@[j][0].key != self.srcs@[c][0].key,
            decreases total_len(self.srcs@),
        {
            if self.iters.len() == 0 {
                break ;
            }
            let ghost heap0 = self.iters@;
            let ghost place0 = self.place@;
            let ghost srcs0 = self.srcs@;
            let ghost top = heap0[0];
            let ghost j = top.0 as int;
            let ghost k = srcs0[c][0].key;
            proof {
                lemma_key_order(head_key(top), k);
            }
            match compare_keys(self.iters[0].1.key(), current.1.key()) {
                KeyOrder::Equal => {},
                _ => {
                    proof {
                        assert(srcs0[j].len() > 0);
                        assert(rank_le(k, c, head_key(top), j));
                        assert(key_lt(k, head_key(top)));
                        assert forall|x: int|
                            0 <= x < srcs0.len() && x != c && (#[trigger] srcs0[x]).len()
                                > 0 implies srcs0[x][0].key != k by {
                            lemma_root_wins(heap0, held, srcs0, place0, x);
                            if key_lt(head_key(top), srcs0[x][0].key) {
                                lemma_key_lt_transitive(k, head_key(top), srcs0[x][0].key);
                            }
                            lemma_key_lt_asymmetric(k, srcs0[x][0].key);
                        }
                    }
                    break ;
                },
            }
            let (mut w, res) = heap_pop(
                &mut self.iters,
                Ghost(held),
                Ghost(srcs0),
                Ghost(place0),
            );
            let ghost srcs1 = srcs0.update(j, srcs0[j].drop_first());
            proof {
                lemma_merge_all_shadowed(srcs0, c, j);
                lemma_ascending_rest(srcs0[j]);
                lemma_total_len_lt(srcs0, srcs1, j);
            }
            match w.1.next() {
                Err(e) => {
                    self.current = Some(current);
                    return Err(e);
                },
                Ok(()) => {},
            }
            self.srcs = Ghost(srcs1);
            self.place = res;
            proof {
                assert(linked(self.iters@, held.insert(j), srcs1, res@));
            }
            if w.1.is_valid() {
                let res = heap_push(
                    &mut self.iters,
                    w,
                    Ghost(held.insert(j)),
                    Ghost(srcs1),
                    Ghost(self.place@),
                );
                self.place = res;
                proof {
                    assert(held.insert(j).remove(j) =~= held);
                }
            } else {
                proof {
                    assert(linked(self.iters@, held, srcs1, self.place@));
                }
            }
        }
        proof {
            lemma_merge_all_step(self.srcs@, c);
            lemma_ascending_rest(self.srcs@[c]);
        }
        let ghost srcs1 = self.srcs@;
        match current.1.next() {
            Err(e) => {
                self.current = Some(current);
                return Err(e);
            },
            Ok(()) => {},
        }
        let ghost srcs2 = srcs1.update(c, srcs1[c].drop_first());
        let ghost none = Set::<int>::empty();
        self.srcs = Ghost(srcs2);
        proof {
            assert(linked(self.iters@, held, srcs2, self.place@));
        }
        if self.iters.len() > 0 {
            let ghost heap0 = self.iters@;
            let ghost place0 = self.place@;
            let ghost top = heap0[0];
            if !current.1.is_valid() {
                // The current source is spent: the next one takes over.
                let (w, res) = heap_pop(
                    &mut self.iters,
                    Ghost(held),
                    Ghost(srcs2),
                    Ghost(place0),
                );
                self.place = res;
                current = w;
                proof {
                    assert forall|x: int|
                        0 <= x < srcs2.len() && (#[trigger] srcs2[x]).len() > 0 implies rank_le(
                        srcs2[top.0 as int][0].key,
                        top.0 as int,
                        srcs2[x][0].key,
                        x,
                    ) by {
                        lemma_root_wins(heap0, held, srcs2, place0, x);
                    }
                    assert(is_winner(srcs2, top.0 as int));
                    assert(linked(self.iters@, set![top.0 as int], srcs2, self.place@));
                }
            } else if !current.comes_before(&self.iters[0]) {
                // Another source is on a smaller key: it becomes current.
                let ghost cur0 = current;
                let res = heap_push(
                    &mut self.iters,
                    current,
                    Ghost(held),
                    Ghost(srcs2),
                    Ghost(place0),
                );
                let ghost heap1 = self.iters@;
                let ghost place1 = res@;
                proof {
                    assert(held.remove(c) =~= none);
                }
                let (w, res) = heap_pop(&mut self.iters, Ghost(none), Ghost(srcs2), Ghost(place1));
                self.place = res;
                current = w;
                proof {
                    assert(none.insert(w.0 as int) =~= set![w.0 as int]);
                    assert forall|x: int|
                        0 <= x < srcs2.len() && (#[trigger] srcs2[x]).len() > 0 implies rank_le(
                        srcs2[w.0 as int][0].key,
                        w.0 as int,
                        srcs2[x][0].key,
                        x,
                    ) by {
                        lemma_root_wins(heap1, none, srcs2, place1, x);
                    }
                    assert(is_winner(srcs2, w.0 as int));
                }
            } else {
                proof {
                    assert forall|x: int|
                        0 <= x < srcs2.len() && (#[trigger] srcs2[x]).len() > 0 implies rank_le(
                        srcs2[c][0].key,
                        c,
                        srcs2[x][0].key,
                        x,
                    ) by {
                        if x != c {
                            lemma_root_wins(heap0, held, srcs2, place0, x);
                            lemma_rank_le_transitive(
                                srcs2[c][0].key,
                                c,
                                head_key(top),
                                top.0 as int,
                                srcs2[x][0].key,
                                x,
                            );
                        }
                    }
                    assert(is_winner(srcs2, c));
                }
            }
        } else {
            proof {
                assert forall|x: int|
                    0 <= x < srcs2.len() && (#[trigger] srcs2[x]).len() > 0 implies x == c by {
                    if x != c {
                        assert(holds(self.iters@, self.place@, x));
                    }
                }
            }
        }
        self.current = Some(current);
        Ok(())
    }
}

impl<I: StorageIterator> MergeIterator<I> {
    /// The merge has an entry exactly when the current source has one, and
    /// then its first entry is the current source's.
    proof fn lemma_valid(&self)
        requires
            self.inv(),
        ensures
            self.remaining().len() > 0 <==> (self.current matches Some(c) && c.1.remaining().len()
                > 0),
            self.current matches Some(c) ==> (c.1.remaining().len() > 0 ==> self.remaining()[0]
                == c.1.remaining()[0]),
    {
        match self.current {
            Some(c) => {
                if c.1.remaining().len() > 0 {
                    lemma_merge_all_unfold(self.srcs@, c.0 as int);
                } else {
                    assert forall|t: int| 0 <= t < self.srcs@.len() implies (#[trigger] self.srcs@[t]).len()
                        == 0 by {
                        if t != c.0 && self.srcs@[t].len() > 0 {
                            assert(holds(self.iters@, self.place@, t));
                        }
                    }
                    lemma_merge_all_empty(self.srcs@);
                }
            },
            None => {
                assert forall|t: int| 0 <= t < self.srcs@.len() implies (#[trigger] self.srcs@[t]).len()
                    == 0 by {
                    if self.srcs@[t].len() > 0 {
                        assert(holds(self.iters@, self.place@, t));
                    }
                }
                lemma_merge_all_empty(self.srcs@);
            },
        }
    }
}

} // verus!
