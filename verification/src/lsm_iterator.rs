//! The iterators that a scan hands to its caller: the one that hides deleted
//! keys and stops at an upper bound, and the wrapper that taints an iterator
//! once an advance has failed.

use crate::block::Entry;
use crate::iterators::merge_iterator::MergeIterator;
use crate::iterators::rest;
use crate::iterators::two_merge_iterator::TwoMergeIterator;
use crate::iterators::IterError;
use crate::iterators::StorageIterator;
use crate::key::compare_keys;
use crate::key::key_lt;
use crate::key::lemma_key_order;
use crate::key::KeyOrder;
use crate::wire::bytes_as_slice;
use crate::wire::bytes_seq;
use bytes::Bytes;
use vstd::prelude::*;

verus! {

/// Where a scan stops.
pub enum UpperBound {
    /// The scan goes on to the last key.
    Unbounded,
    /// The scan yields keys up to and including this one.
    Included(Bytes),
    /// The scan yields keys before this one.
    Excluded(Bytes),
}

/// The key lies within the bound.
pub open spec fn within(key: Seq<u8>, upper: UpperBound) -> bool {
    match upper {
        UpperBound::Unbounded => true,
        UpperBound::Included(bound) => !key_lt(bytes_seq(bound), key),
        UpperBound::Excluded(bound) => key_lt(key, bytes_seq(bound)),
    }
}

/// The entries of `s` that are not deletion markers.
pub open spec fn live(s: Seq<Entry>) -> Seq<Entry>
    decreases s.len(),
{
    if s.len() == 0 {
        Seq::empty()
    } else if s[0].value.len() == 0 {
        live(s.drop_first())
    } else {
        seq![s[0]] + live(s.drop_first())
    }
}

/// The entries of `s` up to the first whose key lies beyond the bound.
pub open spec fn bounded_prefix(s: Seq<Entry>, upper: UpperBound) -> Seq<Entry>
    decreases s.len(),
{
    if s.len() == 0 || !within(s[0].key, upper) {
        Seq::empty()
    } else {
        seq![s[0]] + bounded_prefix(s.drop_first(), upper)
    }
}

/// What a scan with the bound `upper` yields of the entries `s`: those that
/// are not deletion markers, up to the first whose key lies beyond the
/// bound.
pub open spec fn visible(s: Seq<Entry>, upper: UpperBound) -> Seq<Entry> {
    bounded_prefix(live(s), upper)
}

/// A scan that is on an entry that it yields goes on, after that entry,
/// with what is visible of the rest.
pub proof fn lemma_visible_step(s: Seq<Entry>, upper: UpperBound)
    requires
        s.len() > 0,
        s[0].value.len() > 0,
        within(s[0].key, upper),
    ensures
        visible(s, upper).len() > 0,
        visible(s, upper)[0] == s[0],
        rest(visible(s, upper)) == visible(s.drop_first(), upper),
{
    let l = live(s);
    assert(l.drop_first() =~= live(s.drop_first()));
    assert(visible(s, upper).drop_first() =~= bounded_prefix(l.drop_first(), upper));
}

/// Every entry of `live(s)` is an entry of `s` that is no deletion marker.
pub proof fn lemma_live_entries(s: Seq<Entry>, j: int)
    requires
        0 <= j < live(s).len(),
    ensures
        live(s)[j].value.len() > 0,
        s.contains(live(s)[j]),
    decreases s.len(),
{
    let t = s.drop_first();
    if s[0].value.len() == 0 {
        lemma_live_entries(t, j);
        let i = choose|i: int| 0 <= i < t.len() && t[i] == live(t)[j];
        assert(s[i + 1] == t[i]);
    } else if j == 0 {
        assert(s[0] == live(s)[0]);
    } else {
        lemma_live_entries(t, j - 1);
        let i = choose|i: int| 0 <= i < t.len() && t[i] == live(t)[j - 1];
        assert(s[i + 1] == t[i]);
    }
}

/// Every entry of `bounded_prefix(s, upper)` is the entry of `s` at the
/// same place, and its key lies within the bound.
pub proof fn lemma_bounded_prefix_entries(s: Seq<Entry>, upper: UpperBound, j: int)
    requires
        0 <= j < bounded_prefix(s, upper).len(),
    ensures
        j < s.len(),
        bounded_prefix(s, upper)[j] == s[j],
        within(s[j].key, upper),
    decreases s.len(),
{
    if j > 0 {
        lemma_bounded_prefix_entries(s.drop_first(), upper, j - 1);
    }
}

/// What a scan yields are entries of what it scans, none of them a deletion
/// marker, and none with a key beyond the bound.
pub proof fn lemma_visible_entries(s: Seq<Entry>, upper: UpperBound, j: int)
    requires
        0 <= j < visible(s, upper).len(),
    ensures
        s.contains(visible(s, upper)[j]),
        visible(s, upper)[j].value.len() > 0,
        within(visible(s, upper)[j].key, upper),
{
    lemma_bounded_prefix_entries(live(s), upper, j);
    lemma_live_entries(s, j);
}

/// The inner iterator of a scan: the merge of the memtables over the merge
/// of the tables.
pub type LsmIteratorInner<M, S> = TwoMergeIterator<MergeIterator<M>, MergeIterator<S>>;

/// The iterator that a scan hands out: the entries of the memtables and of
/// the tables in key order, without deleted keys, up to an upper bound.
pub struct LsmIterator<M: StorageIterator, S: StorageIterator> {
    inner: LsmIteratorInner<M, S>,
    upper: UpperBound,
    is_valid: bool,
}

/// Whether `key` lies within the bound.
fn key_within(key: &[u8], upper: &UpperBound) -> (b: bool)
    ensures
        b == within(key@, *upper),
{
    match upper {
        UpperBound::Unbounded => true,
        UpperBound::Included(bound) => {
            let bound = bytes_as_slice(bound);
            proof {
                lemma_key_order(key@, bound@);
            }
            match compare_keys(key, bound) {
                KeyOrder::Greater => false,
                _ => true,
            }
        },
        UpperBound::Excluded(bound) => {
            match compare_keys(key, bytes_as_slice(bound)) {
                KeyOrder::Less => true,
                _ => false,
            }
        },
    }
}

impl<M: StorageIterator, S: StorageIterator> LsmIterator<M, S> {
    /// The bound at which the scan stops.
    pub closed spec fn upper(&self) -> UpperBound {
        self.upper
    }

    /// A scan of `iter` up to `upper`. The scan starts on the first entry
    /// that it yields, so the advances that skip deletion markers are made
    /// here, and one of them may fail.
    pub fn new(iter: LsmIteratorInner<M, S>, upper: UpperBound) -> (r: Result<Self, IterError>)
        requires
            iter.inv(),
        ensures
            r matches Ok(it) ==> it.inv() && it.upper() == upper && it.remaining() == visible(
                iter.remaining(),
                upper,
            ) && (iter.infallible() ==> it.infallible()),
            iter.infallible() ==> r is Ok,
    {
        let mut it = Self { is_valid: iter.is_valid(), inner: iter, upper };
        match it.settle() {
            Err(e) => Err(e),
            Ok(()) => Ok(it),
        }
    }

    /// Moves the inner iterator past deletion markers and tests the key it
    /// comes to against the bound.
    fn settle(&mut self) -> (r: Result<(), IterError>)
        requires
            old(self).inner.inv(),
        ensures
            r is Ok ==> final(self).inv(),
            final(self).upper == old(self).upper,
            r is Ok ==> final(self).remaining() == visible(
                old(self).inner.remaining(),
                old(self).upper,
            ),
            r is Ok && old(self).inner.infallible() ==> final(self).inner.infallible(),
            old(self).inner.infallible() ==> r is Ok,
    {
        loop
            invariant
                self.inner.inv(),
                self.upper == old(self).upper,
                visible(self.inner.remaining(), self.upper) == visible(
                    old(self).inner.remaining(),
                    old(self).upper,
                ),
                old(self).inner.infallible() ==> self.inner.infallible(),
            ensures
                self.inner.remaining().len() > 0 ==> self.inner.remaining()[0].value.len() > 0,
            decreases self.inner.remaining().len(),
        {
            if !self.inner.is_valid() {
                break ;
            }
            if !self.inner.value().is_empty() {
                break ;
            }
            match self.inner.next() {
                Err(e) => {
                    return Err(e);
                },
                Ok(()) => {},
            }
        }
        if !self.inner.is_valid() {
            self.is_valid = false;
            return Ok(());
        }
        self.is_valid = key_within(self.inner.key(), &self.upper);
        proof {
            if self.is_valid {
                lemma_visible_step(self.inner.remaining(), self.upper);
            }
        }
        Ok(())
    }
}

impl<M: StorageIterator, S: StorageIterator> StorageIterator for LsmIterator<M, S> {
    closed spec fn inv(&self) -> bool {
        let s = self.inner.remaining();
        &&& self.inner.inv()
        &&& self.is_valid ==> s.len() > 0 && s[0].value.len() > 0 && within(s[0].key, self.upper)
    }

    /// A scan that has come to its end has nothing left to yield, whatever
    /// the inner iterator still holds.
    closed spec fn remaining(&self) -> Seq<Entry> {
        if self.is_valid {
            visible(self.inner.remaining(), self.upper)
        } else {
            Seq::empty()
        }
    }

    closed spec fn infallible(&self) -> bool {
        self.inner.infallible()
    }

    /// A scan reads one iterator, the two-way merge inside it.
    closed spec fn active_iterators(&self) -> nat {
        self.inner.active_iterators()
    }

    /// The count of the two-way merge inside, which counts as one iterator
    /// whatever it merges.
    fn num_active_iterators(&self) -> (n: usize) {
        self.inner.num_active_iterators()
    }

    fn is_valid(&self) -> (b: bool) {
        proof {
            if self.is_valid {
                lemma_visible_step(self.inner.remaining(), self.upper);
            }
        }
        self.is_valid
    }

    fn key(&self) -> (k: &[u8]) {
        proof {
            lemma_visible_step(self.inner.remaining(), self.upper);
        }
        self.inner.key()
    }

    fn value(&self) -> (v: &[u8]) {
        proof {
            lemma_visible_step(self.inner.remaining(), self.upper);
        }
        self.inner.value()
    }

    /// Moves to the next entry that is not a deletion marker, and ends the
    /// scan if its key lies beyond the bound. A scan that has ended stays
    /// ended.
    fn next(&mut self) -> (r: Result<(), IterError>)
        ensures
            old(self).remaining().len() == 0 ==> r is Ok && *final(self) == *old(self),
            final(self).upper() == old(self).upper(),
    {
        proof {
            if self.is_valid {
                lemma_visible_step(self.inner.remaining(), self.upper);
            }
        }
        if !self.is_valid {
            return Ok(());
        }
        match self.inner.next() {
            Err(e) => {
                return Err(e);
            },
            Ok(()) => {},
        }
        if !self.inner.is_valid() {
            self.is_valid = false;
            return Ok(());
        }
        self.settle()
    }
}

/// A wrapper around existing iterator, will prevent users from calling
/// `next` when the iterator is invalid. If an iterator is already invalid,
/// `next` does not do anything. If `next` returns an error, `is_valid`
/// should return false, and `next` should always return an error.
pub struct FusedIterator<I: StorageIterator> {
    iter: I,
    has_errored: bool,
}

impl<I: StorageIterator> FusedIterator<I> {
    /// An advance of the wrapped iterator has failed.
    pub closed spec fn tainted(&self) -> bool {
        self.has_errored
    }

    /// Wraps `iter`; the wrapper is not tainted.
    pub fn new(iter: I) -> (it: Self)
        requires
            iter.inv(),
        ensures
            it.inv(),
            !it.tainted(),
            it.remaining() == iter.remaining(),
            it.infallible() == iter.infallible(),
            it.active_iterators() == iter.active_iterators(),
    {
        Self { iter, has_errored: false }
    }
}

impl<I: StorageIterator> StorageIterator for FusedIterator<I> {
    closed spec fn inv(&self) -> bool {
        self.has_errored || self.iter.inv()
    }

    /// A tainted iterator has nothing left to yield.
    closed spec fn remaining(&self) -> Seq<Entry> {
        if self.has_errored {
            Seq::empty()
        } else {
            self.iter.remaining()
        }
    }

    closed spec fn infallible(&self) -> bool {
        !self.has_errored && self.iter.infallible()
    }

    /// A tainted iterator reads no underlying iterator.
    closed spec fn active_iterators(&self) -> nat {
        if self.has_errored {
            0
        } else {
            self.iter.active_iterators()
        }
    }

    fn num_active_iterators(&self) -> (n: usize) {
        if self.has_errored {
            return 0;
        }
        self.iter.num_active_iterators()
    }

    /// Whether there is a current entry; never once the iterator is tainted.
    fn is_valid(&self) -> (b: bool)
        ensures
            self.tainted() ==> !b,
    {
        if self.has_errored {
            return false;
        }
        self.iter.is_valid()
    }

    fn key(&self) -> (k: &[u8]) {
        self.iter.key()
    }

    fn value(&self) -> (v: &[u8]) {
        self.iter.value()
    }

    /// Advances the wrapped iterator if it is valid. A tainted iterator
    /// fails without touching the wrapped one; a failed advance taints.
    fn next(&mut self) -> (r: Result<(), IterError>)
        ensures
            old(self).tainted() ==> r == Err::<(), IterError>(IterError::Tainted) && *final(self)
                == *old(self),
            r is Err ==> final(self).tainted(),
            r is Ok ==> !final(self).tainted(),
            !old(self).tainted() && old(self).remaining().len() == 0 ==> r is Ok && *final(self)
                == *old(self),
    {
        if self.has_errored {
            return Err(IterError::Tainted);
        }
        if self.iter.is_valid() {
            let res = self.iter.next();
            if res.is_err() {
                self.has_errored = true;
                return res;
            }
        }
        Ok(())
    }
}

} // verus!
