//! The merge of two sources of possibly different types, the left one
//! winning where both hold a key.

use crate::block::Entry;
use crate::iterators::left_first;
use crate::iterators::lemma_ascending_rest;
use crate::iterators::lemma_merge2_ascending;
use crate::iterators::lemma_merge2_head;
use crate::iterators::lemma_merge2_shadowed;
use crate::iterators::lemma_merge2_step_left;
use crate::iterators::lemma_merge2_step_right;
use crate::iterators::merge2;
use crate::iterators::strictly_ascending;
use crate::iterators::IterError;
use crate::iterators::StorageIterator;
use crate::key::compare_keys;
use crate::key::lemma_key_order;
use crate::key::KeyOrder;
use vstd::prelude::*;

verus! {

/// Merges two iterators of different types into one. If the two iterators
/// have the same key, only produce the key once and prefer the entry from A.
pub struct TwoMergeIterator<A: StorageIterator, B: StorageIterator> {
    a: A,
    b: B,
    /// Whether `a` supplies the current entry.
    flag: bool,
    is_valid: bool,
}

impl<A: StorageIterator, B: StorageIterator> TwoMergeIterator<A, B> {
    /// Merges `a` and `b`, `a` winning where both hold a key.
    pub fn create(a: A, b: B) -> (r: Result<Self, IterError>)
        requires
            a.inv(),
            b.inv(),
            strictly_ascending(a.remaining()),
            strictly_ascending(b.remaining()),
        ensures
            r matches Ok(it) && it.inv() && it.remaining() == merge2(a.remaining(), b.remaining())
                && it.infallible() == (a.infallible() && b.infallible()),
            strictly_ascending(merge2(a.remaining(), b.remaining())),
    {
        proof {
            lemma_merge2_ascending(a.remaining(), b.remaining());
        }
        let flag = if !a.is_valid() {
            !b.is_valid()
        } else if !b.is_valid() {
            true
        } else {
            proof {
                lemma_key_order(a.remaining()[0].key, b.remaining()[0].key);
            }
            match compare_keys(a.key(), b.key()) {
                KeyOrder::Greater => false,
                _ => true,
            }
        };
        let is_valid = a.is_valid() || b.is_valid();
        Ok(TwoMergeIterator { a, b, flag, is_valid })
    }
}

impl<A: StorageIterator, B: StorageIterator> StorageIterator for TwoMergeIterator<A, B> {
    closed spec fn inv(&self) -> bool {
        let ra = self.a.remaining();
        let rb = self.b.remaining();
        &&& self.a.inv()
        &&& self.b.inv()
        &&& strictly_ascending(ra)
        &&& strictly_ascending(rb)
        &&& self.is_valid == (ra.len() > 0 || rb.len() > 0)
        &&& self.is_valid ==> self.flag == left_first(ra, rb)
    }

    closed spec fn remaining(&self) -> Seq<Entry> {
        merge2(self.a.remaining(), self.b.remaining())
    }

    closed spec fn infallible(&self) -> bool {
        self.a.infallible() && self.b.infallible()
    }

    /// A two-way merge counts as one iterator, whatever its two sources
    /// read.
    open spec fn active_iterators(&self) -> nat {
        1
    }

    fn key(&self) -> (k: &[u8]) {
        proof {
            lemma_merge2_head(self.a.remaining(), self.b.remaining());
        }
        if self.flag {
            self.a.key()
        } else {
            self.b.key()
        }
    }

    fn value(&self) -> (v: &[u8]) {
        proof {
            lemma_merge2_head(self.a.remaining(), self.b.remaining());
        }
        if self.flag {
            self.a.value()
        } else {
            self.b.value()
        }
    }

    fn is_valid(&self) -> (b: bool) {
        proof {
            lemma_merge2_head(self.a.remaining(), self.b.remaining());
        }
        self.is_valid
    }

    /// Moves to the next key. An iterator that is not valid stays as it is.
    fn next(&mut self) -> (r: Result<(), IterError>)
        ensures
            old(self).remaining().len() == 0 ==> r is Ok && *final(self) == *old(self),
    {
        proof {
            lemma_merge2_head(self.a.remaining(), self.b.remaining());
        }
        if !self.is_valid {
            return Ok(());
        }
        let ghost before = merge2(self.a.remaining(), self.b.remaining());
        if self.flag {
            // Drop from the right what the left shadows.
            loop
                invariant
                    self.a == old(self).a,
                    self.flag,
                    self.is_valid,
                    self.a.inv(),
                    self.b.inv(),
                    strictly_ascending(self.a.remaining()),
                    strictly_ascending(self.b.remaining()),
                    left_first(self.a.remaining(), self.b.remaining()),
                    merge2(self.a.remaining(), self.b.remaining()) == before,
                    old(self).infallible() ==> self.a.infallible() && self.b.infallible(),
                ensures
                    self.b.remaining().len() > 0 ==> self.a.remaining()[0].key
                        != self.b.remaining()[0].key,
                decreases self.b.remaining().len(),
            {
                if !self.b.is_valid() {
                    break ;
                }
                proof {
                    lemma_key_order(self.b.remaining()[0].key, self.a.remaining()[0].key);
                }
                match compare_keys(self.b.key(), self.a.key()) {
                    KeyOrder::Equal => {},
                    _ => {
                        break ;
                    },
                }
                proof {
                    lemma_merge2_shadowed(self.a.remaining(), self.b.remaining());
                    lemma_ascending_rest(self.b.remaining());
                }
                match self.b.next() {
                    Err(e) => {
                        return Err(e);
                    },
                    Ok(()) => {},
                }
            }
            proof {
                lemma_merge2_step_left(self.a.remaining(), self.b.remaining());
                lemma_ascending_rest(self.a.remaining());
            }
            match self.a.next() {
                Err(e) => {
                    return Err(e);
                },
                Ok(()) => {},
            }
            if !self.a.is_valid() {
                if !self.b.is_valid() {
                    self.is_valid = false;
                } else {
                    self.flag = false;
                }
            } else if self.b.is_valid() {
                proof {
                    lemma_key_order(self.a.remaining()[0].key, self.b.remaining()[0].key);
                }
                match compare_keys(self.a.key(), self.b.key()) {
                    KeyOrder::Greater => {
                        self.flag = false;
                    },
                    _ => {},
                }
            }
            Ok(())
        } else {
            // The left never starts with the key that the right is on.
            loop
                invariant
                    self.b == old(self).b,
                    !self.flag,
                    self.is_valid,
                    self.a.inv(),
                    self.b.inv(),
                    strictly_ascending(self.a.remaining()),
                    strictly_ascending(self.b.remaining()),
                    self.b.remaining().len() > 0,
                    !left_first(self.a.remaining(), self.b.remaining()),
                    merge2(self.a.remaining(), self.b.remaining()) == before,
                    old(self).infallible() ==> self.a.infallible() && self.b.infallible(),
                decreases self.a.remaining().len(),
            {
                if !self.a.is_valid() {
                    break ;
                }
                proof {
                    lemma_key_order(self.a.remaining()[0].key, self.b.remaining()[0].key);
                }
                match compare_keys(self.a.key(), self.b.key()) {
                    KeyOrder::Equal => {},
                    _ => {
                        break ;
                    },
                }
                match self.a.next() {
                    Err(e) => {
                        return Err(e);
                    },
                    Ok(()) => {},
                }
            }
            proof {
                lemma_merge2_step_right(self.a.remaining(), self.b.remaining());
                lemma_ascending_rest(self.b.remaining());
            }
            match self.b.next() {
                Err(e) => {
                    return Err(e);
                },
                Ok(()) => {},
            }
            if !self.b.is_valid() {
                if !self.a.is_valid() {
                    self.is_valid = false;
                } else {
                    self.flag = true;
                }
            } else if self.a.is_valid() {
                proof {
                    lemma_key_order(self.a.remaining()[0].key, self.b.remaining()[0].key);
                }
                match compare_keys(self.a.key(), self.b.key()) {
                    KeyOrder::Greater => {},
                    _ => {
                        self.flag = true;
                    },
                }
            }
            Ok(())
        }
    }

    fn num_active_iterators(&self) -> (n: usize) {
        1
    }
}

} // verus!
