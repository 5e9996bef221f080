//! The block cursor: a scan position over the entries of one block.

use crate::block::entry_offset;
use crate::block::lemma_block_bounds;
use crate::block::lemma_entry_layout;
use crate::block::Block;
use crate::block::Entry;
use crate::iterators::rest;
use crate::iterators::strictly_ascending;
use crate::iterators::IterError;
use crate::iterators::StorageIterator;
use crate::key::compare_keys;
use crate::key::key_lt;
use crate::key::lemma_key_lt_transitive;
use crate::key::KeyOrder;
use crate::wire::get_u16;
use std::sync::Arc;
use vstd::prelude::*;
use vstd::slice::slice_subrange;

verus! {

/// `pos` is where a seek for `target` lands in `es`: every entry before it
/// has a key that sorts before `target`, and the entry at `pos`, if there is
/// one, has not.
pub open spec fn is_seek_position(es: Seq<Entry>, target: Seq<u8>, pos: int) -> bool {
    &&& 0 <= pos <= es.len()
    &&& forall|j: int| 0 <= j < pos ==> key_lt(#[trigger] es[j].key, target)
    &&& pos < es.len() ==> !key_lt(es[pos].key, target)
}

/// In a block whose keys ascend, a seek lands on the first entry whose key
/// is not less than the target: every entry from there on has such a key.
pub proof fn lemma_seek_lower_bound(es: Seq<Entry>, target: Seq<u8>, pos: int, j: int)
    requires
        strictly_ascending(es),
        is_seek_position(es, target, pos),
        pos <= j < es.len(),
    ensures
        !key_lt(es[j].key, target),
{
    if pos < j && key_lt(es[j].key, target) {
        lemma_key_lt_transitive(es[pos].key, es[j].key, target);
    }
}

/// Iterates on a block.
pub struct BlockIterator {
    /// The block, shared with every other cursor over it.
    block: Arc<Block>,
    /// The current key; empty when the cursor is not on an entry.
    key: Vec<u8>,
    /// Where the current value lies in the block's buffer.
    value_range: (usize, usize),
    /// The index of the current entry; the number of entries when the cursor
    /// is past the end.
    idx: usize,
    /// The first key of the block.
    first_key: Vec<u8>,
}

impl BlockIterator {
    /// The entries of the block that the cursor scans.
    pub closed spec fn entries(&self) -> Seq<Entry> {
        self.block@
    }

    /// The index of the entry that the cursor is on; the number of entries
    /// when it is past the end.
    pub closed spec fn position(&self) -> int {
        self.idx as int
    }

    /// The cursor is on an entry.
    pub open spec fn on_entry(&self) -> bool {
        self.position() < self.entries().len()
    }

    /// The cursor holds a well-formed block and knows its first key.
    spec fn attached(&self) -> bool {
        &&& self.block.wf()
        &&& self.first_key@ == if self.block@.len() > 0 {
            self.block@[0].key
        } else {
            Seq::empty()
        }
    }

    /// The cursor holds a well-formed block, and its key and value range are
    /// those of the entry it is on.
    pub closed spec fn wf(&self) -> bool {
        let es = self.block@;
        &&& self.attached()
        &&& self.idx <= es.len()
        &&& if self.idx < es.len() {
            let begin = entry_offset(es, self.idx as int) + 4 + es[self.idx as int].key.len();
            &&& self.key@ == es[self.idx as int].key
            &&& self.value_range.0 == begin
            &&& self.value_range.1 == begin + es[self.idx as int].value.len()
        } else {
            &&& self.key@.len() == 0
            &&& self.value_range == (0usize, 0usize)
        }
    }

    /// The position of a well-formed cursor lies within the block or just
    /// past its end.
    pub proof fn lemma_position_in_range(&self)
        requires
            self.wf(),
        ensures
            0 <= self.position() <= self.entries().len(),
    {
    }

    /// A cursor over `block`, past its end.
    fn new(block: Arc<Block>) -> (it: BlockIterator)
        requires
            block.wf(),
        ensures
            it.wf(),
            it.entries() == block@,
            it.position() == block@.len(),
    {
        let n = block.len();
        let mut first_key: Vec<u8> = Vec::new();
        if n > 0 {
            proof {
                block.lemma_wf_encodable();
                lemma_block_bounds(block@);
                lemma_entry_layout(block@, 0);
                assert(block@.take(0) =~= Seq::<Entry>::empty());
            }
            let data = block.data();
            let key_len = get_u16(data) as usize;
            first_key.extend_from_slice(slice_subrange(data, 2, 2 + key_len));
            assert(first_key@ =~= block@[0].key);
        }
        BlockIterator { block, key: Vec::new(), value_range: (0, 0), idx: n, first_key }
    }

    /// Creates a block iterator and seek to the first entry.
    pub fn create_and_seek_to_first(block: Arc<Block>) -> (it: BlockIterator)
        requires
            block.wf(),
        ensures
            it.wf(),
            it.entries() == block@,
            it.position() == 0,
    {
        let mut res = BlockIterator::new(block);
        res.seek_to_first();
        res
    }

    /// Creates a block iterator and seek to the first key that >= `key`.
    pub fn create_and_seek_to_key(block: Arc<Block>, key: &[u8]) -> (it: BlockIterator)
        requires
            block.wf(),
        ensures
            it.wf(),
            it.entries() == block@,
            is_seek_position(block@, key@, it.position()),
    {
        let mut res = BlockIterator::new(block);
        res.seek_to_key(key);
        res
    }

    /// Returns the key of the current entry; the empty key when the cursor
    /// is not on an entry.
    pub fn key(&self) -> (k: &[u8])
        requires
            self.wf(),
        ensures
            k@ == if self.on_entry() {
                self.entries()[self.position()].key
            } else {
                Seq::empty()
            },
    {
        let k = self.key.as_slice();
        assert(!self.on_entry() ==> k@ =~= Seq::<u8>::empty());
        k
    }

    /// Returns the value of the current entry, as a view into the block's
    /// buffer; the empty value when the cursor is not on an entry.
    pub fn value(&self) -> (v: &[u8])
        requires
            self.wf(),
        ensures
            v@ == if self.on_entry() {
                self.entries()[self.position()].value
            } else {
                Seq::empty()
            },
    {
        proof {
            self.block.lemma_wf_encodable();
            if self.idx < self.block@.len() {
                lemma_entry_layout(self.block@, self.idx as int);
            }
        }
        let v = slice_subrange(self.block.data(), self.value_range.0, self.value_range.1);
        assert(!self.on_entry() ==> v@ =~= Seq::<u8>::empty());
        v
    }

    /// Returns true if the iterator is valid, that is, on an entry.
    pub fn is_valid(&self) -> (b: bool)
        requires
            self.wf(),
        ensures
            b == self.on_entry(),
    {
        proof {
            self.block.lemma_wf_encodable();
        }
        !self.key.is_empty()
    }

    /// Moves the cursor to entry `idx`, or past the end.
    fn seek_to(&mut self, idx: usize)
        requires
            old(self).attached(),
            idx <= old(self).block@.len(),
        ensures
            final(self).wf(),
            final(self).entries() == old(self).entries(),
            final(self).position() == idx,
    {
        let n = self.block.len();
        self.idx = idx;
        self.key.clear();
        if idx < n {
            proof {
                self.block.lemma_wf_encodable();
                lemma_block_bounds(self.block@);
                lemma_entry_layout(self.block@, idx as int);
            }
            let data = self.block.data();
            let off = self.block.offsets()[idx] as usize;
            let key_len = get_u16(slice_subrange(data, off, data.len())) as usize;
            self.key.extend_from_slice(slice_subrange(data, off + 2, off + 2 + key_len));
            let val_len = get_u16(slice_subrange(data, off + 2 + key_len, data.len())) as usize;
            let value_offset_begin = off + key_len + 4;
            let value_offset_end = value_offset_begin + val_len;
            self.value_range = (value_offset_begin, value_offset_end);
            assert(self.key@ =~= self.block@[idx as int].key);
        } else {
            self.value_range = (0, 0);
        }
    }

    /// Seeks to the first key in the block.
    pub fn seek_to_first(&mut self)
        requires
            old(self).wf(),
        ensures
            final(self).wf(),
            final(self).entries() == old(self).entries(),
            final(self).position() == 0,
    {
        self.seek_to(0);
    }

    /// Move to the next key in the block. A cursor past the end stays there.
    pub fn next(&mut self)
        requires
            old(self).wf(),
        ensures
            final(self).wf(),
            final(self).entries() == old(self).entries(),
            final(self).position() == if old(self).on_entry() {
                old(self).position() + 1
            } else {
                old(self).position()
            },
    {
        if self.idx < self.block.len() {
            self.seek_to(self.idx + 1);
        }
    }

    /// Seek to the first key that >= `key`, scanning the entries in order;
    /// past the end when there is none.
    pub fn seek_to_key(&mut self, key: &[u8])
        requires
            old(self).wf(),
        ensures
            final(self).wf(),
            final(self).entries() == old(self).entries(),
            is_seek_position(final(self).entries(), key@, final(self).position()),
    {
        let n = self.block.len();
        let mut idx: usize = 0;
        while idx < n
            invariant
                self.attached(),
                self.entries() == old(self).entries(),
                n == self.block@.len(),
                idx <= n,
                forall|j: int| 0 <= j < idx ==> key_lt(#[trigger] self.block@[j].key, key@),
            decreases n - idx,
        {
            self.seek_to(idx);
            match compare_keys(self.key.as_slice(), key) {
                KeyOrder::Less => {
                    idx += 1;
                },
                KeyOrder::Equal => {
                    return ;
                },
                KeyOrder::Greater => {
                    return ;
                },
            }
        }
        self.seek_to(n);
    }
}

/// A block cursor is a source that the merging iterators can read: what it
/// has yet to yield are the entries from its position on, and its advance
/// never fails.
impl StorageIterator for BlockIterator {
    open spec fn inv(&self) -> bool {
        self.wf()
    }

    closed spec fn remaining(&self) -> Seq<Entry> {
        self.block@.skip(self.idx as int)
    }

    open spec fn infallible(&self) -> bool {
        true
    }

    open spec fn active_iterators(&self) -> nat {
        1
    }

    fn value(&self) -> (v: &[u8]) {
        BlockIterator::value(self)
    }

    fn key(&self) -> (k: &[u8]) {
        BlockIterator::key(self)
    }

    fn is_valid(&self) -> (b: bool) {
        BlockIterator::is_valid(self)
    }

    fn next(&mut self) -> (r: Result<(), IterError>) {
        let ghost before = self.block@.skip(self.idx as int);
        BlockIterator::next(self);
        assert(self.block@.skip(self.idx as int) =~= rest(before));
        Ok(())
    }

    fn num_active_iterators(&self) -> (n: usize) {
        1
    }
}

impl BlockIterator {
    /// What the cursor has yet to yield, as a source, are the entries from
    /// its position on.
    pub proof fn lemma_remaining(&self)
        ensures
            StorageIterator::remaining(self) == self.entries().skip(self.position()),
    {
    }
}

} // verus!
