//! The table builder: packs entries into blocks and the blocks into a table.

use crate::block::encode_block;
use crate::block::entry_wf;
use crate::block::has_room;
use crate::block::BlockBuilder;
use crate::block::Entry;
use crate::iterators::strictly_ascending;
use crate::key::key_le;
use crate::key::key_lt;
use crate::table::encode_blocks;
use crate::table::is_table_of;
use crate::table::lemma_encode_blocks_prefix;
use crate::table::lemma_metas_of_push;
use crate::table::meta_views;
use crate::table::meta_wf;
use crate::table::metas_of;
use crate::table::table_fits;
use crate::table::BlockMeta;
use crate::table::BuildError;
use crate::table::SsTable;
use crate::wire::bytes_as_slice;
use crate::wire::bytes_clone;
use crate::wire::bytes_from_vec;
use crate::wire::put_slice;
use crate::wire::put_u32;
use vstd::prelude::*;

verus! {

/// The blocks after one more entry: the entry joins the last block if that
/// block has room for it, and else starts a block of its own.
pub open spec fn place_entry(blocks: Seq<Seq<Entry>>, e: Entry, block_size: usize) -> Seq<
    Seq<Entry>,
> {
    if blocks.len() > 0 && has_room(blocks.last(), block_size, e.key.len(), e.value.len()) {
        blocks.drop_last().push(blocks.last().push(e))
    } else {
        blocks.push(seq![e])
    }
}

/// The blocks into which a builder for blocks of `block_size` bytes packs
/// the entries `es`, added in this order.
pub open spec fn pack(es: Seq<Entry>, block_size: usize) -> Seq<Seq<Entry>>
    decreases es.len(),
{
    if es.len() == 0 {
        Seq::empty()
    } else {
        place_entry(pack(es.drop_last(), block_size), es.last(), block_size)
    }
}

/// The entries of a run of blocks, in order.
pub open spec fn join(blocks: Seq<Seq<Entry>>) -> Seq<Entry>
    decreases blocks.len(),
{
    if blocks.len() == 0 {
        Seq::empty()
    } else {
        join(blocks.drop_last()) + blocks.last()
    }
}

/// Packing one more entry places it after the others are packed. The
/// number of blocks grows by one where the entry crosses a block boundary,
/// that is, where it is the first entry or the last block has no room for
/// it.
pub proof fn lemma_pack_push(es: Seq<Entry>, e: Entry, block_size: usize)
    ensures
        pack(es.push(e), block_size) == place_entry(pack(es, block_size), e, block_size),
        pack(es.push(e), block_size).len() == pack(es, block_size).len() + if es.len() > 0
            && has_room(pack(es, block_size).last(), block_size, e.key.len(), e.value.len()) {
            0int
        } else {
            1int
        },
{
    assert(es.push(e).drop_last() =~= es);
    lemma_pack_blocks(es, block_size);
}

/// There is a block as soon as there is an entry, and no block is empty.
pub proof fn lemma_pack_blocks(es: Seq<Entry>, block_size: usize)
    ensures
        pack(es, block_size).len() > 0 <==> es.len() > 0,
        forall|i: int|
            0 <= i < pack(es, block_size).len() ==> (#[trigger] pack(es, block_size)[i]).len() > 0,
    decreases es.len(),
{
    if es.len() > 0 {
        lemma_pack_blocks(es.drop_last(), block_size);
    }
}

/// The blocks hold the entries that were added, in the order in which they
/// were added.
pub proof fn lemma_pack_join(es: Seq<Entry>, block_size: usize)
    ensures
        join(pack(es, block_size)) == es,
    decreases es.len(),
{
    if es.len() > 0 {
        let before = pack(es.drop_last(), block_size);
        let e = es.last();
        lemma_pack_join(es.drop_last(), block_size);
        if before.len() > 0 && has_room(before.last(), block_size, e.key.len(), e.value.len()) {
            let after = before.drop_last().push(before.last().push(e));
            assert(after.drop_last() =~= before.drop_last());
            assert(join(after) =~= join(before).push(e));
        } else {
            assert(before.push(seq![e]).drop_last() =~= before);
            assert(join(before.push(seq![e])) =~= join(before).push(e));
        }
        assert(es.drop_last().push(e) =~= es);
    }
}

/// Entry `p` of block `i` is the entry of the joined blocks that comes
/// after all the entries of the blocks before `i`, and `p` more.
pub proof fn lemma_join_index(blocks: Seq<Seq<Entry>>, i: int, p: int)
    requires
        0 <= i < blocks.len(),
        0 <= p < blocks[i].len(),
    ensures
        join(blocks.take(i)).len() + p < join(blocks).len(),
        join(blocks)[join(blocks.take(i)).len() + p] == blocks[i][p],
        join(blocks.take(i + 1)).len() == join(blocks.take(i)).len() + blocks[i].len(),
    decreases blocks.len(),
{
    let init = blocks.drop_last();
    assert(blocks.take(i + 1).drop_last() =~= blocks.take(i));
    if i == blocks.len() - 1 {
        assert(blocks.take(i) =~= init);
    } else {
        assert(init.take(i) =~= blocks.take(i));
        assert(init.take(i + 1) =~= blocks.take(i + 1));
        lemma_join_index(init, i, p);
    }
}

/// The blocks before a later block hold at least the entries of the blocks
/// before an earlier one.
pub proof fn lemma_join_take_grows(blocks: Seq<Seq<Entry>>, i: int, j: int)
    requires
        0 <= i <= j <= blocks.len(),
    ensures
        join(blocks.take(i)).len() <= join(blocks.take(j)).len(),
    decreases j - i,
{
    if i < j {
        lemma_join_take_grows(blocks, i, j - 1);
        assert(blocks.take(j).drop_last() =~= blocks.take(j - 1));
    }
}

/// Entries added in strictly ascending order are packed into blocks whose
/// key ranges follow one another without overlap: in the index, the first
/// key of each block is no greater than its last, and the last key of each
/// block sorts before the first key of every later block.
pub proof fn lemma_pack_ranges(es: Seq<Entry>, block_size: usize)
    requires
        strictly_ascending(es),
    ensures
        metas_of(pack(es, block_size)).len() == pack(es, block_size).len(),
        forall|i: int|
            0 <= i < pack(es, block_size).len() ==> key_le(
                (#[trigger] metas_of(pack(es, block_size))[i]).first_key,
                metas_of(pack(es, block_size))[i].last_key,
            ),
        forall|i: int, j: int|
            0 <= i < j < pack(es, block_size).len() ==> key_lt(
                (#[trigger] metas_of(pack(es, block_size))[i]).last_key,
                (#[trigger] metas_of(pack(es, block_size))[j]).first_key,
            ),
{
    let blocks = pack(es, block_size);
    let metas = metas_of(blocks);
    lemma_pack_blocks(es, block_size);
    lemma_pack_join(es, block_size);
    assert forall|i: int| 0 <= i < blocks.len() implies key_le(
        (#[trigger] metas[i]).first_key,
        metas[i].last_key,
    ) by {
        let n = blocks[i].len() as int;
        lemma_join_index(blocks, i, 0);
        lemma_join_index(blocks, i, n - 1);
        let start = join(blocks.take(i)).len() as int;
        if n > 1 {
            assert(key_lt(es[start].key, es[start + n - 1].key));
        }
    }
    assert forall|i: int, j: int| 0 <= i < j < blocks.len() implies key_lt(
        (#[trigger] metas[i]).last_key,
        (#[trigger] metas[j]).first_key,
    ) by {
        let n = blocks[i].len() as int;
        lemma_join_index(blocks, i, n - 1);
        lemma_join_index(blocks, j, 0);
        lemma_join_take_grows(blocks, i + 1, j);
        let last = join(blocks.take(i)).len() + n - 1;
        let first = join(blocks.take(j)).len() as int;
        assert(key_lt(es[last].key, es[first].key));
    }
}

/// Builds an SSTable from key-value pairs.
pub struct SsTableBuilder {
    builder: BlockBuilder,
    first_key: Vec<u8>,
    last_key: Vec<u8>,
    data: Vec<u8>,
    meta: Vec<BlockMeta>,
    block_size: usize,
    entries: Ghost<Seq<Entry>>,
}

impl View for SsTableBuilder {
    type V = Seq<Entry>;

    /// The entries added so far, in the order in which they were added.
    closed spec fn view(&self) -> Seq<Entry> {
        self.entries@
    }
}

impl SsTableBuilder {
    /// The size that the blocks are meant not to exceed.
    pub closed spec fn block_size(&self) -> usize {
        self.block_size
    }

    /// The blocks that are finished: all but the last of those into which
    /// the entries are packed.
    pub open spec fn finished(&self) -> Seq<Seq<Entry>> {
        if self@.len() == 0 {
            Seq::empty()
        } else {
            pack(self@, self.block_size()).drop_last()
        }
    }

    /// The builder holds the finished blocks with their index, and the block
    /// builder holds the last block.
    pub closed spec fn wf(&self) -> bool {
        let blocks = pack(self@, self.block_size);
        &&& self.builder.wf()
        &&& self.builder.block_size() == self.block_size
        &&& self.data@ == encode_blocks(self.finished())
        &&& meta_views(self.meta@) == metas_of(self.finished())
        &&& forall|i: int|
            0 <= i < self.meta@.len() ==> (#[trigger] self.meta@[i]@).first_key.len() <= u16::MAX
                && self.meta@[i]@.last_key.len() <= u16::MAX
        &&& if self@.len() == 0 {
            &&& self.builder@.len() == 0
            &&& self.first_key@.len() == 0
            &&& self.last_key@.len() == 0
        } else {
            &&& blocks.len() > 0
            &&& self.builder@ == blocks.last()
            &&& self.builder@.len() > 0
            &&& self.first_key@ == self.builder@.first().key
            &&& self.last_key@ == self.builder@.last().key
        }
    }

    /// Create a builder based on target block size.
    pub fn new(block_size: usize) -> (b: SsTableBuilder)
        ensures
            b.wf(),
            b@ == Seq::<Entry>::empty(),
            b.block_size() == block_size,
    {
        let b = SsTableBuilder {
            builder: BlockBuilder::new(block_size),
            first_key: Vec::new(),
            last_key: Vec::new(),
            data: Vec::new(),
            meta: Vec::new(),
            block_size,
            entries: Ghost(Seq::empty()),
        };
        assert(meta_views(b.meta@) =~= metas_of(b.finished()));
        b
    }

    /// Closes the block in progress: records it in the index, appends its
    /// bytes, and starts an empty block.
    fn finish_block(&mut self, Ghost(done): Ghost<Seq<Seq<Entry>>>)
        requires
            old(self).builder.wf(),
            old(self).builder.block_size() == old(self).block_size,
            old(self).builder@.len() > 0,
            old(self).data@ == encode_blocks(done),
            meta_views(old(self).meta@) == metas_of(done),
            forall|i: int|
                0 <= i < old(self).meta@.len() ==> (#[trigger] old(self).meta@[i]@).first_key.len()
                    <= u16::MAX && old(self).meta@[i]@.last_key.len() <= u16::MAX,
            old(self).first_key@ == old(self).builder@.first().key,
            old(self).last_key@ == old(self).builder@.last().key,
        ensures
            final(self).builder.wf(),
            final(self).builder.block_size() == old(self).block_size,
            final(self).builder@.len() == 0,
            final(self).block_size == old(self).block_size,
            final(self).entries == old(self).entries,
            final(self).data@ == encode_blocks(done.push(old(self).builder@)),
            meta_views(final(self).meta@) == metas_of(done.push(old(self).builder@)),
            forall|i: int|
                0 <= i < final(self).meta@.len() ==> (#[trigger] final(self).meta@[i]@).first_key.len()
                    <= u16::MAX && final(self).meta@[i]@.last_key.len() <= u16::MAX,
    {
        let ghost block = self.builder@;
        let ghost metas0 = self.meta@;
        proof {
            self.builder.lemma_wf_encodable();
            lemma_metas_of_push(done, block);
        }
        let meta = BlockMeta {
            offset: self.data.len(),
            first_key: bytes_from_vec(self.first_key.clone()),
            last_key: bytes_from_vec(self.last_key.clone()),
        };
        self.meta.push(meta);
        let mut builder = BlockBuilder::new(self.block_size);
        std::mem::swap(&mut self.builder, &mut builder);
        let encoded = builder.build().encode();
        let ghost data0 = self.data@;
        self.data.extend_from_slice(bytes_as_slice(&encoded));
        proof {
            assert(self.data@ =~= data0 + encode_block(block));
            assert(meta_views(self.meta@) =~= meta_views(metas0).push(meta@));
        }
    }

    /// Adds a key-value pair to SSTable. The pair joins the block in
    /// progress if that block has room for it; else that block is closed
    /// and the pair starts the next one.
    pub fn add(&mut self, key: &[u8], value: &[u8])
        requires
            old(self).wf(),
            0 < key@.len() <= u16::MAX,
            value@.len() <= u16::MAX,
        ensures
            final(self).wf(),
            final(self).block_size() == old(self).block_size(),
            final(self)@ == old(self)@.push(Entry { key: key@, value: value@ }),
    {
        let ghost e = Entry { key: key@, value: value@ };
        let ghost es = self@;
        let ghost blocks = pack(es, self.block_size);
        proof {
            lemma_pack_push(es, e, self.block_size);
            lemma_pack_blocks(es, self.block_size);
            self.builder.lemma_wf_encodable();
            if es.len() > 0 {
                assert(entry_wf(self.builder@[0]));
            }
        }
        if self.first_key.is_empty() {
            put_slice(&mut self.first_key, key);
            put_slice(&mut self.last_key, key);
        }
        if !self.builder.add(key, value) {
            // split a new block
            self.finish_block(Ghost(blocks.drop_last()));
            let added = self.builder.add(key, value);
            assert(added);
            self.first_key.clear();
            self.last_key.clear();
            put_slice(&mut self.first_key, key);
            put_slice(&mut self.last_key, key);
            self.entries = Ghost(es.push(e));
            proof {
                assert(blocks.drop_last().push(blocks.last()) =~= blocks);
                assert(blocks.push(seq![e]).drop_last() =~= blocks);
                assert(self.builder@ =~= seq![e]);
            }
        } else {
            self.last_key.clear();
            put_slice(&mut self.last_key, key);
            self.entries = Ghost(es.push(e));
            proof {
                if es.len() > 0 {
                    assert(blocks.drop_last().push(blocks.last().push(e)).drop_last()
                        =~= blocks.drop_last());
                } else {
                    assert(self.builder@ =~= seq![e]);
                    assert(blocks.push(seq![e]).drop_last() =~= blocks);
                }
            }
        }
    }

    /// Get the estimated size of the SSTable: the size of the blocks that
    /// are finished.
    pub fn estimated_size(&self) -> (n: usize)
        requires
            self.wf(),
        ensures
            n == encode_blocks(self.finished()).len(),
    {
        self.data.len()
    }

    /// Builds the SSTable: closes the block in progress and appends the
    /// index and the offset of the index to the blocks.
    pub fn build(self, id: usize) -> (r: Result<SsTable, BuildError>)
        requires
            self.wf(),
        ensures
            self@.len() == 0 ==> r == Err::<SsTable, BuildError>(BuildError::Empty),
            self@.len() > 0 && !table_fits(pack(self@, self.block_size())) ==> r == Err::<
                SsTable,
                BuildError,
            >(BuildError::TooLarge),
            self@.len() > 0 && table_fits(pack(self@, self.block_size())) ==> (r matches Ok(t)
                && is_table_of(t, id, pack(self@, self.block_size()))),
    {
        let ghost blocks = pack(self@, self.block_size);
        let mut this = self;
        proof {
            lemma_pack_blocks(this@, this.block_size);
        }
        if !this.builder.is_empty() {
            this.finish_block(Ghost(blocks.drop_last()));
            assert(blocks.drop_last().push(blocks.last()) =~= blocks);
        }
        assert(meta_views(this.meta@).len() == this.meta@.len());
        assert(metas_of(blocks).len() == blocks.len());
        if this.meta.is_empty() {
            return Err(BuildError::Empty);
        }
        let meta_offset = this.data.len();
        if meta_offset > u32::MAX as usize {
            return Err(BuildError::TooLarge);
        }
        let index_len = match BlockMeta::encoded_len(this.meta.as_slice()) {
            Some(n) => n,
            None => {
                return Err(BuildError::TooLarge);
            },
        };
        let total = match meta_offset.checked_add(index_len) {
            Some(n) => n.checked_add(4),
            None => None,
        };
        match total {
            Some(n) => {
                if n > isize::MAX as usize {
                    return Err(BuildError::TooLarge);
                }
            },
            None => {
                return Err(BuildError::TooLarge);
            },
        }
        proof {
            assert forall|i: int| 0 <= i < this.meta@.len() implies meta_wf(
                #[trigger] this.meta@[i]@,
            ) by {
                assert(meta_views(this.meta@)[i] == metas_of(blocks)[i]);
                lemma_encode_blocks_prefix(blocks, i);
            }
            assert(meta_views(this.meta@)[0] == metas_of(blocks)[0]);
            assert(meta_views(this.meta@)[blocks.len() - 1] == metas_of(blocks)[blocks.len() - 1]);
        }
        let first_key = bytes_clone(&this.meta[0].first_key);
        let last_key = bytes_clone(&this.meta[this.meta.len() - 1].last_key);
        let mut buf = this.data;
        BlockMeta::encode_block_meta(this.meta.as_slice(), &mut buf);
        put_u32(&mut buf, meta_offset as u32);
        Ok(
            SsTable {
                data: buf,
                block_meta_offset: meta_offset,
                block_meta: this.meta,
                id,
                first_key,
                last_key,
                max_ts: 0,
            },
        )
    }

    /// Builds the table with the id 0.
    pub fn build_for_test(self) -> (r: Result<SsTable, BuildError>)
        requires
            self.wf(),
        ensures
            self@.len() == 0 ==> r == Err::<SsTable, BuildError>(BuildError::Empty),
            self@.len() > 0 && !table_fits(pack(self@, self.block_size())) ==> r == Err::<
                SsTable,
                BuildError,
            >(BuildError::TooLarge),
            self@.len() > 0 && table_fits(pack(self@, self.block_size())) ==> (r matches Ok(t)
                && is_table_of(t, 0, pack(self@, self.block_size()))),
    {
        self.build(0)
    }
}

} // verus!
