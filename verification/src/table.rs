//! The table: a run of blocks, an index of the blocks, and a trailer that
//! says where the index starts.
//!
//! ```text
//! table            := block* | block_meta_entry* | meta_offset:u32
//! block_meta_entry := offset:u32 | first_key_len:u16 | first_key
//!                   | last_key_len:u16 | last_key
//! ```

use crate::block::encode_block;
use crate::block::Entry;
use crate::wire::be16;
use crate::wire::be32;
use crate::wire::bytes_as_slice;
use crate::wire::bytes_seq;
use crate::wire::put_slice;
use crate::wire::put_u16;
use crate::wire::put_u32;
use bytes::Bytes;
use vstd::prelude::*;

pub mod builder;

verus! {

/// Where a block lies in its table, and the range of keys that it holds.
pub struct BlockMeta {
    /// Offset of this data block.
    pub offset: usize,
    /// The first key of the data block.
    pub first_key: Bytes,
    /// The last key of the data block.
    pub last_key: Bytes,
}

/// A block's record, as the contracts speak of it.
pub struct BlockMetaView {
    pub offset: nat,
    pub first_key: Seq<u8>,
    pub last_key: Seq<u8>,
}

impl View for BlockMeta {
    type V = BlockMetaView;

    open spec fn view(&self) -> BlockMetaView {
        BlockMetaView {
            offset: self.offset as nat,
            first_key: bytes_seq(self.first_key),
            last_key: bytes_seq(self.last_key),
        }
    }
}

/// The records of a table's blocks, as the contracts speak of them.
pub open spec fn meta_views(metas: Seq<BlockMeta>) -> Seq<BlockMetaView> {
    Seq::new(metas.len(), |i: int| metas[i]@)
}

/// A record that the index can hold: the offset fits 32 bits and the keys'
/// lengths fit 16.
pub open spec fn meta_wf(m: BlockMetaView) -> bool {
    m.offset <= u32::MAX && m.first_key.len() <= u16::MAX && m.last_key.len() <= u16::MAX
}

/// The bytes of one record of the index.
pub open spec fn encode_meta(m: BlockMetaView) -> Seq<u8> {
    be32(m.offset as u32) + be16(m.first_key.len() as u16) + m.first_key + be16(
        m.last_key.len() as u16,
    ) + m.last_key
}

/// The bytes of the index: its records, one after the other.
pub open spec fn encode_metas(metas: Seq<BlockMetaView>) -> Seq<u8>
    decreases metas.len(),
{
    if metas.len() == 0 {
        Seq::empty()
    } else {
        encode_metas(metas.drop_last()) + encode_meta(metas.last())
    }
}

/// The bytes of a run of blocks, one after the other.
pub open spec fn encode_blocks(blocks: Seq<Seq<Entry>>) -> Seq<u8>
    decreases blocks.len(),
{
    if blocks.len() == 0 {
        Seq::empty()
    } else {
        encode_blocks(blocks.drop_last()) + encode_block(blocks.last())
    }
}

/// The index of a table that holds `blocks`: of each block, where it starts
/// and its first and last key.
pub open spec fn metas_of(blocks: Seq<Seq<Entry>>) -> Seq<BlockMetaView> {
    Seq::new(
        blocks.len(),
        |i: int|
            BlockMetaView {
                offset: encode_blocks(blocks.take(i)).len(),
                first_key: blocks[i].first().key,
                last_key: blocks[i].last().key,
            },
    )
}

/// The bytes of a table: the blocks, the index, and the offset of the
/// index.
pub open spec fn encode_table(blocks: Seq<Seq<Entry>>) -> Seq<u8> {
    encode_blocks(blocks) + encode_metas(metas_of(blocks)) + be32(
        encode_blocks(blocks).len() as u32,
    )
}

/// A table of these blocks can be written: the offset of its index fits 32
/// bits, and the whole fits one buffer.
pub open spec fn table_fits(blocks: Seq<Seq<Entry>>) -> bool {
    encode_blocks(blocks).len() <= u32::MAX && encode_table(blocks).len() <= isize::MAX
}

/// The bytes of the first `i` records open the bytes of the index.
pub proof fn lemma_encode_metas_prefix(metas: Seq<BlockMetaView>, i: int)
    requires
        0 <= i <= metas.len(),
    ensures
        encode_metas(metas.take(i)).len() <= encode_metas(metas).len(),
    decreases metas.len(),
{
    if i == metas.len() {
        assert(metas.take(i) =~= metas);
    } else {
        assert(metas.drop_last().take(i) =~= metas.take(i));
        lemma_encode_metas_prefix(metas.drop_last(), i);
    }
}

/// The bytes of the first `i` blocks open the bytes of all of them.
pub proof fn lemma_encode_blocks_prefix(blocks: Seq<Seq<Entry>>, i: int)
    requires
        0 <= i <= blocks.len(),
    ensures
        encode_blocks(blocks.take(i)).len() <= encode_blocks(blocks).len(),
    decreases blocks.len(),
{
    if i == blocks.len() {
        assert(blocks.take(i) =~= blocks);
    } else {
        assert(blocks.drop_last().take(i) =~= blocks.take(i));
        lemma_encode_blocks_prefix(blocks.drop_last(), i);
    }
}

/// The index of a run of blocks with one more block is the index of the
/// run with one more record.
pub proof fn lemma_metas_of_push(blocks: Seq<Seq<Entry>>, block: Seq<Entry>)
    ensures
        metas_of(blocks.push(block)) == metas_of(blocks).push(
            BlockMetaView {
                offset: encode_blocks(blocks).len(),
                first_key: block.first().key,
                last_key: block.last().key,
            },
        ),
        encode_blocks(blocks.push(block)) == encode_blocks(blocks) + encode_block(block),
{
    let more = blocks.push(block);
    assert(more.drop_last() =~= blocks);
    assert(more.take(blocks.len() as int) =~= blocks);
    assert forall|i: int| 0 <= i < blocks.len() implies more.take(i) == blocks.take(i) by {
        assert(more.take(i) =~= blocks.take(i));
    }
    assert(metas_of(more) =~= metas_of(blocks).push(
        BlockMetaView {
            offset: encode_blocks(blocks).len(),
            first_key: block.first().key,
            last_key: block.last().key,
        },
    ));
}

impl BlockMeta {
    /// The number of bytes that the index of `block_meta` takes, where a
    /// `usize` can hold it.
    pub fn encoded_len(block_meta: &[BlockMeta]) -> (n: Option<usize>)
        ensures
            match n {
                Some(n) => n == encode_metas(meta_views(block_meta@)).len(),
                None => encode_metas(meta_views(block_meta@)).len() > usize::MAX,
            },
    {
        let ghost views = meta_views(block_meta@);
        let mut total: usize = 0;
        let mut i: usize = 0;
        while i < block_meta.len()
            invariant
                i <= block_meta@.len(),
                views == meta_views(block_meta@),
                total == encode_metas(views.take(i as int)).len(),
            decreases block_meta@.len() - i,
        {
            proof {
                assert(views.take(i + 1).drop_last() =~= views.take(i as int));
                lemma_encode_metas_prefix(views, i + 1);
            }
            let first_len = bytes_as_slice(&block_meta[i].first_key).len();
            let last_len = bytes_as_slice(&block_meta[i].last_key).len();
            let step = match first_len.checked_add(last_len) {
                Some(keys) => keys.checked_add(8),
                None => None,
            };
            let sum = match step {
                Some(step) => total.checked_add(step),
                None => None,
            };
            match sum {
                Some(sum) => {
                    total = sum;
                },
                None => {
                    return None;
                },
            }
            i += 1;
        }
        assert(views.take(i as int) =~= views);
        Some(total)
    }

    /// Appends the index of `block_meta` to `buf`.
    pub fn encode_block_meta(block_meta: &[BlockMeta], buf: &mut Vec<u8>)
        requires
            forall|i: int| 0 <= i < block_meta@.len() ==> meta_wf(#[trigger] block_meta@[i]@),
            old(buf)@.len() + encode_metas(meta_views(block_meta@)).len() <= isize::MAX,
        ensures
            final(buf)@ == old(buf)@ + encode_metas(meta_views(block_meta@)),
    {
        let ghost views = meta_views(block_meta@);
        let mut i: usize = 0;
        while i < block_meta.len()
            invariant
                i <= block_meta@.len(),
                views == meta_views(block_meta@),
                forall|i: int| 0 <= i < block_meta@.len() ==> meta_wf(#[trigger] block_meta@[i]@),
                old(buf)@.len() + encode_metas(views).len() <= isize::MAX,
                buf@ == old(buf)@ + encode_metas(views.take(i as int)),
            decreases block_meta@.len() - i,
        {
            proof {
                assert(views.take(i + 1).drop_last() =~= views.take(i as int));
                lemma_encode_metas_prefix(views, i + 1);
                assert(meta_wf(block_meta@[i as int]@));
            }
            let ghost before = buf@;
            let meta = &block_meta[i];
            let first_key = bytes_as_slice(&meta.first_key);
            let last_key = bytes_as_slice(&meta.last_key);
            put_u32(buf, meta.offset as u32);
            put_u16(buf, first_key.len() as u16);
            put_slice(buf, first_key);
            put_u16(buf, last_key.len() as u16);
            put_slice(buf, last_key);
            i += 1;
            assert(buf@ =~= before + encode_meta(views[i - 1]));
            assert(buf@ =~= old(buf)@ + encode_metas(views.take(i as int)));
        }
        assert(views.take(i as int) =~= views);
    }
}

/// Why a table could not be built.
#[derive(Clone, Copy, Debug, PartialEq, Eq, Structural)]
pub enum BuildError {
    /// No entry was added.
    Empty,
    /// The blocks take more bytes than the trailer can point past, or than
    /// one buffer can hold.
    TooLarge,
}

/// A table as it leaves the builder: its bytes, ready to be written out,
/// and what a reader needs to know of it.
pub struct SsTable {
    /// The bytes of the table.
    pub data: Vec<u8>,
    /// The offset that indicates the start point of meta blocks in `data`.
    pub block_meta_offset: usize,
    /// The meta blocks that hold info for data blocks.
    pub block_meta: Vec<BlockMeta>,
    pub id: usize,
    /// The first key of the table.
    pub first_key: Bytes,
    /// The last key of the table.
    pub last_key: Bytes,
    /// The maximum timestamp stored in this table.
    pub max_ts: u64,
}

/// `table` is the table with the id `id` that holds `blocks`.
pub open spec fn is_table_of(table: SsTable, id: usize, blocks: Seq<Seq<Entry>>) -> bool {
    &&& table.id == id
    &&& table.data@ == encode_table(blocks)
    &&& table.block_meta_offset == encode_blocks(blocks).len()
    &&& meta_views(table.block_meta@) == metas_of(blocks)
    &&& bytes_seq(table.first_key) == blocks.first().first().key
    &&& bytes_seq(table.last_key) == blocks.last().last().key
    &&& table.max_ts == 0
}

} // verus!
