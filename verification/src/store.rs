//! The block store: an ordered, growable sequence of blocks forming one
//! logical byte stream, with `read_at`, `write_at` and `reset` operations.

use vstd::prelude::*;

use crate::block::Block;
use crate::block::BlockModel;
use crate::block::block_model_wf;
use crate::block::fresh_block_model;
use crate::BLOCK_SIZE;
use crate::block_index_of;
use crate::intra_offset_of;
use crate::split_offset;
use crate::write_count_of;

verus! {

/// A store model is well formed when every block model is.
pub open spec fn store_wf(m: Seq<BlockModel>) -> bool {
    forall|i: int| 0 <= i < m.len() ==> block_model_wf(#[trigger] m[i])
}

/// What a read of up to `length` bytes at `offset` yields on model `m`:
/// nothing when the target block is not allocated or the intra-block offset
/// is past its valid bytes (end-of-stream), and otherwise the available
/// bytes of the single target block, capped by `length`.
pub open spec fn read_result(m: Seq<BlockModel>, offset: nat, length: nat) -> Seq<u8> {
    let bi = block_index_of(offset) as int;
    let io = intra_offset_of(offset) as int;
    if bi >= m.len() {
        Seq::empty()
    } else if io >= m[bi].valid {
        Seq::empty()
    } else {
        let avail = m[bi].valid - io;
        let count = if length <= avail {
            length as int
        } else {
            avail
        };
        m[bi].bytes.subrange(io, io + count)
    }
}

/// The byte visible at logical position `pos` of model `m`: `Some` exactly
/// when the position falls inside the valid prefix of an allocated block.
pub open spec fn byte_at(m: Seq<BlockModel>, pos: nat) -> Option<u8> {
    let bi = block_index_of(pos) as int;
    let io = intra_offset_of(pos) as int;
    if bi < m.len() && io < m[bi].valid {
        Some(m[bi].bytes[io])
    } else {
        None
    }
}

/// Model growth: zeroed blocks are appended until index `bi` exists, so a
/// write far past the tail fills the gap with empty blocks instead of
/// skipping indices.
pub open spec fn grown(m: Seq<BlockModel>, bi: nat) -> Seq<BlockModel> {
    if bi < m.len() {
        m
    } else {
        m + Seq::new((bi + 1 - m.len()) as nat, |i: int| fresh_block_model())
    }
}

/// The store model after a write of `data` at `offset`: the store grows
/// until the target block exists, then that block takes the first
/// `write_count_of(offset, data.len())` input bytes at the intra-block
/// offset and its high-water mark rises over the bytes just written.
pub open spec fn write_result(m: Seq<BlockModel>, offset: nat, data: Seq<u8>) -> Seq<BlockModel> {
    let bi = block_index_of(offset) as int;
    let io = intra_offset_of(offset) as int;
    let count = write_count_of(offset, data.len()) as int;
    let g = grown(m, block_index_of(offset));
    let b = g[bi];
    g.update(
        bi,
        BlockModel {
            bytes: b.bytes.subrange(0, io) + data.take(count) + b.bytes.subrange(
                io + count,
                BLOCK_SIZE as int,
            ),
            valid: if b.valid >= io + count {
                b.valid
            } else {
                (io + count) as nat
            },
        },
    )
}

/// Ordered, growable sequence of blocks forming one logical byte stream.
///
/// All mutation and traversal require exclusive access (`&mut self` or the
/// whole `&self` borrow), which serializes operations just as the single
/// exclusive lock of the data model does; the owning environment decides
/// when each caller gets its turn.
pub struct BlockStore {
    blocks: Vec<Block>,
    block_count: usize,
}

impl View for BlockStore {
    type V = Seq<BlockModel>;

    closed spec fn view(&self) -> Seq<BlockModel> {
        Seq::new(self.blocks@.len(), |i: int| self.blocks@[i]@)
    }
}

impl BlockStore {
    /// The redundant block counter always equals the number of blocks.
    pub closed spec fn counter_matches(self) -> bool {
        self.block_count == self.blocks@.len()
    }

    /// Structure invariant: the counter tracks the sequence and every block
    /// is well formed.
    pub open spec fn wf(self) -> bool {
        &&& self.counter_matches()
        &&& store_wf(self@)
    }

    /// Creates an empty store: no blocks, counter zero.
    pub fn new() -> (s: BlockStore)
        ensures
            s.wf(),
            s@ == Seq::<BlockModel>::empty(),
    {
        let s = BlockStore { blocks: Vec::new(), block_count: 0 };
        proof {
            assert(s@ =~= Seq::<BlockModel>::empty());
        }
        s
    }

    /// Number of blocks currently allocated.
    pub fn block_count(&self) -> (n: usize)
        requires
            self.wf(),
        ensures
            n == self@.len(),
    {
        self.block_count
    }

    /// High-water mark of the block at `index`.
    pub fn block_valid_length(&self, index: usize) -> (n: usize)
        requires
            self.wf(),
            index < self@.len(),
        ensures
            n as nat == self@[index as int].valid,
    {
        self.blocks[index].valid_length()
    }

    /// Reads up to `length` bytes starting at `offset`; an empty result
    /// signals end-of-stream, not an error. A single read never crosses a
    /// block boundary, so callers wanting more re-issue at advancing
    /// offsets.
    pub fn read_at(&self, offset: usize, length: usize) -> (data: Vec<u8>)
        requires
            self.wf(),
        ensures
            data@ == read_result(self@, offset as nat, length as nat),
    {
        let (bi, io) = split_offset(offset);
        if bi >= self.block_count {
            return Vec::new();
        }
        proof {
            assert(block_model_wf(self@[bi as int]));
        }
        let blk = &self.blocks[bi];
        let vl = blk.valid_length();
        if io >= vl {
            return Vec::new();
        }
        let avail = vl - io;
        let count = if length <= avail {
            length
        } else {
            avail
        };
        blk.read_range(io, count)
    }

    /// Writes up to `data.len()` bytes at `offset`, growing the store with
    /// zeroed blocks until the target block exists; returns how many bytes
    /// went into the single target block. A short count tells the caller to
    /// re-issue the remainder at `offset + count`.
    pub fn write_at(&mut self, offset: usize, data: &[u8]) -> (count: usize)
        requires
            old(self).wf(),
        ensures
            final(self).wf(),
            count == write_count_of(offset as nat, data@.len()),
            final(self)@ == write_result(old(self)@, offset as nat, data@),
    {
        let (bi, io) = split_offset(offset);
        let ghost m0 = self@;
        while self.block_count < bi + 1
            invariant
                bi < usize::MAX,
                self.counter_matches(),
                store_wf(self@),
                m0.len() <= self@.len(),
                self@.len() <= if m0.len() >= bi + 1 {
                    m0.len() as int
                } else {
                    bi + 1
                },
                forall|i: int| 0 <= i < m0.len() ==> self@[i] == m0[i],
                forall|i: int| m0.len() <= i < self@.len() ==> self@[i] == fresh_block_model(),
            decreases bi + 1 - self.block_count,
        {
            let ghost prev = self@;
            self.blocks.push(Block::new());
            self.block_count = self.block_count + 1;
            proof {
                assert(self@ =~= prev.push(fresh_block_model()));
            }
        }
        proof {
            assert(self@ =~= grown(m0, bi as nat));
            assert(bi < self@.len());
            assert(block_model_wf(self@[bi as int]));
        }
        let blk = &mut self.blocks[bi];
        let count = blk.write_range(io, data);
        proof {
            assert(intra_offset_of(io as nat) == io as nat);
            assert(self@ =~= write_result(m0, offset as nat, data@));
        }
        count
    }

    /// Discards every block and returns the counter to zero; resetting an
    /// empty store is a no-op.
    pub fn reset(&mut self)
        requires
            old(self).wf(),
        ensures
            final(self).wf(),
            final(self)@ == Seq::<BlockModel>::empty(),
    {
        self.blocks.clear();
        self.block_count = 0;
        proof {
            assert(self@ =~= Seq::<BlockModel>::empty());
        }
    }
}

} // verus!

