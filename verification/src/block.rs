//! A single fixed-capacity block: one `BLOCK_SIZE`-byte buffer together with
//! the high-water mark of bytes that have actually been written.

use vstd::prelude::*;

use crate::BLOCK_SIZE;
use crate::write_count_of;

verus! {

/// Mathematical model of one block: the full buffer contents and the number
/// of leading bytes that have been written (`valid`).
#[verifier::ext_equal]
pub struct BlockModel {
    pub bytes: Seq<u8>,
    pub valid: nat,
}

/// A block model is well formed when the buffer spans exactly one block and
/// the high-water mark stays inside it.
pub open spec fn block_model_wf(b: BlockModel) -> bool {
    &&& b.bytes.len() == BLOCK_SIZE
    &&& b.valid <= BLOCK_SIZE
}

/// The model of a freshly allocated block: a zeroed buffer with no valid
/// bytes.
pub open spec fn fresh_block_model() -> BlockModel {
    BlockModel { bytes: Seq::new(BLOCK_SIZE as nat, |i: int| 0u8), valid: 0 }
}

/// Fixed-capacity byte buffer with a high-water mark of valid bytes.
pub struct Block {
    data: Vec<u8>,
    valid_length: usize,
}

impl View for Block {
    type V = BlockModel;

    closed spec fn view(&self) -> BlockModel {
        BlockModel { bytes: self.data@, valid: self.valid_length as nat }
    }
}

impl Block {
    /// Structure invariant, stated over the model.
    pub open spec fn wf(self) -> bool {
        block_model_wf(self@)
    }

    /// Allocates a zeroed block with no valid bytes.
    pub fn new() -> (b: Block)
        ensures
            b.wf(),
            b@ == fresh_block_model(),
    {
        let mut data: Vec<u8> = Vec::new();
        let mut i: usize = 0;
        while i < BLOCK_SIZE
            invariant
                i <= BLOCK_SIZE,
                data@ == Seq::new(i as nat, |k: int| 0u8),
            decreases BLOCK_SIZE - i,
        {
            data.push(0);
            i = i + 1;
            proof {
                assert(data@ =~= Seq::new(i as nat, |k: int| 0u8));
            }
        }
        let b = Block { data, valid_length: 0 };
        proof {
            assert(b@ =~= fresh_block_model());
        }
        b
    }

    /// Number of bytes of the buffer that have been written.
    pub fn valid_length(&self) -> (n: usize)
        ensures
            n as nat == self@.valid,
    {
        self.valid_length
    }

    /// Copies the buffer bytes `[start, start + count)` out of the block.
    pub fn read_range(&self, start: usize, count: usize) -> (out: Vec<u8>)
        requires
            self.wf(),
            start + count <= BLOCK_SIZE,
        ensures
            out@ == self@.bytes.subrange(start as int, start + count),
    {
        let mut out: Vec<u8> = Vec::new();
        let mut k: usize = 0;
        while k < count
            invariant
                self.wf(),
                start + count <= BLOCK_SIZE,
                k <= count,
                out@ == self@.bytes.subrange(start as int, start + k),
            decreases count - k,
        {
            out.push(self.data[start + k]);
            k = k + 1;
            proof {
                assert(out@ =~= self@.bytes.subrange(start as int, start + k));
            }
        }
        out
    }

    /// Copies as many input bytes as fit into the buffer starting at `start`
    /// and raises the high-water mark over the bytes just written; returns
    /// how many bytes were placed.
    pub fn write_range(&mut self, start: usize, data: &[u8]) -> (count: usize)
        requires
            old(self).wf(),
            start < BLOCK_SIZE,
        ensures
            final(self).wf(),
            count == write_count_of(start as nat, data@.len()),
            final(self)@.bytes == old(self)@.bytes.subrange(0, start as int) + data@.take(
                count as int,
            ) + old(self)@.bytes.subrange(start + count, BLOCK_SIZE as int),
            final(self)@.valid == if old(self)@.valid >= start + count {
                old(self)@.valid
            } else {
                (start + count) as nat
            },
    {
        let room = BLOCK_SIZE - start;
        let count = if data.len() <= room {
            data.len()
        } else {
            room
        };
        proof {
            assert(start as nat % (BLOCK_SIZE as nat) == start as nat);
            assert(count == write_count_of(start as nat, data@.len()));
        }
        let ghost pre = self@;
        let mut k: usize = 0;
        while k < count
            invariant
                k <= count,
                count <= data@.len(),
                start + count <= BLOCK_SIZE,
                pre.bytes.len() == BLOCK_SIZE,
                self@.bytes.len() == BLOCK_SIZE,
                self@.valid == pre.valid,
                forall|i: int| 0 <= i < start ==> self@.bytes[i] == pre.bytes[i],
                forall|i: int| 0 <= i < k ==> self@.bytes[start + i] == data@[i],
                forall|i: int| start + k <= i < BLOCK_SIZE ==> self@.bytes[i] == pre.bytes[i],
            decreases count - k,
        {
            self.data[start + k] = data[k];
            k = k + 1;
        }
        if self.valid_length < start + count {
            self.valid_length = start + count;
        }
        proof {
            assert(self@.bytes =~= pre.bytes.subrange(0, start as int) + data@.take(count as int)
                + pre.bytes.subrange(start + count, BLOCK_SIZE as int));
        }
        count
    }
}

} // verus!
