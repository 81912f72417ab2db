//! Stream-level laws of the store model.
//!
//! The operation contracts in [`crate::store`] pin each result down exactly;
//! the proof functions here state the consequences a caller relies on:
//! a write makes exactly the written bytes visible at their positions and
//! disturbs no byte outside the written range (so the byte read at a
//! position is the byte last written there), a read yields the visible
//! bytes, an empty store yields nothing, the reported write count never
//! exceeds the input length nor the room left in the target block, and a
//! write leaves the target block allocated.

use vstd::prelude::*;

use vstd::arithmetic::div_mod::lemma_fundamental_div_mod;
use vstd::arithmetic::div_mod::lemma_fundamental_div_mod_converse;
use vstd::arithmetic::div_mod::lemma_mod_division_less_than_divisor;

use crate::block::BlockModel;
use crate::block::block_model_wf;
use crate::block::fresh_block_model;
use crate::BLOCK_SIZE;
use crate::block_index_of;
use crate::intra_offset_of;
use crate::store::byte_at;
use crate::store::grown;
use crate::store::read_result;
use crate::store::store_wf;
use crate::store::write_result;
use crate::write_count_of;

verus! {

/// The intra-block offset always fits inside a block.
pub proof fn lemma_intra_offset_bound(offset: nat)
    ensures
        intra_offset_of(offset) < BLOCK_SIZE,
{
    lemma_mod_division_less_than_divisor(offset as int, BLOCK_SIZE as int);
}

/// A position at distance `pos - offset` from `offset`, still inside the
/// block of `offset`, has the same block index and a shifted intra-block
/// offset.
proof fn lemma_offset_shift(offset: nat, pos: nat)
    requires
        offset <= pos,
        intra_offset_of(offset) + (pos - offset) < BLOCK_SIZE,
    ensures
        block_index_of(pos) == block_index_of(offset),
        intra_offset_of(pos) == intra_offset_of(offset) + (pos - offset),
{
    let bs = BLOCK_SIZE as int;
    let bi = block_index_of(offset) as int;
    let io = intra_offset_of(offset) as int;
    lemma_fundamental_div_mod(offset as int, bs);
    lemma_fundamental_div_mod_converse(pos as int, bs, bi, io + (pos - offset));
}

/// Two positions inside the same block are exactly their intra-block
/// offsets apart.
proof fn lemma_same_block_distance(a: nat, b: nat)
    requires
        block_index_of(a) == block_index_of(b),
    ensures
        a - b == intra_offset_of(a) - intra_offset_of(b),
{
    let bs = BLOCK_SIZE as int;
    lemma_fundamental_div_mod(a as int, bs);
    lemma_fundamental_div_mod(b as int, bs);
}

/// Growing a model appends well-formed fresh blocks after the existing ones
/// and makes the target index exist.
proof fn lemma_grown_shape(m: Seq<BlockModel>, bi: nat)
    requires
        store_wf(m),
    ensures
        store_wf(grown(m, bi)),
        grown(m, bi).len() == if m.len() >= bi + 1 {
            m.len() as int
        } else {
            (bi + 1) as int
        },
        bi < grown(m, bi).len(),
        forall|i: int| 0 <= i < m.len() ==> grown(m, bi)[i] == m[i],
        forall|i: int|
            m.len() <= i < grown(m, bi).len() ==> grown(m, bi)[i] == fresh_block_model(),
{
    assert(block_model_wf(fresh_block_model()));
}

/// The write count never exceeds the input length nor the room left in the
/// target block after the intra-block offset.
pub proof fn lemma_write_count_bound(offset: nat, len: nat)
    ensures
        write_count_of(offset, len) <= len,
        write_count_of(offset, len) <= BLOCK_SIZE - intra_offset_of(offset),
{
    lemma_intra_offset_bound(offset);
}

/// A write leaves the store exactly large enough to hold the target block:
/// afterwards the block count exceeds `offset / BLOCK_SIZE`.
pub proof fn lemma_write_grows_store(m: Seq<BlockModel>, offset: nat, data: Seq<u8>)
    ensures
        write_result(m, offset, data).len() == if m.len() >= block_index_of(offset) + 1 {
            m.len() as int
        } else {
            (block_index_of(offset) + 1) as int
        },
        write_result(m, offset, data).len() > block_index_of(offset),
{
}

/// Every operation leaves the model well formed; in particular a write
/// keeps each block one block long with its high-water mark inside it.
pub proof fn lemma_write_preserves_wf(m: Seq<BlockModel>, offset: nat, data: Seq<u8>)
    requires
        store_wf(m),
    ensures
        store_wf(write_result(m, offset, data)),
{
    let bi = block_index_of(offset);
    let io = intra_offset_of(offset) as int;
    let count = write_count_of(offset, data.len()) as int;
    lemma_intra_offset_bound(offset);
    lemma_grown_shape(m, bi);
    let g = grown(m, bi);
    let m2 = write_result(m, offset, data);
    assert(block_model_wf(g[bi as int]));
    assert(m2[bi as int].bytes.len() == BLOCK_SIZE);
    assert(forall|i: int| 0 <= i < m2.len() ==> block_model_wf(#[trigger] m2[i]));
}

/// A read yields exactly the visible bytes: byte `j` of the result is the
/// byte at position `offset + j` of the stream.
pub proof fn lemma_read_agrees_with_byte_at(m: Seq<BlockModel>, offset: nat, length: nat, j: nat)
    requires
        store_wf(m),
        j < read_result(m, offset, length).len(),
    ensures
        byte_at(m, offset + j) == Some(read_result(m, offset, length)[j as int]),
{
    let bi = block_index_of(offset) as int;
    let io = intra_offset_of(offset);
    assert(bi < m.len() && io < m[bi].valid);
    assert(block_model_wf(m[bi]));
    lemma_offset_shift(offset, offset + j);
}

/// The bytes covered by a write become the bytes visible at their
/// positions: position `pos` of the stream afterwards shows input byte
/// `pos - offset`.
pub proof fn lemma_write_defines_written_bytes(
    m: Seq<BlockModel>,
    offset: nat,
    data: Seq<u8>,
    pos: nat,
)
    requires
        store_wf(m),
        offset <= pos < offset + write_count_of(offset, data.len()),
    ensures
        byte_at(write_result(m, offset, data), pos) == Some(data[pos - offset]),
{
    let bi = block_index_of(offset);
    let io = intra_offset_of(offset) as int;
    let count = write_count_of(offset, data.len()) as int;
    lemma_intra_offset_bound(offset);
    lemma_grown_shape(m, bi);
    lemma_write_count_bound(offset, data.len());
    lemma_offset_shift(offset, pos);
    let g = grown(m, bi);
    let m2 = write_result(m, offset, data);
    assert(block_model_wf(g[bi as int]));
    let iop = io + (pos - offset);
    assert(m2[bi as int].bytes[iop] == data.take(count)[iop - io]);
}

/// A write disturbs nothing outside the written range: every byte that was
/// visible at a position the write does not cover is still visible there,
/// unchanged. Together with the previous law this makes the byte at each
/// position the byte last written there.
pub proof fn lemma_write_preserves_other_bytes(
    m: Seq<BlockModel>,
    offset: nat,
    data: Seq<u8>,
    pos: nat,
)
    requires
        store_wf(m),
        pos < offset || pos >= offset + write_count_of(offset, data.len()),
        byte_at(m, pos) is Some,
    ensures
        byte_at(write_result(m, offset, data), pos) == byte_at(m, pos),
{
    let bi = block_index_of(offset);
    let io = intra_offset_of(offset) as int;
    let count = write_count_of(offset, data.len()) as int;
    let bp = block_index_of(pos) as int;
    let iop = intra_offset_of(pos) as int;
    lemma_intra_offset_bound(offset);
    lemma_intra_offset_bound(pos);
    lemma_grown_shape(m, bi);
    lemma_write_count_bound(offset, data.len());
    let g = grown(m, bi);
    let m2 = write_result(m, offset, data);
    assert(bp < m.len() && iop < m[bp].valid);
    assert(block_model_wf(m[bp]));
    if bp == bi {
        lemma_same_block_distance(pos, offset);
        assert(iop < io || iop >= io + count);
        assert(m2[bp].bytes[iop] == m[bp].bytes[iop]);
    } else {
        assert(m2[bp] == m[bp]);
    }
}

/// Reading back a completed write returns the written bytes: after
/// `write_at(offset, data)` reported `count`, a read of `count` bytes at
/// `offset` yields the first `count` input bytes.
pub proof fn lemma_write_then_read(m: Seq<BlockModel>, offset: nat, data: Seq<u8>)
    requires
        store_wf(m),
    ensures
        ({
            let count = write_count_of(offset, data.len());
            read_result(write_result(m, offset, data), offset, count) == data.take(count as int)
        }),
{
    let bi = block_index_of(offset) as int;
    let io = intra_offset_of(offset) as int;
    let count = write_count_of(offset, data.len()) as int;
    lemma_intra_offset_bound(offset);
    lemma_grown_shape(m, block_index_of(offset));
    lemma_write_count_bound(offset, data.len());
    let g = grown(m, block_index_of(offset));
    let m2 = write_result(m, offset, data);
    assert(block_model_wf(g[bi]));
    assert(bi < m2.len());
    if count == 0 {
        assert(read_result(m2, offset, count as nat) =~= data.take(0));
    } else {
        assert(io < m2[bi].valid);
        assert(m2[bi].valid - io >= count);
        assert(m2[bi].bytes.subrange(io, io + count) =~= data.take(count));
    }
}

/// A read on the empty model yields nothing, whatever the offset and
/// length: after a reset, every read signals end-of-stream.
pub proof fn lemma_read_on_empty(offset: nat, length: nat)
    ensures
        read_result(Seq::<BlockModel>::empty(), offset, length) == Seq::<u8>::empty(),
{
}

/// One write request: `data` offered at logical position `offset`.
pub struct WriteOp {
    pub offset: nat,
    pub data: Seq<u8>,
}

/// Whether the write `op` places a byte at position `pos`: the positions it
/// covers are the ones its reported count spans.
pub open spec fn op_covers(op: WriteOp, pos: nat) -> bool {
    op.offset <= pos < op.offset + write_count_of(op.offset, op.data.len())
}

/// The model after a whole sequence of writes, applied in order.
pub open spec fn apply_writes(m: Seq<BlockModel>, ops: Seq<WriteOp>) -> Seq<BlockModel>
    decreases ops.len(),
{
    if ops.len() == 0 {
        m
    } else {
        apply_writes(write_result(m, ops[0].offset, ops[0].data), ops.skip(1))
    }
}

/// A sequence of writes leaves the model well formed.
pub proof fn lemma_writes_preserve_wf(m: Seq<BlockModel>, ops: Seq<WriteOp>)
    requires
        store_wf(m),
    ensures
        store_wf(apply_writes(m, ops)),
    decreases ops.len(),
{
    if ops.len() > 0 {
        lemma_write_preserves_wf(m, ops[0].offset, ops[0].data);
        lemma_writes_preserve_wf(write_result(m, ops[0].offset, ops[0].data), ops.skip(1));
    }
}

/// A visible byte survives any sequence of writes none of which covers its
/// position.
pub proof fn lemma_uncovered_byte_survives(m: Seq<BlockModel>, ops: Seq<WriteOp>, pos: nat)
    requires
        store_wf(m),
        byte_at(m, pos) is Some,
        forall|j: int| 0 <= j < ops.len() ==> !op_covers(#[trigger] ops[j], pos),
    ensures
        byte_at(apply_writes(m, ops), pos) == byte_at(m, pos),
    decreases ops.len(),
{
    if ops.len() > 0 {
        let m1 = write_result(m, ops[0].offset, ops[0].data);
        lemma_write_preserves_other_bytes(m, ops[0].offset, ops[0].data, pos);
        lemma_write_preserves_wf(m, ops[0].offset, ops[0].data);
        lemma_uncovered_byte_survives(m1, ops.skip(1), pos);
    }
}

/// Last-writer-wins over a whole sequence of writes: when write `k` covers
/// position `pos` and no later write does, the byte visible at `pos`
/// afterwards is the byte write `k` placed there.
pub proof fn lemma_last_writer_wins(m: Seq<BlockModel>, ops: Seq<WriteOp>, k: int, pos: nat)
    requires
        store_wf(m),
        0 <= k < ops.len(),
        op_covers(ops[k], pos),
        forall|j: int| k < j < ops.len() ==> !op_covers(#[trigger] ops[j], pos),
    ensures
        byte_at(apply_writes(m, ops), pos) == Some(ops[k].data[pos - ops[k].offset]),
    decreases ops.len(),
{
    let m1 = write_result(m, ops[0].offset, ops[0].data);
    lemma_write_preserves_wf(m, ops[0].offset, ops[0].data);
    if k == 0 {
        lemma_write_defines_written_bytes(m, ops[0].offset, ops[0].data, pos);
        assert(forall|j: int|
            0 <= j < ops.skip(1).len() ==> !op_covers(#[trigger] ops.skip(1)[j], pos));
        lemma_uncovered_byte_survives(m1, ops.skip(1), pos);
    } else {
        assert(forall|j: int|
            k - 1 < j < ops.skip(1).len() ==> !op_covers(#[trigger] ops.skip(1)[j], pos));
        assert(ops.skip(1)[k - 1] == ops[k]);
        lemma_last_writer_wins(m1, ops.skip(1), k - 1, pos);
    }
}

} // verus!

