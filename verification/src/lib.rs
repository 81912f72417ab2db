//! A growable, block-chunked byte store.
//!
//! The store presents a linear, randomly-addressable byte stream backed by a
//! dynamically growing ordered sequence of fixed-size blocks. Callers read
//! and write one block's worth of bytes at a time and re-issue short
//! operations at advancing offsets; an explicit reset discards every block.
//!
//! Exclusive access: every externally visible operation works on the whole
//! store through `&self` or `&mut self`, so Rust's borrow rules serialize
//! mutation and traversal exactly as a single coarse-grained lock would.
//! The owning environment decides when an operation may run (and may cancel
//! a caller that is still waiting for access); once an operation runs, it
//! runs to completion with no partial interleaving.

use vstd::prelude::*;

pub mod block;
pub mod lemmas;
pub mod store;

verus! {

/// Number of payload bytes in every block.
pub const BLOCK_SIZE: usize = 512;

/// Index of the block that covers logical position `offset`: block `k` holds
/// the bytes at `[k * BLOCK_SIZE, (k + 1) * BLOCK_SIZE)`.
pub open spec fn block_index_of(offset: nat) -> nat {
    offset / (BLOCK_SIZE as nat)
}

/// Position of logical `offset` inside its block.
pub open spec fn intra_offset_of(offset: nat) -> nat {
    offset % (BLOCK_SIZE as nat)
}

/// Number of bytes a single write of `len` bytes at `offset` places in the
/// target block: the room left after the intra-block offset, capped by `len`.
pub open spec fn write_count_of(offset: nat, len: nat) -> nat {
    let room = (BLOCK_SIZE as nat) - intra_offset_of(offset);
    if len <= room {
        len
    } else {
        room as nat
    }
}

/// Pure address translation: splits a logical offset into the target block
/// index and the offset inside that block.
pub fn split_offset(offset: usize) -> (r: (usize, usize))
    ensures
        r.0 == block_index_of(offset as nat),
        r.1 == intra_offset_of(offset as nat),
        r.1 < BLOCK_SIZE,
        r.0 <= offset,
{
    (offset / BLOCK_SIZE, offset % BLOCK_SIZE)
}

} // verus!
