//! End-to-end scenarios: a caller that re-issues short reads and writes at
//! advancing offsets, sparse growth, and reset back to the initial state.

use blockstore::BLOCK_SIZE;
use blockstore::store::BlockStore;

#[test]
fn spill_into_second_block_round_trips() {
    let mut s = BlockStore::new();
    let input: Vec<u8> = (0..600u32).map(|i| (i % 251) as u8).collect();

    // A 600-byte write fills block 0 only and reports a short count.
    let first = s.write_at(0, &input);
    assert_eq!(first, 512);
    assert_eq!(BLOCK_SIZE, 512);

    // The caller re-issues the remaining 88 bytes at the advanced offset.
    let second = s.write_at(512, &input[512..]);
    assert_eq!(second, 88);

    // Reading back takes the same two steps.
    let head = s.read_at(0, 600);
    assert_eq!(head.len(), 512);
    assert_eq!(head, &input[..512]);
    let tail = s.read_at(512, 88);
    assert_eq!(tail.len(), 88);
    assert_eq!(tail, &input[512..]);
}

#[test]
fn read_on_fresh_store_signals_end_of_stream() {
    let s = BlockStore::new();
    assert_eq!(s.read_at(0, 10), Vec::<u8>::new());
    assert_eq!(s.block_count(), 0);
}

#[test]
fn sparse_write_fills_the_gap_with_empty_blocks() {
    let mut s = BlockStore::new();
    let bytes = [1u8, 2, 3, 4, 5, 6, 7, 8, 9, 10];
    assert_eq!(s.write_at(1024, &bytes), 10);
    assert!(s.block_count() >= 3);
    assert_eq!(s.block_valid_length(0), 0);
    assert_eq!(s.block_valid_length(1), 0);
    assert_eq!(s.block_valid_length(2), 10);
    // The gap blocks hold no readable bytes.
    assert_eq!(s.read_at(0, 10), Vec::<u8>::new());
    assert_eq!(s.read_at(512, 10), Vec::<u8>::new());
    assert_eq!(s.read_at(1024, 10), bytes.to_vec());
}

#[test]
fn reset_restores_initial_behaviour() {
    let mut used = BlockStore::new();
    used.write_at(0, &[1u8; 100]);
    used.write_at(512, &[2u8; 512]);
    used.write_at(2048, &[3u8; 7]);
    used.reset();

    let mut fresh = BlockStore::new();
    assert_eq!(used.block_count(), fresh.block_count());

    // The same write sequence now behaves identically on both stores.
    let payload: Vec<u8> = (0..40u8).collect();
    assert_eq!(used.write_at(0, &payload), fresh.write_at(0, &payload));
    assert_eq!(used.write_at(700, &payload), fresh.write_at(700, &payload));
    assert_eq!(used.block_count(), fresh.block_count());
    for i in 0..used.block_count() {
        assert_eq!(used.block_valid_length(i), fresh.block_valid_length(i));
    }
    assert_eq!(used.read_at(0, 40), fresh.read_at(0, 40));
    assert_eq!(used.read_at(700, 40), fresh.read_at(700, 40));
}
