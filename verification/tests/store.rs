use blockstore::BLOCK_SIZE;
use blockstore::block::Block;
use blockstore::split_offset;
use blockstore::store::BlockStore;

#[test]
fn split_offset_translates_addresses() {
    assert_eq!(split_offset(0), (0, 0));
    assert_eq!(split_offset(511), (0, 511));
    assert_eq!(split_offset(512), (1, 0));
    assert_eq!(split_offset(1300), (2, 276));
}

#[test]
fn new_store_is_empty() {
    let s = BlockStore::new();
    assert_eq!(s.block_count(), 0);
}

#[test]
fn read_on_empty_store_is_end_of_stream() {
    let s = BlockStore::new();
    assert_eq!(s.read_at(0, 1), Vec::<u8>::new());
    assert_eq!(s.read_at(700, 64), Vec::<u8>::new());
}

#[test]
fn write_reports_room_capped_count() {
    let mut s = BlockStore::new();
    // Room from the intra-block offset caps the count.
    let big = vec![0xabu8; 600];
    assert_eq!(s.write_at(100, &big), 412);
    // The input length caps the count when it fits.
    let small = vec![1u8, 2, 3];
    assert_eq!(s.write_at(0, &small), 3);
    // One byte of room at the end of a block.
    assert_eq!(s.write_at(511, &small), 1);
}

#[test]
fn write_allocates_through_target_block() {
    let mut s = BlockStore::new();
    s.write_at(0, &[9u8]);
    assert!(s.block_count() > 0);
    assert_eq!(s.block_count(), 1);
    s.write_at(5 * BLOCK_SIZE + 17, &[9u8]);
    assert!(s.block_count() > 5);
    assert_eq!(s.block_count(), 6);
}

#[test]
fn empty_write_still_grows_the_store() {
    let mut s = BlockStore::new();
    assert_eq!(s.write_at(2 * BLOCK_SIZE, &[]), 0);
    assert_eq!(s.block_count(), 3);
    assert_eq!(s.block_valid_length(2), 0);
}

#[test]
fn read_is_capped_by_valid_bytes() {
    let mut s = BlockStore::new();
    s.write_at(0, &[1u8, 2, 3, 4]);
    assert_eq!(s.read_at(0, 100), vec![1u8, 2, 3, 4]);
    // Reading past the high-water mark of a partially filled block.
    assert_eq!(s.read_at(4, 10), Vec::<u8>::new());
    assert_eq!(s.read_at(2, 1), vec![3u8]);
}

#[test]
fn read_never_crosses_a_block_boundary() {
    let mut s = BlockStore::new();
    let first = vec![5u8; BLOCK_SIZE];
    s.write_at(0, &first);
    s.write_at(BLOCK_SIZE, &[6u8, 6]);
    let got = s.read_at(500, 200);
    assert_eq!(got.len(), 12);
    assert!(got.iter().all(|&b| b == 5));
}

#[test]
fn last_write_wins_at_each_position() {
    let mut s = BlockStore::new();
    s.write_at(0, &[1u8, 1, 1, 1, 1, 1]);
    s.write_at(2, &[7u8, 8]);
    s.write_at(5, &[9u8]);
    assert_eq!(s.read_at(0, 6), vec![1u8, 1, 7, 8, 1, 9]);
}

#[test]
fn overwrite_keeps_high_water_mark() {
    let mut s = BlockStore::new();
    s.write_at(0, &[1u8, 2, 3, 4, 5, 6, 7, 8]);
    s.write_at(0, &[9u8, 9]);
    assert_eq!(s.block_valid_length(0), 8);
    assert_eq!(s.read_at(0, 8), vec![9u8, 9, 3, 4, 5, 6, 7, 8]);
}

#[test]
fn reset_then_read_is_empty() {
    let mut s = BlockStore::new();
    s.write_at(0, &[1u8, 2, 3]);
    s.write_at(3 * BLOCK_SIZE, &[4u8]);
    s.reset();
    assert_eq!(s.block_count(), 0);
    for n in [1usize, 2, 10, 512, 4096] {
        assert_eq!(s.read_at(0, n), Vec::<u8>::new());
    }
}

#[test]
fn reset_on_empty_store_is_a_no_op() {
    let mut s = BlockStore::new();
    s.reset();
    assert_eq!(s.block_count(), 0);
    s.reset();
    assert_eq!(s.block_count(), 0);
}

#[test]
fn block_starts_zeroed_and_tracks_writes() {
    let mut b = Block::new();
    assert_eq!(b.valid_length(), 0);
    assert_eq!(b.read_range(0, 4), vec![0u8, 0, 0, 0]);
    assert_eq!(b.write_range(1, &[3u8, 4]), 2);
    assert_eq!(b.valid_length(), 3);
    assert_eq!(b.read_range(0, 4), vec![0u8, 3, 4, 0]);
    assert_eq!(b.write_range(510, &[8u8, 8, 8]), 2);
    assert_eq!(b.valid_length(), BLOCK_SIZE);
}
