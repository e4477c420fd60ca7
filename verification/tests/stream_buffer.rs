//! Stream-table buffer protocol: chain shapes, payload round trips, and
//! free-stack behaviour.

use norostb_core::stream::{Buffer, Buffers};

#[test]
fn chain_of_600_bytes_with_256_byte_blocks() {
    // 600 bytes at block size 256: one index block plus three data blocks.
    let mut b = Buffers::new(16, 256);
    assert_eq!(b.free_len(), 16);
    let d = b.allocate(600).unwrap();
    assert_eq!(d.len(), 600);
    let data_blocks = b.blocks(d.offset() as u32, 600).unwrap();
    assert_eq!(data_blocks.len(), 3);
    assert_eq!(b.free_len(), 16 - 4);
}

#[test]
fn stream_table_round_trip() {
    // Copy the pattern 0..600 in, read bytes 200..300 back, deallocate:
    // the free stack returns to its initial size.
    let mut b = Buffers::new(16, 256);
    let initial_free = b.free_len();
    let d = b.allocate(600).unwrap();
    let pattern: Vec<u8> = (0..600u32).map(|i| (i % 256) as u8).collect();
    d.copy_from(&mut b, 0, &pattern);
    let back = d.copy_to(&b, 200, 100);
    let expect: Vec<u8> = (200..300u32).map(|i| (i % 256) as u8).collect();
    assert_eq!(back, expect);
    d.manual_drop(&mut b);
    assert_eq!(b.free_len(), initial_free);
}

#[test]
fn free_stack_duality_restores_the_head() {
    // After one allocation and its reverse deallocation, the next
    // allocation starts from the same block as the first did.
    let mut b = Buffers::new(16, 256);
    let d = b.allocate(600).unwrap();
    let first_offset = d.offset();
    d.manual_drop(&mut b);
    assert_eq!(b.free_len(), 16);
    let d2 = b.allocate(600).unwrap();
    assert_eq!(d2.offset(), first_offset);
    d2.manual_drop(&mut b);
}

#[test]
fn repeated_duality_restores_the_head_each_round() {
    // Three allocations, then their deallocations in reverse order: after
    // each drop the next allocation starts where the dropped one did, and
    // at the end the free stack is back to its full size.
    let mut b = Buffers::new(32, 256);
    let a1 = b.allocate(600).unwrap();
    let a2 = b.allocate(100).unwrap();
    let a3 = b.allocate(300).unwrap();
    let (o1, o2, o3) = (a1.offset(), a2.offset(), a3.offset());
    a3.manual_drop(&mut b);
    a2.manual_drop(&mut b);
    a1.manual_drop(&mut b);
    assert_eq!(b.free_len(), 32);
    let r1 = b.allocate(600).unwrap();
    let r2 = b.allocate(100).unwrap();
    let r3 = b.allocate(300).unwrap();
    assert_eq!((r1.offset(), r2.offset(), r3.offset()), (o1, o2, o3));
    r3.manual_drop(&mut b);
    r2.manual_drop(&mut b);
    r1.manual_drop(&mut b);
}

#[test]
fn single_block_and_empty_payloads() {
    let mut b = Buffers::new(8, 256);
    let d = b.allocate(100).unwrap();
    assert_eq!(d.len(), 100);
    assert_eq!(b.blocks(d.offset() as u32, 100).unwrap().len(), 1);
    assert_eq!(b.free_len(), 7);
    d.manual_drop(&mut b);
    assert_eq!(b.free_len(), 8);

    let z = b.allocate(0).unwrap();
    assert_eq!(z.len(), 0);
    assert_eq!(b.free_len(), 8);
    z.manual_drop(&mut b);
    assert_eq!(b.free_len(), 8);
}

#[test]
fn allocation_is_atomic_when_blocks_run_out() {
    // 600 bytes need four blocks; with two free the allocation fails and
    // takes nothing.
    let mut b = Buffers::new(2, 256);
    assert!(b.allocate(600).is_none());
    assert_eq!(b.free_len(), 2);
    // a single block still fits
    let d = b.allocate(10).unwrap();
    assert_eq!(b.free_len(), 1);
    d.manual_drop(&mut b);
}

#[test]
fn get_bounds_checks_peer_slices() {
    let mut b = Buffers::new(4, 256);
    // an offset past the region is rejected
    assert!(b.get(100, 10).is_none());
    // a valid single-block slice is accepted
    let d = b.allocate(50).unwrap();
    let got = b.get(d.offset() as u32, 50).unwrap();
    assert_eq!(got.offset(), d.offset());
    assert_eq!(got.len(), 50);
    d.manual_drop(&mut b);
}

#[test]
fn copy_round_trip_within_one_block() {
    let mut b = Buffers::new(4, 256);
    let d = b.allocate(32).unwrap();
    let msg: Vec<u8> = (0..32u8).collect();
    d.copy_from(&mut b, 0, &msg);
    assert_eq!(d.copy_to(&b, 0, 32), msg);
    assert_eq!(d.copy_to(&b, 10, 5), (10..15u8).collect::<Vec<u8>>());
    d.manual_drop(&mut b);
}

#[test]
fn chunked_block_walks() {
    let mut blk = Buffer::zeroed(10);
    for i in 0..10 {
        blk.set_byte(i, i as u8);
    }
    let mut chunks = blk.array_chunks(4);
    assert_eq!(chunks.next(), Some(vec![0, 1, 2, 3]));
    assert_eq!(chunks.next(), Some(vec![4, 5, 6, 7]));
    assert_eq!(chunks.next(), None);
    assert_eq!(chunks.remainder(), vec![8, 9]);
}

#[test]
fn block_reads_and_writes() {
    let mut blk = Buffer::zeroed(64);
    assert_eq!(blk.len(), 64);
    blk.write_word(3, 0xdead_beef);
    assert_eq!(blk.read_word(3), 0xdead_beef);
    assert_eq!(blk.byte(0), 0);
    blk.set_byte(0, 7);
    assert_eq!(blk.byte(0), 7);
    blk.copy_from(8, &vec![1, 2, 3]);
    assert_eq!(blk.copy_to(8, 3), vec![1, 2, 3]);
}
