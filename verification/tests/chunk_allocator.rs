use boot_memory::chunk_allocator::ChunkAllocator;
use boot_memory::error::ErrorKind;

/// The chunks that the allocator reports as used, lowest first.
fn used_chunks(allocator: &ChunkAllocator) -> Vec<usize> {
    (0..allocator.chunk_count()).filter(|chunk| allocator.is_used(*chunk)).collect()
}

#[test]
fn init_clears_the_bitmap() {
    let mut bitmap = [0xffu8; 2];
    let allocator = ChunkAllocator::init(4096, &mut bitmap, 256);
    assert_eq!(allocator.chunk_size(), 256);
    assert_eq!(allocator.chunk_count(), 16);
    assert_eq!(allocator.capacity(), 4096);
    assert_eq!(allocator.bitmap(), &[0, 0]);
    assert_eq!(used_chunks(&allocator), Vec::<usize>::new());
}

#[test]
fn request_of_300_bytes_takes_two_chunks() {
    let mut bitmap = [0u8; 2];
    let mut allocator = ChunkAllocator::init(4096, &mut bitmap, 256);
    assert_eq!(allocator.allocate(300, 1), Ok((0, 2)));
    assert_eq!(used_chunks(&allocator), vec![0, 1]);
    assert_eq!(allocator.bitmap(), &[0b0000_0011, 0]);
}

#[test]
fn chunk_is_a_bit_counted_from_the_low_end() {
    let mut bitmap = [0u8; 2];
    {
        let mut allocator = ChunkAllocator::init(4096, &mut bitmap, 256);
        assert_eq!(allocator.allocate(256 * 9, 1), Ok((0, 9)));
        assert_eq!(allocator.deallocate(256, 256 * 2), Ok(()));
        assert_eq!(used_chunks(&allocator), vec![0, 3, 4, 5, 6, 7, 8]);
    }
    assert_eq!(bitmap, [0b1111_1001, 0b0000_0001]);
}

#[test]
fn chunks_are_counted_by_rounding_up() {
    let mut bitmap = [0u8; 2];
    let mut allocator = ChunkAllocator::init(4096, &mut bitmap, 256);
    assert_eq!(allocator.allocate(1, 1), Ok((0, 1)));
    assert_eq!(allocator.allocate(256, 1), Ok((256, 1)));
    assert_eq!(allocator.allocate(257, 1), Ok((512, 2)));
    assert_eq!(allocator.allocate(768, 1), Ok((1024, 3)));
    assert_eq!(used_chunks(&allocator), vec![0, 1, 2, 3, 4, 5, 6]);
}

#[test]
fn sixteen_chunks_can_be_had_and_no_more() {
    let mut bitmap = [0u8; 2];
    let mut allocator = ChunkAllocator::init(4096, &mut bitmap, 256);
    for chunk in 0..16 {
        assert_eq!(allocator.allocate(256, 1), Ok((chunk * 256, 1)));
    }
    assert_eq!(allocator.bitmap(), &[0xff, 0xff]);
    assert_eq!(allocator.allocate(256, 1), Err(ErrorKind::OutOfMemory));
    assert_eq!(allocator.allocate(1, 1), Err(ErrorKind::OutOfMemory));
    assert_eq!(allocator.bitmap(), &[0xff, 0xff]);
}

#[test]
fn whole_heap_does_not_fit_beside_one_chunk() {
    let mut bitmap = [0u8; 2];
    let mut allocator = ChunkAllocator::init(4096, &mut bitmap, 256);
    assert_eq!(allocator.allocate(10, 1), Ok((0, 1)));
    assert_eq!(used_chunks(&allocator), vec![0]);
    assert_eq!(allocator.allocate(4096, 1), Err(ErrorKind::OutOfMemory));
    assert_eq!(used_chunks(&allocator), vec![0]);
    assert_eq!(allocator.allocate(15 * 256, 1), Ok((256, 15)));
}

#[test]
fn whole_heap_fits_when_all_is_free() {
    let mut bitmap = [0u8; 2];
    let mut allocator = ChunkAllocator::init(4096, &mut bitmap, 256);
    assert_eq!(allocator.allocate(4096, 1), Ok((0, 16)));
    assert_eq!(allocator.allocate(4097, 1), Err(ErrorKind::OutOfMemory));
}

#[test]
fn request_larger_than_the_heap_fails() {
    let mut bitmap = [0u8; 2];
    let mut allocator = ChunkAllocator::init(4096, &mut bitmap, 256);
    assert_eq!(allocator.allocate(4097, 1), Err(ErrorKind::OutOfMemory));
    assert_eq!(allocator.allocate(usize::MAX, 1), Err(ErrorKind::OutOfMemory));
    assert_eq!(used_chunks(&allocator), Vec::<usize>::new());
}

#[test]
fn first_fit_takes_the_lowest_run_that_is_long_enough() {
    let mut bitmap = [0u8; 2];
    let mut allocator = ChunkAllocator::init(4096, &mut bitmap, 256);
    assert_eq!(allocator.allocate(16 * 256, 1), Ok((0, 16)));
    // Free runs: one chunk at 1, two at 4, three at 8.
    assert_eq!(allocator.deallocate(256, 256), Ok(()));
    assert_eq!(allocator.deallocate(4 * 256, 512), Ok(()));
    assert_eq!(allocator.deallocate(8 * 256, 768), Ok(()));
    assert_eq!(allocator.allocate(512, 1), Ok((4 * 256, 2)));
    assert_eq!(allocator.allocate(512, 1), Ok((8 * 256, 2)));
    assert_eq!(allocator.allocate(512, 1), Err(ErrorKind::OutOfMemory));
    assert_eq!(allocator.allocate(256, 1), Ok((256, 1)));
    assert_eq!(allocator.allocate(256, 1), Ok((10 * 256, 1)));
}

#[test]
fn offset_is_a_multiple_of_the_alignment() {
    let mut bitmap = [0u8; 2];
    let mut allocator = ChunkAllocator::init(4096, &mut bitmap, 256);
    assert_eq!(allocator.allocate(1, 1), Ok((0, 1)));
    assert_eq!(allocator.allocate(1, 1024), Ok((1024, 1)));
    assert_eq!(allocator.allocate(1, 512), Ok((512, 1)));
    assert_eq!(allocator.allocate(1, 512), Ok((1536, 1)));
    assert_eq!(allocator.allocate(1, 4096), Err(ErrorKind::OutOfMemory));
    assert_eq!(used_chunks(&allocator), vec![0, 2, 4, 6]);
}

#[test]
fn alignment_need_not_be_a_power_of_two() {
    let mut bitmap = [0u8; 2];
    let mut allocator = ChunkAllocator::init(4096, &mut bitmap, 256);
    assert_eq!(allocator.allocate(1, 1), Ok((0, 1)));
    // 768 is the first multiple of 3 among the chunk offsets after 0.
    assert_eq!(allocator.allocate(1, 3), Ok((768, 1)));
}

#[test]
fn alignment_smaller_than_a_chunk_always_holds() {
    let mut bitmap = [0u8; 2];
    let mut allocator = ChunkAllocator::init(4096, &mut bitmap, 256);
    assert_eq!(allocator.allocate(1, 8), Ok((0, 1)));
    assert_eq!(allocator.allocate(1, 64), Ok((256, 1)));
    assert_eq!(allocator.allocate(1, 256), Ok((512, 1)));
}

#[test]
fn request_of_no_bytes_takes_no_chunk() {
    let mut bitmap = [0u8; 2];
    let mut allocator = ChunkAllocator::init(4096, &mut bitmap, 256);
    assert_eq!(allocator.allocate(256, 1), Ok((0, 1)));
    assert_eq!(allocator.allocate(0, 1), Ok((0, 0)));
    assert_eq!(used_chunks(&allocator), vec![0]);
    assert_eq!(allocator.deallocate(0, 0), Ok(()));
    assert_eq!(used_chunks(&allocator), vec![0]);
}

#[test]
fn release_after_request_restores_the_bitmap() {
    let mut bitmap = [0u8; 2];
    let mut allocator = ChunkAllocator::init(4096, &mut bitmap, 256);
    assert_eq!(allocator.allocate(700, 1), Ok((0, 3)));
    let before = allocator.bitmap().to_vec();
    let (offset, _) = allocator.allocate(300, 1).unwrap();
    assert_ne!(allocator.bitmap(), &before[..]);
    assert_eq!(allocator.deallocate(offset, 300), Ok(()));
    assert_eq!(allocator.bitmap(), &before[..]);
}

#[test]
fn matching_releases_in_any_order_restore_the_bitmap() {
    let mut bitmap = [0u8; 2];
    let mut allocator = ChunkAllocator::init(4096, &mut bitmap, 256);
    assert_eq!(allocator.allocate(256, 1), Ok((0, 1)));
    let before = allocator.bitmap().to_vec();
    let (a, _) = allocator.allocate(300, 1).unwrap();
    let (b, _) = allocator.allocate(1000, 1).unwrap();
    assert_eq!(allocator.deallocate(a, 300), Ok(()));
    let (c, _) = allocator.allocate(10, 512).unwrap();
    let (d, _) = allocator.allocate(600, 1).unwrap();
    assert_eq!(allocator.deallocate(d, 600), Ok(()));
    assert_eq!(allocator.deallocate(b, 1000), Ok(()));
    assert_eq!(allocator.deallocate(c, 10), Ok(()));
    assert_eq!(allocator.bitmap(), &before[..]);
    assert_eq!(used_chunks(&allocator), vec![0]);
}

#[test]
fn live_allocations_do_not_overlap() {
    let mut bitmap = [0u8; 2];
    let mut allocator = ChunkAllocator::init(4096, &mut bitmap, 256);
    let sizes = [300, 1, 512, 700, 256, 1000];
    let mut live: Vec<(usize, usize)> = Vec::new();
    for size in sizes {
        let (offset, chunks) = allocator.allocate(size, 1).unwrap();
        live.push((offset / 256, chunks));
    }
    for (i, (first_a, count_a)) in live.iter().enumerate() {
        for (first_b, count_b) in live.iter().skip(i + 1) {
            assert!(first_a + count_a <= *first_b || first_b + count_b <= *first_a);
        }
    }
    let total: usize = live.iter().map(|(_, count)| count).sum();
    assert_eq!(used_chunks(&allocator).len(), total);
}

#[test]
fn adjacent_free_runs_merge() {
    let mut bitmap = [0u8; 2];
    let mut allocator = ChunkAllocator::init(4096, &mut bitmap, 256);
    assert_eq!(allocator.allocate(8 * 256, 1), Ok((0, 8)));
    assert_eq!(allocator.allocate(8 * 256, 1), Ok((8 * 256, 8)));
    assert_eq!(allocator.deallocate(0, 8 * 256), Ok(()));
    assert_eq!(allocator.deallocate(8 * 256, 8 * 256), Ok(()));
    assert_eq!(allocator.allocate(4096, 1), Ok((0, 16)));
}

#[test]
fn release_at_an_offset_off_the_chunk_boundary_is_refused() {
    let mut bitmap = [0u8; 2];
    let mut allocator = ChunkAllocator::init(4096, &mut bitmap, 256);
    assert_eq!(allocator.allocate(512, 1), Ok((0, 2)));
    assert_eq!(allocator.deallocate(1, 256), Err(ErrorKind::InvalidFree));
    assert_eq!(allocator.deallocate(255, 1), Err(ErrorKind::InvalidFree));
    assert_eq!(used_chunks(&allocator), vec![0, 1]);
}

#[test]
fn release_of_a_free_range_is_refused() {
    let mut bitmap = [0u8; 2];
    let mut allocator = ChunkAllocator::init(4096, &mut bitmap, 256);
    assert_eq!(allocator.deallocate(0, 256), Err(ErrorKind::InvalidFree));
    assert_eq!(allocator.allocate(256, 1), Ok((0, 1)));
    assert_eq!(allocator.deallocate(0, 256), Ok(()));
    assert_eq!(allocator.deallocate(0, 256), Err(ErrorKind::InvalidFree));
}

#[test]
fn release_of_a_range_that_is_partly_free_is_refused() {
    let mut bitmap = [0u8; 2];
    let mut allocator = ChunkAllocator::init(4096, &mut bitmap, 256);
    assert_eq!(allocator.allocate(512, 1), Ok((0, 2)));
    assert_eq!(allocator.deallocate(0, 768), Err(ErrorKind::InvalidFree));
    assert_eq!(allocator.deallocate(256, 512), Err(ErrorKind::InvalidFree));
    assert_eq!(used_chunks(&allocator), vec![0, 1]);
}

#[test]
fn release_beyond_the_heap_is_refused() {
    let mut bitmap = [0u8; 2];
    let mut allocator = ChunkAllocator::init(4096, &mut bitmap, 256);
    assert_eq!(allocator.allocate(4096, 1), Ok((0, 16)));
    assert_eq!(allocator.deallocate(4096, 256), Err(ErrorKind::InvalidFree));
    assert_eq!(allocator.deallocate(15 * 256, 512), Err(ErrorKind::InvalidFree));
    assert_eq!(allocator.deallocate(0, usize::MAX), Err(ErrorKind::InvalidFree));
    assert_eq!(allocator.deallocate(usize::MAX - 255, 256), Err(ErrorKind::InvalidFree));
    assert_eq!(allocator.bitmap(), &[0xff, 0xff]);
}

#[test]
fn release_clears_exactly_the_range() {
    let mut bitmap = [0u8; 2];
    let mut allocator = ChunkAllocator::init(4096, &mut bitmap, 256);
    assert_eq!(allocator.allocate(4096, 1), Ok((0, 16)));
    assert_eq!(allocator.deallocate(5 * 256, 300), Ok(()));
    assert_eq!(used_chunks(&allocator), vec![0, 1, 2, 3, 4, 7, 8, 9, 10, 11, 12, 13, 14, 15]);
}

#[test]
fn bits_left_over_in_the_last_byte_stay_clear() {
    let mut bitmap = [0xffu8; 2];
    let mut allocator = ChunkAllocator::init(10 * 64, &mut bitmap, 64);
    assert_eq!(allocator.chunk_count(), 10);
    assert_eq!(allocator.allocate(640, 1), Ok((0, 10)));
    assert_eq!(allocator.bitmap(), &[0xff, 0b0000_0011]);
    assert!(!allocator.is_used(10));
    assert!(!allocator.is_used(15));
    assert!(!allocator.is_used(1000));
    assert_eq!(allocator.allocate(1, 1), Err(ErrorKind::OutOfMemory));
}

#[test]
fn heap_of_no_chunks_grants_nothing() {
    let mut bitmap: [u8; 0] = [];
    let mut allocator = ChunkAllocator::init(0, &mut bitmap, 4096);
    assert_eq!(allocator.chunk_count(), 0);
    assert_eq!(allocator.allocate(1, 1), Err(ErrorKind::OutOfMemory));
    assert_eq!(allocator.deallocate(0, 1), Err(ErrorKind::InvalidFree));
}

#[test]
fn chunks_of_one_byte() {
    let mut bitmap = [0u8; 1];
    let mut allocator = ChunkAllocator::init(8, &mut bitmap, 1);
    assert_eq!(allocator.allocate(3, 1), Ok((0, 3)));
    assert_eq!(allocator.allocate(2, 4), Ok((4, 2)));
    assert_eq!(allocator.allocate(1, 1), Ok((3, 1)));
    assert_eq!(allocator.bitmap(), &[0b0011_1111]);
}

#[test]
fn layout_is_checked_before_init() {
    assert!(ChunkAllocator::layout_is_valid(4096, 2, 256));
    assert!(ChunkAllocator::layout_is_valid(640, 2, 64));
    assert!(ChunkAllocator::layout_is_valid(0, 0, 4096));
    assert!(ChunkAllocator::layout_is_valid(8, 1, 1));
    // The chunk size is no power of two.
    assert!(!ChunkAllocator::layout_is_valid(4096, 2, 0));
    assert!(!ChunkAllocator::layout_is_valid(300, 1, 100));
    assert!(!ChunkAllocator::layout_is_valid(4098, 86, 6));
    // The chunk size does not divide the heap.
    assert!(!ChunkAllocator::layout_is_valid(4000, 2, 256));
    // The bitmap is too short or too long.
    assert!(!ChunkAllocator::layout_is_valid(4096, 1, 256));
    assert!(!ChunkAllocator::layout_is_valid(4096, 3, 256));
    assert!(!ChunkAllocator::layout_is_valid(640, 1, 64));
}
