use bye_nanoflann::memalloc::PooledAllocator;

#[test]
fn test_pooled_allocator() {
    let mut allocator = PooledAllocator::new();

    let vec_u32: Vec<u32> = allocator.allocate(10);
    assert_eq!(vec_u32.len(), 10);

    let req_size = 100;
    let expected_size = (req_size + 15) & !15;
    let vec_u8: Vec<u8> = allocator.malloc(req_size);
    assert_eq!(vec_u8.len(), expected_size);

    allocator.free_all();
    assert_eq!(allocator.used_memory, 0);
    assert_eq!(allocator.wasted_memory, 0);
}

#[test]
fn test_large_allocation() {
    let mut allocator = PooledAllocator::new();

    let req_size = 9000;
    let expected_size = (req_size + 15) & !15;
    let large_vec: Vec<u8> = allocator.malloc(req_size);
    assert_eq!(large_vec.len(), expected_size);

    allocator.free_all();
    assert_eq!(allocator.used_memory, 0);
    assert_eq!(allocator.wasted_memory, 0);
}

#[test]
fn requests_share_a_block_until_it_is_full() {
    let mut allocator = PooledAllocator::new();
    assert_eq!(allocator.malloc(1).len(), 16);
    assert_eq!(allocator.malloc(16).len(), 16);
    assert_eq!(allocator.malloc(0).len(), 0);
    assert_eq!(allocator.used_memory, 32);
    assert_eq!(allocator.wasted_memory, 0);
    // 32 + 8176 = 8208 > 8192: a new block, and 8160 bytes of the old one are wasted.
    assert_eq!(allocator.malloc(8170).len(), 8176);
    assert_eq!(allocator.used_memory, 32 + 8176);
    assert_eq!(allocator.wasted_memory, 8192 - 32);
    assert!(allocator.malloc(5).iter().all(|&b| b == 0));
}

#[test]
fn allocate_counts_bytes_of_the_type() {
    let mut allocator = PooledAllocator::new();
    let v: Vec<u64> = allocator.allocate(3);
    assert_eq!(v, vec![0, 0, 0]);
    assert_eq!(allocator.used_memory, 32);
}
