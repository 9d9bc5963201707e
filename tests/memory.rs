use parcel_build::memory::{pack_addr, unpack_addr, Arena, PageAllocator, Slab, PAGE_SIZE};

#[allow(dead_code)]
struct Test {
    foo: u32,
    bar: u32,
}

#[test]
fn test_slab() {
    let mut heap = PageAllocator::new();
    let mut arena = Arena::new();
    let mut slab = Slab::<Test>::new();
    let addr1 = slab.allocate(&mut arena, &mut heap, 5);
    assert_eq!(addr1, 0);
    let addr2 = slab.allocate(&mut arena, &mut heap, 2);
    assert_eq!(addr2, 40);
    slab.dealloc(addr1, 5);
    let addr = slab.allocate(&mut arena, &mut heap, 1);
    assert_eq!(addr, 32);
    slab.dealloc(addr2, 2);
    let addr = slab.allocate(&mut arena, &mut heap, 4);
    assert_eq!(addr, 0);
}

#[test]
fn slab_round_trip_returns_freed_address() {
    let mut heap = PageAllocator::new();
    let mut arena = Arena::new();
    let mut slab = Slab::<Test>::new();
    let _ = slab.allocate(&mut arena, &mut heap, 3);
    let a = slab.allocate(&mut arena, &mut heap, 7);
    slab.dealloc(a, 7);
    assert_eq!(slab.allocate(&mut arena, &mut heap, 7), a);
}

#[test]
fn pack_and_unpack_addresses() {
    assert_eq!(pack_addr(3, 16), 3 * 65536 + 16);
    assert_eq!(unpack_addr(3 * 65536 + 16), (3, 16));
    assert_eq!(unpack_addr(0xffff_ffff), (0xffff, 0xffff));
    assert_eq!(pack_addr(1, 0x1_0008), 65536 + 8);
}

#[test]
fn arena_rounds_and_bumps() {
    let mut heap = PageAllocator::new();
    let mut arena = Arena::new();
    assert_eq!(arena.allocate(&mut heap, 5), 0);
    assert_eq!(arena.allocate(&mut heap, 1), 8);
    assert_eq!(heap.page_count(), 1);
    assert_eq!(heap.get_page(0).len(), PAGE_SIZE);
    // 16 + 65528 does not fit the first page.
    assert_eq!(arena.allocate(&mut heap, 65528), 65536);
    assert_eq!(heap.page_count(), 2);
}

#[test]
fn arena_allocations_are_aligned_and_addressable() {
    let mut heap = PageAllocator::new();
    let mut arena = Arena::new();
    for size in [1u32, 7, 8, 13, 100, 4000] {
        let a = arena.allocate(&mut heap, size);
        let (_, offset) = unpack_addr(a);
        assert_eq!(offset % 8, 0);
        let bytes = heap.get_slice(a, size as usize);
        assert_eq!(bytes.len(), size as usize);
        assert!(bytes.iter().all(|b| *b == 0));
    }
}

#[test]
fn arena_dealloc_pops_only_the_last_allocation() {
    let mut heap = PageAllocator::new();
    let mut arena = Arena::new();
    let a = arena.allocate(&mut heap, 16);
    let b = arena.allocate(&mut heap, 5);
    assert_eq!((a, b), (0, 16));
    arena.dealloc(b, 5);
    assert_eq!(arena.allocate(&mut heap, 8), 16);
    arena.dealloc(a, 16);
    assert_eq!(arena.allocate(&mut heap, 8), 24);
}

#[test]
fn page_allocator_grows_large_pages() {
    let mut heap = PageAllocator::new();
    assert_eq!(heap.alloc_page(10), 0);
    assert_eq!(heap.alloc_page(70000), 1);
    assert_eq!(heap.get_page(0).len(), 65536);
    assert_eq!(heap.get_page(1).len(), 70000);
}

#[test]
fn arena_dealloc_of_oversized_release_is_a_no_op() {
    let mut heap = PageAllocator::new();
    let mut arena = Arena::new();
    assert_eq!(arena.allocate(&mut heap, 8), 0);
    arena.dealloc(0, u32::MAX);
    assert_eq!(arena.allocate(&mut heap, 8), 8);
}
