use megadrive_alloc::heap::{AllocError, Heap};
use megadrive_alloc::hole::Hole;
use megadrive_alloc::layout::Layout;

fn layout(size: usize, align: usize) -> Layout {
    Layout::from_size_align(size, align).unwrap()
}

fn heap_over(bottom: usize, size: usize) -> Heap {
    let mut heap = Heap::empty();
    heap.init(bottom, size);
    heap
}

fn free_bytes(heap: &Heap) -> usize {
    heap.holes().iter().map(|hole| hole.size).sum()
}

#[test]
fn empty_heap_refuses_every_request() {
    let mut heap = Heap::empty();
    assert_eq!(heap.bottom(), 0);
    assert_eq!(heap.size(), 0);
    assert_eq!(heap.top(), 0);
    assert!(heap.holes().is_empty());
    assert_eq!(heap.allocate_first_fit(layout(1, 1)), Err(AllocError));
    assert_eq!(heap.allocate_first_fit(layout(0, 1)), Err(AllocError));
    assert_eq!(heap.allocate_or_null(layout(8, 8)), 0);
}

#[test]
fn init_records_the_region_as_one_hole() {
    let heap = heap_over(0x1000, 256);
    assert_eq!(heap.bottom(), 0x1000);
    assert_eq!(heap.size(), 256);
    assert_eq!(heap.top(), 0x1100);
    assert_eq!(heap.holes(), &vec![Hole { addr: 0x1000, size: 256 }]);
}

#[test]
fn freed_block_is_reused_before_the_tail() {
    let mut heap = heap_over(0x1000, 256);
    let a0 = heap.allocate_first_fit(layout(32, 1)).unwrap();
    assert_eq!(a0, 0x1000);
    let a1 = heap.allocate_first_fit(layout(32, 1)).unwrap();
    assert_eq!(a1, a0 + 32);
    assert_eq!(heap.holes(), &vec![Hole { addr: 0x1040, size: 192 }]);
    heap.deallocate(a0, layout(32, 1));
    assert_eq!(
        heap.holes(),
        &vec![Hole { addr: 0x1000, size: 32 }, Hole { addr: 0x1040, size: 192 }]
    );
    let a2 = heap.allocate_first_fit(layout(16, 1)).unwrap();
    assert_eq!(a2, a0);
    assert_eq!(
        heap.holes(),
        &vec![Hole { addr: 0x1010, size: 16 }, Hole { addr: 0x1040, size: 192 }]
    );
}

#[test]
fn small_requests_are_rounded_up() {
    let mut heap = heap_over(0x1000, 256);
    assert_eq!(heap.allocate_first_fit(layout(1, 1)), Ok(0x1000));
    assert_eq!(heap.holes(), &vec![Hole { addr: 0x1008, size: 248 }]);
    assert_eq!(heap.allocate_first_fit(layout(0, 1)), Ok(0x1008));
    assert_eq!(heap.holes(), &vec![Hole { addr: 0x1010, size: 240 }]);
    assert_eq!(heap.allocate_first_fit(layout(8, 1)), Ok(0x1010));
    assert_eq!(heap.holes(), &vec![Hole { addr: 0x1018, size: 232 }]);
    assert_eq!(heap.allocate_first_fit(layout(9, 1)), Ok(0x1018));
    assert_eq!(heap.holes(), &vec![Hole { addr: 0x1024, size: 220 }]);
}

#[test]
fn deallocate_rounds_the_size_as_allocate_does() {
    let mut heap = heap_over(0x1000, 256);
    let small = heap.allocate_first_fit(layout(5, 1)).unwrap();
    let odd = heap.allocate_first_fit(layout(13, 1)).unwrap();
    assert_eq!((small, odd), (0x1000, 0x1008));
    assert_eq!(heap.holes(), &vec![Hole { addr: 0x1018, size: 232 }]);
    heap.deallocate(small, layout(5, 1));
    assert_eq!(
        heap.holes(),
        &vec![Hole { addr: 0x1000, size: 8 }, Hole { addr: 0x1018, size: 232 }]
    );
    heap.deallocate(odd, layout(13, 1));
    assert_eq!(heap.holes(), &vec![Hole { addr: 0x1000, size: 256 }]);
}

#[test]
fn aligned_request_starts_at_a_multiple_of_the_alignment() {
    let mut heap = heap_over(0x1008, 248);
    assert_eq!(heap.allocate_first_fit(layout(32, 64)), Ok(0x1040));
    assert_eq!(
        heap.holes(),
        &vec![Hole { addr: 0x1008, size: 56 }, Hole { addr: 0x1060, size: 160 }]
    );
    assert_eq!(heap.allocate_first_fit(layout(8, 16)), Ok(0x1010));
    assert_eq!(
        heap.holes(),
        &vec![
            Hole { addr: 0x1008, size: 8 },
            Hole { addr: 0x1018, size: 40 },
            Hole { addr: 0x1060, size: 160 }
        ]
    );
}

#[test]
fn extend_gives_a_full_heap_one_hole() {
    let mut heap = heap_over(0x1000, 64);
    assert_eq!(heap.allocate_first_fit(layout(64, 1)), Ok(0x1000));
    assert!(heap.holes().is_empty());
    assert_eq!(heap.allocate_first_fit(layout(8, 1)), Err(AllocError));
    let top = heap.top();
    heap.extend(32);
    assert_eq!(heap.holes(), &vec![Hole { addr: top, size: 32 }]);
    assert_eq!(heap.bottom(), 0x1000);
    assert_eq!(heap.size(), 96);
    assert_eq!(heap.top(), 0x1060);
    assert_eq!(heap.allocate_first_fit(layout(32, 1)), Ok(0x1040));
    assert!(heap.holes().is_empty());
}

#[test]
fn extend_by_the_minimal_size_serves_a_minimal_request() {
    let mut heap = heap_over(0x1000, 64);
    assert_eq!(heap.allocate_first_fit(layout(64, 1)), Ok(0x1000));
    heap.extend(8);
    assert_eq!(heap.holes(), &vec![Hole { addr: 0x1040, size: 8 }]);
    assert_eq!(heap.allocate_first_fit(layout(3, 1)), Ok(0x1040));
}

#[test]
fn extend_merges_with_a_hole_that_reaches_the_top() {
    let mut heap = heap_over(0x1000, 64);
    assert_eq!(heap.allocate_first_fit(layout(32, 1)), Ok(0x1000));
    assert_eq!(heap.holes(), &vec![Hole { addr: 0x1020, size: 32 }]);
    heap.extend(64);
    assert_eq!(heap.holes(), &vec![Hole { addr: 0x1020, size: 96 }]);
    assert_eq!(heap.size(), 128);
    assert_eq!(heap.top(), 0x1080);
}

#[test]
fn extend_an_empty_heap() {
    let mut heap = Heap::empty();
    heap.extend(16);
    assert_eq!(heap.holes(), &vec![Hole { addr: 0, size: 16 }]);
    assert_eq!(heap.size(), 16);
    assert_eq!(heap.top(), 16);
}

#[test]
fn request_larger_than_the_heap_fails() {
    let mut heap = heap_over(0x1000, 256);
    assert_eq!(heap.allocate_first_fit(layout(257, 1)), Err(AllocError));
    assert_eq!(heap.allocate_first_fit(layout(4096, 1)), Err(AllocError));
    assert_eq!(heap.holes(), &vec![Hole { addr: 0x1000, size: 256 }]);
    // The whole heap can be had while it is in one piece.
    assert_eq!(heap.allocate_first_fit(layout(256, 1)), Ok(0x1000));
    heap.deallocate(0x1000, layout(256, 1));
    // Break it up.
    let a = heap.allocate_first_fit(layout(64, 1)).unwrap();
    let _b = heap.allocate_first_fit(layout(64, 1)).unwrap();
    let c = heap.allocate_first_fit(layout(64, 1)).unwrap();
    heap.deallocate(a, layout(64, 1));
    heap.deallocate(c, layout(64, 1));
    let holes = heap.holes().clone();
    assert_eq!(
        holes,
        vec![Hole { addr: 0x1000, size: 64 }, Hole { addr: 0x1080, size: 128 }]
    );
    assert_eq!(heap.allocate_first_fit(layout(257, 1)), Err(AllocError));
    assert_eq!(heap.allocate_first_fit(layout(256, 1)), Err(AllocError));
    assert_eq!(heap.allocate_first_fit(layout(129, 1)), Err(AllocError));
    assert_eq!(heap.holes(), &holes);
}

#[test]
fn free_and_allocated_bytes_add_up_to_the_region() {
    let mut heap = heap_over(0x4000, 1024);
    let sizes: [usize; 6] = [16, 40, 8, 128, 24, 64];
    let mut live: Vec<(usize, usize)> = Vec::new();
    let mut allocated: usize = 0;
    for size in sizes {
        let addr = heap.allocate_first_fit(layout(size, 8)).unwrap();
        live.push((addr, size));
        allocated += size;
        assert_eq!(free_bytes(&heap) + allocated, 1024);
    }
    for index in [1usize, 3, 0, 2] {
        let (addr, size) = live[index];
        heap.deallocate(addr, layout(size, 8));
        allocated -= size;
        assert_eq!(free_bytes(&heap) + allocated, 1024);
        let holes = heap.holes();
        for pair in holes.windows(2) {
            assert!(pair[0].addr + pair[0].size < pair[1].addr);
        }
    }
    let (addr, size) = live[4];
    heap.deallocate(addr, layout(size, 8));
    let (addr, size) = live[5];
    heap.deallocate(addr, layout(size, 8));
    assert_eq!(heap.holes(), &vec![Hole { addr: 0x4000, size: 1024 }]);
}

#[test]
fn allocate_or_null_gives_the_address_or_zero() {
    let mut heap = heap_over(0x1000, 64);
    assert_eq!(heap.allocate_or_null(layout(32, 1)), 0x1000);
    assert_eq!(heap.allocate_or_null(layout(64, 1)), 0);
    assert_eq!(heap.holes(), &vec![Hole { addr: 0x1020, size: 32 }]);
    assert_eq!(heap.allocate_or_null(layout(32, 1)), 0x1020);
    assert_eq!(heap.allocate_or_null(layout(1, 1)), 0);
}

#[test]
fn can_deallocate_tells_live_blocks_from_free_memory() {
    let mut heap = heap_over(0x1000, 256);
    let a = heap.allocate_first_fit(layout(32, 1)).unwrap();
    assert!(heap.can_deallocate(a, layout(32, 1)));
    assert!(heap.can_deallocate(a, layout(30, 1)));
    assert!(!heap.can_deallocate(a, layout(33, 1)));
    assert!(!heap.can_deallocate(a + 8, layout(32, 1)));
    assert!(!heap.can_deallocate(0x0800, layout(32, 1)));
    assert!(!heap.can_deallocate(0x1100, layout(32, 1)));
    heap.deallocate(a, layout(32, 1));
    assert!(!heap.can_deallocate(a, layout(32, 1)));
}

#[test]
fn can_extend_asks_for_room_for_a_hole() {
    let heap = heap_over(0x1000, 256);
    assert!(heap.can_extend(8));
    assert!(heap.can_extend(4096));
    assert!(!heap.can_extend(7));
    assert!(!heap.can_extend(0));
    assert!(!heap.can_extend(usize::MAX));
    assert!(heap.can_extend(usize::MAX - 0x1100));
    assert!(!heap.can_extend(usize::MAX - 0x1100 + 1));
}

#[test]
fn rest_below_the_minimal_size_does_not_come_back() {
    let mut heap = heap_over(0x1000, 256);
    assert_eq!(heap.allocate_first_fit(layout(252, 1)), Ok(0x1000));
    assert!(heap.holes().is_empty());
    heap.deallocate(0x1000, layout(252, 1));
    assert_eq!(heap.holes(), &vec![Hole { addr: 0x1000, size: 252 }]);
    assert_eq!(heap.size(), 256);
    assert_eq!(heap.allocate_first_fit(layout(256, 1)), Err(AllocError));
}

#[test]
fn extended_heap_serves_only_what_fits_behind_the_padding() {
    let mut heap = heap_over(0x1000, 64);
    assert_eq!(heap.allocate_first_fit(layout(64, 1)), Ok(0x1000));
    heap.extend(9);
    assert_eq!(heap.holes(), &vec![Hole { addr: 0x1040, size: 9 }]);
    // Nine bytes are asked for, twelve are needed.
    assert_eq!(heap.allocate_first_fit(layout(9, 1)), Err(AllocError));
    // Eight bytes fit, but not at a multiple of 0x80.
    assert_eq!(heap.allocate_first_fit(layout(8, 0x80)), Err(AllocError));
    assert_eq!(heap.allocate_first_fit(layout(8, 0x40)), Ok(0x1040));
}
