use megadrive_alloc::heap::AllocError;
use megadrive_alloc::hole::{split_hole, Allocation, Hole, HoleList, HOLE_ALIGN, MIN_SIZE};

fn hole(addr: usize, size: usize) -> Hole {
    Hole { addr, size }
}

/// Holes of 8, 64 and 16 bytes in ascending address order, with blocks that
/// are handed out between them.
fn three_holes() -> HoleList {
    let mut list = HoleList::new(0x1000, 256);
    let a = list.allocate_first_fit(8, 1).unwrap();
    let _gap = list.allocate_first_fit(8, 1).unwrap();
    let b = list.allocate_first_fit(64, 1).unwrap();
    let _gap = list.allocate_first_fit(8, 1).unwrap();
    let c = list.allocate_first_fit(16, 1).unwrap();
    let _rest = list.allocate_first_fit(152, 1).unwrap();
    assert!(list.holes().is_empty());
    list.deallocate(a, 8);
    list.deallocate(b, 64);
    list.deallocate(c, 16);
    list
}

#[test]
fn minimal_block_size_holds_two_words() {
    assert_eq!(HoleList::min_size(), 8);
    assert_eq!(MIN_SIZE, 8);
    assert_eq!(HOLE_ALIGN, 4);
}

#[test]
fn new_list_holds_the_region_as_one_hole() {
    let list = HoleList::new(0x2000, 128);
    assert_eq!(list.holes(), &vec![hole(0x2000, 128)]);
}

#[test]
fn empty_list_serves_nothing() {
    let mut list = HoleList::empty();
    assert!(list.holes().is_empty());
    assert_eq!(list.allocate_first_fit(8, 1), Err(AllocError));
    assert!(list.holes().is_empty());
}

#[test]
fn blocks_are_handed_out_in_address_order() {
    let mut list = HoleList::new(0x1000, 256);
    assert_eq!(list.allocate_first_fit(8, 1), Ok(0x1000));
    assert_eq!(list.allocate_first_fit(8, 1), Ok(0x1008));
    assert_eq!(list.allocate_first_fit(64, 1), Ok(0x1010));
    assert_eq!(list.holes(), &vec![hole(0x1050, 176)]);
}

#[test]
fn first_fit_takes_the_lowest_hole_that_fits_not_the_tightest() {
    let mut list = three_holes();
    assert_eq!(
        list.holes(),
        &vec![hole(0x1000, 8), hole(0x1010, 64), hole(0x1058, 16)]
    );
    assert_eq!(list.allocate_first_fit(16, 1), Ok(0x1010));
    assert_eq!(
        list.holes(),
        &vec![hole(0x1000, 8), hole(0x1020, 48), hole(0x1058, 16)]
    );
}

#[test]
fn request_that_fits_nowhere_leaves_the_list_alone() {
    let mut list = three_holes();
    assert_eq!(list.allocate_first_fit(65, 1), Err(AllocError));
    assert_eq!(
        list.holes(),
        &vec![hole(0x1000, 8), hole(0x1010, 64), hole(0x1058, 16)]
    );
}

#[test]
fn exact_fit_removes_the_hole() {
    let mut list = three_holes();
    assert_eq!(list.allocate_first_fit(64, 1), Ok(0x1010));
    assert_eq!(list.holes(), &vec![hole(0x1000, 8), hole(0x1058, 16)]);
}

#[test]
fn adjacent_blocks_merge_lower_first() {
    let mut list = HoleList::new(0x1000, 256);
    let x = list.allocate_first_fit(32, 1).unwrap();
    let y = list.allocate_first_fit(32, 1).unwrap();
    let _rest = list.allocate_first_fit(192, 1).unwrap();
    assert_eq!(y, x + 32);
    list.deallocate(x, 32);
    assert_eq!(list.holes(), &vec![hole(0x1000, 32)]);
    list.deallocate(y, 32);
    assert_eq!(list.holes(), &vec![hole(0x1000, 64)]);
}

#[test]
fn adjacent_blocks_merge_upper_first() {
    let mut list = HoleList::new(0x1000, 256);
    let x = list.allocate_first_fit(32, 1).unwrap();
    let y = list.allocate_first_fit(32, 1).unwrap();
    let _rest = list.allocate_first_fit(192, 1).unwrap();
    list.deallocate(y, 32);
    assert_eq!(list.holes(), &vec![hole(0x1020, 32)]);
    list.deallocate(x, 32);
    assert_eq!(list.holes(), &vec![hole(0x1000, 64)]);
}

#[test]
fn adjacent_blocks_merge_like_their_union() {
    let mut one = three_holes();
    let mut two = three_holes();
    let mut whole = three_holes();
    // The blocks at 0x1050 (8 bytes) and 0x1058.. are taken; 0x1008 is taken.
    // Between the holes at 0x1010 and 0x1058 lies the block at 0x1050.
    // Take the 64-byte hole apart into two blocks and give them back.
    let low = one.allocate_first_fit(32, 1).unwrap();
    let high = one.allocate_first_fit(32, 1).unwrap();
    assert_eq!((low, high), (0x1010, 0x1030));
    assert_eq!(two.allocate_first_fit(64, 1), Ok(0x1010));
    assert_eq!(whole.allocate_first_fit(64, 1), Ok(0x1010));
    one.deallocate(low, 32);
    one.deallocate(high, 32);
    two.deallocate(0x1030, 32);
    two.deallocate(0x1010, 32);
    whole.deallocate(0x1010, 64);
    assert_eq!(one.holes(), whole.holes());
    assert_eq!(two.holes(), whole.holes());
    assert_eq!(
        whole.holes(),
        &vec![hole(0x1000, 8), hole(0x1010, 64), hole(0x1058, 16)]
    );
}

#[test]
fn allocate_then_free_restores_the_list() {
    let mut list = three_holes();
    let before = list.holes().clone();
    let first = list.allocate_first_fit(16, 1).unwrap();
    assert_ne!(list.holes(), &before);
    list.deallocate(first, 16);
    assert_eq!(list.holes(), &before);
    let second = list.allocate_first_fit(16, 1).unwrap();
    assert_eq!(second, first);
    assert_eq!(
        list.holes(),
        &vec![hole(0x1000, 8), hole(0x1020, 48), hole(0x1058, 16)]
    );
}

#[test]
fn freed_blocks_merge_with_the_holes_they_touch() {
    let mut list = HoleList::new(0x1000, 256);
    let a = list.allocate_first_fit(16, 1).unwrap();
    let b = list.allocate_first_fit(16, 1).unwrap();
    let c = list.allocate_first_fit(16, 1).unwrap();
    let d = list.allocate_first_fit(16, 1).unwrap();
    let e = list.allocate_first_fit(16, 1).unwrap();
    assert_eq!((a, b, c, d, e), (0x1000, 0x1010, 0x1020, 0x1030, 0x1040));
    assert_eq!(list.holes(), &vec![hole(0x1050, 176)]);
    // In front of every hole.
    list.deallocate(a, 16);
    assert_eq!(list.holes(), &vec![hole(0x1000, 16), hole(0x1050, 176)]);
    // Between two holes, touching neither.
    list.deallocate(c, 16);
    assert_eq!(
        list.holes(),
        &vec![hole(0x1000, 16), hole(0x1020, 16), hole(0x1050, 176)]
    );
    // Touching the hole behind it.
    list.deallocate(e, 16);
    assert_eq!(
        list.holes(),
        &vec![hole(0x1000, 16), hole(0x1020, 16), hole(0x1040, 192)]
    );
    // Touching the holes on both sides.
    list.deallocate(b, 16);
    assert_eq!(list.holes(), &vec![hole(0x1000, 48), hole(0x1040, 192)]);
    list.deallocate(d, 16);
    assert_eq!(list.holes(), &vec![hole(0x1000, 256)]);
}

#[test]
fn freed_block_behind_the_last_hole_merges_with_it() {
    let mut list = HoleList::new(0x1000, 64);
    list.deallocate(0x1040, 32);
    assert_eq!(list.holes(), &vec![hole(0x1000, 96)]);
    list.deallocate(0x1080, 32);
    assert_eq!(list.holes(), &vec![hole(0x1000, 96), hole(0x1080, 32)]);
}

#[test]
fn rest_too_small_to_keep_is_given_up() {
    let mut list = HoleList::new(0x1000, 64);
    assert_eq!(list.allocate_first_fit(60, 1), Ok(0x1000));
    assert!(list.holes().is_empty());
    list.deallocate(0x1000, 60);
    assert_eq!(list.holes(), &vec![hole(0x1000, 60)]);
}

#[test]
fn alignment_leaves_a_hole_in_front_of_the_block() {
    let mut list = HoleList::new(0x1008, 248);
    assert_eq!(list.allocate_first_fit(32, 64), Ok(0x1040));
    assert_eq!(list.holes(), &vec![hole(0x1008, 56), hole(0x1060, 160)]);
    list.deallocate(0x1040, 32);
    assert_eq!(list.holes(), &vec![hole(0x1008, 248)]);
}

#[test]
fn padding_too_small_to_keep_is_given_up() {
    let mut list = HoleList::new(0x1004, 252);
    assert_eq!(list.allocate_first_fit(16, 8), Ok(0x1008));
    assert_eq!(list.holes(), &vec![hole(0x1018, 232)]);
    list.deallocate(0x1008, 16);
    assert_eq!(list.holes(), &vec![hole(0x1008, 248)]);
}

#[test]
fn alignment_can_rule_a_hole_out() {
    let mut list = three_holes();
    // The first hole is too small, and the others hold no multiple of 0x80.
    assert_eq!(list.allocate_first_fit(16, 0x80), Err(AllocError));
    // The first multiple of 0x40 lies in the second hole, at 0x1040.
    assert_eq!(list.allocate_first_fit(16, 0x40), Ok(0x1040));
    assert_eq!(
        list.holes(),
        &vec![hole(0x1000, 8), hole(0x1010, 48), hole(0x1058, 16)]
    );
}

#[test]
fn split_hole_reports_block_and_paddings() {
    assert_eq!(
        split_hole(hole(0x1000, 64), 64, 1),
        Some(Allocation {
            info: hole(0x1000, 64),
            front_padding: None,
            back_padding: None,
        })
    );
    assert_eq!(
        split_hole(hole(0x1008, 248), 32, 64),
        Some(Allocation {
            info: hole(0x1040, 32),
            front_padding: Some(hole(0x1008, 56)),
            back_padding: Some(hole(0x1060, 160)),
        })
    );
    assert_eq!(
        split_hole(hole(0x1000, 64), 56, 1),
        Some(Allocation {
            info: hole(0x1000, 56),
            front_padding: None,
            back_padding: Some(hole(0x1038, 8)),
        })
    );
}

#[test]
fn split_hole_drops_parts_below_the_minimal_size() {
    assert_eq!(
        split_hole(hole(0x1004, 64), 57, 4),
        Some(Allocation {
            info: hole(0x1004, 57),
            front_padding: None,
            back_padding: None,
        })
    );
    assert_eq!(
        split_hole(hole(0x1004, 252), 16, 8),
        Some(Allocation {
            info: hole(0x1008, 16),
            front_padding: None,
            back_padding: Some(hole(0x1018, 232)),
        })
    );
}

#[test]
fn split_hole_refuses_a_block_that_does_not_fit() {
    assert_eq!(split_hole(hole(0x1000, 64), 65, 1), None);
    assert_eq!(split_hole(hole(0x1004, 8), 8, 8), None);
    assert_eq!(split_hole(hole(0x1004, 8), 8, 0x1000), None);
    assert_eq!(split_hole(hole(usize::MAX - 14, 14), 8, 16), None);
    assert_eq!(split_hole(hole(0x1000, 64), usize::MAX, 1), None);
}

#[test]
fn releasable_blocks_share_no_byte_with_a_hole() {
    let mut list = HoleList::new(0x1000, 256);
    let _a = list.allocate_first_fit(32, 1).unwrap();
    let b = list.allocate_first_fit(32, 1).unwrap();
    list.deallocate(0x1000, 32);
    assert_eq!(list.holes(), &vec![hole(0x1000, 32), hole(0x1040, 192)]);
    assert!(list.is_releasable(b, 32));
    assert!(list.is_releasable(0x1020, 8));
    assert!(list.is_releasable(0x1038, 8));
    assert!(!list.is_releasable(0x1020, 33));
    assert!(!list.is_releasable(0x1018, 16));
    assert!(!list.is_releasable(0x1000, 32));
    assert!(!list.is_releasable(0x1020, 4));
    assert!(!list.is_releasable(usize::MAX - 3, 8));
    assert!(list.is_releasable(0x2000, 8));
}
