use megadrive_alloc::layout::{Layout, LayoutError};

#[test]
fn layout_keeps_size_and_alignment() {
    let layout = Layout::from_size_align(32, 8).unwrap();
    assert_eq!(layout.size(), 32);
    assert_eq!(layout.align(), 8);
    let nothing = Layout::from_size_align(0, 1).unwrap();
    assert_eq!(nothing.size(), 0);
    assert_eq!(nothing.align(), 1);
}

#[test]
fn layout_refuses_an_alignment_that_is_no_power_of_two() {
    assert_eq!(Layout::from_size_align(8, 0), Err(LayoutError));
    assert_eq!(Layout::from_size_align(8, 3), Err(LayoutError));
    assert_eq!(Layout::from_size_align(8, 6), Err(LayoutError));
    assert_eq!(Layout::from_size_align(8, 12), Err(LayoutError));
    assert!(Layout::from_size_align(8, 1).is_ok());
    assert!(Layout::from_size_align(8, 2).is_ok());
    assert!(Layout::from_size_align(8, 4096).is_ok());
}

#[test]
fn layout_refuses_a_size_that_rounds_up_beyond_the_limit() {
    let limit = isize::MAX as usize;
    assert!(Layout::from_size_align(limit, 1).is_ok());
    assert_eq!(Layout::from_size_align(limit, 2), Err(LayoutError));
    assert_eq!(Layout::from_size_align(limit + 1, 1), Err(LayoutError));
    assert!(Layout::from_size_align(limit - 7, 8).is_ok());
    assert_eq!(Layout::from_size_align(limit - 6, 8), Err(LayoutError));
    assert_eq!(Layout::from_size_align(usize::MAX, 1), Err(LayoutError));
}
