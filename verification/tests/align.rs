use megadrive_alloc::heap::{align_down, align_up};

#[test]
fn align_down_clears_the_low_bits() {
    assert_eq!(align_down(0x1237, 16), 0x1230);
    assert_eq!(align_down(0x1230, 16), 0x1230);
    assert_eq!(align_down(0x123f, 16), 0x1230);
    assert_eq!(align_down(7, 8), 0);
    assert_eq!(align_down(usize::MAX, 2), usize::MAX - 1);
}

#[test]
fn align_down_by_one_or_zero_keeps_the_address() {
    assert_eq!(align_down(77, 1), 77);
    assert_eq!(align_down(77, 0), 77);
    assert_eq!(align_down(0, 0), 0);
}

#[test]
fn align_up_reaches_the_next_multiple() {
    assert_eq!(align_up(0x1231, 16), 0x1240);
    assert_eq!(align_up(0x1240, 16), 0x1240);
    assert_eq!(align_up(0x123f, 16), 0x1240);
    assert_eq!(align_up(5, 4), 8);
    assert_eq!(align_up(0, 4), 0);
    assert_eq!(align_up(9, 1), 9);
}

#[test]
fn align_up_at_the_end_of_the_address_space() {
    let last = usize::MAX - 7;
    assert_eq!(align_up(last, 8), last);
    assert_eq!(align_up(last - 3, 8), last);
}

#[test]
fn align_up_by_zero_steps_back_by_one() {
    assert_eq!(align_up(5, 0), 4);
    assert_eq!(align_up(1, 0), 0);
}

#[test]
fn align_up_and_down_bracket_the_address() {
    let mut addr: usize = 0x0ff0;
    while addr < 0x1030 {
        let down = align_down(addr, 32);
        let up = align_up(addr, 32);
        assert_eq!(down % 32, 0);
        assert_eq!(up % 32, 0);
        assert!(down <= addr && addr <= up);
        assert!(addr - down < 32 && up - addr < 32);
        addr += 1;
    }
}
