use calyx::math_utilities::get_bit_width_from;

#[test]
fn bit_widths() {
    assert_eq!(get_bit_width_from(0), 0);
    assert_eq!(get_bit_width_from(1), 1);
    assert_eq!(get_bit_width_from(2), 2);
    assert_eq!(get_bit_width_from(3), 2);
    assert_eq!(get_bit_width_from(4), 3);
    assert_eq!(get_bit_width_from(7), 3);
    assert_eq!(get_bit_width_from(8), 4);
    assert_eq!(get_bit_width_from(255), 8);
    assert_eq!(get_bit_width_from(256), 9);
    assert_eq!(get_bit_width_from(u64::MAX), 64);
    assert_eq!(get_bit_width_from(1u64 << 63), 64);
}
