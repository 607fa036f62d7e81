use ton_utils::bits::leading_zero_count;

#[test]
fn zero_has_thirty_two_leading_zeros() {
    assert_eq!(leading_zero_count(0), 32);
}

#[test]
fn one_has_thirty_one_leading_zeros() {
    assert_eq!(leading_zero_count(1), 31);
}

#[test]
fn minus_one_has_no_leading_zeros() {
    assert_eq!(leading_zero_count(-1), 0);
}

#[test]
fn largest_positive_has_one_leading_zero() {
    assert_eq!(leading_zero_count(0x7FFF_FFFF), 1);
}

#[test]
fn smallest_negative_has_no_leading_zeros() {
    assert_eq!(leading_zero_count(i32::MIN), 0);
}

#[test]
fn count_is_thirty_one_minus_highest_bit() {
    for h in 0..31u32 {
        let n = 1i32 << h;
        assert_eq!(leading_zero_count(n), 31 - h);
        assert_eq!(leading_zero_count(n | 1), 31 - h);
    }
    assert_eq!(leading_zero_count(0x0001_0000), 15);
    assert_eq!(leading_zero_count(0x00FF_FFFF), 8);
}
