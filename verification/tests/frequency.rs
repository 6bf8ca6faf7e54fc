use advent::frequency::calc_shift;
use advent::frequency::find_dup_freq;

#[test]
fn part1_example_test() {
    assert_eq!(3, calc_shift(0, &[1, 1, 1]));
    assert_eq!(0, calc_shift(0, &[1, 1, -2]));
    assert_eq!(-6, calc_shift(0, &[-1, -2, -3]));
}

#[test]
fn part2_example_test() {
    assert_eq!(0, find_dup_freq(0, &[1, -1]));
    assert_eq!(10, find_dup_freq(0, &[3, 3, 4, -2, -4]));
    assert_eq!(5, find_dup_freq(0, &[-6, 3, 8, 5, -6]));
    assert_eq!(14, find_dup_freq(0, &[7, 7, -2, -7, -4]));
}
