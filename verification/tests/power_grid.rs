use advent::power_grid::calc_level;
use advent::power_grid::calc_section_power;
use advent::power_grid::find_max;
use advent::power_grid::find_max2;
use advent::power_grid::make_grid;

#[test]
fn calc_level_test() {
    assert_eq!(4, calc_level(8, 3, 5));
    assert_eq!(-5, calc_level(57, 122, 79));
    assert_eq!(0, calc_level(39, 217, 196));
    assert_eq!(4, calc_level(71, 101, 153));
}

#[test]
fn find_max_test1() {
    assert_eq!((33, 45, 29), find_max(&make_grid(18), 3));
}

#[test]
fn find_max_test2() {
    assert_eq!((21, 61, 30), find_max(&make_grid(42), 3));
}

#[test]
fn find_max2_test1() {
    assert_eq!((90, 269, 113, 16), find_max2(&make_grid(18)));
}

#[test]
fn find_max2_test2() {
    assert_eq!((232, 251, 119, 12), find_max2(&make_grid(42)));
}

#[test]
fn section_power_test() {
    let grid = make_grid(18);
    assert_eq!(29, calc_section_power(&grid, 33, 45, 3));
}

#[test]
fn find_max_full_grid_test() {
    let grid = make_grid(18);
    assert_eq!((-1, -1, i64::MIN), find_max(&grid, 300));
}
