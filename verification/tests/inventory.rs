use advent::inventory::analyze_id;
use advent::inventory::checksum;
use advent::inventory::find_common;
use advent::inventory::find_common_in_list;

#[test]
fn main_part1_example_test() {
    assert_eq!((false, false), analyze_id("abcdef"));
    assert_eq!((true, true), analyze_id("bababc"));
    assert_eq!((true, false), analyze_id("abbcde"));
    assert_eq!((false, true), analyze_id("abcccd"));
    assert_eq!((true, false), analyze_id("aabcdd"));
    assert_eq!((true, false), analyze_id("abcdee"));
    assert_eq!((false, true), analyze_id("ababab"));

    let strings = ["abcdef", "bababc", "abbcde", "abcccd", "aabcdd", "abcdee", "ababab"]
        .iter()
        .map(|s| s.to_string())
        .collect();
    assert_eq!(12, checksum(&strings));
}

#[test]
fn main_part2_example_test() {
    assert_eq!(None, find_common("a", "ab"));
    assert_eq!(None, find_common("abcde", "axcye"));
    assert_eq!(Some("fgij".to_string()), find_common("fghij", "fguij"));

    let strings = ["abcde", "fghij", "klmno", "pqrst", "fguij", "axcye", "wvxyz"]
        .iter()
        .map(|s| s.to_string())
        .collect();

    assert_eq!(Some("fgij".to_string()), find_common_in_list(&strings));
}
