use std::collections::VecDeque;

use advent::polymer::find_best_removal;
use advent::polymer::get_unique_units;
use advent::polymer::parse_poly;
use advent::polymer::process_poly;
use advent::polymer::remove_unit;

#[test]
fn parse_poly_test() {
    assert_eq!(
        VecDeque::from(vec![
            'd', 'a', 'b', 'A', 'c', 'C', 'a', 'C', 'B', 'A', 'c', 'C', 'c', 'a', 'D', 'A'
        ]),
        parse_poly("dabAcCaCBAcCcaDA")
    );
}

#[test]
fn process_poly_test() {
    let mut poly = parse_poly("dabAcCaCBAcCcaDA");
    let l = process_poly(&mut poly);
    assert_eq!(10, l);
    assert_eq!(VecDeque::from(vec!['d', 'a', 'b', 'C', 'B', 'A', 'c', 'a', 'D', 'A']), poly);
}

#[test]
fn get_unique_units_test() {
    let poly = parse_poly("dabAcCaCBAcCcaDA");
    let u = get_unique_units(&poly);
    let mut sorted: Vec<char> = u.iter().cloned().collect();
    sorted.sort();

    assert_eq!(vec!['a', 'b', 'c', 'd'], sorted);
}

#[test]
fn remove_unit_test() {
    let poly = parse_poly("dabAcCaCBAcCcaDA");

    assert_eq!(parse_poly("dbcCCBcCcD"), remove_unit(&poly, 'a'));
    assert_eq!(parse_poly("daAcCaCAcCcaDA"), remove_unit(&poly, 'b'));
    assert_eq!(parse_poly("dabAaBAaDA"), remove_unit(&poly, 'c'));
    assert_eq!(parse_poly("abAcCaCBAcCcaA"), remove_unit(&poly, 'd'));
}

#[test]
fn find_best_removal_test() {
    let poly = parse_poly("dabAcCaCBAcCcaDA");
    assert_eq!(('c', 4), find_best_removal(&poly));
}
