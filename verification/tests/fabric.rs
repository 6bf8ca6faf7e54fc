use advent::fabric::parse_claim;
use advent::fabric::find_non_overlapping;
use advent::fabric::num_overlaps;
use advent::fabric::Claim;
use advent::fabric::Rectangle;

#[test]
fn intersect_test() {
    assert_eq!(None, Rectangle::new(1, 1, 1, 1).intersect(&Rectangle::new(2, 1, 1, 1)));
    assert_eq!(None, Rectangle::new(2, 1, 1, 1).intersect(&Rectangle::new(1, 1, 1, 1)));
    assert_eq!(None, Rectangle::new(1, 2, 1, 1).intersect(&Rectangle::new(1, 1, 1, 1)));
    assert_eq!(None, Rectangle::new(1, 1, 1, 1).intersect(&Rectangle::new(1, 2, 1, 1)));
    assert_eq!(None, Rectangle::new(2, 2, 1, 1).intersect(&Rectangle::new(1, 1, 1, 1)));
    assert_eq!(None, Rectangle::new(1, 1, 1, 1).intersect(&Rectangle::new(2, 2, 1, 1)));

    assert_eq!(
        Some(Rectangle::new(2, 2, 1, 1)),
        Rectangle::new(1, 1, 5, 5).intersect(&Rectangle::new(2, 2, 1, 1))
    );
}

#[test]
fn parse_claim_test() {
    assert_eq!(
        Claim { id: 0, rect: Rectangle::new(0, 0, 0, 0) },
        parse_claim("#0 @ 0,0: 0x0").unwrap()
    );

    assert_eq!(
        Claim { id: 1, rect: Rectangle::new(1, 3, 4, 4) },
        parse_claim("#1 @ 1,3: 4x4").unwrap()
    );
}

#[test]
fn overlaps_test() {
    let claims = vec![
        parse_claim("#1 @ 1,3: 4x4").unwrap(),
        parse_claim("#2 @ 3,1: 4x4").unwrap(),
        parse_claim("#3 @ 5,5: 2x2").unwrap(),
    ];
    assert_eq!(4, num_overlaps(&claims));
}

#[test]
fn no_overlaps_test() {
    let claims = vec![
        parse_claim("#1 @ 1,3: 4x4").unwrap(),
        parse_claim("#2 @ 3,1: 4x4").unwrap(),
        parse_claim("#3 @ 5,5: 2x2").unwrap(),
    ];
    assert_eq!(Some(3), find_non_overlapping(&claims));
}

#[test]
fn no_non_overlaps_test() {
    let claims = vec![
        parse_claim("#1 @ 1,3: 4x4").unwrap(),
        parse_claim("#2 @ 3,1: 4x4").unwrap(),
        parse_claim("#3 @ 4,4: 2x2").unwrap(),
    ];
    assert_eq!(None, find_non_overlapping(&claims));
}

#[test]
fn parse_claim_rejects_test() {
    assert!(parse_claim("").is_err());
    assert!(parse_claim("#1 @ 1,3: 4x").is_err());
    assert!(parse_claim("1 @ 1,3: 4x4").is_err());
    assert!(parse_claim("#1 @ 1,3: 4x4 ").is_err());
    assert!(parse_claim("#a @ 1,3: 4x4").is_err());
    assert!(parse_claim("#99999999999999999999 @ 1,3: 4x4").is_err());
}
