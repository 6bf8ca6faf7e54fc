use advent::territory::bounding_box;
use advent::territory::calc_area_size;
use advent::territory::calc_finite_areas;
use advent::territory::calc_infinite_owners;
use advent::territory::calc_largest_finite_area;
use advent::territory::calc_owner_of_point;
use advent::territory::calc_total_distance;
use advent::territory::parse_coord;
use advent::territory::verify_area_contained_in_bounding_box;
use advent::territory::Pt;
use advent::territory::Rect;

fn get_points() -> Vec<Pt> {
    vec![
        Pt { x: 1, y: 1 }, // A
        Pt { x: 1, y: 6 }, // B
        Pt { x: 8, y: 3 }, // C
        Pt { x: 3, y: 4 }, // D
        Pt { x: 5, y: 5 }, // E
        Pt { x: 8, y: 9 }, // F
    ]
}

fn lookup(areas: &[(Pt, i64)], p: Pt) -> Option<i64> {
    for entry in areas {
        if entry.0 == p {
            return Some(entry.1);
        }
    }
    None
}

#[test]
fn parse_coord_test() {
    assert_eq!(Pt { x: 1, y: 1 }, parse_coord("1, 1").unwrap());
    assert_eq!(Pt { x: 1, y: 6 }, parse_coord("1, 6").unwrap());
    assert_eq!(Pt { x: 8, y: 3 }, parse_coord("8, 3").unwrap());
    assert_eq!(Pt { x: 3, y: 4 }, parse_coord("3, 4").unwrap());
    assert_eq!(Pt { x: 5, y: 5 }, parse_coord("5, 5").unwrap());
    assert_eq!(Pt { x: 8, y: 9 }, parse_coord("8, 9").unwrap());
}

#[test]
fn bounding_box_test() {
    let points = get_points();
    assert_eq!(Rect { p0: Pt { x: 1, y: 1 }, p1: Pt { x: 8, y: 9 } }, bounding_box(&points));
}

#[test]
fn dist() {
    assert_eq!(2, Pt { x: 1, y: 1 }.dist(&Pt { x: 2, y: 2 }));
    assert_eq!(2, Pt { x: 2, y: 2 }.dist(&Pt { x: 1, y: 1 }));
}

#[test]
fn calc_owner_of_point_test() {
    let points = get_points();
    assert_eq!(None, calc_owner_of_point(&Pt { x: 5, y: 0 }, &points));
    assert_eq!(Some(Pt { x: 8, y: 3 }), calc_owner_of_point(&Pt { x: 6, y: 0 }, &points));
    assert_eq!(Some(Pt { x: 1, y: 1 }), calc_owner_of_point(&Pt { x: 4, y: 0 }, &points));
}

#[test]
fn calc_infinite_owners_test() {
    let points = get_points();
    let bounds = bounding_box(&points);
    let owners = calc_infinite_owners(&points, &bounds);

    assert_eq!(4, owners.len());
    assert_eq!(true, owners.contains(&Pt { x: 1, y: 1 }));
    assert_eq!(true, owners.contains(&Pt { x: 1, y: 6 }));
    assert_eq!(true, owners.contains(&Pt { x: 8, y: 3 }));
    assert_eq!(true, owners.contains(&Pt { x: 8, y: 9 }));
}

#[test]
fn calc_finite_areas_test() {
    let points = get_points();
    let areas = calc_finite_areas(&points);

    assert_eq!(2, areas.len());
    assert_eq!(Some(9), lookup(&areas, Pt { x: 3, y: 4 }));
    assert_eq!(Some(17), lookup(&areas, Pt { x: 5, y: 5 }));
}

#[test]
fn calc_largest_finite_area_test() {
    let points = get_points();
    assert_eq!((Pt { x: 5, y: 5 }, 17), calc_largest_finite_area(&points));
}

#[test]
fn calc_total_distance_test() {
    let points = get_points();
    assert_eq!(30, calc_total_distance(&Pt { x: 4, y: 3 }, &points));
}

#[test]
fn calc_area_size_test() {
    let points = get_points();
    assert_eq!(16, calc_area_size(&points, 32));
}

#[test]
fn area_contained_test() {
    let points = get_points();
    assert!(verify_area_contained_in_bounding_box(&points, 30));
    assert!(!verify_area_contained_in_bounding_box(&points, 100));
}
