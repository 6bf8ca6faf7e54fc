use advent::lights::advance_lights;
use advent::lights::calc_bounding_box;
use advent::lights::parse_reading;
use advent::lights::render;
use advent::lights::Light;
use advent::territory::Pt;

fn get_readings() -> Vec<Light> {
    vec![
        parse_reading("position=< 9,  1> velocity=< 0,  2>").unwrap(),
        parse_reading("position=< 7,  0> velocity=<-1,  0>").unwrap(),
        parse_reading("position=< 3, -2> velocity=<-1,  1>").unwrap(),
        parse_reading("position=< 6, 10> velocity=<-2, -1>").unwrap(),
        parse_reading("position=< 2, -4> velocity=< 2,  2>").unwrap(),
        parse_reading("position=<-6, 10> velocity=< 2, -2>").unwrap(),
        parse_reading("position=< 1,  8> velocity=< 1, -1>").unwrap(),
        parse_reading("position=< 1,  7> velocity=< 1,  0>").unwrap(),
        parse_reading("position=<-3, 11> velocity=< 1, -2>").unwrap(),
        parse_reading("position=< 7,  6> velocity=<-1, -1>").unwrap(),
        parse_reading("position=<-2,  3> velocity=< 1,  0>").unwrap(),
        parse_reading("position=<-4,  3> velocity=< 2,  0>").unwrap(),
        parse_reading("position=<10, -3> velocity=<-1,  1>").unwrap(),
        parse_reading("position=< 5, 11> velocity=< 1, -2>").unwrap(),
        parse_reading("position=< 4,  7> velocity=< 0, -1>").unwrap(),
        parse_reading("position=< 8, -2> velocity=< 0,  1>").unwrap(),
        parse_reading("position=<15,  0> velocity=<-2,  0>").unwrap(),
        parse_reading("position=< 1,  6> velocity=< 1,  0>").unwrap(),
        parse_reading("position=< 8,  9> velocity=< 0, -1>").unwrap(),
        parse_reading("position=< 3,  3> velocity=<-1,  1>").unwrap(),
        parse_reading("position=< 0,  5> velocity=< 0, -1>").unwrap(),
        parse_reading("position=<-2,  2> velocity=< 2,  0>").unwrap(),
        parse_reading("position=< 5, -2> velocity=< 1,  2>").unwrap(),
        parse_reading("position=< 1,  4> velocity=< 2,  1>").unwrap(),
        parse_reading("position=<-2,  7> velocity=< 2, -2>").unwrap(),
        parse_reading("position=< 3,  6> velocity=<-1, -1>").unwrap(),
        parse_reading("position=< 5,  0> velocity=< 1,  0>").unwrap(),
        parse_reading("position=<-6,  0> velocity=< 2,  0>").unwrap(),
        parse_reading("position=< 5,  9> velocity=< 1, -2>").unwrap(),
        parse_reading("position=<14,  7> velocity=<-2,  0>").unwrap(),
        parse_reading("position=<-3,  6> velocity=< 2, -1>").unwrap(),
    ]
}

#[test]
fn render_test() {
    let mut lights = get_readings();
    advance_lights(&mut lights);
    advance_lights(&mut lights);
    advance_lights(&mut lights);
    let expected = "#...#..###\n".to_string()
        + "#...#...#.\n"
        + "#...#...#.\n"
        + "#####...#.\n"
        + "#...#...#.\n"
        + "#...#...#.\n"
        + "#...#...#.\n"
        + "#...#..###\n";

    assert_eq!(expected, render(&lights));
}

#[test]
fn parse_reading_test() {
    assert_eq!(
        Light { pos: Pt { x: 9, y: 1 }, velocity: Pt { x: 0, y: 2 } },
        parse_reading("position=< 9,  1> velocity=< 0,  2>").unwrap()
    );
}

#[test]
fn parse_reading_negative_test() {
    assert_eq!(
        Light { pos: Pt { x: -6, y: 10 }, velocity: Pt { x: 2, y: -2 } },
        parse_reading("position=<-6, 10> velocity=< 2, -2>").unwrap()
    );
    assert!(parse_reading("position=< 9,  1> velocity=< 0,  2").is_err());
    assert!(parse_reading("position=< 9>  1> velocity=< 0,  2>").is_err());
}

#[test]
fn advance_and_bound_test() {
    let mut lights = vec![
        Light { pos: Pt { x: 9, y: 1 }, velocity: Pt { x: 0, y: 2 } },
        Light { pos: Pt { x: 7, y: 0 }, velocity: Pt { x: -1, y: 0 } },
        Light { pos: Pt { x: 3, y: -2 }, velocity: Pt { x: -1, y: 1 } },
    ];
    let (min, max) = calc_bounding_box(&lights);
    assert_eq!(Pt { x: 3, y: -2 }, min);
    assert_eq!(Pt { x: 9, y: 1 }, max);
    advance_lights(&mut lights);
    assert_eq!(Pt { x: 9, y: 3 }, lights[0].pos);
    assert_eq!(Pt { x: 6, y: 0 }, lights[1].pos);
    assert_eq!(Pt { x: 2, y: -1 }, lights[2].pos);
}
