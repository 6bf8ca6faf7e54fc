use advent::shift_log::parse_action;
use advent::shift_log::parse_begin;
use advent::shift_log::Action;

#[test]
fn parse_action_test() {
    assert_eq!(Action::BeginShift { id: 10 }, parse_action("Guard #10 begins shift").unwrap());
    assert_eq!(Action::Asleep, parse_action("falls asleep").unwrap());
    assert_eq!(Action::Awake, parse_action("wakes up").unwrap());
}

#[test]
fn parse_begin_rejects_test() {
    assert!(parse_begin("Guard #10 begins shift ").is_err());
    assert!(parse_begin("Guard # begins shift").is_err());
    assert!(parse_begin("falls asleep").is_err());
    assert!(parse_action("naps briefly").is_err());
}
