use advent::marbles::do_game;

#[test]
fn do_game_test() {
    assert_eq!(32, do_game(25, 9));
    assert_eq!(8317, do_game(1618, 10));
    assert_eq!(146373, do_game(7999, 13));
    assert_eq!(2764, do_game(1104, 17));
    assert_eq!(54718, do_game(6111, 21));
    assert_eq!(37305, do_game(5807, 30));
}
