use puzzlegrid::recipes::num_recipes_before;
use puzzlegrid::recipes::scores_after;
use puzzlegrid::recipes::Scoreboard;

#[test]
fn day14_test() {
    assert_eq!(scores_after(9, 10), "5158916779");
    assert_eq!(scores_after(5, 10), "0124515891");
    assert_eq!(scores_after(2018, 10), "5941429882");

    assert_eq!(num_recipes_before("59414"), 2018);
}

#[test]
fn first_steps_append_expected_digits() {
    let mut sb = Scoreboard::new();
    assert_eq!(sb.scores().as_slice(), &[3, 7]);
    sb.step();
    assert_eq!(sb.scores().as_slice(), &[3, 7, 1, 0]);
    sb.step();
    assert_eq!(sb.scores().as_slice(), &[3, 7, 1, 0, 1, 0]);
}

#[test]
fn pattern_at_stream_start_is_found_at_zero() {
    assert_eq!(num_recipes_before("37"), 0);
    assert_eq!(num_recipes_before("7101"), 1);
}
