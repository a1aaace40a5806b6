use puzzlegrid::power::best_square;
use puzzlegrid::power::best_square_any_size;
use puzzlegrid::power::power_level;

#[test]
fn day11_test() {
    assert_eq!(power_level(8, 3, 5), 4);
    assert_eq!(power_level(57, 122, 79), -5);
    assert_eq!(power_level(39, 217, 196), 0);
    assert_eq!(power_level(71, 101, 153), 4);

    assert_eq!(best_square(18), (33, 45));

    assert_eq!(best_square_any_size(18), (90, 269, 16));
    assert_eq!(best_square_any_size(42), (232, 251, 12));
}
