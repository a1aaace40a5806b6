use puzzlegrid::marbles::marble_score;
use puzzlegrid::marbles::Circle;

#[test]
fn day9_part1() {
    assert_eq!(marble_score(9, 25), 32);
    assert_eq!(marble_score(10, 1618), 8317);
    assert_eq!(marble_score(13, 7999), 146373);
    assert_eq!(marble_score(17, 1104), 2764);
    assert_eq!(marble_score(21, 6111), 54718);
    assert_eq!(marble_score(30, 5807), 37305);
}

#[test]
fn circle_splices_and_unlinks() {
    let (mut circle, cursor) = Circle::new(0u32);
    let c1 = circle.insert_after(cursor, 1);
    let c2 = circle.insert_after(c1, 2);
    assert_eq!(*circle.value_at(&c2), 2);
    let forward = circle.step_forward(c2);
    assert_eq!(*circle.value_at(&forward), 0);
    let back = circle.step_backward(forward);
    assert_eq!(*circle.value_at(&back), 2);
    let after_removal = circle.remove(back);
    assert_eq!(*circle.value_at(&after_removal), 0);
    let next = circle.step_forward(after_removal);
    assert_eq!(*circle.value_at(&next), 1);
}
