use puzzlegrid::tree::Node;
use puzzlegrid::tree::TreeError;

#[test]
fn day8_test() {
    let tree = Node::from_string("2 3 0 3 10 11 12 1 1 0 1 99 2 1 1 2").unwrap();
    assert_eq!(tree.sum_metadata(), 138);
    assert_eq!(tree.value(), 66);
}

#[test]
fn truncated_data_is_rejected() {
    assert_eq!(
        Node::from_string("2 3 0 3 10 11").unwrap_err(),
        TreeError::UnexpectedEnd
    );
}

#[test]
fn trailing_data_is_rejected() {
    assert_eq!(
        Node::from_string("0 1 5 7").unwrap_err(),
        TreeError::TrailingData
    );
}

#[test]
fn malformed_numbers_are_rejected() {
    assert_eq!(Node::from_string("0 x 5").unwrap_err(), TreeError::BadNumber);
    assert_eq!(Node::from_string("").unwrap_err(), TreeError::BadNumber);
    assert_eq!(
        Node::from_string("0 99999999999").unwrap_err(),
        TreeError::BadNumber
    );
}

#[test]
fn metadata_indexes_children_for_value() {
    // One child with metadata sum 7; the root names it twice and
    // names a missing child once.
    let tree = Node::from_string("1 3 0 1 7 1 1 2").unwrap();
    assert_eq!(tree.sum_metadata(), 11);
    assert_eq!(tree.value(), 14);
}
