use puzzlegrid::ids::char_counts;
use puzzlegrid::ids::common_chars;
use puzzlegrid::ids::distance;
use puzzlegrid::ids::find_close;

#[test]
fn counts() {
    let tally = char_counts("abbcde");
    let b = tally.iter().find(|p| p.0 == 'b').unwrap();
    assert_eq!(b.1, 2);
}

#[test]
fn dist() {
    assert_eq!(distance("abcde", "axcye"), 2);
    assert_eq!(distance("fghij", "fguij"), 1);
}

#[test]
fn rem_com() {
    assert_eq!(common_chars("fghij", "fguij"), "fgij");
}

#[test]
fn close_pair_is_found() {
    let ids: Vec<String> = ["abcde", "fghij", "fguij"].iter().map(|s| s.to_string()).collect();
    assert_eq!(find_close(&ids), Some("fgij".to_string()));
}

#[test]
fn no_close_pair_yields_none() {
    let ids: Vec<String> = ["abcde", "axcye"].iter().map(|s| s.to_string()).collect();
    assert_eq!(find_close(&ids), None);
}

#[test]
fn counts_cover_every_character_once() {
    let tally = char_counts("abbcde");
    assert_eq!(tally.len(), 5);
    assert_eq!(tally[0], ('a', 1));
    assert_eq!(tally[1], ('b', 2));
}
