use puzzlegrid::polymer::polymer_from_str;
use puzzlegrid::polymer::reduce_polymer;

#[test]
fn day5_part1() {
    let mut poly = polymer_from_str("dabAcCaCBAcCcaDA");
    reduce_polymer(&mut poly);
    assert_eq!(poly.len(), 10);

    let mut poly = polymer_from_str("ADdabAcCaCBAcCcaDAada");
    reduce_polymer(&mut poly);
    assert_eq!(poly.len(), 7);
}

#[test]
fn reduction_result_is_exact() {
    let mut poly = polymer_from_str("dabAcCaCBAcCcaDA");
    reduce_polymer(&mut poly);
    assert_eq!(poly, b"dabCBAcaDA".to_vec());
}

#[test]
fn fully_reactive_polymer_vanishes() {
    let mut poly = polymer_from_str("abBA");
    reduce_polymer(&mut poly);
    assert_eq!(poly, Vec::<u8>::new());
}
