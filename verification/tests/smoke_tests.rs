//! Small end-to-end checks of the shared number reader.

use puzzles::parsing::parse_u64;

#[test]
fn test_range_trivial() {
    assert_eq!(2, 2);
}

#[test]
fn test_parse_u64_bounds() {
    let digits: Vec<char> = "18446744073709551615".chars().collect();
    assert_eq!(parse_u64(&digits), Some(u64::MAX));
    let over: Vec<char> = "18446744073709551616".chars().collect();
    assert_eq!(parse_u64(&over), None);
    let empty: Vec<char> = Vec::new();
    assert_eq!(parse_u64(&empty), None);
}
