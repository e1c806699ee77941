//! The corrupt identifier puzzle over its sample ranges.

use puzzles::corrupt::{
    check_number_p1, check_number_p2, check_range_p1, check_range_p2, range_from_str,
};

#[test]
fn test_range() {
    assert_eq!(check_range_p1((11, 22)), 2);
    assert_eq!(check_range_p1((1188511880, 1188511890)), 1);
    assert_eq!(check_range_p1((222220, 222224)), 1);
    assert_eq!(check_range_p1((1698522, 1698528)), 0);
    assert_eq!(check_range_p1((446443, 446449)), 1);
    assert_eq!(check_range_p1((38593856, 38593862)), 1);
    assert_eq!(check_range_p1((2121212118, 2121212124)), 0);
    assert_eq!(check_range_p1((565653, 565659)), 0);
}

#[test]
fn test_range_p2() {
    assert_eq!(check_range_p2((11, 22)), 2);
    assert_eq!(check_range_p2((95, 115)), 2);
    assert_eq!(check_range_p2((1188511880, 1188511890)), 1);
    assert_eq!(check_range_p2((222220, 222224)), 1);
    assert_eq!(check_range_p2((1698522, 1698528)), 0);
    assert_eq!(check_range_p2((446443, 446449)), 1);
    assert_eq!(check_range_p2((38593856, 38593862)), 1);
    assert_eq!(check_range_p2((2121212118, 2121212124)), 1);
    assert_eq!(check_range_p2((565653, 565659)), 1);
}

#[test]
fn test_str() {
    assert_eq!(check_range_p1(range_from_str("11-22").unwrap()), 2);
    assert_eq!(check_range_p1(range_from_str("1188511880-1188511890").unwrap()), 1);
    assert_eq!(check_range_p1(range_from_str("222220-222224").unwrap()), 1);
    assert_eq!(check_range_p1(range_from_str("1698522-1698528").unwrap()), 0);
    assert_eq!(check_range_p1(range_from_str("446443-446449").unwrap()), 1);
    assert_eq!(check_range_p1(range_from_str("38593856-38593862").unwrap()), 1);
    assert_eq!(check_range_p1(range_from_str("2121212118-2121212124").unwrap()), 0);
    assert_eq!(check_range_p1(range_from_str("565653-565659").unwrap()), 0);
}

#[test]
fn test_number_p1() {
    assert_eq!(check_number_p1(11), true);
    assert_eq!(check_number_p1(110110), true);
    assert_eq!(check_number_p1(2121212121), false);
    assert_eq!(check_number_p1(123123123), false);

    assert_eq!(check_number_p1(1212), true);
    assert_eq!(check_number_p1(11111), false);
}

#[test]
fn test_number_p2() {
    assert_eq!(check_number_p2(11), true);
    assert_eq!(check_number_p2(110110), true);
    assert_eq!(check_number_p2(2121212121), true);
    assert_eq!(check_number_p2(123123123), true);

    assert_eq!(check_number_p2(1212), true);
    assert_eq!(check_number_p2(11111), true);
}

#[test]
fn test_parsing() {
    assert_eq!("9393974421".parse(), Ok(9393974421u64));
    assert_eq!("9393862801".parse(), Ok(9393862801u64));
}

#[test]
fn test_range_parse_rejects() {
    assert!(range_from_str("11").is_none());
    assert!(range_from_str("a-b").is_none());
    assert_eq!(range_from_str("3-5").unwrap(), (3, 5));
}
