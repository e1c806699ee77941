//! The joltage digits puzzle over its sample strings.

use puzzles::joltage::{find_max_in_string_p1, find_max_in_string_p2, get_joltage_file_p1};

#[test]
fn main_test_exemple() {
    assert_eq!(find_max_in_string_p1("987654321111111"), 98);
    assert_eq!(find_max_in_string_p1("811111111111119"), 89);
    assert_eq!(find_max_in_string_p1("234234234234278"), 78);
    assert_eq!(find_max_in_string_p1("818181911112111"), 92);
}

#[test]
fn main_test_exemple_p2() {
    assert_eq!(find_max_in_string_p2("987654321111111", 12), 987654321111u64);
    assert_eq!(find_max_in_string_p2("811111111111119", 12), 811111111119u64);
    assert_eq!(find_max_in_string_p2("234234234234278", 12), 434234234278u64);
    assert_eq!(find_max_in_string_p2("818181911112111", 12), 888911112111u64);
}

#[test]
fn test_joltage_file_sum() {
    assert_eq!(get_joltage_file_p1("98\n19\n55\n"), 98 + 19 + 55);
}
