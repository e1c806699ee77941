//! The worksheet puzzle over its sample sheet.

use puzzles::worksheet::{process_data_p1, process_data_p2, solve_problems};

#[test]
fn main_test_p1() {
    let string = String::from("123 328  51 64 \n 45 64  387 23 \n  6 98  215 314\n*   +   *   +  ");
    assert_eq!(solve_problems(process_data_p1(string).unwrap()), 4277556);
}

#[test]
fn main_test_p2() {
    let string = String::from("123 328  51 64 \n 45 64  387 23 \n  6 98  215 314\n*   +   *   +  ");
    assert_eq!(solve_problems(process_data_p2(string)), 3263827);
}

#[test]
fn test_p1_parse_rejects() {
    assert!(process_data_p1(String::from("1 x\n+ +")).is_none());
    assert!(process_data_p1(String::from("1\n+ +")).is_none());
    let ps = process_data_p1(String::from("2 3\n4 5\n* +")).unwrap();
    assert_eq!(ps.len(), 2);
    assert_eq!(solve_problems(ps), 2 * 4 + (3 + 5));
}
