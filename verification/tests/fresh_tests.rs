//! The freshness ranges puzzle over its sample lists.

use puzzles::fresh::{Range, check_file, is_fresh, number_fresh, number_range_string};

#[test]
fn test_exemple_fresh() {
    let list = vec![(3, 5), (10, 14), (16, 20), (12, 18)];
    assert_eq!(is_fresh(1, &list), false);
    assert_eq!(is_fresh(5, &list), true);
    assert_eq!(is_fresh(8, &list), false);
    assert_eq!(is_fresh(11, &list), true);
    assert_eq!(is_fresh(17, &list), true);
    assert_eq!(is_fresh(32, &list), false);
}

#[test]
fn test_exemple_p2_fresh() {
    let string = "3-5\n10-14\n16-20\n12-18".to_string();
    assert_eq!(number_range_string(string), Some(14));
}

#[test]
fn test_merge_and_count() {
    let touching = Range::new(3, 5).merge(&Range::new(5, 9));
    assert!(touching.is_some());
    let merged = touching.unwrap();
    assert_eq!((merged.start, merged.end), (3, 9));
    assert!(Range::new(3, 5).merge(&Range::new(7, 9)).is_none());

    let fruits = vec![4, 6, 11, 21];
    let list = vec![(3, 5), (10, 14)];
    assert_eq!(number_fresh(fruits, &list), 2);
}

#[test]
fn test_check_file_sections() {
    let contents = "3-5\r\n10-14\r\n\r\n4\r\n8\r\n11";
    assert_eq!(check_file(contents), Some(2));
    assert!(check_file("3-5\n4").is_none());
    assert!(check_file("3x5\r\n\r\n4").is_none());
}
