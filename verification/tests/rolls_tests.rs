//! The bread rolls puzzle over its sample grid.

use puzzles::rolls::{count_accessible, count_isolated, count_roll, remove_accessible};

fn sample() -> Vec<String> {
    let string = "..@@.@@@@.\n\
                        @@@.@.@.@@\n\
                        @@@@@.@.@@\n\
                        @.@@@@..@.\n\
                        @@.@@@@.@@\n\
                        .@@@@@@@.@\n\
                        .@.@.@.@@@\n\
                        @.@@@.@@@@\n\
                        .@@@@@@@@.\n\
                        @.@.@@@.@.";
    string.replace(" ", "").as_str().lines().map(|s| s.to_string()).collect()
}

#[test]
fn test_exemple_rolls() {
    assert_eq!(count_accessible(sample()), 13);
}

#[test]
fn test_exemple_p2_rolls() {
    assert_eq!(count_isolated(sample()), 43);
}

#[test]
fn test_one_round_removes_accessible() {
    let grid = vec!["@@".to_string(), "@.".to_string()];
    assert_eq!(count_roll(&grid), 3);
    assert_eq!(count_accessible(grid.clone()), 3);
    let after = remove_accessible(grid);
    assert_eq!(count_roll(&after), 0);
}
