//! The red tape puzzle over its sample polygon.

use puzzles::polygon::{
    Corner, check_corner_inside, get_max_area_rectangle_p1, get_max_area_rectangle_p2,
    get_sorted_rectangles,
};

fn sample() -> Vec<Corner> {
    let string = "7,1\n11,1\n11,7\n9,7\n9,5\n2,5\n2,3\n7,3\n".to_string();
    Corner::from_string(&string).unwrap()
}

#[test]
fn test_p1_polygon() {
    assert_eq!(get_max_area_rectangle_p1(&get_sorted_rectangles(&sample())), 50);
}

#[test]
fn test_inside() {
    let corners = sample();

    let test = "..............\n.......#XXX#..\n.......XXXXX..\n..#XXXX#XXXX..\n..XXXXXXXXXX..\n..#XXXXXX#XX..\n.........XXX..\n.........#X#..\n..............\n"
    .to_string();
    let test_lines = test.lines().collect::<Vec<&str>>();

    assert_eq!(check_corner_inside(Corner { x: 0, y: 0 }, &corners), false);
    assert_eq!(check_corner_inside(Corner { x: 3, y: 4 }, &corners), true);
    assert_eq!(check_corner_inside(Corner { x: 3, y: 3 }, &corners), true);
    assert_eq!(check_corner_inside(Corner { x: 2, y: 3 }, &corners), true);

    for y in 0..test_lines.len() {
        for x in 0..test_lines[0].len() {
            println!("x = {}, y = {}, char = {}", x, y, test_lines[y].chars().nth(x).unwrap());
            assert_eq!(
                check_corner_inside(Corner { x: x as u64, y: y as u64 }, &corners),
                test_lines[y].chars().nth(x) != Some('.')
            );
        }
    }
}

#[test]
fn test_p2_polygon() {
    let corners = sample();
    let sorted = get_sorted_rectangles(&corners);

    assert_eq!(get_max_area_rectangle_p2(&sorted, &corners, 0), 24);
}
