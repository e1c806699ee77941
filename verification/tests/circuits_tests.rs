//! The junction boxes puzzle over its sample list.

use puzzles::circuits::{JBox, get_p1, get_p2, get_sorted_pair};

fn sample() -> Vec<JBox> {
    let string = "162,817,812\n57,618,57\n906,360,560\n592,479,940\n352,342,300\n466,668,158\n542,29,236\n431,825,988\n739,650,466\n52,470,668\n216,146,977\n819,987,18\n117,168,530\n805,96,715\n346,949,466\n970,615,88\n941,993,340\n862,61,35\n984,92,344\n425,690,689"
    .to_string();
    JBox::from_string(string).unwrap()
}

#[test]
fn test_p1_circuits() {
    let list = sample();
    let pairs = get_sorted_pair(&list);

    assert_eq!(list[pairs[0].0].coords[0], 162);
    assert_eq!(list[pairs[0].0].coords[1], 817);
    assert_eq!(list[pairs[0].0].coords[2], 812);

    assert_eq!(list[pairs[0].1].coords[0], 425);
    assert_eq!(list[pairs[0].1].coords[1], 690);
    assert_eq!(list[pairs[0].1].coords[2], 689);

    assert_eq!(list[pairs[1].0].coords[0], 162);
    assert_eq!(list[pairs[1].0].coords[1], 817);
    assert_eq!(list[pairs[1].0].coords[2], 812);

    assert_eq!(list[pairs[1].1].coords[0], 431);
    assert_eq!(list[pairs[1].1].coords[1], 825);
    assert_eq!(list[pairs[1].1].coords[2], 988);

    assert_eq!(get_p1(&pairs, 10), 40);
}

#[test]
fn test_p2_circuits() {
    let list = sample();
    let pairs = get_sorted_pair(&list);

    assert_eq!(get_p2(&pairs, &list, list.len()), 25272);
}

#[test]
fn test_box_parse_rejects() {
    assert!(JBox::from_string("1,2".to_string()).is_none());
    assert!(JBox::from_string("1,2,x".to_string()).is_none());
    let boxes = JBox::from_string("1,2,3".to_string()).unwrap();
    assert_eq!(boxes[0].coords, vec![1, 2, 3]);
}
