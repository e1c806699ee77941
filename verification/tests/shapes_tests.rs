//! The shapes puzzle over its sample sheet.

use puzzles::shapes::{Grid, Shape, get_p1_naive, vec_from_string};

#[test]
fn test_sheet_fit() {
    let string = "0:\n###\n##.\n##.\n\n1:\n###\n##.\n.##\n\n2:\n.##\n###\n##.\n\n3:\n##.\n###\n##.\n\n4:\n###\n#..\n###\n\n5:\n###\n.#.\n###\n\n4x4: 0 0 0 0 2 0\n12x5: 1 0 1 0 2 2\n12x5: 1 0 1 0 3 2\n"
    .to_string();

    let (shapes, grids) = vec_from_string(string).unwrap();
    assert_eq!(shapes.len(), 6);
    assert_eq!(grids.len(), 3);
    // every shape stamps seven cells; all three grids have the area
    assert_eq!(get_p1_naive(&shapes, &grids), 3);
}

#[test]
fn test_shape_and_grid_pieces() {
    let rows = ["###", "#..", "###"];
    let shape = Shape::from_string(&rows);
    assert_eq!(shape.shape, 0b111100111);
    assert_eq!(shape.get_area(), 7);

    let grid = Grid::from_string("4x4: 0 0 2").unwrap();
    assert_eq!(grid.x, 4);
    assert_eq!(grid.y, 4);
    assert_eq!(grid.shapes_nb, vec![0, 0, 2]);
    assert_eq!(grid.get_area(), 16);
    assert!(Grid::from_string("4z4: 0").is_none());
}
