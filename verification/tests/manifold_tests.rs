//! The manifold puzzle over its sample grid.

use puzzles::manifold::Manifold;

fn sample() -> String {
    ".......S.......\n...............\n.......^.......\n...............\n......^.^......\n...............\n.....^.^.^.....\n...............\n....^.^...^....\n...............\n...^.^...^.^...\n...............\n..^...^.....^..\n...............\n.^.^.^.^.^...^.\n...............\n"
    .to_string()
}

#[test]
fn test_exemple_p1() {
    let manifold = Manifold::from_string(sample()).unwrap();
    assert_eq!(manifold.count_split(), 21);
}

#[test]
fn test_exemple_p2_naive() {
    let manifold = Manifold::from_string(sample()).unwrap();
    assert_eq!(manifold.count_timelines_naive(), 40);
}

#[test]
fn test_exemple_p2_manifold() {
    let manifold = Manifold::from_string(sample()).unwrap();
    assert_eq!(manifold.count_timelines(), 40);
}

#[test]
fn test_manifold_parse() {
    assert!(Manifold::from_string("....\n.^..\n".to_string()).is_none());
    let m = Manifold::from_string(".S..\n.^..\n".to_string()).unwrap();
    assert_eq!(m.x_start, 1);
    assert_eq!(m.x, 4);
    assert_eq!(m.y, 2);
    assert_eq!(m.splitters[1], vec![1]);
}
