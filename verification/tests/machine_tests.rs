//! The button machine puzzle: the known three-machine fixture and small
//! hand-built machines.

use puzzles::machine::{Machine, MachineParsed, compress, uncompress, solve_p1};

fn fixture() -> String {
    "[.##.] (3) (1,3) (2) (2,3) (0,2) (0,1) {3,5,4,7}\n[...#.] (0,2,3,4) (2,3) (0,4) (0,1,2) (1,2,3,4) {7,5,12,7,2}\n[.###.#] (0,1,2,3,4) (0,3,4) (0,1,2,4,5) (1,2) {10,11,11,5,10,5}\n"
    .to_string()
}

#[test]
fn test_exemple() {
    let parsed = MachineParsed::from_string(fixture()).unwrap();
    let machines = Machine::from_mps(&parsed);
    assert_eq!(solve_p1(&machines), Some(7));
}

#[test]
fn test_exemple_p2() {
    let parsed = MachineParsed::from_string(fixture()).unwrap();
    let machines = Machine::from_mps(&parsed);
    let total: u64 = machines.iter().map(|m| m.i_have_cheated_p2().unwrap()).sum();
    assert_eq!(total, 33);
}

#[test]
fn test_compress_uncompress_round_trip() {
    let bits = vec![true, false, true, true, false];
    let packed = compress(&bits);
    assert_eq!(packed, 0b10110);
    assert_eq!(uncompress(packed, 5), bits);

    let empty: Vec<bool> = vec![];
    assert_eq!(compress(&empty), 0);
    assert_eq!(uncompress(0, 0), empty);
}

#[test]
fn test_press_nothing_leaves_lights_off() {
    let parsed = MachineParsed::from_string("[.##.] (3) (1,3) {0,0}\n".to_string()).unwrap();
    let machines = Machine::from_mps(&parsed);
    assert_eq!(machines[0].press(0), 0);
    assert_eq!(machines[0].press(1), machines[0].press(1));
}

#[test]
fn test_zero_counters_cost_nothing() {
    let parsed = MachineParsed::from_string("[##] (0) (1) {0,0}\n".to_string()).unwrap();
    let machines = Machine::from_mps(&parsed);
    assert_eq!(machines[0].i_have_cheated_p2(), Some(0));
}

#[test]
fn test_two_disjoint_buttons() {
    // two buttons toggling one light each, both lights wanted: two
    // presses reach the light target; the counter already sits at its
    // target, so the counter solver owes nothing
    let parsed = MachineParsed::from_string("[##] (0) (1) {0}\n".to_string()).unwrap();
    let machines = Machine::from_mps(&parsed);
    assert_eq!(solve_p1(&machines), Some(2));
    assert_eq!(machines[0].i_have_cheated_p2(), Some(0));
}

#[test]
fn test_underflow_rejected() {
    // pressing the only button would drive the zero counter below zero
    let parsed = MachineParsed::from_string("[#] (0) {0}\n".to_string()).unwrap();
    let machines = Machine::from_mps(&parsed);
    assert!(machines[0].press_joltages(1).is_none());
    // and the counter solver reports the whole machine infeasible when
    // that press is the only way forward
    let parsed2 = MachineParsed::from_string("[#.] (0) {1,2}\n".to_string()).unwrap();
    let machines2 = Machine::from_mps(&parsed2);
    assert_eq!(machines2[0].i_have_cheated_p2(), None);
}

#[test]
fn test_parse_rejects_bad_lines() {
    assert!(MachineParsed::from_string("[.#]\n".to_string()).is_none());
    assert!(MachineParsed::from_string("[.#] (9) {1,2}\n".to_string()).is_none());
    assert!(MachineParsed::from_string("[.#] (x) {1,2}\n".to_string()).is_none());
}
