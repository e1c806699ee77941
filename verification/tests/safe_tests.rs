//! The dial safe puzzle, exercised end to end.

use puzzles::safe::{Safe, Turn};

#[test]
fn test_turn_safe() {
    let mut safe = Safe { position: 50 };
    safe.turn(Turn { left: true, number: 68 });
    assert_eq!(safe.position, 82);
    safe.turn(Turn { left: true, number: 30 });
    assert_eq!(safe.position, 52);
    safe.turn(Turn { left: false, number: 48 });
    assert_eq!(safe.position, 0);
}

#[test]
fn test_apply_turns() {
    {
        let mut safe = Safe { position: 50 };
        let turns = vec![
            Turn::from_str("L68").unwrap(),
            Turn::from_str("L30").unwrap(),
            Turn::from_str("R48").unwrap(),
            Turn::from_str("L5").unwrap(),
            Turn::from_str("R60").unwrap(),
            Turn::from_str("L55").unwrap(),
            Turn::from_str("L1").unwrap(),
            Turn::from_str("L99").unwrap(),
            Turn::from_str("R14").unwrap(),
            Turn::from_str("L82").unwrap(),
        ];
        let nb_zeros = safe.apply_turns(turns);
        assert_eq!(nb_zeros, (3, 6));
    }
    {
        let mut safe = Safe { position: 99 };
        let turns = vec![Turn::from_str("R1000").unwrap()];
        let nb_zeros = safe.apply_turns(turns);
        assert_eq!(nb_zeros, (0, 10));
    }
    {
        let mut safe = Safe { position: 0 };
        let turns = vec![Turn::from_str("R1000").unwrap()];
        let nb_zeros = safe.apply_turns(turns);
        assert_eq!(nb_zeros, (1, 10));
    }
    {
        let mut safe = Safe { position: 99 };
        let turns = vec![Turn::from_str("L1000").unwrap()];
        let nb_zeros = safe.apply_turns(turns);
        assert_eq!(nb_zeros, (0, 10));
    }
    {
        let mut safe = Safe { position: 0 };
        let turns = vec![Turn::from_str("L1000").unwrap()];
        let nb_zeros = safe.apply_turns(turns);
        assert_eq!(nb_zeros, (1, 10));
    }
    {
        let mut safe = Safe { position: 0 };
        let turns = vec![Turn::from_str("L0").unwrap()];
        let nb_zeros = safe.apply_turns(turns);
        assert_eq!(nb_zeros, (1, 0));
    }
}

#[test]
fn test_turn_parse_rejects() {
    assert!(Turn::from_str("L").is_none());
    assert!(Turn::from_str("Lx7").is_none());
    let t = Turn::from_str("R12").unwrap();
    assert_eq!(t.left, false);
    assert_eq!(t.number, 12);
    let empty = Turn::from_str("").unwrap();
    assert_eq!(empty.left, false);
    assert_eq!(empty.number, 0);
}
