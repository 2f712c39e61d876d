use mancala_rust::{compact_key, from_compact_key, Board, Side, SowError, PIT, SEED};

#[test]
fn sow_with_stealing() {
    // skip
    if !(PIT == 6 && SEED == 4) {
        return;
    }
    let mut board = Board::new(true);
    board.sow(2);
    assert_eq!(board.side(), Side::First);
    assert_eq!(board.scores(), (1, 0));
    board.sow(5);
    assert_eq!(board.side(), Side::Second);
    assert_eq!(board.scores(), (2, 0));
    board.sow(1);
    assert_eq!(board.side(), Side::Second);
    assert_eq!(board.scores(), (2, 1));
    board.sow(5);
    assert_eq!(board.side(), Side::First);
    assert_eq!(board.scores(), (2, 2));
    board.sow(1);
    assert_eq!(board.side(), Side::First);
    assert_eq!(board.scores(), (3, 2));
    board.sow(5);
    assert_eq!(board.side(), Side::First);
    assert_eq!(board.scores(), (4, 2));
    board.sow(0);
    assert_eq!(board.side(), Side::Second);
    assert_eq!(board.scores(), (10, 2));
    assert_eq!(board.last_scores(), (29, 19));
}

#[test]
fn sow_no_stealing() {
    // skip
    if !(PIT == 6 && SEED == 4) {
        return;
    }
    let mut board = Board::new(false);
    board.sow(2);
    assert_eq!(board.side(), Side::First);
    assert_eq!(board.scores(), (1, 0));
    board.sow(5);
    assert_eq!(board.side(), Side::Second);
    assert_eq!(board.scores(), (2, 0));
    board.sow(1);
    assert_eq!(board.side(), Side::Second);
    assert_eq!(board.scores(), (2, 1));
    board.sow(5);
    assert_eq!(board.side(), Side::First);
    assert_eq!(board.scores(), (2, 2));
    board.sow(1);
    assert_eq!(board.side(), Side::First);
    assert_eq!(board.scores(), (3, 2));
    board.sow(5);
    assert_eq!(board.side(), Side::First);
    assert_eq!(board.scores(), (4, 2));
    board.sow(0);
    assert_eq!(board.side(), Side::Second);
    assert_eq!(board.scores(), (4, 2));
    assert_eq!(board.last_scores(), (24, 24));
}

#[test]
fn test_compact_key() {
    // skip
    if !(PIT == 6 && SEED == 4) {
        return;
    }

    fn test(b: &Board) {
        let k = compact_key(b);
        let v = from_compact_key(k);
        println!("{:?}\n{} {:?}", b, k, v);
        for i in 0..6 {
            assert_eq!(b.self_seeds()[i], v[i]);
        }
        for i in 0..6 {
            assert_eq!(b.opposite_seed()[i], v[6 + i]);
        }
    }

    let mut board = Board::new(false);
    test(&board);
    board.sow(2);
    test(&board);
    board.sow(5);
    test(&board);
    board.sow(1);
    test(&board);
    board.sow(3);
    test(&board);
    board.sow(4);
    test(&board);
}

#[test]
fn test_score() {
    // skip
    if !(PIT == 6 && SEED == 4) {
        return;
    }
    let mut board = Board::new(true);
    assert_eq!(board.score(), 0);
    assert_eq!(board.last_score(), 0);
    board.sow(2);
    assert_eq!(board.score(), 1);
    assert_eq!(board.last_score(), 0);
    board.sow(5);
    assert_eq!(board.score(), -2);
    assert_eq!(board.last_score(), (5 - 1) * 2);
}

#[test]
fn from_seeds() {
    let mut board = Board::new(true);
    board.sow(2);
    board.sow(5);

    let key = compact_key(&board);
    let seeds = from_compact_key(key);
    let b = Board::from_seeds(true, &seeds);

    assert_eq!(board.self_seeds(), b.self_seeds());
    assert_eq!(board.opposite_seed(), b.opposite_seed());
}

#[test]
fn can_sow_rejects_bad_positions() {
    let board = Board::new(true);
    assert_eq!(board.can_sow(PIT), Err(SowError::InvalidPosition));
    assert_eq!(board.can_sow(100), Err(SowError::InvalidPosition));
    assert_eq!(board.can_sow(0), Ok(()));

    let mut board = Board::new(true);
    board.sow(2);
    // pit 2 was just emptied and the mover kept the turn
    assert_eq!(board.side(), Side::First);
    assert_eq!(board.can_sow(2), Err(SowError::EmptyPit));
}

#[test]
fn seeds_are_conserved_through_a_turn_sequence() {
    // every sow keeps pits plus banked scores at the starting total
    let total = 2 * (PIT as u32) * (SEED as u32);
    let mut board = Board::new(true);
    for pos in [2, 5, 1, 5, 1, 5, 0] {
        assert!(board.can_sow(pos).is_ok());
        board.sow(pos);
        let (a, b) = board.last_scores();
        assert_eq!(a as u32 + b as u32, total);
    }
}

#[test]
fn finished_means_one_empty_row() {
    let empty_row = Board::from_seeds(true, &[0, 0, 0, 0, 0, 0, 4, 4, 4, 4, 4, 4]);
    assert!(empty_row.is_finished());
    let other_empty = Board::from_seeds(true, &[1, 0, 2, 0, 1, 0, 0, 0, 0, 0, 0, 0]);
    assert!(other_empty.is_finished());
    let open = Board::from_seeds(true, &[1, 0, 0, 0, 0, 0, 0, 0, 0, 0, 0, 1]);
    assert!(!open.is_finished());
    assert!(!Board::new(false).is_finished());
}

#[test]
fn finished_board_has_no_moves() {
    let done = Board::from_seeds(true, &[0, 0, 0, 0, 0, 0, 4, 4, 4, 4, 4, 4]);
    assert!(done.list_next().is_empty());
    assert!(done.list_next_with_pos().is_empty());
}

#[test]
fn listed_turns_are_playable_and_end_the_turn() {
    let board = Board::new(true);
    let entries = board.list_next_with_pos();
    assert!(!entries.is_empty());
    for (next, moves) in &entries {
        let mut replay = board.clone();
        for &pos in moves {
            assert_eq!(replay.side(), Side::First);
            assert!(replay.can_sow(pos).is_ok());
            replay.sow(pos);
        }
        assert!(replay.eq_board(next));
        assert!(next.side() == Side::Second || next.is_finished());
    }
    // the chain-free listing names the same boards
    let plain = board.list_next();
    assert_eq!(plain.len(), entries.len());
    for b in &plain {
        assert!(entries.iter().any(|(n, _)| n.eq_board(b)));
    }
}

#[test]
fn mirrored_position_scores_opposite() {
    // valuing the same raw position from the other side flips the sign
    let a = Board::from_seeds(true, &[1, 2, 3, 0, 1, 0, 4, 0, 2, 1, 0, 5]);
    let b = Board::from_seeds(true, &[4, 0, 2, 1, 0, 5, 1, 2, 3, 0, 1, 0]);
    assert_eq!(a.last_score(), -b.last_score());
}
