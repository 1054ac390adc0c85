use hnefatafl::board::{to_readable_coord, BoardState, CodeError, Faction, Piece, to_linind, W};
use hnefatafl::bot::{TransTable, WIN_SCORE};
use hnefatafl::magic_bitboards::{
    build_magic_tables, build_vertical_line, make_all_moves, make_all_obstructors, make_obstructor,
    test_magic_number,
};

#[test]
fn linear_index_bounds() {
    assert_eq!(to_linind([0, 0]), Some(0));
    assert_eq!(to_linind([5, 5]), Some(60));
    assert_eq!(to_linind([10, 10]), Some(120));
    assert_eq!(to_linind([11, 0]), None);
    assert_eq!(to_linind([0, 11]), None);
    assert_eq!(W, 11);
}

#[test]
fn piece_codes_decode() {
    assert_eq!(Piece::try_from_code(0), Ok(Piece::Empty));
    assert_eq!(Piece::try_from_code(1), Ok(Piece::King));
    assert_eq!(Piece::try_from_code(2), Ok(Piece::Black));
    assert_eq!(Piece::try_from_code(3), Ok(Piece::White));
    assert_eq!(Piece::try_from_code(4), Err(CodeError::InvalidPieceCode));
}

#[test]
fn standard_setup_material() {
    let board = BoardState::standard_setup();
    // 24 Black attackers, 12 White defenders, the king on the throne.
    let mut blacks = 0;
    let mut whites = 0;
    let mut kings = 0;
    for i in 0..121 {
        match board.get(i) {
            Piece::Black => blacks += 1,
            Piece::White => whites += 1,
            Piece::King => kings += 1,
            Piece::Empty => {}
        }
    }
    assert_eq!(blacks, 24);
    assert_eq!(whites, 12);
    assert_eq!(kings, 1);
    assert_eq!(board.get_2d([5, 5]), Some(Piece::King));
    // Material balance: 13 White-side pieces against 24 Black.
    assert_eq!(board.zeroeval(), -11);
}

#[test]
fn get_set_roundtrip() {
    let mut board = BoardState::new();
    board.set_2d([3, 7], Piece::White);
    assert_eq!(board.get_2d([3, 7]), Some(Piece::White));
    assert_eq!(board.get_2d([3, 6]), Some(Piece::Empty));
    assert_eq!(board.get_2d([11, 7]), None);
    board.set_2d([3, 7], Piece::Empty);
    assert_eq!(board, BoardState::new());
}

#[test]
fn moves_from_open_rook_lines() {
    let mut board = BoardState::new();
    board.set_2d([5, 4], Piece::White);
    let moves = board.moves_from([5, 4]);
    // Open rows and columns minus the five tower squares.
    let mut count = 0;
    for t in 0..121u32 {
        if moves & (1u128 << t) != 0 {
            count += 1;
        }
    }
    // 10 cells along the column, 10 along the row, minus the throne (5,5).
    assert_eq!(count, 19);
    assert_eq!(moves & (1u128 << 60), 0);
}

#[test]
fn king_may_enter_towers() {
    let mut board = BoardState::new();
    board.set_2d([5, 0], Piece::King);
    let moves = board.moves_from([5, 0]);
    // The corner (0,0) is reachable for the king.
    assert_ne!(moves & (1u128 << 0), 0);
}

#[test]
fn sandwich_capture_against_empty_throne() {
    // A Black piece between an arriving White piece and the vacant throne
    // is removed at once.
    let mut board = BoardState::new();
    board.set_2d([5, 4], Piece::Black);
    board.set_2d([5, 0], Piece::White);
    let won = board.do_move([5, 0], [5, 3]);
    assert!(!won);
    assert_eq!(board.get_2d([5, 4]), Some(Piece::Empty));
    assert_eq!(board.get_2d([5, 3]), Some(Piece::White));
}

#[test]
fn plain_sandwich_capture() {
    let mut board = BoardState::new();
    board.set_2d([4, 4], Piece::White);
    board.set_2d([4, 5], Piece::Black);
    board.set_2d([2, 6], Piece::White);
    let won = board.do_move([2, 6], [4, 6]);
    assert!(!won);
    assert_eq!(board.get_2d([4, 5]), Some(Piece::Empty));
}

#[test]
fn king_capture_needs_all_four_sides() {
    // Three hostile sides leave the king standing.
    let mut board = BoardState::new();
    board.set_2d([3, 3], Piece::King);
    board.set_2d([2, 3], Piece::Black);
    board.set_2d([4, 3], Piece::Black);
    board.set_2d([3, 6], Piece::Black);
    let won = board.do_move([3, 6], [3, 4]);
    assert!(!won);
    assert_eq!(board.get_2d([3, 3]), Some(Piece::King));

    // The fourth hostile side captures the king and ends the game.
    let mut board = BoardState::new();
    board.set_2d([3, 3], Piece::King);
    board.set_2d([2, 3], Piece::Black);
    board.set_2d([4, 3], Piece::Black);
    board.set_2d([3, 2], Piece::Black);
    board.set_2d([3, 6], Piece::Black);
    let won = board.do_move([3, 6], [3, 4]);
    assert!(won);
}

#[test]
fn king_on_corner_wins() {
    let mut board = BoardState::new();
    board.set_2d([5, 0], Piece::King);
    let won = board.do_move([5, 0], [0, 0]);
    assert!(won);
}

#[test]
fn reversible_move_roundtrip() {
    // A non-capturing move followed by its inverse restores the board.
    let mut board = BoardState::standard_setup();
    let original = board;
    let won = board.do_move([0, 3], [2, 3]);
    assert!(!won);
    assert_ne!(board, original);
    let won = board.do_move([2, 3], [0, 3]);
    assert!(!won);
    assert_eq!(board, original);
}

#[test]
fn alphabeta_matches_minimax() {
    let board = BoardState::standard_setup();
    for &turn in &[Faction::Black, Faction::White] {
        for depth in 0..2u32 {
            let reference = board._minimax(turn, depth);
            let mut table = TransTable::new();
            let pruned = board.alphabeta(turn, depth, -WIN_SCORE, WIN_SCORE, &mut table);
            assert_eq!(pruned, reference);
        }
    }
}

#[test]
fn best_move_depth_zero_standard() {
    // With no look-ahead past each move, Black keeps the static material
    // score: no first move captures anything.
    let board = BoardState::standard_setup();
    let mut table = TransTable::new();
    let (mv, score) = board.best_move(Faction::Black, 0, &mut table);
    assert_eq!(score, -11);
    // The chosen move starts on a Black piece and ends on an empty cell.
    assert_eq!(board.get_2d(mv[0]).unwrap(), Piece::Black);
    assert_eq!(board.get_2d(mv[1]).unwrap(), Piece::Empty);
    let legal = board.moves_from(mv[0]);
    let ind = to_linind(mv[1]).unwrap();
    assert_ne!(legal & (1u128 << ind), 0);
}

#[test]
fn transposition_table_stores_and_finds() {
    let mut table = TransTable::new();
    let key = (7u128, 9u128, true);
    assert_eq!(table.lookup(key), None);
    table.store(key, (3, 42));
    assert_eq!(table.lookup(key), Some((3, 42)));
    table.store(key, (4, 17));
    assert_eq!(table.lookup(key), Some((4, 17)));
}

#[test]
fn obstructor_spreads_pattern_bits() {
    // Pattern bits skip the origin cell of the line.
    let o = make_obstructor(0, 0b1);
    assert_eq!(o, 1u128 << 11);
    let o = make_obstructor(2, 0b11);
    assert_eq!(o, (1u128 << 0) | (1u128 << 11));
    let o = make_obstructor(0, 0);
    assert_eq!(o, 0);
}

#[test]
fn known_magic_number_verifies() {
    let obstructors = make_all_obstructors(0);
    let moves = make_all_moves(0);
    assert_eq!(obstructors.len(), 1024);
    assert_eq!(moves.len(), 1024);
    // The stored multiplier for the first line is collision-free; the
    // first shift that works for it is 36.
    let found = test_magic_number(&obstructors, &moves, 0x501e1970a031effc2a07048e4fdb9fff, 11);
    assert_eq!(found, Some(36));
    // The zero multiplier collapses every pattern onto slot 0.
    let found = test_magic_number(&obstructors, &moves, 0, 11);
    assert_eq!(found, None);
}

#[test]
fn readable_coords() {
    assert_eq!(to_readable_coord([0, 0]), "A1");
    assert_eq!(to_readable_coord([4, 2]), "C5");
    assert_eq!(to_readable_coord([9, 10]), "K10");
    assert_eq!(to_readable_coord([10, 5]), "F11");
}

#[test]
fn all_moves_has_no_duplicates() {
    let board = BoardState::standard_setup();
    let moves = board.all_moves(Faction::Black);
    assert_eq!(moves.len(), 116);
    for a in 0..moves.len() {
        for b in (a + 1)..moves.len() {
            assert_ne!(moves[a], moves[b]);
        }
    }
}

#[test]
fn alphabeta_depth_zero_is_static_evaluation() {
    let board = BoardState::standard_setup();
    let mut table = TransTable::new();
    let score = board.alphabeta(Faction::White, 0, -3, 3, &mut table);
    assert_eq!(score, -11);
    // The table was not touched at depth 0.
    assert_eq!(table.lookup((board.plane0, board.plane1, true)), None);
}

#[test]
fn best_move_records_root_entry() {
    let board = BoardState::standard_setup();
    let mut table = TransTable::new();
    let (_, score) = board.best_move(Faction::Black, 0, &mut table);
    assert_eq!(table.lookup((board.plane0, board.plane1, false)), Some((1, score)));
}

#[test]
fn magic_tables_match_ray_casting() {
    // The stored multipliers pass verification and the magic generator
    // agrees with the naive ray caster on every origin, bit for bit.
    let tables = build_magic_tables().unwrap();
    let mut boards = vec![BoardState::standard_setup(), BoardState::new()];
    let mut custom = BoardState::new();
    custom.set_2d([3, 3], Piece::King);
    custom.set_2d([3, 5], Piece::Black);
    custom.set_2d([7, 3], Piece::White);
    custom.set_2d([0, 3], Piece::Black);
    boards.push(custom);
    for board in boards {
        for c in 0..121u16 {
            let coord = [c / 11, c % 11];
            assert_eq!(
                board.moves_from(coord),
                board.moves_from_magic(&tables, coord),
                "origin {coord:?}"
            );
        }
    }
}

#[test]
fn transposition_reuse_only_at_equal_depth() {
    let board = BoardState::standard_setup();
    let key = (board.plane0, board.plane1, false);
    let mut table = TransTable::new();
    let s1 = board.alphabeta(Faction::Black, 1, -WIN_SCORE, WIN_SCORE, &mut table);
    // The in-window score is cached for the searched position at its depth.
    assert_eq!(table.lookup(key), Some((1, s1)));
    // An entry at exactly the requested depth is returned as stored, with
    // the table unchanged.
    let again = board.alphabeta(Faction::Black, 1, -WIN_SCORE, WIN_SCORE, &mut table);
    assert_eq!(again, s1);
    assert_eq!(table.lookup(key), Some((1, s1)));
    // A shallower entry is stale: a deeper search recomputes and overwrites.
    let s2 = board.alphabeta(Faction::Black, 2, -WIN_SCORE, WIN_SCORE, &mut table);
    assert_eq!(table.lookup(key), Some((2, s2)));
    let mut fresh = TransTable::new();
    assert_eq!(s2, board.alphabeta(Faction::Black, 2, -WIN_SCORE, WIN_SCORE, &mut fresh));
}

#[test]
fn bad_multiplier_is_rejected_at_build() {
    // The zero multiplier collides on every line, so table construction
    // reports the mismatch instead of producing a table.
    assert_eq!(build_vertical_line(0, 0, 0), None);
    // The stored multiplier and shift build a sound table.
    assert!(build_vertical_line(0, 0x501e1970a031effc2a07048e4fdb9fff, 37).is_some());
}
