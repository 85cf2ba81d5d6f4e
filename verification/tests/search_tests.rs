use pawn_race::board::{Board, Cell, Side};
use pawn_race::score::{best, negate, Bound, Score};
use pawn_race::search::TranspositionTable;
use pawn_race::zobrist::{CellSignatures, RNG_SEED};

fn setup(rows: [&str; 4]) -> Board {
    let mut board = Board::new_initial_board();
    for (r, row) in rows.iter().enumerate() {
        for (c, letter) in row.chars().enumerate() {
            let cell = match letter {
                'w' => Cell::WhitePawn,
                'b' => Cell::BlackPawn,
                _ => Cell::Empty,
            };
            board.set_cell(r, c, cell);
        }
    }
    board
}

fn mirror(board: &Board) -> Board {
    let mut seen_from_the_other_end = *board;
    for r in 0..4 {
        for c in 0..4 {
            let cell = match board.get_cell(3 - r, c) {
                Cell::WhitePawn => Cell::BlackPawn,
                Cell::BlackPawn => Cell::WhitePawn,
                Cell::Empty => Cell::Empty,
            };
            seen_from_the_other_end.set_cell(r, c, cell);
        }
    }
    seen_from_the_other_end
}

/// The value of the game by the rules alone, without a table.
fn value_by_the_rules(board: &Board, side: Side) -> isize {
    if board.opponent_pawn_on_last_line(side) {
        return 0;
    }
    let mut value = 0;
    for next in board.gen_next_moves(side) {
        value = best(value, negate(value_by_the_rules(&next, side.switch())));
    }
    value
}

fn minmax(board: &Board, side: Side) -> isize {
    let signatures = CellSignatures::from_seed(RNG_SEED);
    let mut table = TranspositionTable::new();
    board.get_score_minmax(side, &signatures, &mut table)
}

fn alpha_beta(board: &Board, alpha: isize, beta: isize, side: Side) -> isize {
    let signatures = CellSignatures::from_seed(RNG_SEED);
    let mut table = TranspositionTable::new();
    board.get_score_alpha_beta(alpha, beta, side, &signatures, &mut table)
}

#[test]
fn initial_position_is_a_win_in_eleven_plies() {
    let board = Board::new_initial_board();
    assert_eq!(minmax(&board, Side::White), 11);
    assert_eq!(minmax(&board, Side::White), 11);
    assert_eq!(value_by_the_rules(&board, Side::White), 11);
}

#[test]
fn initial_position_is_worth_the_same_to_either_side() {
    let board = Board::new_initial_board();
    assert_eq!(mirror(&board), board);
    assert_eq!(minmax(&board, Side::Black), 11);
    assert_eq!(minmax(&board, Side::Black), minmax(&board, Side::White));
}

#[test]
fn mirrored_positions_have_the_same_value() {
    let board = setup([".b..", "....", "..b.", ".w.w"]);
    let other_end = mirror(&board);
    assert_eq!(other_end, setup([".b.b", "..w.", "....", ".w.."]));
    assert_eq!(minmax(&board, Side::White), 3);
    assert_eq!(minmax(&other_end, Side::Black), 3);
    assert_eq!(minmax(&board, Side::Black), 1);
    assert_eq!(minmax(&other_end, Side::White), 1);
    assert_eq!(
        value_by_the_rules(&board, Side::White),
        value_by_the_rules(&other_end, Side::Black)
    );
}

#[test]
fn alpha_beta_on_the_initial_position_depends_on_the_window() {
    let board = Board::new_initial_board();
    assert_eq!(alpha_beta(&board, 0, 1, Side::White), 13);
    assert_eq!(alpha_beta(&board, 0, 5, Side::White), 11);
}

#[test]
fn both_searches_agree_where_no_cut_off_misleads() {
    let board = setup([".b..", "....", "..b.", ".w.w"]);
    assert_eq!(alpha_beta(&board, 0, 1, Side::White), minmax(&board, Side::White));
    assert_eq!(alpha_beta(&board, 0, 1, Side::Black), minmax(&board, Side::Black));
    let race = setup(["....", "b...", "...w", "...."]);
    assert_eq!(minmax(&race, Side::White), 3);
    assert_eq!(alpha_beta(&race, 0, 1, Side::White), 3);
}

#[test]
fn a_closed_window_can_change_the_result() {
    let board = setup(["....", "..b.", "bb..", "..w."]);
    assert_eq!(value_by_the_rules(&board, Side::White), -2);
    assert_eq!(minmax(&board, Side::White), -2);
    assert_eq!(alpha_beta(&board, 0, 1, Side::White), -4);
}

#[test]
fn breached_home_rank_scores_zero() {
    let signatures = CellSignatures::from_seed(RNG_SEED);
    let board = setup(["....", "....", "..w.", ".b.."]);
    assert!(board.opponent_pawn_on_last_line(Side::White));
    let mut table = TranspositionTable::new();
    assert_eq!(board.get_score_minmax(Side::White, &signatures, &mut table), 0);
    assert_eq!(table.len(), 1);
    let stored = table.get(&board.fingerprint(&signatures)).copied();
    assert_eq!(stored, Some(Score::new(0, Bound::Exact)));
    let mut table = TranspositionTable::new();
    assert_eq!(board.get_score_alpha_beta(0, 1, Side::White, &signatures, &mut table), 0);
    assert_eq!(table.len(), 1);
    let stored = table.get(&board.fingerprint(&signatures)).copied();
    assert_eq!(stored, Some(Score::new(0, Bound::Exact)));
    let white_through = setup(["..w.", "....", "b...", "...."]);
    assert_eq!(minmax(&white_through, Side::Black), 0);
    assert_eq!(alpha_beta(&white_through, 0, 1, Side::Black), 0);
}

#[test]
fn a_side_without_a_move_scores_zero() {
    let blocked = setup(["....", ".b..", ".w..", "...."]);
    assert!(blocked.gen_next_moves(Side::White).is_empty());
    assert_eq!(minmax(&blocked, Side::White), 0);
    assert_eq!(alpha_beta(&blocked, 0, 1, Side::White), 0);
    assert_eq!(minmax(&blocked, Side::Black), 0);
    assert_eq!(alpha_beta(&blocked, 0, 1, Side::Black), 0);
    let no_pawns = setup(["....", "....", "b...", "...."]);
    assert_eq!(minmax(&no_pawns, Side::White), 0);
    assert_eq!(alpha_beta(&no_pawns, -3, 4, Side::White), 0);
}

#[test]
fn a_move_onto_the_far_rank_wins_in_one_ply() {
    let board = setup(["....", "b.w.", "....", "...."]);
    assert_eq!(minmax(&board, Side::White), 1);
    assert_eq!(alpha_beta(&board, 0, 1, Side::White), 1);
}

#[test]
fn a_forced_loss_in_two_plies_scores_minus_two() {
    let board = setup(["....", "....", "b...", "...w"]);
    assert_eq!(value_by_the_rules(&board, Side::White), -2);
    assert_eq!(minmax(&board, Side::White), -2);
}

#[test]
fn parent_value_is_the_best_negated_child_value() {
    let signatures = CellSignatures::from_seed(RNG_SEED);
    for (board, side) in [
        (Board::new_initial_board(), Side::White),
        (setup([".b..", "....", "..b.", ".w.w"]), Side::White),
        (setup([".b..", "....", "..b.", ".w.w"]), Side::Black),
        (setup(["bb.b", "..b.", ".w..", "w.ww"]), Side::Black),
    ] {
        let mut table = TranspositionTable::new();
        let parent = board.get_score_minmax(side, &signatures, &mut table);
        let mut shared = TranspositionTable::new();
        let mut folded = 0;
        for next in board.gen_next_moves(side) {
            let child = next.get_score_minmax(side.switch(), &signatures, &mut shared);
            let offer = if child > 0 { -(child + 1) } else { -(child - 1) };
            assert_eq!(offer, negate(child));
            folded = best(folded, offer);
        }
        assert_eq!(parent, folded);
    }
}

#[test]
fn a_second_search_is_answered_from_the_table() {
    let signatures = CellSignatures::from_seed(RNG_SEED);
    let board = Board::new_initial_board();
    let mut table = TranspositionTable::new();
    let first = board.get_score_minmax(Side::White, &signatures, &mut table);
    let entries = table.len();
    let snapshot = table.clone();
    assert_eq!(
        table.get(&board.fingerprint(&signatures)).copied(),
        Some(Score::new(first, Bound::Exact))
    );
    let second = board.get_score_minmax(Side::White, &signatures, &mut table);
    assert_eq!(first, second);
    assert_eq!(table.len(), entries);
    assert_eq!(table, snapshot);
}

#[test]
fn a_second_alpha_beta_search_is_answered_from_the_table() {
    let signatures = CellSignatures::from_seed(RNG_SEED);
    let board = Board::new_initial_board();
    for (alpha, beta) in [(0, 1), (0, 5), (-3, 7)] {
        let mut table = TranspositionTable::new();
        let first = board.get_score_alpha_beta(alpha, beta, Side::White, &signatures, &mut table);
        let snapshot = table.clone();
        assert_eq!(
            table.get(&board.fingerprint(&signatures)).map(|entry| entry.score),
            Some(first)
        );
        let second = board.get_score_alpha_beta(alpha, beta, Side::White, &signatures, &mut table);
        assert_eq!(first, second);
        assert_eq!(table, snapshot);
    }
}

#[test]
fn an_entry_in_the_table_is_returned_as_it_stands() {
    let signatures = CellSignatures::from_seed(RNG_SEED);
    let board = Board::new_initial_board();
    let mut table = TranspositionTable::new();
    table.insert(board.fingerprint(&signatures), Score::new(-6, Bound::Exact));
    assert_eq!(board.get_score_minmax(Side::White, &signatures, &mut table), -6);
    assert_eq!(board.get_score_alpha_beta(0, 1, Side::White, &signatures, &mut table), -6);
    assert_eq!(table.len(), 1);
}

#[test]
fn a_cut_off_entry_answers_only_if_it_closes_the_window() {
    let signatures = CellSignatures::from_seed(RNG_SEED);
    let board = setup(["....", "b.w.", "....", "...."]);
    let key = board.fingerprint(&signatures);
    let mut table = TranspositionTable::new();
    table.insert(key, Score::new(3, Bound::MaybeBetter));
    assert_eq!(board.get_score_alpha_beta(0, 5, Side::White, &signatures, &mut table), 3);
    assert_eq!(table.get(&key).copied(), Some(Score::new(3, Bound::MaybeBetter)));
    assert_eq!(board.get_score_alpha_beta(0, 1, Side::White, &signatures, &mut table), 1);
    assert_eq!(table.get(&key).copied(), Some(Score::new(1, Bound::MaybeBetter)));
    assert_eq!(board.get_score_minmax(Side::White, &signatures, &mut table), 1);
}

#[test]
fn the_side_to_move_is_not_part_of_the_key() {
    let signatures = CellSignatures::from_seed(RNG_SEED);
    let board = setup(["....", "..w.", "....", "...."]);
    assert_eq!(minmax(&board, Side::White), 1);
    assert_eq!(minmax(&board, Side::Black), 0);
    let mut table = TranspositionTable::new();
    assert_eq!(board.get_score_minmax(Side::White, &signatures, &mut table), 1);
    assert_eq!(board.get_score_minmax(Side::Black, &signatures, &mut table), 1);
}

#[test]
fn a_shared_key_can_mislead_a_search_from_an_empty_table() {
    let board = setup(["bbb.", "....", ".wb.", "w..w"]);
    assert_eq!(value_by_the_rules(&board, Side::White), -8);
    assert_eq!(minmax(&board, Side::White), 7);
    let unmirrored = setup(["bb.b", "..bw", "....", "www."]);
    assert_eq!(value_by_the_rules(&unmirrored, Side::Black), -8);
    assert_eq!(minmax(&unmirrored, Side::Black), -10);
    assert_eq!(minmax(&mirror(&unmirrored), Side::White), -8);
}

#[test]
fn search_works_with_other_signatures() {
    let values: Vec<u64> = (0..32).map(|i| 1u64 << i).collect();
    let signatures = CellSignatures::from_values(values).unwrap();
    let board = Board::new_initial_board();
    let mut table = TranspositionTable::new();
    assert_eq!(board.get_score_minmax(Side::White, &signatures, &mut table), 11);
}

#[test]
fn the_tested_searches_return_what_the_plain_ones_return() {
    let signatures = CellSignatures::from_seed(RNG_SEED);
    for (board, side) in [
        (Board::new_initial_board(), Side::White),
        (Board::new_initial_board(), Side::Black),
        (setup([".b..", "....", "..b.", ".w.w"]), Side::White),
        (setup(["....", "..b.", "bb..", "..w."]), Side::White),
        (setup(["....", ".b..", ".w..", "...."]), Side::Black),
    ] {
        let mut plain = TranspositionTable::new();
        let mut tested = TranspositionTable::new();
        let value = board.get_score_minmax(side, &signatures, &mut plain);
        assert_eq!(board.try_get_score_minmax(side, &signatures, &mut tested), Some(value));
        assert_eq!(plain, tested);
        let mut plain = TranspositionTable::new();
        let mut tested = TranspositionTable::new();
        let value = board.get_score_alpha_beta(0, 1, side, &signatures, &mut plain);
        assert_eq!(
            board.try_get_score_alpha_beta(0, 1, side, &signatures, &mut tested),
            Some(value)
        );
        assert_eq!(plain, tested);
    }
}

#[test]
fn a_magnitude_that_cannot_be_negated_stops_the_tested_search() {
    let signatures = CellSignatures::from_seed(RNG_SEED);
    let board = Board::new_initial_board();
    let first_move = board.gen_next_moves(Side::White)[0];
    for extreme in [isize::MAX, isize::MIN, isize::MIN + 1] {
        let mut table = TranspositionTable::new();
        table.insert(first_move.fingerprint(&signatures), Score::new(extreme, Bound::Exact));
        let before = table.clone();
        assert_eq!(board.try_get_score_minmax(Side::White, &signatures, &mut table), None);
        assert_eq!(table, before);
        assert_eq!(
            board.try_get_score_alpha_beta(0, 1, Side::White, &signatures, &mut table),
            None
        );
        assert_eq!(table, before);
    }
    let mut table = TranspositionTable::new();
    table.insert(first_move.fingerprint(&signatures), Score::new(isize::MAX - 1, Bound::Exact));
    assert!(board.try_get_score_minmax(Side::White, &signatures, &mut table).is_some());
}

#[test]
fn a_magnitude_that_cannot_be_negated_is_still_returned_from_the_table() {
    let signatures = CellSignatures::from_seed(RNG_SEED);
    let board = Board::new_initial_board();
    let mut table = TranspositionTable::new();
    table.insert(board.fingerprint(&signatures), Score::new(isize::MIN, Bound::Exact));
    assert_eq!(
        board.try_get_score_minmax(Side::White, &signatures, &mut table),
        Some(isize::MIN)
    );
    assert_eq!(
        board.try_get_score_alpha_beta(0, 1, Side::White, &signatures, &mut table),
        Some(isize::MIN)
    );
}

#[test]
fn a_bound_that_cannot_be_mirrored_stops_the_tested_search() {
    let signatures = CellSignatures::from_seed(RNG_SEED);
    let board = Board::new_initial_board();
    let mut table = TranspositionTable::new();
    assert_eq!(
        board.try_get_score_alpha_beta(0, isize::MIN, Side::White, &signatures, &mut table),
        None
    );
    assert!(table.is_empty());
    assert_eq!(
        board.try_get_score_alpha_beta(isize::MIN + 1, 1, Side::White, &signatures, &mut table),
        None
    );
    assert!(table.is_empty());
    let decided = setup(["....", ".b..", ".w..", "...."]);
    assert_eq!(
        decided.try_get_score_alpha_beta(0, isize::MIN, Side::White, &signatures, &mut table),
        Some(0)
    );
}

#[test]
fn a_search_leaves_the_entries_it_finds() {
    let signatures = CellSignatures::from_seed(RNG_SEED);
    let board = Board::new_initial_board();
    let first_move = board.gen_next_moves(Side::White)[0];
    let mut table = TranspositionTable::new();
    table.insert(first_move.fingerprint(&signatures), Score::new(-6, Bound::Exact));
    table.insert(7, Score::new(21, Bound::Exact));
    let value = board.get_score_minmax(Side::White, &signatures, &mut table);
    assert_eq!(value, 7);
    assert_eq!(
        table.get(&first_move.fingerprint(&signatures)).copied(),
        Some(Score::new(-6, Bound::Exact))
    );
    assert_eq!(table.get(&7).copied(), Some(Score::new(21, Bound::Exact)));
    let mut table = TranspositionTable::new();
    table.insert(first_move.fingerprint(&signatures), Score::new(-6, Bound::Exact));
    board.get_score_alpha_beta(0, 1, Side::White, &signatures, &mut table);
    assert_eq!(
        table.get(&first_move.fingerprint(&signatures)).copied(),
        Some(Score::new(-6, Bound::Exact))
    );
}
