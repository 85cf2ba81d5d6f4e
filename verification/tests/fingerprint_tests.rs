use pawn_race::board::{Board, Cell, Side};
use pawn_race::zobrist::{CellSignatures, RNG_SEED, SIGNATURE_COUNT};

fn layout(rows: [&str; 4]) -> Board {
    let mut board = Board::new_initial_board();
    for (r, row) in rows.iter().enumerate() {
        for (c, letter) in row.chars().enumerate() {
            let cell = match letter {
                'w' => Cell::WhitePawn,
                'b' => Cell::BlackPawn,
                _ => Cell::Empty,
            };
            board.set_cell(r, c, cell);
        }
    }
    board
}

fn powers_of_two() -> CellSignatures {
    let values: Vec<u64> = (0..SIGNATURE_COUNT).map(|i| 1u64 << i).collect();
    CellSignatures::from_values(values).unwrap()
}

#[test]
fn there_is_one_signature_per_side_and_cell() {
    assert_eq!(SIGNATURE_COUNT, 32);
    assert_eq!(RNG_SEED, 0xbadd0990d15ea5e5);
}

#[test]
fn fingerprint_of_the_initial_board_is_reproducible() {
    let signatures = CellSignatures::from_seed(RNG_SEED);
    let first = Board::new_initial_board().fingerprint(&signatures);
    let second = Board::new_initial_board().fingerprint(&signatures);
    assert_eq!(first, second);
    let again = CellSignatures::from_seed(RNG_SEED);
    assert_eq!(Board::new_initial_board().fingerprint(&again), first);
}

#[test]
fn default_signatures_come_from_the_generator() {
    let signatures = CellSignatures::from_seed(RNG_SEED);
    assert_eq!(signatures.signature(Cell::WhitePawn, 0, 0), 0x6c1f59dd5ca8454a);
    assert_eq!(signatures.signature(Cell::BlackPawn, 3, 3), 0xd6d2cef0fcce00d6);
    assert_eq!(Board::new_initial_board().fingerprint(&signatures), 0x375039e17d3b3724);
}

#[test]
fn another_seed_gives_other_signatures() {
    let default = CellSignatures::from_seed(RNG_SEED);
    let other = CellSignatures::from_seed(12345);
    let board = Board::new_initial_board();
    assert_ne!(board.fingerprint(&default), board.fingerprint(&other));
    assert_ne!(
        default.signature(Cell::WhitePawn, 1, 1),
        other.signature(Cell::WhitePawn, 1, 1)
    );
}

#[test]
fn the_empty_board_has_fingerprint_zero() {
    let signatures = CellSignatures::from_seed(RNG_SEED);
    assert_eq!(layout(["....", "....", "....", "...."]).fingerprint(&signatures), 0);
}

#[test]
fn fingerprint_combines_the_signatures_of_the_pawns() {
    let signatures = powers_of_two();
    assert_eq!(layout(["....", "..w.", "....", "...."]).fingerprint(&signatures), 1 << 6);
    assert_eq!(layout([".b..", "....", "....", "...."]).fingerprint(&signatures), 1 << 17);
    assert_eq!(
        layout([".b..", "..w.", "....", "...."]).fingerprint(&signatures),
        (1 << 6) | (1 << 17)
    );
    assert_eq!(
        Board::new_initial_board().fingerprint(&signatures),
        0x000f_f000
    );
}

#[test]
fn signatures_are_laid_out_white_first_row_by_row() {
    let signatures = powers_of_two();
    assert_eq!(signatures.signature(Cell::WhitePawn, 0, 0), 1);
    assert_eq!(signatures.signature(Cell::WhitePawn, 0, 3), 1 << 3);
    assert_eq!(signatures.signature(Cell::WhitePawn, 3, 3), 1 << 15);
    assert_eq!(signatures.signature(Cell::BlackPawn, 0, 0), 1 << 16);
    assert_eq!(signatures.signature(Cell::BlackPawn, 2, 1), 1 << 25);
    assert_eq!(signatures.signature(Cell::BlackPawn, 3, 3), 1 << 31);
}

#[test]
fn equal_signatures_cancel() {
    let signatures = CellSignatures::from_values(vec![5; SIGNATURE_COUNT]).unwrap();
    assert_eq!(layout(["w...", "....", "....", "...."]).fingerprint(&signatures), 5);
    assert_eq!(layout(["w...", "..b.", "....", "...."]).fingerprint(&signatures), 0);
    assert_eq!(layout(["w.w.", "..b.", "....", "...."]).fingerprint(&signatures), 5);
}

#[test]
fn fingerprint_follows_the_pawns() {
    let signatures = CellSignatures::from_seed(RNG_SEED);
    let start = Board::new_initial_board();
    for next in start.gen_next_moves(Side::White) {
        assert_ne!(next.fingerprint(&signatures), start.fingerprint(&signatures));
    }
    let mut moved = start;
    moved.set_cell(3, 0, Cell::Empty);
    moved.set_cell(2, 0, Cell::WhitePawn);
    let expected = start.fingerprint(&signatures)
        ^ signatures.signature(Cell::WhitePawn, 3, 0)
        ^ signatures.signature(Cell::WhitePawn, 2, 0);
    assert_eq!(moved.fingerprint(&signatures), expected);
}

#[test]
fn from_values_wants_exactly_one_signature_per_side_and_cell() {
    assert!(CellSignatures::from_values(Vec::new()).is_none());
    assert!(CellSignatures::from_values(vec![1; SIGNATURE_COUNT - 1]).is_none());
    assert!(CellSignatures::from_values(vec![1; SIGNATURE_COUNT + 1]).is_none());
    assert!(CellSignatures::from_values(vec![1; SIGNATURE_COUNT]).is_some());
}
