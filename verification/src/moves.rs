//! Legal moves: a step straight ahead onto an empty cell, or a capture one
//! cell diagonally ahead.

use crate::board::{grid_wf, placed, Board, Cell, Grid, Side, COLUMNS, ROWS};
use vstd::prelude::*;

verus! {

/// The grid after the pawn on (`row`, `column`) has gone to (`row2`,
/// `column2`): the origin is left empty and whatever stood on the
/// destination is replaced.
pub open spec fn relocated(g: Grid, row: int, column: int, row2: int, column2: int) -> Grid {
    placed(placed(g, row, column, Cell::Empty), row2, column2, g[row][column])
}

/// The pawn of `side` on (`row`, `column`) may go one rank ahead to
/// `column2`: straight ahead if that cell is empty, diagonally if it holds an
/// opposing pawn.
pub open spec fn can_step(g: Grid, side: Side, row: int, column: int, column2: int) -> bool {
    &&& 0 <= row < ROWS
    &&& 0 <= column < COLUMNS
    &&& 0 <= side.ahead(row) < ROWS
    &&& 0 <= column2 < COLUMNS
    &&& column - 1 <= column2 <= column + 1
    &&& g[row][column] == side.pawn()
    &&& g[side.ahead(row)][column2] == if column2 == column {
        Cell::Empty
    } else {
        side.other().pawn()
    }
}

/// The one grid that the step to `column2` leads to, or nothing if the step
/// is not legal.
pub open spec fn step_to(g: Grid, side: Side, row: int, column: int, column2: int) -> Seq<Grid> {
    if can_step(g, side, row, column, column2) {
        seq![relocated(g, row, column, side.ahead(row), column2)]
    } else {
        Seq::empty()
    }
}

/// The moves of the pawn on (`row`, `column`): ahead, capture to the lower
/// column, capture to the higher column.
pub open spec fn pawn_moves(g: Grid, side: Side, row: int, column: int) -> Seq<Grid> {
    step_to(g, side, row, column, column) + step_to(g, side, row, column, column - 1) + step_to(
        g,
        side,
        row,
        column,
        column + 1,
    )
}

/// The moves of the pawns on the first `n` cells, counted row by row.
pub open spec fn moves_before(g: Grid, side: Side, n: nat) -> Seq<Grid>
    decreases n,
{
    if n == 0 {
        Seq::empty()
    } else {
        moves_before(g, side, (n - 1) as nat) + pawn_moves(
            g,
            side,
            (n - 1) / (COLUMNS as int),
            (n - 1) % (COLUMNS as int),
        )
    }
}

/// Every position that `side` can move to, in the order in which the search
/// visits them.
pub open spec fn successors(g: Grid, side: Side) -> Seq<Grid> {
    moves_before(g, side, (ROWS * COLUMNS) as nat)
}

/// `side` has lost already: its home rank is breached or it cannot move.
pub open spec fn immediately_lost(g: Grid, side: Side) -> bool {
    crate::board::breached(g, side) || successors(g, side).len() == 0
}

/// `next` is reached from `g` by one legal move of `side`.
pub open spec fn is_move(g: Grid, side: Side, next: Grid) -> bool {
    exists|row: int, column: int, column2: int|
        #[trigger] can_step(g, side, row, column, column2) && next == relocated(
            g,
            row,
            column,
            side.ahead(row),
            column2,
        )
}

/// How many ranks the pawn in `cell` on rank `row` still has ahead of it.
pub open spec fn distance_left(cell: Cell, row: int) -> nat {
    match cell {
        Cell::Empty => 0,
        Cell::WhitePawn => row as nat,
        Cell::BlackPawn => (ROWS - 1 - row) as nat,
    }
}

/// The ranks left to the pawns on the first `n` cells, counted row by row.
pub open spec fn potential_before(g: Grid, n: nat) -> nat
    decreases n,
{
    if n == 0 {
        0
    } else {
        potential_before(g, (n - 1) as nat) + distance_left(
            g[(n - 1) / (COLUMNS as int)][(n - 1) % (COLUMNS as int)],
            (n - 1) / (COLUMNS as int),
        )
    }
}

/// The ranks that all pawns together can still advance. Every move lowers
/// it, which bounds the length of a game.
pub open spec fn potential(g: Grid) -> nat {
    potential_before(g, (ROWS * COLUMNS) as nat)
}

/// No pawn has more than `ROWS - 1` ranks ahead of it, which bounds the
/// potential.
pub proof fn lemma_potential_bounded(g: Grid, n: nat)
    requires
        grid_wf(g),
        n <= ROWS * COLUMNS,
    ensures
        potential_before(g, n) <= (ROWS - 1) * n,
    decreases n,
{
    if n > 0 {
        lemma_potential_bounded(g, (n - 1) as nat);
    }
}

/// Replacing one cell changes the potential by the difference of the two
/// cells' distances.
pub proof fn lemma_potential_placed(g: Grid, row: int, column: int, cell: Cell, n: nat)
    requires
        grid_wf(g),
        0 <= row < ROWS,
        0 <= column < COLUMNS,
        n <= ROWS * COLUMNS,
    ensures
        grid_wf(placed(g, row, column, cell)),
        potential_before(placed(g, row, column, cell), n) == potential_before(g, n) + (if row
            * COLUMNS + column < n {
            distance_left(cell, row) - distance_left(g[row][column], row)
        } else {
            0
        }),
    decreases n,
{
    let after = placed(g, row, column, cell);
    assert(grid_wf(after)) by {
        assert forall|r: int| 0 <= r < ROWS implies (#[trigger] after[r]).len() == COLUMNS by {
            assert(g[r].len() == COLUMNS);
        }
    }
    if n > 0 {
        lemma_potential_placed(g, row, column, cell, (n - 1) as nat);
        let r = (n - 1) / (COLUMNS as int);
        let c = (n - 1) % (COLUMNS as int);
        assert(g[r].len() == COLUMNS);
        assert(g[row].len() == COLUMNS);
        if r == row && c == column {
            assert(after[r][c] == cell);
        } else {
            assert(after[r][c] == g[r][c]);
        }
    }
}

/// A legal step leads to a grid of the same dimensions and of strictly lower
/// potential.
pub proof fn lemma_step_lowers_potential(g: Grid, side: Side, row: int, column: int, column2: int)
    requires
        grid_wf(g),
        can_step(g, side, row, column, column2),
    ensures
        grid_wf(relocated(g, row, column, side.ahead(row), column2)),
        potential(relocated(g, row, column, side.ahead(row), column2)) < potential(g),
{
    let row2 = side.ahead(row);
    let lifted = placed(g, row, column, Cell::Empty);
    let all = (ROWS * COLUMNS) as nat;
    lemma_potential_placed(g, row, column, Cell::Empty, all);
    lemma_potential_placed(lifted, row2, column2, g[row][column], all);
    assert(g[row].len() == COLUMNS);
    assert(g[row2].len() == COLUMNS);
    assert(lifted[row2][column2] == g[row2][column2]);
}

/// Every grid among the moves of the first `n` cells is reached by a legal
/// move.
pub proof fn lemma_moves_before_are_moves(g: Grid, side: Side, n: nat, i: int)
    requires
        0 <= i < moves_before(g, side, n).len(),
    ensures
        is_move(g, side, moves_before(g, side, n)[i]),
    decreases n,
{
    if n > 0 {
        let earlier = moves_before(g, side, (n - 1) as nat);
        let r = (n - 1) / (COLUMNS as int);
        let c = (n - 1) % (COLUMNS as int);
        if i < earlier.len() {
            lemma_moves_before_are_moves(g, side, (n - 1) as nat, i);
        } else {
            let k = i - earlier.len();
            let ahead = step_to(g, side, r, c, c);
            let low = step_to(g, side, r, c, c - 1);
            let high = step_to(g, side, r, c, c + 1);
            assert(moves_before(g, side, n)[i] == pawn_moves(g, side, r, c)[k]);
            if k < ahead.len() {
                assert(can_step(g, side, r, c, c));
            } else if k < ahead.len() + low.len() {
                assert(can_step(g, side, r, c, c - 1));
            } else {
                assert(can_step(g, side, r, c, c + 1));
            }
        }
    }
}

/// The moves of the first `n` cells open the moves of the first `m` cells.
pub proof fn lemma_moves_before_grow(g: Grid, side: Side, n: nat, m: nat)
    requires
        n <= m,
    ensures
        moves_before(g, side, n).len() <= moves_before(g, side, m).len(),
        forall|i: int|
            0 <= i < moves_before(g, side, n).len() ==> moves_before(g, side, m)[i]
                == #[trigger] moves_before(g, side, n)[i],
    decreases m,
{
    if n < m {
        lemma_moves_before_grow(g, side, n, (m - 1) as nat);
    }
}

/// Every grid reached by a legal move is among the successors.
pub proof fn lemma_move_is_successor(g: Grid, side: Side, next: Grid) -> (i: int)
    requires
        is_move(g, side, next),
    ensures
        0 <= i < successors(g, side).len(),
        successors(g, side)[i] == next,
{
    let (row, column, column2) = choose|row: int, column: int, column2: int|
        #[trigger] can_step(g, side, row, column, column2) && next == relocated(
            g,
            row,
            column,
            side.ahead(row),
            column2,
        );
    let k = (row * COLUMNS + column) as nat;
    assert(k / (COLUMNS as nat) == row && k % (COLUMNS as nat) == column);
    let earlier = moves_before(g, side, k);
    let ahead = step_to(g, side, row, column, column);
    let low = step_to(g, side, row, column, column - 1);
    let i: int = if column2 == column {
        earlier.len() as int
    } else if column2 == column - 1 {
        (earlier.len() + ahead.len()) as int
    } else {
        (earlier.len() + ahead.len() + low.len()) as int
    };
    assert(moves_before(g, side, k + 1) == earlier + pawn_moves(g, side, row, column));
    assert(moves_before(g, side, k + 1)[i] == next);
    lemma_moves_before_grow(g, side, k + 1, (ROWS * COLUMNS) as nat);
    i
}

/// Every successor has the dimensions of the board and a strictly lower
/// potential than the position it comes from.
pub proof fn lemma_successor_lowers_potential(g: Grid, side: Side, i: int)
    requires
        grid_wf(g),
        0 <= i < successors(g, side).len(),
    ensures
        is_move(g, side, successors(g, side)[i]),
        grid_wf(successors(g, side)[i]),
        potential(successors(g, side)[i]) < potential(g),
{
    lemma_moves_before_are_moves(g, side, (ROWS * COLUMNS) as nat, i);
    let next = successors(g, side)[i];
    let (row, column, column2) = choose|row: int, column: int, column2: int|
        #[trigger] can_step(g, side, row, column, column2) && next == relocated(
            g,
            row,
            column,
            side.ahead(row),
            column2,
        );
    lemma_step_lowers_potential(g, side, row, column, column2);
}

/// The models of a sequence of boards.
pub open spec fn grids_of(boards: Seq<Board>) -> Seq<Grid> {
    boards.map_values(|b: Board| b@)
}

impl Board {
    /// Appends the position reached by moving the pawn on (`row`, `column`)
    /// to (`row2`, `column2`).
    fn push_relocated(
        &self,
        row: usize,
        column: usize,
        row2: usize,
        column2: usize,
        pawn: Cell,
        boards: &mut Vec<Board>,
    )
        requires
            row < ROWS,
            column < COLUMNS,
            row2 < ROWS,
            column2 < COLUMNS,
            pawn == self@[row as int][column as int],
        ensures
            grids_of(final(boards)@) == grids_of(old(boards)@).push(
                relocated(self@, row as int, column as int, row2 as int, column2 as int),
            ),
    {
        let mut next: Board = *self;
        next.set_cell(row, column, Cell::Empty);
        next.set_cell(row2, column2, pawn);
        boards.push(next);
        assert(grids_of(boards@) =~= grids_of(old(boards)@).push(next@));
    }

    /// Every position that `side` can move to: the pawns are taken row by
    /// row, and each pawn steps ahead, captures towards the lower column,
    /// then towards the higher column, as far as these moves are legal.
    pub fn gen_next_moves(&self, side: Side) -> (boards: Vec<Board>)
        ensures
            grids_of(boards@) == successors(self@, side),
    {
        let mut boards: Vec<Board> = Vec::new();
        let own: Cell = match side {
            Side::White => Cell::WhitePawn,
            Side::Black => Cell::BlackPawn,
        };
        let theirs: Cell = match side {
            Side::White => Cell::BlackPawn,
            Side::Black => Cell::WhitePawn,
        };
        assert(grids_of(boards@) =~= moves_before(self@, side, 0));
        let mut i: usize = 0;
        while i < ROWS
            invariant
                i <= ROWS,
                own == side.pawn(),
                theirs == side.other().pawn(),
                grids_of(boards@) == moves_before(self@, side, (i * COLUMNS) as nat),
            decreases ROWS - i,
        {
            // A pawn on the last rank in its direction has nowhere to go.
            let ahead: Option<usize> = match side {
                Side::White => if i >= 1 {
                    Some(i - 1)
                } else {
                    None
                },
                Side::Black => if i + 1 < ROWS {
                    Some(i + 1)
                } else {
                    None
                },
            };
            let mut j: usize = 0;
            while j < COLUMNS
                invariant
                    i < ROWS,
                    j <= COLUMNS,
                    own == side.pawn(),
                    theirs == side.other().pawn(),
                    match ahead {
                        Some(i2) => i2 == side.ahead(i as int) && i2 < ROWS,
                        None => !(0 <= side.ahead(i as int) < ROWS),
                    },
                    grids_of(boards@) == moves_before(self@, side, (i * COLUMNS + j) as nat),
                decreases COLUMNS - j,
            {
                let ghost before = grids_of(boards@);
                let ghost g = self@;
                let ghost r = i as int;
                let ghost c = j as int;
                assert((i * COLUMNS + j) / (COLUMNS as int) == r);
                assert((i * COLUMNS + j) % (COLUMNS as int) == c);
                if let Some(i2) = ahead {
                    if self.0[i][j] == own {
                        if self.0[i2][j] == Cell::Empty {
                            self.push_relocated(i, j, i2, j, own, &mut boards);
                        }
                        assert(grids_of(boards@) =~= before + step_to(g, side, r, c, c));
                        if j != 0 && self.0[i2][j - 1] == theirs {
                            self.push_relocated(i, j, i2, j - 1, own, &mut boards);
                        }
                        assert(grids_of(boards@) =~= before + step_to(g, side, r, c, c) + step_to(
                            g,
                            side,
                            r,
                            c,
                            c - 1,
                        ));
                        if j != COLUMNS - 1 && self.0[i2][j + 1] == theirs {
                            self.push_relocated(i, j, i2, j + 1, own, &mut boards);
                        }
                    }
                }
                assert(grids_of(boards@) =~= before + pawn_moves(g, side, r, c));
                j += 1;
            }
            i += 1;
        }
        boards
    }

    /// Whether `side` has lost before moving: an opposing pawn stands on its
    /// home rank, or it has no legal move.
    pub fn is_immediately_lost(&self, side: Side) -> (lost: bool)
        ensures
            lost == immediately_lost(self@, side),
    {
        if self.opponent_pawn_on_last_line(side) {
            return true;
        }
        let boards: Vec<Board> = self.gen_next_moves(side);
        assert(grids_of(boards@).len() == boards@.len());
        boards.len() == 0
    }
}

} // verus!
