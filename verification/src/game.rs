//! The value of a position, defined by the rules of the game alone.

use crate::board::{breached, grid_wf, Cell, Grid, Side, COLUMNS, ROWS};
use crate::moves::{
    can_step, is_move, lemma_move_is_successor, lemma_successor_lowers_potential, potential,
    relocated, successors,
};
use crate::score::{
    best_of, lemma_best_of_dominates, lemma_best_of_is_attained, lemma_prefers_antisymmetric,
    negated, preferred, prefers,
};
use vstd::prelude::*;

verus! {

/// The value of `g` for `side`, which is to move: zero if its home rank is
/// breached, else the best of the negated values of its successors, which
/// is zero if there is none.
pub open spec fn game_value(g: Grid, side: Side) -> int
    decreases potential(g), 1nat, 0nat,
    when grid_wf(g)
{
    if breached(g, side) {
        0
    } else {
        best_reply(g, side, successors(g, side).len())
    }
}

/// The best of the negated values of the first `n` successors of `g`.
pub open spec fn best_reply(g: Grid, side: Side, n: nat) -> int
    decreases potential(g), 0nat, n,
    when grid_wf(g) && n <= successors(g, side).len()
    via best_reply_decreases
{
    if n == 0 {
        0
    } else {
        preferred(
            best_reply(g, side, (n - 1) as nat),
            negated(game_value(successors(g, side)[n - 1], side.other())),
        )
    }
}

#[via_fn]
proof fn best_reply_decreases(g: Grid, side: Side, n: nat) {
    if n > 0 {
        lemma_successor_lowers_potential(g, side, n - 1);
    }
}

/// What each successor of `g` is worth to `side`.
pub open spec fn replies(g: Grid, side: Side) -> Seq<int> {
    Seq::new(
        successors(g, side).len(),
        |i: int| negated(game_value(successors(g, side)[i], side.other())),
    )
}

/// The best reply among the first `n` successors is the best of what they
/// are worth.
pub proof fn lemma_best_reply_is_best_of(g: Grid, side: Side, n: nat)
    requires
        grid_wf(g),
        n <= successors(g, side).len(),
    ensures
        best_reply(g, side, n) == best_of(replies(g, side), n),
    decreases n,
{
    if n > 0 {
        lemma_best_reply_is_best_of(g, side, (n - 1) as nat);
        lemma_successor_lowers_potential(g, side, n - 1);
        assert(replies(g, side)[n - 1] == negated(
            game_value(successors(g, side)[n - 1], side.other()),
        ));
    }
}

/// The value of a position whose home rank is not breached is the best of
/// what its successors are worth.
pub proof fn lemma_value_is_best_reply(g: Grid, side: Side)
    requires
        grid_wf(g),
        !breached(g, side),
    ensures
        game_value(g, side) == best_of(replies(g, side), successors(g, side).len()),
{
    lemma_best_reply_is_best_of(g, side, successors(g, side).len());
}

/// A position that is lost already is worth zero.
pub proof fn lemma_value_of_lost(g: Grid, side: Side)
    requires
        grid_wf(g),
        crate::moves::immediately_lost(g, side),
    ensures
        game_value(g, side) == 0,
{
}

/// The value of a position is at least as good as what any legal move is
/// worth.
pub proof fn lemma_value_dominates(g: Grid, side: Side, next: Grid)
    requires
        grid_wf(g),
        !breached(g, side),
        is_move(g, side, next),
    ensures
        prefers(game_value(g, side), negated(game_value(next, side.other()))),
{
    let i = lemma_move_is_successor(g, side, next);
    lemma_value_is_best_reply(g, side);
    lemma_best_of_dominates(replies(g, side), successors(g, side).len(), i);
}

/// The value of a position is zero or what one of its legal moves is worth.
pub proof fn lemma_value_is_attained(g: Grid, side: Side) -> (next: Grid)
    requires
        grid_wf(g),
    ensures
        game_value(g, side) == 0 || (is_move(g, side, next) && game_value(g, side) == negated(
            game_value(next, side.other()),
        )),
{
    if breached(g, side) {
        g
    } else {
        lemma_value_is_best_reply(g, side);
        let i = lemma_best_of_is_attained(replies(g, side), successors(g, side).len());
        if game_value(g, side) == 0 {
            g
        } else {
            lemma_successor_lowers_potential(g, side, i);
            successors(g, side)[i]
        }
    }
}

/// A game lasts no longer than the potential of its first position, so the
/// magnitude of a value is at most one more.
pub proof fn lemma_value_bounded(g: Grid, side: Side)
    requires
        grid_wf(g),
    ensures
        -(potential(g) + 1) <= game_value(g, side) <= potential(g) + 1,
    decreases potential(g),
{
    let next = lemma_value_is_attained(g, side);
    if game_value(g, side) != 0 {
        let i = lemma_move_is_successor(g, side, next);
        lemma_successor_lowers_potential(g, side, i);
        lemma_value_bounded(next, side.other());
    }
}

/// The pawn of the other colour; an empty cell stays empty.
pub open spec fn recoloured(cell: Cell) -> Cell {
    match cell {
        Cell::Empty => Cell::Empty,
        Cell::WhitePawn => Cell::BlackPawn,
        Cell::BlackPawn => Cell::WhitePawn,
    }
}

/// The position seen from the other end of the board: the ranks are
/// reversed and every pawn changes colour.
pub open spec fn mirrored(g: Grid) -> Grid {
    Seq::new(
        ROWS as nat,
        |r: int| Seq::new(COLUMNS as nat, |c: int| recoloured(g[ROWS - 1 - r][c])),
    )
}

/// Mirroring twice gives the position back.
pub proof fn lemma_mirrored_twice(g: Grid)
    requires
        grid_wf(g),
    ensures
        grid_wf(mirrored(g)),
        mirrored(mirrored(g)) == g,
{
    let back = mirrored(mirrored(g));
    assert forall|r: int| 0 <= r < ROWS implies #[trigger] back[r] =~= g[r] by {
        assert(g[r].len() == COLUMNS);
        assert(g[ROWS - 1 - (ROWS - 1 - r)] == g[r]);
    }
    assert(back =~= g);
}

/// A home rank is breached exactly if the mirrored one is breached for the
/// other side.
pub proof fn lemma_mirrored_breached(g: Grid, side: Side)
    requires
        grid_wf(g),
    ensures
        breached(mirrored(g), side.other()) == breached(g, side),
{
    let m = mirrored(g);
    let home = side.home_row();
    let home2 = side.other().home_row();
    assert(home2 == ROWS - 1 - home);
    if breached(g, side) {
        let c = choose|c: int| 0 <= c < COLUMNS && #[trigger] g[home][c] == side.other().pawn();
        assert(m[home2][c] == side.pawn());
    }
    if breached(m, side.other()) {
        let c = choose|c: int| 0 <= c < COLUMNS && #[trigger] m[home2][c] == side.pawn();
        assert(g[home][c] == side.other().pawn());
    }
}

/// A legal move, mirrored, is a legal move of the other side on the
/// mirrored position.
pub proof fn lemma_mirrored_move(g: Grid, side: Side, next: Grid)
    requires
        grid_wf(g),
        is_move(g, side, next),
    ensures
        is_move(mirrored(g), side.other(), mirrored(next)),
{
    let (row, column, column2) = choose|row: int, column: int, column2: int|
        #[trigger] can_step(g, side, row, column, column2) && next == relocated(
            g,
            row,
            column,
            side.ahead(row),
            column2,
        );
    let m = mirrored(g);
    let other = side.other();
    let row_m = ROWS - 1 - row;
    assert(other.ahead(row_m) == ROWS - 1 - side.ahead(row));
    assert(g[row].len() == COLUMNS);
    assert(g[side.ahead(row)].len() == COLUMNS);
    assert(can_step(m, other, row_m, column, column2));
    let moved = relocated(m, row_m, column, other.ahead(row_m), column2);
    let wanted = mirrored(next);
    assert forall|r: int| 0 <= r < ROWS implies #[trigger] moved[r] =~= wanted[r] by {
        assert(g[ROWS - 1 - r].len() == COLUMNS);
    }
    assert(moved =~= wanted);
}

/// Seen from the other end of the board with the colours exchanged, a
/// position has the same value for the side that is then to move.
pub proof fn lemma_mirrored_value(g: Grid, side: Side)
    requires
        grid_wf(g),
    ensures
        game_value(mirrored(g), side.other()) == game_value(g, side),
    decreases potential(g),
{
    let m = mirrored(g);
    let other = side.other();
    lemma_mirrored_twice(g);
    lemma_mirrored_breached(g, side);
    if !breached(g, side) {
        let here = game_value(g, side);
        let there = game_value(m, other);
        // Whatever is attained on one side is dominated on the other.
        let next_m = lemma_value_is_attained(m, other);
        if there != 0 {
            lemma_mirrored_move(m, other, next_m);
            let next = mirrored(next_m);
            let i = lemma_move_is_successor(g, side, next);
            lemma_successor_lowers_potential(g, side, i);
            lemma_mirrored_value(next, other);
            let i_m = lemma_move_is_successor(m, other, next_m);
            lemma_successor_lowers_potential(m, other, i_m);
            lemma_mirrored_twice(next_m);
            lemma_value_dominates(g, side, next);
        }
        assert(prefers(here, there));
        let next = lemma_value_is_attained(g, side);
        if here != 0 {
            lemma_mirrored_move(g, side, next);
            let i = lemma_move_is_successor(g, side, next);
            lemma_successor_lowers_potential(g, side, i);
            lemma_mirrored_value(next, other);
            lemma_value_dominates(m, other, mirrored(next));
        }
        assert(prefers(there, here));
        lemma_prefers_antisymmetric(here, there);
    }
}

} // verus!
