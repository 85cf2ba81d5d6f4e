//! When the transposition table can be trusted.
//!
//! A fingerprint leaves out the side to move, and two positions may share
//! one. The plain negamax search returns whatever it finds under the
//! fingerprint of a position. It computes the value of the game where that
//! cannot mislead it: where any two positions that arise in the search and
//! share a fingerprint have the same value.

use crate::board::{breached, grid_wf, Grid, Side, COLUMNS, ROWS};
use crate::game::{
    best_reply, game_value, lemma_mirrored_twice, lemma_mirrored_value, lemma_value_bounded,
    lemma_value_of_lost, mirrored,
};
use crate::moves::{
    immediately_lost, is_move, lemma_potential_bounded, lemma_successor_lowers_potential,
    potential, successors,
};
use crate::score::{
    negatable, negated, negated_score, preferred, preferred_score, Bound, Score,
};
use crate::search::{minmax_fits, minmax_fold, minmax_fold_fits, minmax_outcome};
use crate::zobrist::fingerprint_of;
use vstd::prelude::*;

verus! {

/// After `plies` moves of a search that starts at `root` with `first` to
/// move, `g` may stand on the board with `side` to move. The search does not
/// move on from a position whose home rank is breached.
pub open spec fn arises_after(root: Grid, first: Side, plies: nat, g: Grid, side: Side) -> bool
    decreases plies,
{
    if plies == 0 {
        g == root && side == first
    } else {
        exists|before: Grid|
            {
                &&& arises_after(root, first, (plies - 1) as nat, before, side.other())
                &&& !breached(before, side.other())
                &&& #[trigger] is_move(before, side.other(), g)
            }
    }
}

/// The search that starts at `root` with `first` to move may come to `g`
/// with `side` to move.
pub open spec fn arises(root: Grid, first: Side, g: Grid, side: Side) -> bool {
    exists|plies: nat| arises_after(root, first, plies, g, side)
}

/// Positions that arise from `root` and share a fingerprint have the same
/// value.
pub open spec fn tells_apart(keys: Seq<u64>, root: Grid, first: Side) -> bool {
    forall|g1: Grid, side1: Side, g2: Grid, side2: Side|
        #[trigger] arises(root, first, g1, side1) && #[trigger] arises(root, first, g2, side2)
            && fingerprint_of(keys, g1) == fingerprint_of(keys, g2) ==> game_value(g1, side1)
            == game_value(g2, side2)
}

/// Every entry under the fingerprint of a position that arises from `root`
/// holds the value of that position.
pub open spec fn faithful(keys: Seq<u64>, table: Map<u64, Score>, root: Grid, first: Side) -> bool {
    forall|g: Grid, side: Side|
        #[trigger] arises(root, first, g, side) && table.contains_key(fingerprint_of(keys, g))
            ==> table[fingerprint_of(keys, g)].score == game_value(g, side)
}

/// The search starts at its root.
pub proof fn lemma_root_arises(root: Grid, first: Side)
    ensures
        arises(root, first, root, first),
{
    assert(arises_after(root, first, 0, root, first));
}

/// A position that arises has the dimensions of the board, and so has every
/// position that the search moves on to from it.
pub proof fn lemma_arises_onward(root: Grid, first: Side, g: Grid, side: Side, next: Grid)
    requires
        grid_wf(root),
        arises(root, first, g, side),
    ensures
        grid_wf(g),
        !breached(g, side) && is_move(g, side, next) ==> arises(root, first, next, side.other()),
{
    let plies = choose|plies: nat| arises_after(root, first, plies, g, side);
    lemma_arises_after_wf(root, first, plies, g, side);
    if !breached(g, side) && is_move(g, side, next) {
        assert(side.other().other() == side);
        assert(arises_after(root, first, (plies + 1 - 1) as nat, g, side.other().other()));
        assert(arises_after(root, first, plies + 1, next, side.other()));
    }
}

proof fn lemma_arises_after_wf(root: Grid, first: Side, plies: nat, g: Grid, side: Side)
    requires
        grid_wf(root),
        arises_after(root, first, plies, g, side),
    ensures
        grid_wf(g),
    decreases plies,
{
    if plies > 0 {
        let before = choose|before: Grid|
            {
                &&& arises_after(root, first, (plies - 1) as nat, before, side.other())
                &&& !breached(before, side.other())
                &&& #[trigger] is_move(before, side.other(), g)
            };
        lemma_arises_after_wf(root, first, (plies - 1) as nat, before, side.other());
        let i = crate::moves::lemma_move_is_successor(before, side.other(), g);
        lemma_successor_lowers_potential(before, side.other(), i);
    }
}

/// The value of a position is far from the ends of the range of `isize`.
pub proof fn lemma_value_fits(g: Grid, side: Side)
    requires
        grid_wf(g),
    ensures
        -(ROWS * COLUMNS * ROWS) <= game_value(g, side) <= ROWS * COLUMNS * ROWS,
        negatable(game_value(g, side) as isize),
        negated_score(game_value(g, side) as isize) == negated(game_value(g, side)),
{
    lemma_value_bounded(g, side);
    lemma_potential_bounded(g, (ROWS * COLUMNS) as nat);
}

/// On a faithful table, where fingerprints tell the positions apart, the
/// plain negamax search meets only magnitudes that fit, returns the value of
/// the position and leaves the table faithful.
pub proof fn lemma_minmax_is_game_value(
    keys: Seq<u64>,
    root: Grid,
    first: Side,
    g: Grid,
    side: Side,
    table: Map<u64, Score>,
)
    requires
        grid_wf(root),
        arises(root, first, g, side),
        tells_apart(keys, root, first),
        faithful(keys, table, root, first),
    ensures
        minmax_fits(keys, g, side, table),
        minmax_outcome(keys, g, side, table).value == game_value(g, side),
        faithful(keys, minmax_outcome(keys, g, side, table).table, root, first),
    decreases potential(g), 1nat, 0nat,
{
    lemma_arises_onward(root, first, g, side, g);
    let key = fingerprint_of(keys, g);
    let found = minmax_outcome(keys, g, side, table);
    if !table.contains_key(key) {
        if immediately_lost(g, side) {
            lemma_value_of_lost(g, side);
        } else {
            lemma_minmax_fold_is_best_reply(
                keys,
                root,
                first,
                g,
                side,
                table,
                successors(g, side).len(),
            );
        }
        let folded = if immediately_lost(g, side) {
            table
        } else {
            minmax_fold(keys, g, side, table, successors(g, side).len()).table
        };
        assert(found.table == folded.insert(
            key,
            Score { score: found.value, bound: Bound::Exact },
        ));
        assert forall|g2: Grid, side2: Side| #[trigger]
            arises(root, first, g2, side2) && found.table.contains_key(
                fingerprint_of(keys, g2),
            ) implies found.table[fingerprint_of(keys, g2)].score == game_value(g2, side2) by {
            if fingerprint_of(keys, g2) == key {
                assert(game_value(g2, side2) == game_value(g, side));
            }
        }
    }
}

/// On a faithful table, where fingerprints tell the positions apart, the
/// plain negamax search holds the best reply among the successors it has
/// searched and leaves the table faithful.
pub proof fn lemma_minmax_fold_is_best_reply(
    keys: Seq<u64>,
    root: Grid,
    first: Side,
    g: Grid,
    side: Side,
    table: Map<u64, Score>,
    n: nat,
)
    requires
        grid_wf(root),
        arises(root, first, g, side),
        !breached(g, side),
        tells_apart(keys, root, first),
        faithful(keys, table, root, first),
        n <= successors(g, side).len(),
    ensures
        minmax_fold_fits(keys, g, side, table, n),
        minmax_fold(keys, g, side, table, n).value == best_reply(g, side, n),
        faithful(keys, minmax_fold(keys, g, side, table, n).table, root, first),
    decreases potential(g), 0nat, n,
{
    lemma_arises_onward(root, first, g, side, g);
    if n > 0 {
        let next = successors(g, side)[n - 1];
        let other = side.other();
        lemma_successor_lowers_potential(g, side, n - 1);
        lemma_arises_onward(root, first, g, side, next);
        lemma_minmax_fold_is_best_reply(keys, root, first, g, side, table, (n - 1) as nat);
        let before = minmax_fold(keys, g, side, table, (n - 1) as nat);
        lemma_minmax_is_game_value(keys, root, first, next, other, before.table);
        let child = minmax_outcome(keys, next, other, before.table);
        lemma_value_fits(next, other);
        assert(negated_score(child.value) == negated(game_value(next, other)));
        assert(preferred_score(before.value, negated_score(child.value)) == preferred(
            before.value as int,
            negated_score(child.value) as int,
        ));
    }
}

/// Started on an empty table, where fingerprints tell the positions apart,
/// the plain negamax search returns the value of the game.
pub proof fn lemma_minmax_solves(keys: Seq<u64>, g: Grid, side: Side)
    requires
        grid_wf(g),
        tells_apart(keys, g, side),
    ensures
        minmax_fits(keys, g, side, Map::empty()),
        minmax_outcome(keys, g, side, Map::empty()).value == game_value(g, side),
{
    lemma_root_arises(g, side);
    lemma_minmax_is_game_value(keys, g, side, g, side, Map::empty());
}

/// Where fingerprints tell the positions apart on both boards, the plain
/// negamax search finds the same magnitude for a position and for the
/// position seen from the other end of the board with the colours exchanged.
pub proof fn lemma_minmax_mirrored(keys: Seq<u64>, g: Grid, side: Side)
    requires
        grid_wf(g),
        tells_apart(keys, g, side),
        tells_apart(keys, mirrored(g), side.other()),
    ensures
        minmax_outcome(keys, mirrored(g), side.other(), Map::empty()).value == minmax_outcome(
            keys,
            g,
            side,
            Map::empty(),
        ).value,
{
    lemma_mirrored_twice(g);
    lemma_mirrored_value(g, side);
    lemma_minmax_solves(keys, g, side);
    lemma_minmax_solves(keys, mirrored(g), side.other());
}

} // verus!
