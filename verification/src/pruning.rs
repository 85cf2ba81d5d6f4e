//! What the alpha-beta search has in common with the plain negamax search.
//!
//! The two searches differ only where a window closes. As long as none
//! does, the alpha-beta search visits the same positions in the same order,
//! returns the same magnitude, and leaves the same table.

use crate::board::{grid_wf, Grid, Side};
use crate::moves::{immediately_lost, lemma_successor_lowers_potential, potential, successors};
use crate::score::{mirrored_bound, Bound, Score};
use crate::search::{
    alpha_beta_fits, alpha_beta_outcome, alpha_beta_scan, alpha_beta_scan_fits, answers,
    minmax_fits, minmax_fold, minmax_fold_fits, minmax_outcome, tightened,
};
use crate::zobrist::fingerprint_of;
use vstd::prelude::*;

verus! {

/// No entry of the table was left by a cut-off.
pub open spec fn all_exact(table: Map<u64, Score>) -> bool {
    forall|key: u64| table.contains_key(key) ==> (#[trigger] table[key]).bound == Bound::Exact
}

/// No window closes in the alpha-beta search of `g`, neither at `g` nor
/// at any position that the search comes to.
pub open spec fn never_cuts(
    keys: Seq<u64>,
    g: Grid,
    side: Side,
    alpha: isize,
    beta: isize,
    table: Map<u64, Score>,
) -> bool
    decreases potential(g), 1nat, 0nat,
    when grid_wf(g)
{
    let key = fingerprint_of(keys, g);
    answers(table, key, alpha, beta) || immediately_lost(g, side) || never_cuts_among(
        keys,
        g,
        side,
        tightened(table, key, alpha),
        beta,
        table,
        successors(g, side).len(),
    )
}

/// No window closes while the alpha-beta search scans the first `n`
/// successors of `g`.
pub open spec fn never_cuts_among(
    keys: Seq<u64>,
    g: Grid,
    side: Side,
    alpha: isize,
    beta: isize,
    table: Map<u64, Score>,
    n: nat,
) -> bool
    decreases potential(g), 0nat, n,
    when grid_wf(g) && n <= successors(g, side).len()
    via never_cuts_among_decreases
{
    if n == 0 {
        true
    } else {
        let before = alpha_beta_scan(keys, g, side, alpha, beta, table, (n - 1) as nat);
        &&& never_cuts_among(keys, g, side, alpha, beta, table, (n - 1) as nat)
        &&& never_cuts(
            keys,
            successors(g, side)[n - 1],
            side.other(),
            mirrored_bound(beta),
            mirrored_bound(before.alpha),
            before.table,
        )
        &&& !alpha_beta_scan(keys, g, side, alpha, beta, table, n).cut
    }
}

#[via_fn]
proof fn never_cuts_among_decreases(
    keys: Seq<u64>,
    g: Grid,
    side: Side,
    alpha: isize,
    beta: isize,
    table: Map<u64, Score>,
    n: nat,
) {
    if n > 0 {
        lemma_successor_lowers_potential(g, side, n - 1);
    }
}

/// Started on a table without cut-off entries, an alpha-beta search in
/// which no window closes returns what the plain negamax search returns and
/// leaves the same table, again without cut-off entries.
pub proof fn lemma_uncut_alpha_beta_is_minmax(
    keys: Seq<u64>,
    g: Grid,
    side: Side,
    alpha: isize,
    beta: isize,
    table: Map<u64, Score>,
)
    requires
        grid_wf(g),
        all_exact(table),
        never_cuts(keys, g, side, alpha, beta, table),
    ensures
        alpha_beta_outcome(keys, g, side, alpha, beta, table).value == minmax_outcome(
            keys,
            g,
            side,
            table,
        ).value,
        alpha_beta_outcome(keys, g, side, alpha, beta, table).table == minmax_outcome(
            keys,
            g,
            side,
            table,
        ).table,
        all_exact(minmax_outcome(keys, g, side, table).table),
    decreases potential(g), 1nat, 0nat,
{
    let key = fingerprint_of(keys, g);
    if table.contains_key(key) {
        assert(table[key].bound == Bound::Exact);
    } else if !immediately_lost(g, side) {
        lemma_uncut_scan_is_fold(keys, g, side, alpha, beta, table, successors(g, side).len());
    }
}

/// Started on a table without cut-off entries, an alpha-beta scan in which
/// no window closes holds what the plain negamax search holds after the same
/// successors.
pub proof fn lemma_uncut_scan_is_fold(
    keys: Seq<u64>,
    g: Grid,
    side: Side,
    alpha: isize,
    beta: isize,
    table: Map<u64, Score>,
    n: nat,
)
    requires
        grid_wf(g),
        all_exact(table),
        n <= successors(g, side).len(),
        never_cuts_among(keys, g, side, alpha, beta, table, n),
    ensures
        !alpha_beta_scan(keys, g, side, alpha, beta, table, n).cut,
        alpha_beta_scan(keys, g, side, alpha, beta, table, n).best == minmax_fold(
            keys,
            g,
            side,
            table,
            n,
        ).value,
        alpha_beta_scan(keys, g, side, alpha, beta, table, n).table == minmax_fold(
            keys,
            g,
            side,
            table,
            n,
        ).table,
        all_exact(minmax_fold(keys, g, side, table, n).table),
    decreases potential(g), 0nat, n,
{
    if n > 0 {
        lemma_successor_lowers_potential(g, side, n - 1);
        lemma_uncut_scan_is_fold(keys, g, side, alpha, beta, table, (n - 1) as nat);
        let before = alpha_beta_scan(keys, g, side, alpha, beta, table, (n - 1) as nat);
        lemma_uncut_alpha_beta_is_minmax(
            keys,
            successors(g, side)[n - 1],
            side.other(),
            mirrored_bound(beta),
            mirrored_bound(before.alpha),
            before.table,
        );
    }
}

/// Where every magnitude fits in an alpha-beta search in which no window
/// closes, every magnitude fits in the plain negamax search as well.
pub proof fn lemma_uncut_alpha_beta_fits(
    keys: Seq<u64>,
    g: Grid,
    side: Side,
    alpha: isize,
    beta: isize,
    table: Map<u64, Score>,
)
    requires
        grid_wf(g),
        all_exact(table),
        never_cuts(keys, g, side, alpha, beta, table),
        alpha_beta_fits(keys, g, side, alpha, beta, table),
    ensures
        minmax_fits(keys, g, side, table),
    decreases potential(g), 1nat, 0nat,
{
    let key = fingerprint_of(keys, g);
    if table.contains_key(key) {
        assert(table[key].bound == Bound::Exact);
    } else if !immediately_lost(g, side) {
        lemma_uncut_scan_fits(keys, g, side, alpha, beta, table, successors(g, side).len());
    }
}

/// Where every magnitude fits in an alpha-beta scan in which no window
/// closes, every magnitude fits in the plain negamax search of the same
/// successors.
pub proof fn lemma_uncut_scan_fits(
    keys: Seq<u64>,
    g: Grid,
    side: Side,
    alpha: isize,
    beta: isize,
    table: Map<u64, Score>,
    n: nat,
)
    requires
        grid_wf(g),
        all_exact(table),
        n <= successors(g, side).len(),
        never_cuts_among(keys, g, side, alpha, beta, table, n),
        alpha_beta_scan_fits(keys, g, side, alpha, beta, table, n),
    ensures
        minmax_fold_fits(keys, g, side, table, n),
    decreases potential(g), 0nat, n,
{
    if n > 0 {
        lemma_successor_lowers_potential(g, side, n - 1);
        lemma_uncut_scan_fits(keys, g, side, alpha, beta, table, (n - 1) as nat);
        lemma_uncut_scan_is_fold(keys, g, side, alpha, beta, table, (n - 1) as nat);
        let before = alpha_beta_scan(keys, g, side, alpha, beta, table, (n - 1) as nat);
        lemma_uncut_alpha_beta_fits(
            keys,
            successors(g, side)[n - 1],
            side.other(),
            mirrored_bound(beta),
            mirrored_bound(before.alpha),
            before.table,
        );
        lemma_uncut_alpha_beta_is_minmax(
            keys,
            successors(g, side)[n - 1],
            side.other(),
            mirrored_bound(beta),
            mirrored_bound(before.alpha),
            before.table,
        );
    }
}

} // verus!
