//! What becomes of the entries of a table during a search: none is removed,
//! and an exact entry is never overwritten.

use crate::board::{grid_wf, Grid, Side};
use crate::moves::{lemma_successor_lowers_potential, potential, successors};
use crate::score::{mirrored_bound, Bound, Score};
use crate::search::{
    alpha_beta_outcome, alpha_beta_scan, minmax_fold, minmax_outcome, tightened,
};
use crate::zobrist::fingerprint_of;
use vstd::prelude::*;

verus! {

/// Every entry of `before` is in `after` as it was.
pub open spec fn extends(before: Map<u64, Score>, after: Map<u64, Score>) -> bool {
    forall|key: u64| #[trigger]
        before.contains_key(key) ==> after.contains_key(key) && after[key] == before[key]
}

/// Every fingerprint of `before` has an entry in `after`, and the exact
/// entries of `before` are in `after` as they were.
pub open spec fn keeps_exact(before: Map<u64, Score>, after: Map<u64, Score>) -> bool {
    forall|key: u64| #[trigger]
        before.contains_key(key) ==> after.contains_key(key) && (before[key].bound
            == Bound::Exact ==> after[key] == before[key])
}

/// The plain negamax search only adds entries: it looks a position up
/// before it stores anything under its fingerprint.
pub proof fn lemma_minmax_extends(keys: Seq<u64>, g: Grid, side: Side, table: Map<u64, Score>)
    requires
        grid_wf(g),
    ensures
        extends(table, minmax_outcome(keys, g, side, table).table),
    decreases potential(g), 1nat, 0nat,
{
    let key = fingerprint_of(keys, g);
    if !table.contains_key(key) && !crate::moves::immediately_lost(g, side) {
        lemma_minmax_fold_extends(keys, g, side, table, successors(g, side).len());
    }
}

/// The plain negamax search has only added entries after any number of
/// successors.
pub proof fn lemma_minmax_fold_extends(
    keys: Seq<u64>,
    g: Grid,
    side: Side,
    table: Map<u64, Score>,
    n: nat,
)
    requires
        grid_wf(g),
        n <= successors(g, side).len(),
    ensures
        extends(table, minmax_fold(keys, g, side, table, n).table),
    decreases potential(g), 0nat, n,
{
    if n > 0 {
        lemma_successor_lowers_potential(g, side, n - 1);
        lemma_minmax_fold_extends(keys, g, side, table, (n - 1) as nat);
        let before = minmax_fold(keys, g, side, table, (n - 1) as nat);
        lemma_minmax_extends(keys, successors(g, side)[n - 1], side.other(), before.table);
    }
}

/// The alpha-beta search removes no entry and overwrites only entries that
/// a cut-off left.
pub proof fn lemma_alpha_beta_keeps_exact(
    keys: Seq<u64>,
    g: Grid,
    side: Side,
    alpha: isize,
    beta: isize,
    table: Map<u64, Score>,
)
    requires
        grid_wf(g),
    ensures
        keeps_exact(table, alpha_beta_outcome(keys, g, side, alpha, beta, table).table),
    decreases potential(g), 1nat, 0nat,
{
    let key = fingerprint_of(keys, g);
    if !crate::search::answers(table, key, alpha, beta) && !crate::moves::immediately_lost(
        g,
        side,
    ) {
        lemma_alpha_beta_scan_keeps_exact(
            keys,
            g,
            side,
            tightened(table, key, alpha),
            beta,
            table,
            successors(g, side).len(),
        );
    }
}

/// The alpha-beta scan has removed no entry and overwritten only entries
/// that a cut-off left, after any number of successors.
pub proof fn lemma_alpha_beta_scan_keeps_exact(
    keys: Seq<u64>,
    g: Grid,
    side: Side,
    alpha: isize,
    beta: isize,
    table: Map<u64, Score>,
    n: nat,
)
    requires
        grid_wf(g),
        n <= successors(g, side).len(),
    ensures
        keeps_exact(table, alpha_beta_scan(keys, g, side, alpha, beta, table, n).table),
    decreases potential(g), 0nat, n,
{
    if n > 0 {
        lemma_successor_lowers_potential(g, side, n - 1);
        lemma_alpha_beta_scan_keeps_exact(keys, g, side, alpha, beta, table, (n - 1) as nat);
        let before = alpha_beta_scan(keys, g, side, alpha, beta, table, (n - 1) as nat);
        if !before.cut {
            lemma_alpha_beta_keeps_exact(
                keys,
                successors(g, side)[n - 1],
                side.other(),
                mirrored_bound(beta),
                mirrored_bound(before.alpha),
                before.table,
            );
        }
    }
}

} // verus!
