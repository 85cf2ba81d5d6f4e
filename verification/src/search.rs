//! The two searches and the transposition table they share.
//!
//! Both searches look a position up by its fingerprint before they compute
//! anything and store what they computed afterwards. An entry is never
//! removed, only overwritten. What a search returns therefore depends on the
//! table it is handed, and the contracts say so: for each search a spec
//! function of the position, the side to move and the table before the call
//! gives the magnitude returned and the table afterwards.
//!
//! A table handed in by the caller may hold any magnitude, also one at the
//! ends of the range of `isize` that cannot be negated. No position of the
//! game has a value near them. The searches come in two forms: one that
//! demands that every magnitude it meets fits, and one that tests each
//! magnitude and returns `None` where one does not fit.

use crate::board::{grid_wf, Board, Grid, Side};
use crate::entries::{extends, keeps_exact, lemma_alpha_beta_keeps_exact, lemma_minmax_extends};
use crate::game::game_value;
use crate::results::{lemma_alpha_beta_stores_result, lemma_minmax_stores_result};
use crate::memo::{faithful, lemma_minmax_is_game_value, lemma_root_arises, tells_apart};
use crate::moves::{
    grids_of, immediately_lost, lemma_successor_lowers_potential, potential, successors,
};
use crate::score::{
    best, better_than, can_mirror, can_negate, mirror_bound, mirrorable, mirrored_bound,
    negatable, negate, negated_score, preferred_score, prefers, Bound, Score,
};
use crate::zobrist::{fingerprint_of, CellSignatures};
use std::collections::HashMap;
use vstd::prelude::*;

verus! {

/// Memoized scores, keyed by position fingerprint.
pub type TranspositionTable = HashMap<u64, Score>;

/// What a search hands back: the magnitude and the table as it leaves it.
pub struct Outcome {
    pub value: isize,
    pub table: Map<u64, Score>,
}

/// The entry of a position that is decided before any move.
pub open spec fn decided() -> Score {
    Score { score: 0, bound: Bound::Exact }
}

/// The plain negamax search of `g` with `side` to move, started on `table`.
///
/// An entry under the fingerprint of `g` is returned as it stands. A position
/// that is lost already scores zero. Otherwise every successor is searched in
/// turn, each on the table that the one before it left, and the best of
/// their negated magnitudes is the score. Whatever was computed is stored as
/// exact.
pub open spec fn minmax_outcome(
    keys: Seq<u64>,
    g: Grid,
    side: Side,
    table: Map<u64, Score>,
) -> Outcome
    decreases potential(g), 1nat, 0nat,
    when grid_wf(g)
{
    let key = fingerprint_of(keys, g);
    if table.contains_key(key) {
        Outcome { value: table[key].score, table }
    } else if immediately_lost(g, side) {
        Outcome { value: 0, table: table.insert(key, decided()) }
    } else {
        let folded = minmax_fold(keys, g, side, table, successors(g, side).len());
        Outcome {
            value: folded.value,
            table: folded.table.insert(key, Score { score: folded.value, bound: Bound::Exact }),
        }
    }
}

/// The plain negamax search after the first `n` successors of `g`: the best
/// negated magnitude so far, zero if there is none, and the table that the
/// searches of those successors left.
pub open spec fn minmax_fold(
    keys: Seq<u64>,
    g: Grid,
    side: Side,
    table: Map<u64, Score>,
    n: nat,
) -> Outcome
    decreases potential(g), 0nat, n,
    when grid_wf(g) && n <= successors(g, side).len()
    via minmax_fold_decreases
{
    if n == 0 {
        Outcome { value: 0, table }
    } else {
        let before = minmax_fold(keys, g, side, table, (n - 1) as nat);
        let child = minmax_outcome(keys, successors(g, side)[n - 1], side.other(), before.table);
        Outcome {
            value: preferred_score(before.value, negated_score(child.value)),
            table: child.table,
        }
    }
}

#[via_fn]
proof fn minmax_fold_decreases(
    keys: Seq<u64>,
    g: Grid,
    side: Side,
    table: Map<u64, Score>,
    n: nat,
) {
    if n > 0 {
        lemma_successor_lowers_potential(g, side, n - 1);
    }
}

/// Where the alpha-beta search stands among the successors of a position.
pub struct Scan {
    /// The best negated magnitude so far, zero if there is none.
    pub best: isize,
    /// The lower bound of the window.
    pub alpha: isize,
    /// The window has closed and the remaining successors are skipped.
    pub cut: bool,
    pub table: Map<u64, Score>,
}

/// The lower bound of the window once the entry under `key` is taken into
/// account: an entry left by a cut-off raises it to the better of the two.
pub open spec fn tightened(table: Map<u64, Score>, key: u64, alpha: isize) -> isize {
    if table.contains_key(key) {
        preferred_score(alpha, table[key].score)
    } else {
        alpha
    }
}

/// The entry under `key` answers a search with the window `alpha`, `beta`:
/// it is exact, or it closes the window.
pub open spec fn answers(table: Map<u64, Score>, key: u64, alpha: isize, beta: isize) -> bool {
    table.contains_key(key) && (table[key].bound == Bound::Exact || prefers(
        tightened(table, key, alpha) as int,
        beta as int,
    ))
}

/// The alpha-beta search of `g` with `side` to move and the window `alpha`,
/// `beta`, started on `table`.
///
/// An entry that answers the search is returned as it stands. A position
/// that is lost already scores zero. Otherwise the successors are scanned
/// with the tightened window until it closes, and the best negated magnitude
/// is stored: as exact if every successor was searched, as a cut-off result
/// if not.
pub open spec fn alpha_beta_outcome(
    keys: Seq<u64>,
    g: Grid,
    side: Side,
    alpha: isize,
    beta: isize,
    table: Map<u64, Score>,
) -> Outcome
    decreases potential(g), 1nat, 0nat,
    when grid_wf(g)
{
    let key = fingerprint_of(keys, g);
    if answers(table, key, alpha, beta) {
        Outcome { value: table[key].score, table }
    } else if immediately_lost(g, side) {
        Outcome { value: 0, table: table.insert(key, decided()) }
    } else {
        let scan = alpha_beta_scan(
            keys,
            g,
            side,
            tightened(table, key, alpha),
            beta,
            table,
            successors(g, side).len(),
        );
        Outcome {
            value: scan.best,
            table: scan.table.insert(
                key,
                Score {
                    score: scan.best,
                    bound: if scan.cut {
                        Bound::MaybeBetter
                    } else {
                        Bound::Exact
                    },
                },
            ),
        }
    }
}

/// The alpha-beta scan after the first `n` successors of `g`, or after the
/// successor at which the window closed if that came earlier.
///
/// A successor is searched with the window `1 - beta`, `1 - alpha`. If its
/// negated magnitude is at least as good as the best so far, it becomes both
/// the best and the lower bound. The window closes once the lower bound is
/// at least as good as `beta`.
pub open spec fn alpha_beta_scan(
    keys: Seq<u64>,
    g: Grid,
    side: Side,
    alpha: isize,
    beta: isize,
    table: Map<u64, Score>,
    n: nat,
) -> Scan
    decreases potential(g), 0nat, n,
    when grid_wf(g) && n <= successors(g, side).len()
    via alpha_beta_scan_decreases
{
    if n == 0 {
        Scan { best: 0, alpha, cut: false, table }
    } else {
        let before = alpha_beta_scan(keys, g, side, alpha, beta, table, (n - 1) as nat);
        if before.cut {
            before
        } else {
            let child = alpha_beta_outcome(
                keys,
                successors(g, side)[n - 1],
                side.other(),
                mirrored_bound(beta),
                mirrored_bound(before.alpha),
                before.table,
            );
            let offer = negated_score(child.value);
            let improves = prefers(offer as int, before.best as int);
            let raised = if improves {
                offer
            } else {
                before.alpha
            };
            Scan {
                best: if improves {
                    offer
                } else {
                    before.best
                },
                alpha: raised,
                cut: prefers(raised as int, beta as int),
                table: child.table,
            }
        }
    }
}

#[via_fn]
proof fn alpha_beta_scan_decreases(
    keys: Seq<u64>,
    g: Grid,
    side: Side,
    alpha: isize,
    beta: isize,
    table: Map<u64, Score>,
    n: nat,
) {
    if n > 0 {
        lemma_successor_lowers_potential(g, side, n - 1);
    }
}

/// Once the window has closed the scan stays as it is.
pub proof fn lemma_scan_stops_at_cut(
    keys: Seq<u64>,
    g: Grid,
    side: Side,
    alpha: isize,
    beta: isize,
    table: Map<u64, Score>,
    k: nat,
    n: nat,
)
    requires
        grid_wf(g),
        k <= n <= successors(g, side).len(),
        alpha_beta_scan(keys, g, side, alpha, beta, table, k).cut,
    ensures
        alpha_beta_scan(keys, g, side, alpha, beta, table, n) == alpha_beta_scan(
            keys,
            g,
            side,
            alpha,
            beta,
            table,
            k,
        ),
    decreases n,
{
    if k < n {
        lemma_scan_stops_at_cut(keys, g, side, alpha, beta, table, k, (n - 1) as nat);
    }
}

/// Every magnitude that the plain negamax search of `g` negates can be
/// negated within the range of `isize`.
pub open spec fn minmax_fits(keys: Seq<u64>, g: Grid, side: Side, table: Map<u64, Score>) -> bool
    decreases potential(g), 1nat, 0nat,
    when grid_wf(g)
{
    table.contains_key(fingerprint_of(keys, g)) || immediately_lost(g, side) || minmax_fold_fits(
        keys,
        g,
        side,
        table,
        successors(g, side).len(),
    )
}

/// Every magnitude that the plain negamax search negates while it searches
/// the first `n` successors of `g` can be negated within the range of
/// `isize`.
pub open spec fn minmax_fold_fits(
    keys: Seq<u64>,
    g: Grid,
    side: Side,
    table: Map<u64, Score>,
    n: nat,
) -> bool
    decreases potential(g), 0nat, n,
    when grid_wf(g) && n <= successors(g, side).len()
    via minmax_fold_fits_decreases
{
    if n == 0 {
        true
    } else {
        let before = minmax_fold(keys, g, side, table, (n - 1) as nat);
        let next = successors(g, side)[n - 1];
        &&& minmax_fold_fits(keys, g, side, table, (n - 1) as nat)
        &&& minmax_fits(keys, next, side.other(), before.table)
        &&& negatable(minmax_outcome(keys, next, side.other(), before.table).value)
    }
}

#[via_fn]
proof fn minmax_fold_fits_decreases(
    keys: Seq<u64>,
    g: Grid,
    side: Side,
    table: Map<u64, Score>,
    n: nat,
) {
    if n > 0 {
        lemma_successor_lowers_potential(g, side, n - 1);
    }
}

/// What fits for the first `n` successors fits for the first `k` of them.
pub proof fn lemma_minmax_fold_fits_prefix(
    keys: Seq<u64>,
    g: Grid,
    side: Side,
    table: Map<u64, Score>,
    k: nat,
    n: nat,
)
    requires
        grid_wf(g),
        k <= n <= successors(g, side).len(),
        minmax_fold_fits(keys, g, side, table, n),
    ensures
        minmax_fold_fits(keys, g, side, table, k),
    decreases n,
{
    if k < n {
        lemma_minmax_fold_fits_prefix(keys, g, side, table, k, (n - 1) as nat);
    }
}

/// Every magnitude that the alpha-beta search of `g` negates and every
/// bound that it mirrors stays within the range of `isize`.
pub open spec fn alpha_beta_fits(
    keys: Seq<u64>,
    g: Grid,
    side: Side,
    alpha: isize,
    beta: isize,
    table: Map<u64, Score>,
) -> bool
    decreases potential(g), 1nat, 0nat,
    when grid_wf(g)
{
    let key = fingerprint_of(keys, g);
    answers(table, key, alpha, beta) || immediately_lost(g, side) || alpha_beta_scan_fits(
        keys,
        g,
        side,
        tightened(table, key, alpha),
        beta,
        table,
        successors(g, side).len(),
    )
}

/// Every magnitude that the alpha-beta scan negates and every bound that it
/// mirrors among the first `n` successors of `g` stays within the range of
/// `isize`. Nothing is computed for a successor after the window has closed.
pub open spec fn alpha_beta_scan_fits(
    keys: Seq<u64>,
    g: Grid,
    side: Side,
    alpha: isize,
    beta: isize,
    table: Map<u64, Score>,
    n: nat,
) -> bool
    decreases potential(g), 0nat, n,
    when grid_wf(g) && n <= successors(g, side).len()
    via alpha_beta_scan_fits_decreases
{
    if n == 0 {
        true
    } else {
        let before = alpha_beta_scan(keys, g, side, alpha, beta, table, (n - 1) as nat);
        let next = successors(g, side)[n - 1];
        &&& alpha_beta_scan_fits(keys, g, side, alpha, beta, table, (n - 1) as nat)
        &&& before.cut || {
            &&& mirrorable(beta)
            &&& mirrorable(before.alpha)
            &&& alpha_beta_fits(
                keys,
                next,
                side.other(),
                mirrored_bound(beta),
                mirrored_bound(before.alpha),
                before.table,
            )
            &&& negatable(
                alpha_beta_outcome(
                    keys,
                    next,
                    side.other(),
                    mirrored_bound(beta),
                    mirrored_bound(before.alpha),
                    before.table,
                ).value,
            )
        }
    }
}

#[via_fn]
proof fn alpha_beta_scan_fits_decreases(
    keys: Seq<u64>,
    g: Grid,
    side: Side,
    alpha: isize,
    beta: isize,
    table: Map<u64, Score>,
    n: nat,
) {
    if n > 0 {
        lemma_successor_lowers_potential(g, side, n - 1);
    }
}

/// What fits for the first `n` successors fits for the first `k` of them.
pub proof fn lemma_scan_fits_prefix(
    keys: Seq<u64>,
    g: Grid,
    side: Side,
    alpha: isize,
    beta: isize,
    table: Map<u64, Score>,
    k: nat,
    n: nat,
)
    requires
        grid_wf(g),
        k <= n <= successors(g, side).len(),
        alpha_beta_scan_fits(keys, g, side, alpha, beta, table, n),
    ensures
        alpha_beta_scan_fits(keys, g, side, alpha, beta, table, k),
    decreases n,
{
    if k < n {
        lemma_scan_fits_prefix(keys, g, side, alpha, beta, table, k, (n - 1) as nat);
    }
}

/// Once the window has closed, what fitted so far fits for all the
/// successors.
pub proof fn lemma_scan_fits_after_cut(
    keys: Seq<u64>,
    g: Grid,
    side: Side,
    alpha: isize,
    beta: isize,
    table: Map<u64, Score>,
    k: nat,
    n: nat,
)
    requires
        grid_wf(g),
        k <= n <= successors(g, side).len(),
        alpha_beta_scan(keys, g, side, alpha, beta, table, k).cut,
        alpha_beta_scan_fits(keys, g, side, alpha, beta, table, k),
    ensures
        alpha_beta_scan_fits(keys, g, side, alpha, beta, table, n),
    decreases n,
{
    if k < n {
        lemma_scan_fits_after_cut(keys, g, side, alpha, beta, table, k, (n - 1) as nat);
        lemma_scan_stops_at_cut(keys, g, side, alpha, beta, table, k, (n - 1) as nat);
    }
}

impl Board {
    /// The plain negamax search: looks the position up, and otherwise
    /// searches every successor and stores the best negated magnitude as
    /// exact.
    ///
    /// Returns `None` as soon as a magnitude comes up that cannot be negated
    /// within the range of `isize`; the table then holds what was stored up
    /// to there.
    pub fn try_get_score_minmax(
        &self,
        side: Side,
        signatures: &CellSignatures,
        transposition_table: &mut TranspositionTable,
    ) -> (value: Option<isize>)
        ensures
            value is Some <==> minmax_fits(signatures@, self@, side, old(transposition_table)@),
            value matches Some(found) ==> {
                &&& found == minmax_outcome(
                    signatures@,
                    self@,
                    side,
                    old(transposition_table)@,
                ).value
                &&& final(transposition_table)@ == minmax_outcome(
                    signatures@,
                    self@,
                    side,
                    old(transposition_table)@,
                ).table
            },
            extends(old(transposition_table)@, final(transposition_table)@),
            tells_apart(signatures@, self@, side) && faithful(
                signatures@,
                old(transposition_table)@,
                self@,
                side,
            ) ==> value is Some && value->0 == game_value(self@, side) && faithful(
                signatures@,
                final(transposition_table)@,
                self@,
                side,
            ),
        decreases potential(self@),
    {
        proof {
            self.lemma_view_wf();
            lemma_minmax_extends(signatures@, self@, side, old(transposition_table)@);
            if tells_apart(signatures@, self@, side) && faithful(
                signatures@,
                old(transposition_table)@,
                self@,
                side,
            ) {
                lemma_root_arises(self@, side);
                lemma_minmax_is_game_value(
                    signatures@,
                    self@,
                    side,
                    self@,
                    side,
                    old(transposition_table)@,
                );
            }
        }
        let key: u64 = self.fingerprint(signatures);
        match transposition_table.get(&key) {
            None => (),
            Some(score) => return Some(score.score),
        }
        if self.opponent_pawn_on_last_line(side) {
            transposition_table.insert(key, Score::new(0, Bound::Exact));
            return Some(0);
        }
        let next_boards: Vec<Board> = self.gen_next_moves(side);
        assert(grids_of(next_boards@).len() == next_boards@.len());
        if next_boards.len() == 0 {
            transposition_table.insert(key, Score::new(0, Bound::Exact));
            return Some(0);
        }
        let mut best_score: isize = 0;
        let mut k: usize = 0;
        while k < next_boards.len()
            invariant
                k <= next_boards@.len(),
                grid_wf(self@),
                grids_of(next_boards@) == successors(self@, side),
                !old(transposition_table)@.contains_key(fingerprint_of(signatures@, self@)),
                !immediately_lost(self@, side),
                tells_apart(signatures@, self@, side) && faithful(
                    signatures@,
                    old(transposition_table)@,
                    self@,
                    side,
                ) ==> minmax_fits(signatures@, self@, side, old(transposition_table)@),
                minmax_fold_fits(signatures@, self@, side, old(transposition_table)@, k as nat),
                best_score == minmax_fold(
                    signatures@,
                    self@,
                    side,
                    old(transposition_table)@,
                    k as nat,
                ).value,
                transposition_table@ == minmax_fold(
                    signatures@,
                    self@,
                    side,
                    old(transposition_table)@,
                    k as nat,
                ).table,
                extends(old(transposition_table)@, transposition_table@),
            decreases next_boards@.len() - k,
        {
            proof {
                lemma_successor_lowers_potential(self@, side, k as int);
                assert(grids_of(next_boards@)[k as int] == next_boards@[k as int]@);
                if minmax_fits(signatures@, self@, side, old(transposition_table)@) {
                    lemma_minmax_fold_fits_prefix(
                        signatures@,
                        self@,
                        side,
                        old(transposition_table)@,
                        (k + 1) as nat,
                        next_boards@.len(),
                    );
                }
            }
            let child: isize = match next_boards[k].try_get_score_minmax(
                side.switch(),
                signatures,
                transposition_table,
            ) {
                Some(child) => child,
                None => return None,
            };
            if !can_negate(child) {
                return None;
            }
            best_score = best(best_score, negate(child));
            k += 1;
        }
        transposition_table.insert(key, Score::new(best_score, Bound::Exact));
        Some(best_score)
    }

    /// The plain negamax search: looks the position up, and otherwise
    /// searches every successor and stores the best negated magnitude as
    /// exact.
    ///
    /// Every magnitude that the search negates must fit the range of `isize`;
    /// [`Board::try_get_score_minmax`] tests that instead of demanding it.
    ///
    /// On a faithful table the result is the value of the game, provided
    /// that positions which arise in the search and share a fingerprint have
    /// the same value.
    pub fn get_score_minmax(
        &self,
        side: Side,
        signatures: &CellSignatures,
        transposition_table: &mut TranspositionTable,
    ) -> (value: isize)
        requires
            minmax_fits(signatures@, self@, side, old(transposition_table)@),
        ensures
            value == minmax_outcome(signatures@, self@, side, old(transposition_table)@).value,
            final(transposition_table)@ == minmax_outcome(
                signatures@,
                self@,
                side,
                old(transposition_table)@,
            ).table,
            final(transposition_table)@.contains_key(fingerprint_of(signatures@, self@)),
            final(transposition_table)@[fingerprint_of(signatures@, self@)].score == value,
            extends(old(transposition_table)@, final(transposition_table)@),
            immediately_lost(self@, side) && (old(transposition_table)@.contains_key(
                fingerprint_of(signatures@, self@),
            ) ==> old(transposition_table)@[fingerprint_of(signatures@, self@)].score == 0)
                ==> value == 0,
            tells_apart(signatures@, self@, side) && faithful(
                signatures@,
                old(transposition_table)@,
                self@,
                side,
            ) ==> value == game_value(self@, side) && faithful(
                signatures@,
                final(transposition_table)@,
                self@,
                side,
            ),
    {
        proof {
            self.lemma_view_wf();
            lemma_minmax_stores_result(signatures@, self@, side, old(transposition_table)@);
            if tells_apart(signatures@, self@, side) && faithful(
                signatures@,
                old(transposition_table)@,
                self@,
                side,
            ) {
                lemma_root_arises(self@, side);
                lemma_minmax_is_game_value(
                    signatures@,
                    self@,
                    side,
                    self@,
                    side,
                    old(transposition_table)@,
                );
            }
        }
        self.try_get_score_minmax(side, signatures, transposition_table).unwrap()
    }

    /// The negamax search with the window `alpha`, `beta`: like the plain
    /// search, but it stops scanning the successors once the window has
    /// closed and then stores its result as one that may be better.
    ///
    /// Returns `None` as soon as a magnitude comes up that cannot be negated
    /// or a bound that cannot be mirrored within the range of `isize`; the
    /// table then holds what was stored up to there.
    pub fn try_get_score_alpha_beta(
        &self,
        alpha: isize,
        beta: isize,
        side: Side,
        signatures: &CellSignatures,
        transposition_table: &mut TranspositionTable,
    ) -> (value: Option<isize>)
        ensures
            value is Some <==> alpha_beta_fits(
                signatures@,
                self@,
                side,
                alpha,
                beta,
                old(transposition_table)@,
            ),
            value matches Some(found) ==> {
                &&& found == alpha_beta_outcome(
                    signatures@,
                    self@,
                    side,
                    alpha,
                    beta,
                    old(transposition_table)@,
                ).value
                &&& final(transposition_table)@ == alpha_beta_outcome(
                    signatures@,
                    self@,
                    side,
                    alpha,
                    beta,
                    old(transposition_table)@,
                ).table
            },
            keeps_exact(old(transposition_table)@, final(transposition_table)@),
        decreases potential(self@),
    {
        proof {
            self.lemma_view_wf();
        }
        let mut lower: isize = alpha;
        let key: u64 = self.fingerprint(signatures);
        // An exact entry is the answer; one left by a cut-off narrows the
        // window and is the answer if that closes it.
        match transposition_table.get(&key) {
            None => (),
            Some(score) => {
                match score.bound {
                    Bound::Exact => return Some(score.score),
                    Bound::MaybeBetter => lower = best(lower, score.score),
                }
                if better_than(lower, beta) {
                    return Some(score.score);
                }
            },
        }
        if self.opponent_pawn_on_last_line(side) {
            transposition_table.insert(key, Score::new(0, Bound::Exact));
            return Some(0);
        }
        let next_boards: Vec<Board> = self.gen_next_moves(side);
        assert(grids_of(next_boards@).len() == next_boards@.len());
        if next_boards.len() == 0 {
            transposition_table.insert(key, Score::new(0, Bound::Exact));
            return Some(0);
        }
        let ghost window = lower;
        let mut best_score: isize = 0;
        let mut exhaustive_search: bool = true;
        let mut k: usize = 0;
        while exhaustive_search && k < next_boards.len()
            invariant
                k <= next_boards@.len(),
                grid_wf(self@),
                grids_of(next_boards@) == successors(self@, side),
                !immediately_lost(self@, side),
                alpha_beta_fits(
                    signatures@,
                    self@,
                    side,
                    alpha,
                    beta,
                    old(transposition_table)@,
                ) == alpha_beta_scan_fits(
                    signatures@,
                    self@,
                    side,
                    window,
                    beta,
                    old(transposition_table)@,
                    next_boards@.len(),
                ),
                alpha_beta_scan_fits(
                    signatures@,
                    self@,
                    side,
                    window,
                    beta,
                    old(transposition_table)@,
                    k as nat,
                ),
                alpha_beta_scan(
                    signatures@,
                    self@,
                    side,
                    window,
                    beta,
                    old(transposition_table)@,
                    k as nat,
                ) == (Scan {
                    best: best_score,
                    alpha: lower,
                    cut: !exhaustive_search,
                    table: transposition_table@,
                }),
                keeps_exact(old(transposition_table)@, transposition_table@),
            decreases next_boards@.len() - k,
        {
            proof {
                lemma_successor_lowers_potential(self@, side, k as int);
                assert(grids_of(next_boards@)[k as int] == next_boards@[k as int]@);
                if alpha_beta_scan_fits(
                    signatures@,
                    self@,
                    side,
                    window,
                    beta,
                    old(transposition_table)@,
                    next_boards@.len(),
                ) {
                    lemma_scan_fits_prefix(
                        signatures@,
                        self@,
                        side,
                        window,
                        beta,
                        old(transposition_table)@,
                        (k + 1) as nat,
                        next_boards@.len(),
                    );
                }
            }
            if !can_mirror(beta) || !can_mirror(lower) {
                return None;
            }
            let child: isize = match next_boards[k].try_get_score_alpha_beta(
                mirror_bound(beta),
                mirror_bound(lower),
                side.switch(),
                signatures,
                transposition_table,
            ) {
                Some(child) => child,
                None => return None,
            };
            if !can_negate(child) {
                return None;
            }
            let next_score: isize = negate(child);
            if better_than(next_score, best_score) {
                best_score = next_score;
                lower = next_score;
            }
            if better_than(lower, beta) {
                exhaustive_search = false;
            }
            k += 1;
        }
        proof {
            if !exhaustive_search {
                lemma_scan_stops_at_cut(
                    signatures@,
                    self@,
                    side,
                    window,
                    beta,
                    old(transposition_table)@,
                    k as nat,
                    next_boards@.len(),
                );
                lemma_scan_fits_after_cut(
                    signatures@,
                    self@,
                    side,
                    window,
                    beta,
                    old(transposition_table)@,
                    k as nat,
                    next_boards@.len(),
                );
            }
        }
        let bound: Bound = if exhaustive_search {
            Bound::Exact
        } else {
            Bound::MaybeBetter
        };
        transposition_table.insert(key, Score::new(best_score, bound));
        Some(best_score)
    }

    /// The negamax search with the window `alpha`, `beta`: like the plain
    /// search, but it stops scanning the successors once the window has
    /// closed and then stores its result as one that may be better.
    ///
    /// Every magnitude that the search negates and every bound that it
    /// mirrors must fit the range of `isize`;
    /// [`Board::try_get_score_alpha_beta`] tests that instead of demanding
    /// it.
    pub fn get_score_alpha_beta(
        &self,
        alpha: isize,
        beta: isize,
        side: Side,
        signatures: &CellSignatures,
        transposition_table: &mut TranspositionTable,
    ) -> (value: isize)
        requires
            alpha_beta_fits(signatures@, self@, side, alpha, beta, old(transposition_table)@),
        ensures
            value == alpha_beta_outcome(
                signatures@,
                self@,
                side,
                alpha,
                beta,
                old(transposition_table)@,
            ).value,
            final(transposition_table)@ == alpha_beta_outcome(
                signatures@,
                self@,
                side,
                alpha,
                beta,
                old(transposition_table)@,
            ).table,
            final(transposition_table)@.contains_key(fingerprint_of(signatures@, self@)),
            final(transposition_table)@[fingerprint_of(signatures@, self@)].score == value,
            answers(
                final(transposition_table)@,
                fingerprint_of(signatures@, self@),
                alpha,
                beta,
            ),
            keeps_exact(old(transposition_table)@, final(transposition_table)@),
            immediately_lost(self@, side) && (answers(
                old(transposition_table)@,
                fingerprint_of(signatures@, self@),
                alpha,
                beta,
            ) ==> old(transposition_table)@[fingerprint_of(signatures@, self@)].score == 0)
                ==> value == 0,
    {
        proof {
            self.lemma_view_wf();
            lemma_alpha_beta_stores_result(
                signatures@,
                self@,
                side,
                alpha,
                beta,
                old(transposition_table)@,
            );
        }
        self.try_get_score_alpha_beta(alpha, beta, side, signatures, transposition_table).unwrap()
    }
}

} // verus!
