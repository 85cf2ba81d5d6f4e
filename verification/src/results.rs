//! What a search returns and what it leaves in the table: the result of a
//! decided position, the result as the best of what the successors offer,
//! and the answer to a second search of the same position.

use crate::board::{grid_wf, Grid, Side};
use crate::moves::{immediately_lost, lemma_successor_lowers_potential, successors};
use crate::score::{best_of, negated, prefers, Bound, Score};
use crate::search::{
    alpha_beta_outcome, alpha_beta_scan, answers, decided, minmax_fits, minmax_fold,
    minmax_fold_fits, minmax_outcome, tightened,
};
use crate::zobrist::fingerprint_of;
use vstd::prelude::*;

verus! {

/// The negated magnitudes of the successors of `g` as the plain negamax
/// search meets them: each successor is searched on the table that the
/// searches before it left.
pub open spec fn minmax_offers(
    keys: Seq<u64>,
    g: Grid,
    side: Side,
    table: Map<u64, Score>,
) -> Seq<int> {
    Seq::new(
        successors(g, side).len(),
        |i: int|
            negated(
                minmax_outcome(
                    keys,
                    successors(g, side)[i],
                    side.other(),
                    minmax_fold(keys, g, side, table, i as nat).table,
                ).value as int,
            ),
    )
}

/// After `n` successors the plain negamax search holds the best of their
/// negated magnitudes, as long as every magnitude could be negated.
pub proof fn lemma_minmax_fold_is_best(
    keys: Seq<u64>,
    g: Grid,
    side: Side,
    table: Map<u64, Score>,
    n: nat,
)
    requires
        grid_wf(g),
        n <= successors(g, side).len(),
        minmax_fold_fits(keys, g, side, table, n),
    ensures
        minmax_fold(keys, g, side, table, n).value == best_of(
            minmax_offers(keys, g, side, table),
            n,
        ),
    decreases n,
{
    if n > 0 {
        lemma_minmax_fold_is_best(keys, g, side, table, (n - 1) as nat);
        let before = minmax_fold(keys, g, side, table, (n - 1) as nat);
        let child = minmax_outcome(keys, successors(g, side)[n - 1], side.other(), before.table);
        let offers = minmax_offers(keys, g, side, table);
        lemma_successor_lowers_potential(g, side, n - 1);
        assert(offers[n - 1] == negated(child.value as int));
    }
}

/// A position that is neither in the table nor lost already is worth the
/// best of the negated magnitudes of its successors, as long as every
/// magnitude could be negated.
pub proof fn lemma_minmax_is_best_offer(
    keys: Seq<u64>,
    g: Grid,
    side: Side,
    table: Map<u64, Score>,
)
    requires
        grid_wf(g),
        !table.contains_key(fingerprint_of(keys, g)),
        !immediately_lost(g, side),
        minmax_fits(keys, g, side, table),
    ensures
        minmax_outcome(keys, g, side, table).value == best_of(
            minmax_offers(keys, g, side, table),
            successors(g, side).len(),
        ),
{
    lemma_minmax_fold_is_best(keys, g, side, table, successors(g, side).len());
}

/// A position that is lost already scores zero, unless the table holds
/// another magnitude under its fingerprint. If the table holds none, zero is
/// stored as exact.
pub proof fn lemma_minmax_decided(keys: Seq<u64>, g: Grid, side: Side, table: Map<u64, Score>)
    requires
        grid_wf(g),
        immediately_lost(g, side),
        table.contains_key(fingerprint_of(keys, g)) ==> table[fingerprint_of(keys, g)].score == 0,
    ensures
        minmax_outcome(keys, g, side, table).value == 0,
        !table.contains_key(fingerprint_of(keys, g)) ==> minmax_outcome(
            keys,
            g,
            side,
            table,
        ).table == table.insert(fingerprint_of(keys, g), decided()),
{
}

/// The plain negamax search leaves its result in the table as an exact
/// entry, and leaves the table alone if the position was in it.
pub proof fn lemma_minmax_stores_result(
    keys: Seq<u64>,
    g: Grid,
    side: Side,
    table: Map<u64, Score>,
)
    requires
        grid_wf(g),
    ensures
        ({
            let key = fingerprint_of(keys, g);
            let found = minmax_outcome(keys, g, side, table);
            &&& found.table.contains_key(key)
            &&& found.table[key].score == found.value
            &&& table.contains_key(key) ==> found.table == table && found.value
                == table[key].score
            &&& !table.contains_key(key) ==> found.table[key].bound == Bound::Exact
        }),
{
}

/// A second plain negamax search of the same position on the table that the
/// first one left is answered from the table: it returns the same magnitude
/// and changes nothing.
pub proof fn lemma_minmax_repeats(keys: Seq<u64>, g: Grid, side: Side, table: Map<u64, Score>)
    requires
        grid_wf(g),
    ensures
        ({
            let first = minmax_outcome(keys, g, side, table);
            let second = minmax_outcome(keys, g, side, first.table);
            second.value == first.value && second.table == first.table
        }),
{
    lemma_minmax_stores_result(keys, g, side, table);
}

/// A position that is lost already scores zero in the alpha-beta search,
/// unless an entry with another magnitude answers the search. If no entry
/// answers it, zero is stored as exact.
pub proof fn lemma_alpha_beta_decided(
    keys: Seq<u64>,
    g: Grid,
    side: Side,
    alpha: isize,
    beta: isize,
    table: Map<u64, Score>,
)
    requires
        grid_wf(g),
        immediately_lost(g, side),
        answers(table, fingerprint_of(keys, g), alpha, beta) ==> table[fingerprint_of(
            keys,
            g,
        )].score == 0,
    ensures
        alpha_beta_outcome(keys, g, side, alpha, beta, table).value == 0,
        !answers(table, fingerprint_of(keys, g), alpha, beta) ==> alpha_beta_outcome(
            keys,
            g,
            side,
            alpha,
            beta,
            table,
        ).table == table.insert(fingerprint_of(keys, g), decided()),
{
}

/// Once a successor has been scanned, the lower bound of the window is the
/// best magnitude so far; the window is open before the first successor.
pub proof fn lemma_scan_bound_is_best(
    keys: Seq<u64>,
    g: Grid,
    side: Side,
    alpha: isize,
    beta: isize,
    table: Map<u64, Score>,
    n: nat,
)
    requires
        grid_wf(g),
        n <= successors(g, side).len(),
    ensures
        n == 0 ==> !alpha_beta_scan(keys, g, side, alpha, beta, table, n).cut,
        n > 0 ==> alpha_beta_scan(keys, g, side, alpha, beta, table, n).alpha == alpha_beta_scan(
            keys,
            g,
            side,
            alpha,
            beta,
            table,
            n,
        ).best,
        alpha_beta_scan(keys, g, side, alpha, beta, table, n).cut ==> prefers(
            alpha_beta_scan(keys, g, side, alpha, beta, table, n).best as int,
            beta as int,
        ),
    decreases n,
{
    if n > 0 {
        lemma_scan_bound_is_best(keys, g, side, alpha, beta, table, (n - 1) as nat);
    }
}

/// The alpha-beta search leaves its result in the table, as an entry that
/// answers a search with the same window; it leaves the table alone if an
/// entry answered it.
pub proof fn lemma_alpha_beta_stores_result(
    keys: Seq<u64>,
    g: Grid,
    side: Side,
    alpha: isize,
    beta: isize,
    table: Map<u64, Score>,
)
    requires
        grid_wf(g),
    ensures
        ({
            let key = fingerprint_of(keys, g);
            let found = alpha_beta_outcome(keys, g, side, alpha, beta, table);
            &&& found.table.contains_key(key)
            &&& found.table[key].score == found.value
            &&& answers(found.table, key, alpha, beta)
            &&& answers(table, key, alpha, beta) ==> found.table == table && found.value
                == table[key].score
        }),
{
    let key = fingerprint_of(keys, g);
    if !answers(table, key, alpha, beta) && !immediately_lost(g, side) {
        lemma_scan_bound_is_best(
            keys,
            g,
            side,
            tightened(table, key, alpha),
            beta,
            table,
            successors(g, side).len(),
        );
    }
}

/// A second alpha-beta search of the same position with the same window on
/// the table that the first one left is answered from the table: it returns
/// the same magnitude and changes nothing.
pub proof fn lemma_alpha_beta_repeats(
    keys: Seq<u64>,
    g: Grid,
    side: Side,
    alpha: isize,
    beta: isize,
    table: Map<u64, Score>,
)
    requires
        grid_wf(g),
    ensures
        ({
            let first = alpha_beta_outcome(keys, g, side, alpha, beta, table);
            let second = alpha_beta_outcome(keys, g, side, alpha, beta, first.table);
            second.value == first.value && second.table == first.table
        }),
{
    lemma_alpha_beta_stores_result(keys, g, side, alpha, beta, table);
}

} // verus!
