//! Scores, their bounds, and the preference order on score magnitudes.
//!
//! A magnitude is read from the point of view of the side to move. A positive
//! magnitude is a forced win in that many plies, and a smaller one is the
//! faster win. Zero or a negative magnitude is a loss, and a more negative
//! one is the loss that takes longer. From worst to best the order is
//! `0, -1, -2, ..., 3, 2, 1`.

use vstd::prelude::*;

verus! {

/// Whether a stored magnitude is the true value or the result of a cut-off.
#[derive(Clone, Copy, PartialEq, Eq, Structural, Debug)]
pub enum Bound {
    /// The magnitude is the value of the position.
    Exact,
    /// The search stopped early; the true value may be more favourable.
    MaybeBetter,
}

/// A magnitude together with its bound, as kept in the transposition table.
#[derive(Clone, Copy, PartialEq, Eq, Structural, Debug)]
pub struct Score {
    pub score: isize,
    pub bound: Bound,
}

impl Score {
    /// A score with the given magnitude and bound.
    pub fn new(score: isize, bound: Bound) -> (made: Self)
        ensures
            made == (Score { score, bound }),
    {
        Score { score, bound }
    }
}

/// `a` is at least as good as `b` for the side to move.
pub open spec fn prefers(a: int, b: int) -> bool {
    if a > 0 {
        b <= 0 || a <= b
    } else {
        b <= 0 && a <= b
    }
}

/// The better of two magnitudes; `b` when they are equally good.
pub open spec fn preferred(a: int, b: int) -> int {
    if prefers(b, a) {
        b
    } else {
        a
    }
}

/// What a child's magnitude is worth to its parent: the sign flips and the
/// distance grows by one ply.
pub open spec fn negated(child: int) -> int {
    if child > 0 {
        -(child + 1)
    } else {
        -(child - 1)
    }
}

/// The magnitude can be negated within the range of `isize`: it is none of
/// the two lowest magnitudes and not the highest.
pub open spec fn negatable(child: isize) -> bool {
    isize::MIN + 2 <= child <= isize::MAX - 1
}

/// The bound can be mirrored within the range of `isize`: it is none of the
/// two lowest magnitudes.
pub open spec fn mirrorable(bound: isize) -> bool {
    isize::MIN + 2 <= bound
}

/// [`negated`] as a magnitude of `isize`, for a magnitude that is
/// [`negatable`].
pub open spec fn negated_score(child: isize) -> isize
    recommends
        negatable(child),
{
    negated(child as int) as isize
}

/// A bound of the parent's search window as a bound of the child's window,
/// `1 - bound`, for a bound that is [`mirrorable`].
pub open spec fn mirrored_bound(bound: isize) -> isize
    recommends
        mirrorable(bound),
{
    (1 - bound) as isize
}

/// [`preferred`] on magnitudes of `isize`.
pub open spec fn preferred_score(a: isize, b: isize) -> isize {
    if prefers(b as int, a as int) {
        b
    } else {
        a
    }
}

/// The best of the first `n` magnitudes of `values`, folded from the worst
/// magnitude, zero.
pub open spec fn best_of(values: Seq<int>, n: nat) -> int
    decreases n,
{
    if n == 0 {
        0
    } else {
        preferred(best_of(values, (n - 1) as nat), values[n - 1])
    }
}

/// What the magnitude `child` of a successor is worth to the side that
/// moved there.
pub fn negate(child: isize) -> (worth: isize)
    requires
        negatable(child),
    ensures
        worth == negated(child as int),
        worth == negated_score(child),
{
    if child > 0 {
        -(child + 1)
    } else {
        -(child - 1)
    }
}

/// The bound of a child's search window that stands for `bound` in the
/// parent's window.
pub fn mirror_bound(bound: isize) -> (mirrored: isize)
    requires
        mirrorable(bound),
    ensures
        mirrored == 1 - bound,
        mirrored == mirrored_bound(bound),
{
    -bound + 1
}

/// Whether `child` can be negated within the range of `isize`.
pub fn can_negate(child: isize) -> (fits: bool)
    ensures
        fits == negatable(child),
{
    child > isize::MIN + 1 && child < isize::MAX
}

/// Whether `bound` can be mirrored within the range of `isize`.
pub fn can_mirror(bound: isize) -> (fits: bool)
    ensures
        fits == mirrorable(bound),
{
    bound > isize::MIN + 1
}

/// Whether `a` is at least as good as `b`: a win beats a loss, the faster
/// of two wins and the slower of two losses is the better one, and equal
/// magnitudes are each as good as the other.
pub fn better_than(a: isize, b: isize) -> (answer: bool)
    ensures
        answer == prefers(a as int, b as int),
{
    if b > 0 {
        if a > 0 && b >= a {
            return true;
        }
    } else {
        if a > 0 {
            return true;
        } else {
            if b >= a {
                return true;
            }
        }
    }
    return false;
}

/// The better of `a` and `b`; `b` if they are equal.
pub fn best(a: isize, b: isize) -> (chosen: isize)
    ensures
        chosen == preferred_score(a, b),
        chosen == preferred(a as int, b as int),
{
    if b > 0 {
        if a > 0 && b > a {
            return a;
        }
    } else {
        if a > 0 {
            return a;
        } else {
            if b > a {
                return a;
            }
        }
    }
    return b;
}

/// The preference order is reflexive.
pub proof fn lemma_prefers_reflexive(a: int)
    ensures
        prefers(a, a),
{
}

/// Of two magnitudes, one is at least as good as the other.
pub proof fn lemma_prefers_total(a: int, b: int)
    ensures
        prefers(a, b) || prefers(b, a),
{
}

/// Two magnitudes that are each at least as good as the other are equal.
pub proof fn lemma_prefers_antisymmetric(a: int, b: int)
    requires
        prefers(a, b),
        prefers(b, a),
    ensures
        a == b,
{
}

/// The preference order is transitive.
pub proof fn lemma_prefers_transitive(a: int, b: int, c: int)
    requires
        prefers(a, b),
        prefers(b, c),
    ensures
        prefers(a, c),
{
}

/// The best of the first `n` magnitudes is at least as good as each of
/// them.
pub proof fn lemma_best_of_dominates(values: Seq<int>, n: nat, i: int)
    requires
        0 <= i < n,
    ensures
        prefers(best_of(values, n), values[i]),
    decreases n,
{
    if i < n - 1 {
        lemma_best_of_dominates(values, (n - 1) as nat, i);
    }
}

/// The best of the first `n` magnitudes is one of them, or zero.
pub proof fn lemma_best_of_is_attained(values: Seq<int>, n: nat) -> (i: int)
    ensures
        best_of(values, n) == 0 || (0 <= i < n && best_of(values, n) == values[i]),
    decreases n,
{
    if n == 0 {
        0
    } else if best_of(values, n) == values[n - 1] {
        n - 1
    } else {
        lemma_best_of_is_attained(values, (n - 1) as nat)
    }
}

/// Zero is the worst magnitude: folding from it keeps the first candidate.
pub proof fn lemma_zero_is_worst(a: int)
    ensures
        prefers(a, 0),
        preferred(0, a) == a,
{
}

} // verus!
