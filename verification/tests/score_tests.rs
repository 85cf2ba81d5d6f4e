use pawn_race::score::{best, better_than, can_mirror, can_negate, mirror_bound, negate};

#[test]
fn any_win_is_better_than_any_loss() {
    assert!(better_than(1, 0));
    assert!(better_than(9, -2));
    assert!(better_than(1, -100));
    assert!(!better_than(0, 1));
    assert!(!better_than(-2, 9));
}

#[test]
fn a_faster_win_is_better() {
    assert!(better_than(1, 3));
    assert!(better_than(3, 5));
    assert!(!better_than(5, 3));
}

#[test]
fn a_slower_loss_is_better() {
    assert!(better_than(-4, -2));
    assert!(better_than(-2, 0));
    assert!(!better_than(-2, -4));
    assert!(!better_than(0, -2));
}

#[test]
fn equal_magnitudes_are_each_as_good_as_the_other() {
    assert!(better_than(0, 0));
    assert!(better_than(3, 3));
    assert!(better_than(-4, -4));
}

#[test]
fn best_picks_the_preferred_magnitude() {
    assert_eq!(best(1, 3), 1);
    assert_eq!(best(3, 1), 1);
    assert_eq!(best(-2, -4), -4);
    assert_eq!(best(-4, -2), -4);
    assert_eq!(best(5, -6), 5);
    assert_eq!(best(-6, 5), 5);
    assert_eq!(best(0, 7), 7);
    assert_eq!(best(7, 0), 7);
    assert_eq!(best(4, 4), 4);
}

#[test]
fn zero_is_the_seed_of_the_fold() {
    for candidate in [-7, -2, 0, 1, 3, 40] {
        assert_eq!(best(0, candidate), candidate);
        assert!(better_than(candidate, 0));
    }
}

#[test]
fn best_agrees_with_better_than() {
    for a in -6..=6 {
        for b in -6..=6 {
            let chosen = best(a, b);
            assert!(chosen == a || chosen == b);
            assert!(better_than(chosen, a));
            assert!(better_than(chosen, b));
            assert_eq!(best(a, b), best(b, a));
            assert!(better_than(a, b) || better_than(b, a));
        }
    }
}

#[test]
fn better_than_is_transitive() {
    for a in -5..=5 {
        for b in -5..=5 {
            for c in -5..=5 {
                if better_than(a, b) && better_than(b, c) {
                    assert!(better_than(a, c));
                }
            }
        }
    }
}

#[test]
fn negate_flips_the_sign_and_adds_a_ply() {
    assert_eq!(negate(0), 1);
    assert_eq!(negate(1), -2);
    assert_eq!(negate(-2), 3);
    assert_eq!(negate(3), -4);
    assert_eq!(negate(-1), 2);
    assert_eq!(negate(10), -11);
    assert_eq!(negate(-10), 11);
}

#[test]
fn negate_reaches_the_ends_of_the_range() {
    assert_eq!(negate(isize::MAX - 1), isize::MIN + 1);
    assert_eq!(negate(isize::MIN + 2), isize::MAX);
}

#[test]
fn can_negate_leaves_out_the_ends_of_the_range() {
    assert!(can_negate(0));
    assert!(can_negate(49));
    assert!(can_negate(-49));
    assert!(can_negate(isize::MAX - 1));
    assert!(can_negate(isize::MIN + 2));
    assert!(!can_negate(isize::MAX));
    assert!(!can_negate(isize::MIN + 1));
    assert!(!can_negate(isize::MIN));
}

#[test]
fn mirror_bound_is_one_minus_the_bound() {
    assert_eq!(mirror_bound(0), 1);
    assert_eq!(mirror_bound(1), 0);
    assert_eq!(mirror_bound(5), -4);
    assert_eq!(mirror_bound(-4), 5);
    assert_eq!(mirror_bound(isize::MAX), isize::MIN + 2);
    assert_eq!(mirror_bound(isize::MIN + 2), isize::MAX);
}

#[test]
fn can_mirror_leaves_out_the_two_lowest_magnitudes() {
    assert!(can_mirror(0));
    assert!(can_mirror(isize::MAX));
    assert!(can_mirror(isize::MIN + 2));
    assert!(!can_mirror(isize::MIN + 1));
    assert!(!can_mirror(isize::MIN));
}
