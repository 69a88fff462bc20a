use yahtzee_solver::combinatorics::{factorial, make_binom, make_distinct_rolls, Tables};
use yahtzee_solver::types::{KeepCounts, RollCounts};

#[test]
fn rank_is_bijection() {
    let mut rank_to_roll_counts: [Option<RollCounts>; 252] = [None; 252];
    for distinct_roll in make_distinct_rolls() {
        let rank = distinct_roll.rank();
        if rank_to_roll_counts[rank] == None {
            rank_to_roll_counts[rank] = Some(distinct_roll);
            continue;
        }
        if rank_to_roll_counts[rank] == Some(distinct_roll) {
            continue;
        }
        assert!(
            false,
            "rank not injective: {:#?} collided with {:#?} at rank {}.",
            distinct_roll, rank_to_roll_counts[rank], rank
        );
    }
    // Loop has ended => No collisions (injective). Now we check that every rank is assigned a roll count (surjective).
    assert!(
        !rank_to_roll_counts.iter().any(|&x| x == None),
        "rank not surjective: {:#?}",
        rank_to_roll_counts
    );
}

#[test]
fn test_p_roll() {
    let cases = [
        ([5, 0, 0, 0, 0, 0], 1.0 / 6f64.powf(5.0)),
        ([0, 0, 0, 5, 0, 0], 1.0 / 6f64.powf(5.0)),
        ([1, 1, 1, 1, 1, 0], 5.0 * 4.0 * 3.0 * 2.0 / 6f64.powf(5.0)),
        ([1, 1, 0, 1, 1, 1], 5.0 * 4.0 * 3.0 * 2.0 / 6f64.powf(5.0)),
    ];
    for (roll, expected) in cases {
        let roll_counts = RollCounts::try_from(roll).unwrap();
        let p = roll_counts.p_roll() as f64 / 7776.0;
        assert!(
            (p - expected).abs() < f64::EPSILON,
            "Calculated p={}, expected p={}, difference larger than epsilon {} at {}.",
            p,
            expected,
            f64::EPSILON,
            (p - expected).abs()
        );
    }
}

#[test]
fn test_p_roll_given_keep() {
    let cases = [
        ([5, 0, 0, 0, 0, 0], [4, 0, 0, 0, 0, 0], 1.0 / 6f64),
        ([5, 0, 0, 0, 0, 0], [3, 0, 0, 0, 0, 0], 1.0 / 36f64),
        ([1, 0, 1, 1, 1, 1], [2, 0, 0, 0, 0, 0], 0f64),
    ];
    for (roll, keep, expected) in cases {
        let roll_counts = RollCounts::try_from(roll).unwrap();
        let keep_counts = KeepCounts::try_from(keep).unwrap();
        let p = roll_counts.p_roll_given_keep(&keep_counts) as f64 / 7776.0;
        assert!(
            (p - expected).abs() < f64::EPSILON,
            "Calculated p={}, expected p={}, difference larger than epsilon {} at {}.",
            p,
            expected,
            f64::EPSILON,
            (p - expected).abs()
        );
    }
}

#[test]
fn test_valid_keep_counts() {
    let roll_counts = RollCounts::try_from([5, 0, 0, 0, 0, 0]).unwrap();
    let expected = vec![
        KeepCounts::try_from([0, 0, 0, 0, 0, 0]).unwrap(),
        KeepCounts::try_from([1, 0, 0, 0, 0, 0]).unwrap(),
        KeepCounts::try_from([2, 0, 0, 0, 0, 0]).unwrap(),
        KeepCounts::try_from([3, 0, 0, 0, 0, 0]).unwrap(),
        KeepCounts::try_from([4, 0, 0, 0, 0, 0]).unwrap(),
        KeepCounts::try_from([5, 0, 0, 0, 0, 0]).unwrap(),
    ];
    assert_eq!(expected, roll_counts.valid_keep_counts());
}

/// Exact weight forms of the opening-roll probabilities: `1/6^5` for a
/// five-of-a-kind and `120/6^5` for five distinct faces.
#[test]
fn p_roll_exact_weights() {
    let yahtzee_roll = RollCounts::try_from([5, 0, 0, 0, 0, 0]).unwrap();
    assert_eq!(yahtzee_roll.p_roll(), 1);
    let straightish = RollCounts::try_from([1, 1, 1, 1, 1, 0]).unwrap();
    assert_eq!(straightish.p_roll(), 120);
}

/// Keeping four of five matching dice leaves one die to reroll: the chance
/// of completing the five-of-a-kind is exactly one in six.
#[test]
fn p_keep_four_weight() {
    let roll = RollCounts::try_from([5, 0, 0, 0, 0, 0]).unwrap();
    let keep = KeepCounts::try_from([4, 0, 0, 0, 0, 0]).unwrap();
    assert_eq!(roll.p_roll_given_keep(&keep), 7776 / 6);
}

/// Every probability row of the tables sums to the full denominator 7776:
/// each conditional distribution sums to one exactly.
#[test]
fn probability_rows_sum_to_one() {
    let tables = Tables::new().expect("the solver tables must build");
    for keep in tables.enumerate_distinct_keeps() {
        let row = tables.weight_row(keep);
        let total: u64 = row.iter().sum();
        assert_eq!(total, 7776);
    }
}

/// The table enumerations have the documented cardinalities.
#[test]
fn enumeration_sizes() {
    let tables = Tables::new().expect("the solver tables must build");
    assert_eq!(tables.enumerate_distinct_rolls().len(), 252);
    assert_eq!(tables.enumerate_distinct_keeps().len(), 462);
}

/// The number of keeps of a roll is the product of one more than each count.
#[test]
fn keep_counts_product() {
    let roll = RollCounts::try_from([2, 1, 1, 1, 0, 0]).unwrap();
    assert_eq!(roll.valid_keep_counts().len(), 3 * 2 * 2 * 2);
    let full = RollCounts::try_from([0, 5, 0, 0, 0, 0]).unwrap();
    assert_eq!(full.valid_keep_counts().len(), 6);
}

#[test]
fn factorial_and_binomials() {
    assert_eq!(factorial(0), 1);
    assert_eq!(factorial(5), 120);
    let binom = make_binom();
    assert_eq!(binom[10][5], 252);
    assert_eq!(binom[6][2], 15);
    assert_eq!(binom[4][0], 1);
}
