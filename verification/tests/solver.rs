use yahtzee_solver::combinatorics::Tables;
use yahtzee_solver::types::{
    DiceState, JokerRule, RollCounts, RollsLeft, ScoreCategory, ScorecardState,
};
use yahtzee_solver::{dice_dp, scorecard_ev, solve_scorecard, MapMemo, Memo, EV_SCALE};

fn dice_state(counts: [u8; 6], rolls_left: u8) -> DiceState {
    DiceState {
        roll_counts: RollCounts::try_from(counts).unwrap(),
        rolls_left: RollsLeft::try_from(rolls_left).unwrap(),
    }
}

/// A card with every slot filled except the named ones, each filled slot
/// scored zero.
fn card_with_open(open: &[ScoreCategory]) -> ScorecardState {
    let mut card = ScorecardState::default();
    for category in yahtzee_solver::types::all_categories() {
        if open.contains(&category) {
            continue;
        }
        card = card.score(category, 0).unwrap();
    }
    card
}

/// A card with every slot but Yahtzee filled: holding five sixes with no
/// rolls left is worth exactly the 50 points of the Yahtzee itself - the
/// Yahtzee slot is still open, so no Yahtzee bonus applies.
#[test]
fn only_yahtzee_open_scores_fifty() {
    let tables = Tables::new().expect("the solver tables must build");
    let card = card_with_open(&[ScoreCategory::Yahtzee]);
    let memo: MapMemo<ScorecardState, u64> = MapMemo::new();
    let (ev_memo, policy_memo) = dice_dp(&tables, &card, &memo, JokerRule::FreeChoice);
    let d = dice_state([0, 0, 0, 0, 0, 5], 0);
    assert_eq!(*ev_memo.get(&d).unwrap(), 50 * EV_SCALE);
    // With no rolls left there is never a keep recorded.
    assert!(policy_memo.get(&d).is_none());
}

/// A full scorecard is worth exactly zero: no further reward accrues.
#[test]
fn terminal_scorecard_value_is_zero() {
    let tables = Tables::new().expect("the solver tables must build");
    let card = card_with_open(&[]);
    assert_eq!(scorecard_ev(&tables, &card, JokerRule::FreeChoice), 0);
}

/// When only Chance is open, stopping is always optimal with no rolls left,
/// and the value of each roll is exactly its pip total.
#[test]
fn only_chance_open_values_are_pip_sums() {
    let tables = Tables::new().expect("the solver tables must build");
    let card = card_with_open(&[ScoreCategory::Chance]);
    let memo: MapMemo<ScorecardState, u64> = MapMemo::new();
    let (ev_memo, policy_memo) = dice_dp(&tables, &card, &memo, JokerRule::FreeChoice);
    for roll in tables.enumerate_distinct_rolls() {
        let d = DiceState {
            roll_counts: *roll,
            rolls_left: RollsLeft::try_from(0).unwrap(),
        };
        let expected = roll.sum_of_pips() as u64 * EV_SCALE;
        assert_eq!(*ev_memo.get(&d).unwrap(), expected);
        assert!(policy_memo.get(&d).is_none());
    }
}

/// An extra reroll never hurts: within one scorecard state the solved value
/// of every roll is nondecreasing in the number of rolls remaining.
#[test]
fn extra_reroll_never_hurts() {
    let tables = Tables::new().expect("the solver tables must build");
    let card = card_with_open(&[ScoreCategory::Yahtzee]);
    let memo: MapMemo<ScorecardState, u64> = MapMemo::new();
    let (ev_memo, _) = dice_dp(&tables, &card, &memo, JokerRule::FreeChoice);
    for roll in tables.enumerate_distinct_rolls() {
        let values: Vec<u64> = (0..3)
            .map(|q| {
                let d = DiceState {
                    roll_counts: *roll,
                    rolls_left: RollsLeft::try_from(q).unwrap(),
                };
                *ev_memo.get(&d).unwrap()
            })
            .collect();
        assert!(values[1] >= values[0]);
        assert!(values[2] >= values[1]);
    }
}

/// In the all-upper-scored subspace, a card whose upper section was filled
/// with positive scores (a higher capped sum, nearer the bonus) is worth at
/// least as much as one filled with zeros.
#[test]
fn upper_progress_never_hurts() {
    let tables = Tables::new().expect("the solver tables must build");
    let mut poor = ScorecardState::default();
    let mut rich = ScorecardState::default();
    for category in yahtzee_solver::types::all_categories() {
        if category == ScoreCategory::Sixes {
            continue;
        }
        poor = poor.score(category, 0).unwrap();
        let positive = match category {
            ScoreCategory::Aces => 5,
            ScoreCategory::Twos => 10,
            ScoreCategory::Threes => 12,
            ScoreCategory::Fours => 8,
            ScoreCategory::Fives => 10,
            _ => 0,
        };
        rich = rich.score(category, positive).unwrap();
    }
    assert_eq!(poor.capped_upper_section_score().score(), 0);
    assert_eq!(rich.capped_upper_section_score().score(), 45);
    let ev_poor = scorecard_ev(&tables, &poor, JokerRule::FreeChoice);
    let ev_rich = scorecard_ev(&tables, &rich, JokerRule::FreeChoice);
    assert!(ev_rich >= ev_poor, "rich {} poor {}", ev_rich, ev_poor);
}

/// The outer DP solves downstream states first: after solving a card with
/// two open slots, the memo also holds every reachable narrower card, and an
/// extra open category is never worth less than its scored-away version.
#[test]
fn two_level_recursion_is_consistent() {
    let tables = Tables::new().expect("the solver tables must build");
    let card = card_with_open(&[ScoreCategory::Sixes, ScoreCategory::Chance]);
    let mut memo: MapMemo<ScorecardState, u64> = MapMemo::new();
    solve_scorecard(&tables, &card, &mut memo, JokerRule::FreeChoice);
    let ev_both = *memo.get(&card).unwrap();
    let chance_only = card.score(ScoreCategory::Sixes, 0).unwrap();
    let ev_chance_only = *memo.get(&chance_only).unwrap();
    assert!(ev_both >= ev_chance_only);
    // With only Chance open the turn is worth the average pip total of a
    // fresh roll at least; a fresh roll averages 17.5 pips, and play only
    // improves on that.
    assert!(ev_chance_only >= 17 * EV_SCALE);
}

/// Keeping four matching dice with one reroll left: the expected value is
/// the average of the six outcomes, which beats stopping on a weak card, so
/// the policy records a keep.
#[test]
fn policy_keeps_four_of_a_kind() {
    let tables = Tables::new().expect("the solver tables must build");
    let card = card_with_open(&[ScoreCategory::Yahtzee]);
    let memo: MapMemo<ScorecardState, u64> = MapMemo::new();
    let (ev_memo, policy_memo) = dice_dp(&tables, &card, &memo, JokerRule::FreeChoice);
    // Four sixes and one ace, one reroll left, only Yahtzee open: rerolling
    // the ace gives a one-in-six shot at 50; stopping scores 0.
    let d = dice_state([1, 0, 0, 0, 0, 4], 1);
    let kept = policy_memo.get(&d).expect("rerolling must beat stopping");
    assert_eq!(*kept.keep_counts(), [0, 0, 0, 0, 0, 4]);
    assert_eq!(*ev_memo.get(&d).unwrap(), 50 * EV_SCALE / 6);
}
