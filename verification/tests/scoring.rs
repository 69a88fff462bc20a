use yahtzee_solver::types::{
    score_value, JokerRule, RollCounts, ScoreCategory, ScoreCategoryState, ScorecardState,
};

fn roll(counts: [u8; 6]) -> RollCounts {
    RollCounts::try_from(counts).unwrap()
}

/// Scoring five twos into Twos is worth ten, Joker or not.
#[test]
fn scenario_upper_score_ignores_joker() {
    let r = roll([0, 5, 0, 0, 0, 0]);
    assert_eq!(score_value(&r, ScoreCategory::Twos, false), 10);
    assert_eq!(score_value(&r, ScoreCategory::Twos, true), 10);
}

/// Five twos make no natural full house, but as a Joker they score the
/// fixed 25, and a Joker small straight scores its fixed 30.
#[test]
fn scenario_joker_fixed_values() {
    let r = roll([0, 5, 0, 0, 0, 0]);
    assert_eq!(score_value(&r, ScoreCategory::FullHouse, false), 0);
    assert_eq!(score_value(&r, ScoreCategory::FullHouse, true), 25);
    assert_eq!(score_value(&r, ScoreCategory::SmallStraight, true), 30);
}

/// A run of four consecutive faces scores the small straight naturally.
#[test]
fn scenario_small_straight_run() {
    let r = roll([0, 2, 1, 1, 1, 0]);
    assert_eq!(score_value(&r, ScoreCategory::SmallStraight, false), 30);
}

/// `score_value` is a function of its inputs alone: calling it twice on the
/// same inputs gives the same output.
#[test]
fn score_value_deterministic() {
    let r = roll([1, 1, 1, 0, 2, 0]);
    for category in yahtzee_solver::types::all_categories() {
        for is_joker in [false, true] {
            assert_eq!(
                score_value(&r, category, is_joker),
                score_value(&r, category, is_joker)
            );
        }
    }
}

#[test]
fn three_and_four_of_a_kind() {
    let three = roll([0, 0, 3, 1, 1, 0]);
    assert_eq!(score_value(&three, ScoreCategory::ThreeOfAKind, false), 18);
    assert_eq!(score_value(&three, ScoreCategory::FourOfAKind, false), 0);
    let four = roll([0, 4, 0, 0, 0, 1]);
    assert_eq!(score_value(&four, ScoreCategory::FourOfAKind, false), 14);
    assert_eq!(score_value(&four, ScoreCategory::Chance, false), 14);
}

#[test]
fn yahtzee_and_large_straight() {
    let y = roll([0, 0, 0, 0, 0, 5]);
    assert_eq!(score_value(&y, ScoreCategory::Yahtzee, false), 50);
    let ls = roll([0, 1, 1, 1, 1, 1]);
    assert_eq!(score_value(&ls, ScoreCategory::LargeStraight, false), 40);
    assert_eq!(score_value(&ls, ScoreCategory::SmallStraight, false), 30);
}

/// The upper-section bonus is credited exactly when a score pushes the
/// capped sum to 63, and the Yahtzee bonus exactly when a Yahtzee lands on a
/// card whose Yahtzee slot holds a scored Yahtzee.
#[test]
fn bonus_components() {
    let mut card = ScorecardState::default();
    for (category, score) in [
        (ScoreCategory::Twos, 10u8),
        (ScoreCategory::Threes, 15),
        (ScoreCategory::Fours, 20),
        (ScoreCategory::Fives, 15),
    ] {
        card = card.score(category, score).unwrap();
    }
    assert_eq!(card.capped_upper_section_score().score(), 60);
    let sixes = roll([0, 0, 0, 0, 0, 5]);
    // Scoring five sixes into Sixes crosses the 63 threshold: +35.
    let (s, b) = card
        .score_components(&sixes, ScoreCategory::Sixes, JokerRule::FreeChoice)
        .unwrap();
    assert_eq!((s, b), (30, 35));

    // With the Yahtzee slot already scored, the same roll also earns the
    // 100-point Yahtzee bonus.
    let with_yahtzee = card.score(ScoreCategory::Yahtzee, 50).unwrap();
    let (s2, b2) = with_yahtzee
        .score_components(&sixes, ScoreCategory::Sixes, JokerRule::FreeChoice)
        .unwrap();
    assert_eq!((s2, b2), (30, 135));

    // A scratched Yahtzee slot forfeits the bonus.
    let with_scratch = card.score(ScoreCategory::Yahtzee, 0).unwrap();
    let (s3, b3) = with_scratch
        .score_components(&sixes, ScoreCategory::Sixes, JokerRule::FreeChoice)
        .unwrap();
    assert_eq!((s3, b3), (30, 35));
}

/// Under the forced Joker rule, a Yahtzee rolled after the Yahtzee slot is
/// resolved must go to its matching open upper category.
#[test]
fn forced_joker_restricts_categories() {
    let card = ScorecardState::default()
        .score(ScoreCategory::Yahtzee, 0)
        .unwrap();
    let twos = roll([0, 5, 0, 0, 0, 0]);
    let forced = card.valid_score_categories(&twos, JokerRule::Forced);
    assert_eq!(forced, vec![ScoreCategory::Twos]);
    let free = card.valid_score_categories(&twos, JokerRule::FreeChoice);
    assert_eq!(free.len(), 12);
    assert!(!free.contains(&ScoreCategory::Yahtzee));
}

/// Once the matching upper category is already filled, the forced Joker rule
/// stops restricting and every open category is allowed.
#[test]
fn forced_joker_falls_back_when_upper_taken() {
    let card = ScorecardState::default()
        .score(ScoreCategory::Yahtzee, 50)
        .unwrap()
        .score(ScoreCategory::Twos, 6)
        .unwrap();
    let twos = roll([0, 5, 0, 0, 0, 0]);
    let valid = card.valid_score_categories(&twos, JokerRule::Forced);
    assert_eq!(valid.len(), 11);
    assert!(valid.contains(&ScoreCategory::FullHouse));
}

#[test]
fn is_yahtzee_finds_matching_upper_category() {
    assert_eq!(
        roll([0, 0, 0, 0, 5, 0]).is_yahtzee(),
        Some(ScoreCategory::Fives)
    );
    assert_eq!(roll([1, 1, 1, 1, 1, 0]).is_yahtzee(), None);
}

#[test]
fn terminal_card_detection() {
    let mut card = ScorecardState::default();
    assert!(!card.is_terminal());
    for category in yahtzee_solver::types::all_categories() {
        card = card.score(category, 0).unwrap();
    }
    assert!(card.is_terminal());
    assert_eq!(
        card.category_state(ScoreCategory::Yahtzee),
        ScoreCategoryState::Scratched
    );
}
