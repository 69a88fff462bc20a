use yahtzee_solver::types::{
    CappedUpperSectionScore, ConstructionError, KeepCounts, RollCounts, RollsLeft, ScoreCategory,
    ScorecardState, ScoringError, SubtractionError,
};
use yahtzee_solver::{NUM_DICE, NUM_FACES};

#[test]
fn roll_counts_valid_initialisation() {
    let result = RollCounts::try_from([1, 0, 3, 1, 0, 0]);
    assert!(result.is_ok());
}

#[test]
fn roll_counts_invalid_initialisation() {
    let result = RollCounts::try_from([1, 1, 1, 1, 1, 1]);
    assert_eq!(
        result,
        Err(ConstructionError::SumMismatch {
            expected: NUM_DICE as u8,
            got: 6
        })
    );
}

/// If we didn't check for overflow, this would sum to 5u8, and be valid.
#[test]
fn roll_counts_initialisation_overflow() {
    let result = RollCounts::try_from([254, 3, 4, 0, 0, 0]);
    assert_eq!(
        result,
        Err(ConstructionError::ValueTooLarge {
            max: NUM_DICE as u8,
            got: 254
        })
    );
}

#[test]
fn rolls_left_valid_initialisation() {
    let result = RollsLeft::try_from(2);
    assert!(result.is_ok());
}

#[test]
fn rolls_left_invalid_initialisation() {
    let result = RollsLeft::try_from(3);
    assert_eq!(
        result,
        Err(ConstructionError::ValueTooLarge { max: 2, got: 3 })
    );
}

#[test]
fn keep_counts_valid_initialisation() {
    let result = RollCounts::try_from([1, 0, 3, 1, 0, 0]);
    assert!(result.is_ok());
}

#[test]
fn keep_counts_invalid_initialisation() {
    let result = RollCounts::try_from([1, 1, 1, 1, 1, 1]);
    assert_eq!(
        result,
        Err(ConstructionError::SumMismatch {
            expected: NUM_DICE as u8,
            got: 6
        })
    );
}

/// If we didn't check for overflow, this would sum to 5u8, and be valid.
#[test]
fn keep_counts_initialisation_overflow() {
    let result = RollCounts::try_from([254, 3, 4, 0, 0, 0]);
    assert_eq!(
        result,
        Err(ConstructionError::ValueTooLarge {
            max: NUM_DICE as u8,
            got: 254
        })
    );
}

#[test]
fn capped_upper_section_score_clamped_addition() {
    let capped_score = CappedUpperSectionScore::try_from(63).unwrap();
    let result = capped_score.add_clamped(u8::MAX);
    assert_eq!(result.score(), 63);
}

#[test]
fn num_faces_as_expected() {
    assert_eq!(
        NUM_FACES,
        6,
        "This constant was only named to reduce magic numbers in the code. It is absolutely not intended to be changed, and things will break if it is changed."
    );
}

#[test]
fn num_dice_as_expected() {
    assert_eq!(
        NUM_DICE as u8,
        5,
        "This constant was only named to reduce magic numbers in the code. It is absolutely not intended to be changed, and things will break if it is changed."
    );
}

#[test]
fn keep_counts_proper_invalid_sum() {
    let result = KeepCounts::try_from([2, 2, 2, 0, 0, 0]);
    assert_eq!(
        result,
        Err(ConstructionError::SumMismatch {
            expected: 5,
            got: 6
        })
    );
    assert!(KeepCounts::try_from([2, 2, 0, 0, 0, 0]).is_ok());
}

#[test]
fn score_yahtzee() {
    let scorecard_state = ScorecardState::default()
        .score(ScoreCategory::Yahtzee, 50)
        .unwrap();
    assert_eq!(scorecard_state.capped_upper_section_score().score(), 0);
    for category in yahtzee_solver::types::all_categories() {
        let expected = if category == ScoreCategory::Yahtzee {
            yahtzee_solver::types::ScoreCategoryState::Scored
        } else {
            yahtzee_solver::types::ScoreCategoryState::Unscored
        };
        assert_eq!(scorecard_state.category_state(category), expected);
    }
}

#[test]
fn scratch_yahtzee() {
    let scorecard_state = ScorecardState::default()
        .score(ScoreCategory::Yahtzee, 0)
        .unwrap();
    assert_eq!(scorecard_state.capped_upper_section_score().score(), 0);
    for category in yahtzee_solver::types::all_categories() {
        let expected = if category == ScoreCategory::Yahtzee {
            yahtzee_solver::types::ScoreCategoryState::Scratched
        } else {
            yahtzee_solver::types::ScoreCategoryState::Unscored
        };
        assert_eq!(scorecard_state.category_state(category), expected);
    }
}

#[test]
fn score_upper_section() {
    let scorecard_state = ScorecardState::default()
        .score(ScoreCategory::Aces, 3)
        .unwrap();
    assert_eq!(scorecard_state.capped_upper_section_score().score(), 3);
    for category in yahtzee_solver::types::all_categories() {
        let expected = if category == ScoreCategory::Aces {
            yahtzee_solver::types::ScoreCategoryState::Scored
        } else {
            yahtzee_solver::types::ScoreCategoryState::Unscored
        };
        assert_eq!(scorecard_state.category_state(category), expected);
    }
}

#[test]
fn invalid_score() {
    let scorecard_state = ScorecardState::default()
        .score(ScoreCategory::Aces, 3)
        .unwrap()
        .score(ScoreCategory::Aces, 3);
    assert_eq!(
        scorecard_state,
        Err(ScoringError::InvalidScoreCategory {
            category: ScoreCategory::Aces
        })
    );
}

/// `score` leaves its receiver untouched: the card is a value, and writing a
/// category produces a new card.
#[test]
fn score_is_pure() {
    let original = ScorecardState::default();
    let _scored = original.score(ScoreCategory::Fives, 15).unwrap();
    assert_eq!(original, ScorecardState::default());
    assert_eq!(
        original.category_state(ScoreCategory::Fives),
        yahtzee_solver::types::ScoreCategoryState::Unscored
    );
}

#[test]
fn subtract_reports_offending_face() {
    let roll = RollCounts::try_from([2, 0, 3, 0, 0, 0]).unwrap();
    let keep = KeepCounts::try_from([1, 1, 0, 0, 0, 0]).unwrap();
    assert_eq!(
        roll.subtract(&keep),
        Err(SubtractionError::Underflow { index: 1 })
    );
    let keep2 = KeepCounts::try_from([1, 0, 2, 0, 0, 0]).unwrap();
    let diff = roll.subtract(&keep2).unwrap();
    assert_eq!(*diff.keep_counts(), [1, 0, 1, 0, 0, 0]);
}
