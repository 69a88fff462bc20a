use yahtzee_solver::yahtzee::{
    CappedUpperSectionSum, CappedUpperSectionSumCreationError, RollCounts, RollError, RollsLeft,
    RollsLeftCreationError, YAHTZEE_BONUS_VALUE,
};

#[test]
fn rolled_dice_always_number_five() {
    for _ in 0..50 {
        let roll = RollCounts::roll();
        let total: u16 = roll.roll_counts().iter().map(|&c| c as u16).sum();
        assert_eq!(total, 5);
    }
}

#[test]
fn reroll_keeps_the_dice_not_rerolled() {
    let roll = RollCounts::try_from([2, 0, 3, 0, 0, 0]).unwrap();
    for _ in 0..20 {
        let next = roll.reroll([1, 0, 2, 0, 0, 0]).unwrap();
        let counts = next.roll_counts();
        let total: u16 = counts.iter().map(|&c| c as u16).sum();
        assert_eq!(total, 5);
        assert!(counts[0] >= 1);
        assert!(counts[2] >= 1);
    }
}

#[test]
fn reroll_of_absent_dice_is_rejected() {
    let roll = RollCounts::try_from([2, 0, 3, 0, 0, 0]).unwrap();
    assert_eq!(
        roll.reroll([0, 1, 0, 0, 0, 0]),
        Err(RollError::InvalidReroll)
    );
}

#[test]
fn played_roll_construction_checks_dice_count() {
    assert!(RollCounts::try_from([1, 1, 1, 1, 1, 0]).is_ok());
    assert_eq!(
        RollCounts::try_from([1, 1, 1, 1, 1, 1]),
        Err(RollError::InvalidNumberOfDice(6))
    );
}

#[test]
fn played_rolls_left_bounds() {
    assert!(RollsLeft::try_from(2).is_ok());
    assert_eq!(
        RollsLeft::try_from(3),
        Err(RollsLeftCreationError::RollsLeftOutOfBounds)
    );
    assert_eq!(RollsLeft::default().rolls_left(), 2);
}

#[test]
fn played_upper_sum_bounds() {
    assert_eq!(
        CappedUpperSectionSum::try_from(63)
            .unwrap()
            .capped_upper_section_sum(),
        63
    );
    assert_eq!(
        CappedUpperSectionSum::try_from(64),
        Err(CappedUpperSectionSumCreationError::SumOutOfBounds)
    );
}

#[test]
fn house_bonus_constant() {
    assert_eq!(YAHTZEE_BONUS_VALUE, 50);
}
