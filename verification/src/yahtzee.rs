//! Dice rolling for playing out a game: roll multisets produced from random
//! die faces, the rolls counter, and a compact scorecard for play. The
//! solver itself never rolls dice; these types serve a host that plays games
//! against the solved policy.

use vstd::prelude::*;

use crate::types::{lemma_sum8_element, lemma_sum8_le, lemma_sum8_nonneg, sum8};

verus! {

/// The bonus a played game credits for each extra Yahtzee under house
/// scoring that values it at fifty.
pub const YAHTZEE_BONUS_VALUE: u16 = 50;

/// A roll of five dice as per-face counts.
#[derive(Copy, Clone, Debug, Eq, PartialEq, Hash)]
pub struct RollCounts {
    counts: [u8; 6],
}

/// Error from building or rerolling a roll.
#[derive(Copy, Clone, Debug, Eq, PartialEq, Hash, Structural)]
pub enum RollError {
    InvalidNumberOfDice(u16),
    InvalidReroll,
}

/// How many rolls remain in the turn: 0, 1 or 2.
#[derive(Debug, Copy, Clone, PartialEq, Eq, Hash)]
pub struct RollsLeft {
    n: u8,
}

/// Error from building a rolls-remaining counter.
#[derive(Debug, Copy, Clone, PartialEq, Eq, Hash, Structural)]
pub enum RollsLeftCreationError {
    RollsLeftOutOfBounds,
}

/// A dice state within a turn: the current roll and the rolls remaining.
#[derive(Debug, Copy, Clone, PartialEq, Eq, Hash)]
pub struct DiceState {
    roll_counts: RollCounts,
    rolls_left: RollsLeft,
}

/// Upper-section running total, saturated at the bonus threshold 63.
#[derive(Copy, Clone, Debug, Eq, PartialEq, Hash)]
pub struct CappedUpperSectionSum {
    total: u8,
}

/// Error from building a capped upper-section sum.
#[derive(Copy, Clone, Debug, Eq, PartialEq, Hash, Structural)]
pub enum CappedUpperSectionSumCreationError {
    SumOutOfBounds,
}

/// State of the Yahtzee slot in a played game.
#[derive(Copy, Clone, Debug, Eq, PartialEq, Hash, Structural)]
pub enum YahtzeeScoreState {
    Unscored,
    Scratched,
    Scored,
}

/// State of any other slot in a played game.
#[derive(Copy, Clone, Debug, Eq, PartialEq, Hash, Structural)]
pub enum NonYahtzeeScoreState {
    Unscored,
    Scored,
}

/// A compact scorecard for play: the capped upper total, one bit per
/// ordinary slot, and the three-valued Yahtzee slot.
#[derive(Copy, Clone, Debug, Eq, PartialEq, Hash)]
pub struct ScorecardState {
    pub upper_section_sum: CappedUpperSectionSum,
    pub non_yahtzee_scored: [NonYahtzeeScoreState; 12],
    pub yahtzee_state: YahtzeeScoreState,
}

/// One random die face in `0 .. 6`.
///
/// Relies on `rand::random_range`: a uniformly random value inside the given
/// nonempty range, from the thread-local generator.
#[verifier::external_body]
fn random_die_face() -> (f: usize)
    ensures
        f < 6,
{
    rand::random_range(0..6usize)
}

impl View for RollCounts {
    type V = Seq<u8>;

    closed spec fn view(&self) -> Seq<u8> {
        self.counts@
    }
}

impl RollCounts {
    #[verifier::type_invariant]
    spec fn wf(self) -> bool {
        self.counts@.len() == 6 && sum8(self.counts@) == 5
    }

    /// The per-face counts of this roll.
    pub fn roll_counts(&self) -> (r: [u8; 6])
        ensures
            r@ == self@,
            sum8(self@) == 5,
    {
        proof {
            use_type_invariant(self);
        }
        self.counts
    }

    /// Builds a roll from raw counts, rejecting any count of dice other than
    /// five.
    pub fn try_from(counts: [u8; 6]) -> (r: Result<Self, RollError>)
        ensures
            r is Ok <==> sum8(counts@) == 5,
            r matches Ok(rc) ==> rc@ == counts@,
            sum8(counts@) != 5 ==> r == Err::<Self, _>(
                RollError::InvalidNumberOfDice(sum8(counts@) as u16),
            ),
    {
        let mut n_dice: u16 = 0;
        let mut i: usize = 0;
        while i < 6
            invariant
                i <= 6,
                n_dice == sum8(counts@.take(i as int)),
                n_dice <= 255 * i,
            decreases 6 - i,
        {
            proof {
                crate::types::lemma_sum8_split(counts@.take(i + 1), i as int);
                assert(counts@.take(i + 1).take(i as int) =~= counts@.take(i as int));
                assert(counts@.take(i + 1).skip(i as int) =~= seq![counts@[i as int]]);
                assert(seq![counts@[i as int]].drop_first() =~= Seq::<u8>::empty());
                assert(sum8(Seq::<u8>::empty()) == 0);
                assert(sum8(seq![counts@[i as int]]) == counts@[i as int]);
            }
            n_dice += counts[i] as u16;
            i += 1;
        }
        proof {
            assert(counts@.take(6) =~= counts@);
        }
        if n_dice != 5 {
            return Err(RollError::InvalidNumberOfDice(n_dice));
        }
        Ok(RollCounts { counts })
    }

    /// Rolls five fresh dice.
    pub fn roll() -> (r: Self)
        ensures
            sum8(r@) == 5,
    {
        let mut counts: [u8; 6] = [0, 0, 0, 0, 0, 0];
        proof {
            crate::types::lemma_sum8_zero(counts@);
        }
        let mut thrown: u8 = 0;
        while thrown < 5
            invariant
                thrown <= 5,
                counts@.len() == 6,
                sum8(counts@) == thrown,
            decreases 5 - thrown,
        {
            let die = random_die_face();
            proof {
                lemma_sum8_element(counts@, die as int);
                lemma_sum8_update(counts@, die as int);
            }
            counts[die] = counts[die] + 1;
            thrown += 1;
        }
        RollCounts { counts }
    }

    /// Removes the dice named by `to_reroll` and rolls that many fresh dice;
    /// fails when more dice of a face would be rerolled than are present.
    pub fn reroll(&self, to_reroll: [u8; 6]) -> (r: Result<Self, RollError>)
        ensures
            r is Ok <==> forall|i: int| 0 <= i < 6 ==> to_reroll@[i] <= self@[i],
            r matches Ok(nr) ==> sum8(nr@) == 5 && forall|i: int|
                0 <= i < 6 ==> nr@[i] >= self@[i] - to_reroll@[i],
            !(forall|i: int| 0 <= i < 6 ==> to_reroll@[i] <= self@[i]) ==> r == Err::<Self, _>(
                RollError::InvalidReroll,
            ),
    {
        proof {
            use_type_invariant(self);
        }
        let base = self.roll_counts();
        let mut kept: [u8; 6] = [0, 0, 0, 0, 0, 0];
        let mut i: usize = 0;
        while i < 6
            invariant
                i <= 6,
                base@ == self@,
                kept@.len() == 6,
                sum8(self@) == 5,
                forall|j: int| 0 <= j < i ==> to_reroll@[j] <= self@[j],
                forall|j: int| 0 <= j < i ==> kept@[j] == self@[j] - to_reroll@[j],
                forall|j: int| i <= j < 6 ==> kept@[j] == 0,
            decreases 6 - i,
        {
            if to_reroll[i] > base[i] {
                return Err(RollError::InvalidReroll);
            }
            kept[i] = base[i] - to_reroll[i];
            i += 1;
        }
        proof {
            lemma_sum8_le(kept@, self@);
            lemma_sum8_nonneg(kept@);
        }
        let kept_total = count_kept(&kept);
        let mut counts = kept;
        let mut thrown: u8 = kept_total;
        while thrown < 5
            invariant
                thrown <= 5,
                counts@.len() == 6,
                sum8(counts@) == thrown,
                forall|j: int| 0 <= j < 6 ==> counts@[j] >= kept@[j],
                kept@.len() == 6,
            decreases 5 - thrown,
        {
            let die = random_die_face();
            proof {
                lemma_sum8_element(counts@, die as int);
                lemma_sum8_update(counts@, die as int);
            }
            counts[die] = counts[die] + 1;
            thrown += 1;
        }
        Ok(RollCounts { counts })
    }
}

/// Sum of six kept counts, as executable code.
fn count_kept(counts: &[u8; 6]) -> (s: u8)
    requires
        sum8(counts@) <= 5,
    ensures
        s == sum8(counts@),
{
    proof {
        lemma_sum8_nonneg(counts@);
        lemma_sum8_element(counts@, 0);
        lemma_sum8_element(counts@, 1);
        lemma_sum8_element(counts@, 2);
        lemma_sum8_element(counts@, 3);
        lemma_sum8_element(counts@, 4);
        lemma_sum8_element(counts@, 5);
        assert(counts@.take(6) =~= counts@);
    }
    let mut s: u8 = 0;
    let mut i: usize = 0;
    while i < 6
        invariant
            i <= 6,
            sum8(counts@) <= 5,
            s == sum8(counts@.take(i as int)),
            s <= 5,
        decreases 6 - i,
    {
        proof {
            crate::types::lemma_sum8_split(counts@.take(i + 1), i as int);
            assert(counts@.take(i + 1).take(i as int) =~= counts@.take(i as int));
            assert(counts@.take(i + 1).skip(i as int) =~= seq![counts@[i as int]]);
            assert(seq![counts@[i as int]].drop_first() =~= Seq::<u8>::empty());
            assert(sum8(Seq::<u8>::empty()) == 0);
            assert(sum8(seq![counts@[i as int]]) == counts@[i as int]);
            lemma_sum8_prefix_le(counts@, i + 1);
        }
        s += counts[i];
        i += 1;
    }
    proof {
        assert(counts@.take(6) =~= counts@);
    }
    s
}

/// A prefix sum never exceeds the whole sum.
proof fn lemma_sum8_prefix_le(s: Seq<u8>, i: int)
    requires
        0 <= i <= s.len(),
    ensures
        sum8(s.take(i)) <= sum8(s),
{
    crate::types::lemma_sum8_split(s, i);
    lemma_sum8_nonneg(s.skip(i));
}

/// Incrementing one count increments the sum.
proof fn lemma_sum8_update(s: Seq<u8>, i: int)
    requires
        0 <= i < s.len(),
        s[i] < 255,
    ensures
        sum8(s.update(i, (s[i] + 1) as u8)) == sum8(s) + 1,
    decreases s.len(),
{
    if i == 0 {
        assert(s.update(0, (s[0] + 1) as u8).drop_first() =~= s.drop_first());
    } else {
        lemma_sum8_update(s.drop_first(), i - 1);
        assert(s.update(i, (s[i] + 1) as u8).drop_first() =~= s.drop_first().update(
            i - 1,
            (s[i] + 1) as u8,
        ));
    }
}

impl RollsLeft {
    #[verifier::type_invariant]
    spec fn wf(self) -> bool {
        self.n <= 2
    }

    /// The number of rolls remaining.
    pub fn rolls_left(&self) -> (r: u8)
        ensures
            r == self@,
            r <= 2,
    {
        proof {
            use_type_invariant(self);
        }
        self.n
    }

    /// Builds a rolls-remaining counter, rejecting values above 2.
    pub fn try_from(value: u8) -> (r: Result<Self, RollsLeftCreationError>)
        ensures
            r is Ok <==> value <= 2,
            r matches Ok(rl) ==> rl@ == value,
            value > 2 ==> r == Err::<Self, _>(RollsLeftCreationError::RollsLeftOutOfBounds),
    {
        if value > 2 {
            return Err(RollsLeftCreationError::RollsLeftOutOfBounds);
        }
        Ok(RollsLeft { n: value })
    }
}

impl View for RollsLeft {
    type V = u8;

    closed spec fn view(&self) -> u8 {
        self.n
    }
}

impl Default for RollsLeft {
    /// A turn starts with two rerolls remaining.
    fn default() -> (r: Self)
        ensures
            r@ == 2,
    {
        RollsLeft { n: 2 }
    }
}

impl CappedUpperSectionSum {
    #[verifier::type_invariant]
    spec fn wf(self) -> bool {
        self.total <= 63
    }

    /// The saturated upper-section total.
    pub fn capped_upper_section_sum(&self) -> (r: u8)
        ensures
            r == self@,
            r <= 63,
    {
        proof {
            use_type_invariant(self);
        }
        self.total
    }

    /// Builds a capped sum, rejecting totals above the threshold 63.
    pub fn try_from(value: u8) -> (r: Result<Self, CappedUpperSectionSumCreationError>)
        ensures
            r is Ok <==> value <= 63,
            r matches Ok(c) ==> c@ == value,
            value > 63 ==> r == Err::<Self, _>(CappedUpperSectionSumCreationError::SumOutOfBounds),
    {
        if value > 63 {
            return Err(CappedUpperSectionSumCreationError::SumOutOfBounds);
        }
        Ok(CappedUpperSectionSum { total: value })
    }
}

impl View for CappedUpperSectionSum {
    type V = u8;

    closed spec fn view(&self) -> u8 {
        self.total
    }
}

impl Default for CappedUpperSectionSum {
    /// A fresh upper section with nothing scored.
    fn default() -> (r: Self)
        ensures
            r@ == 0,
    {
        CappedUpperSectionSum { total: 0 }
    }
}

impl Default for YahtzeeScoreState {
    /// A fresh Yahtzee slot is open.
    fn default() -> (r: Self)
        ensures
            r == YahtzeeScoreState::Unscored,
    {
        YahtzeeScoreState::Unscored
    }
}

impl Default for NonYahtzeeScoreState {
    /// A fresh slot is open.
    fn default() -> (r: Self)
        ensures
            r == NonYahtzeeScoreState::Unscored,
    {
        NonYahtzeeScoreState::Unscored
    }
}

impl Default for ScorecardState {
    /// A fresh card: nothing scored anywhere.
    fn default() -> (r: Self)
        ensures
            r.upper_section_sum@ == 0,
            r.yahtzee_state == YahtzeeScoreState::Unscored,
            forall|i: int|
                0 <= i < 12 ==> r.non_yahtzee_scored@[i] == NonYahtzeeScoreState::Unscored,
    {
        ScorecardState {
            upper_section_sum: CappedUpperSectionSum { total: 0 },
            non_yahtzee_scored: [
                NonYahtzeeScoreState::Unscored,
                NonYahtzeeScoreState::Unscored,
                NonYahtzeeScoreState::Unscored,
                NonYahtzeeScoreState::Unscored,
                NonYahtzeeScoreState::Unscored,
                NonYahtzeeScoreState::Unscored,
                NonYahtzeeScoreState::Unscored,
                NonYahtzeeScoreState::Unscored,
                NonYahtzeeScoreState::Unscored,
                NonYahtzeeScoreState::Unscored,
                NonYahtzeeScoreState::Unscored,
                NonYahtzeeScoreState::Unscored,
            ],
            yahtzee_state: YahtzeeScoreState::Unscored,
        }
    }
}

impl DiceState {
    /// A dice state from a roll and a rolls-remaining counter.
    pub fn new(roll_counts: RollCounts, rolls_left: RollsLeft) -> (r: Self)
        ensures
            r.roll_counts() == roll_counts,
            r.rolls_left_counter() == rolls_left,
    {
        DiceState { roll_counts, rolls_left }
    }

    /// The roll of this dice state.
    pub closed spec fn roll_counts(self) -> RollCounts {
        self.roll_counts
    }

    /// The rolls remaining in this dice state.
    pub closed spec fn rolls_left_counter(self) -> RollsLeft {
        self.rolls_left
    }
}

} // verus!
