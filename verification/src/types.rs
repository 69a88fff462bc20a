//! Domain types for the solver: dice multisets, keep multisets, the rolls
//! counter, score categories, the scorecard, and the deterministic scoring
//! rules including the Yahtzee-bonus and Joker handling.

use vstd::prelude::*;

verus! {

/// Whether a Yahtzee rolled while the Yahtzee category is already resolved
/// forces the matching upper-section category to be chosen.
#[derive(Debug, Copy, Clone, Eq, PartialEq, Structural)]
pub enum JokerRule {
    Forced,
    FreeChoice,
}

/// The thirteen score categories of a standard Yahtzee scorecard.
#[derive(Debug, Copy, Clone, Eq, PartialEq, Structural)]
pub enum ScoreCategory {
    Aces,
    Twos,
    Threes,
    Fours,
    Fives,
    Sixes,
    FullHouse,
    ThreeOfAKind,
    FourOfAKind,
    SmallStraight,
    LargeStraight,
    Yahtzee,
    Chance,
}

/// State of one category slot. `Scratched` is written only when a zero is
/// scored into the Yahtzee category; it forfeits future Yahtzee bonuses.
#[derive(Debug, Copy, Clone, Eq, PartialEq, Structural)]
pub enum ScoreCategoryState {
    Unscored,
    Scored,
    Scratched,
}

/// Error from constructing a domain value out of raw integers.
#[derive(Debug, Eq, PartialEq, Structural)]
pub enum ConstructionError {
    ValueTooLarge { max: u8, got: u8 },
    SumMismatch { expected: u8, got: u8 },
}

/// Error from writing a score into a category that is not open.
#[derive(Debug, Eq, PartialEq, Structural)]
pub enum ScoringError {
    InvalidScoreCategory { category: ScoreCategory },
}

/// Error from removing more dice of a face than are present.
#[derive(Debug, Eq, PartialEq, Structural)]
pub enum SubtractionError {
    Underflow { index: u8 },
}

/// A roll of five dice as a multiset: per-face counts summing to exactly 5.
#[derive(Debug, Copy, Clone, Eq, PartialEq, Hash)]
pub struct RollCounts {
    counts: [u8; 6],
}

/// A choice of dice to keep: per-face counts summing to at most 5.
#[derive(Debug, Copy, Clone, Eq, PartialEq, Hash)]
pub struct KeepCounts {
    counts: [u8; 6],
}

/// How many rolls remain in the turn: 0, 1 or 2.
#[derive(Debug, Copy, Clone, Eq, PartialEq, Hash)]
pub struct RollsLeft {
    n: u8,
}

/// Upper-section running total, saturated at the bonus threshold 63.
#[derive(Debug, Copy, Clone, Eq, PartialEq, Hash)]
pub struct CappedUpperSectionScore {
    total: u8,
}

/// A dice state within a turn: the current roll and the rolls remaining.
#[derive(Debug, Copy, Clone, Eq, PartialEq, Hash)]
pub struct DiceState {
    pub roll_counts: RollCounts,
    pub rolls_left: RollsLeft,
}

/// Sum of the elements of a byte sequence.
pub open spec fn sum8(s: Seq<u8>) -> int
    decreases s.len(),
{
    if s.len() == 0 {
        0
    } else {
        s[0] + sum8(s.drop_first())
    }
}

/// A valid roll: six per-face counts that sum to exactly five dice.
pub open spec fn valid_roll(s: Seq<u8>) -> bool {
    s.len() == 6 && sum8(s) == 5
}

/// A valid keep: six per-face counts that sum to at most five dice.
pub open spec fn valid_keep(s: Seq<u8>) -> bool {
    s.len() == 6 && sum8(s) <= 5
}

/// `b` is a submultiset of `a`: pointwise no larger.
pub open spec fn submultiset(b: Seq<u8>, a: Seq<u8>) -> bool {
    &&& b.len() == 6
    &&& a.len() == 6
    &&& forall|i: int| 0 <= i < 6 ==> b[i] <= a[i]
}

/// Index of the first element exceeding `limit`, or `s.len()` if none does.
pub open spec fn first_over_limit(s: Seq<u8>, limit: u8) -> int
    decreases s.len(),
{
    if s.len() == 0 {
        0
    } else if s[0] > limit {
        0
    } else {
        1 + first_over_limit(s.drop_first(), limit)
    }
}

/// Index of the first position where `a` is smaller than `b`, or `a.len()`.
pub open spec fn first_underflow(a: Seq<u8>, b: Seq<u8>) -> int
    decreases a.len(),
{
    if a.len() == 0 {
        0
    } else if a[0] < b[0] {
        0
    } else {
        1 + first_underflow(a.drop_first(), b.drop_first())
    }
}

proof fn lemma_first_over_limit(s: Seq<u8>, limit: u8, i: int)
    requires
        0 <= i < s.len(),
        forall|j: int| 0 <= j < i ==> s[j] <= limit,
        s[i] > limit,
    ensures
        first_over_limit(s, limit) == i,
    decreases s.len(),
{
    if i > 0 {
        lemma_first_over_limit(s.drop_first(), limit, i - 1);
    }
}

proof fn lemma_no_over_limit(s: Seq<u8>, limit: u8)
    requires
        forall|j: int| 0 <= j < s.len() ==> s[j] <= limit,
    ensures
        first_over_limit(s, limit) == s.len(),
    decreases s.len(),
{
    if s.len() > 0 {
        lemma_no_over_limit(s.drop_first(), limit);
    }
}

proof fn lemma_first_underflow(a: Seq<u8>, b: Seq<u8>, i: int)
    requires
        0 <= i < a.len(),
        a.len() == b.len(),
        forall|j: int| 0 <= j < i ==> a[j] >= b[j],
        a[i] < b[i],
    ensures
        first_underflow(a, b) == i,
    decreases a.len(),
{
    if i > 0 {
        lemma_first_underflow(a.drop_first(), b.drop_first(), i - 1);
    }
}

/// The sum of a prefix plus the sum of the rest is the whole sum.
pub proof fn lemma_sum8_split(s: Seq<u8>, i: int)
    requires
        0 <= i <= s.len(),
    ensures
        sum8(s) == sum8(s.take(i)) + sum8(s.skip(i)),
    decreases i,
{
    if i == 0 {
        assert(s.take(0) =~= Seq::<u8>::empty());
        assert(s.skip(0) =~= s);
    } else {
        lemma_sum8_split(s.drop_first(), i - 1);
        assert(s.take(i).drop_first() =~= s.drop_first().take(i - 1));
        assert(s.skip(i) =~= s.drop_first().skip(i - 1));
        assert(sum8(s.take(i)) == s[0] + sum8(s.drop_first().take(i - 1)));
    }
}

/// A sequence that is pointwise no larger, and somewhere strictly smaller,
/// has a strictly smaller sum.
pub proof fn lemma_sum8_lt(a: Seq<u8>, b: Seq<u8>, j: int)
    requires
        a.len() == b.len(),
        forall|i: int| 0 <= i < a.len() ==> a[i] <= b[i],
        0 <= j < a.len(),
        a[j] < b[j],
    ensures
        sum8(a) < sum8(b),
    decreases a.len(),
{
    if j == 0 {
        lemma_sum8_le(a.drop_first(), b.drop_first());
    } else {
        lemma_sum8_lt(a.drop_first(), b.drop_first(), j - 1);
    }
}

/// A sequence that is pointwise no larger has a sum no larger.
pub proof fn lemma_sum8_le(a: Seq<u8>, b: Seq<u8>)
    requires
        a.len() == b.len(),
        forall|i: int| 0 <= i < a.len() ==> a[i] <= b[i],
    ensures
        sum8(a) <= sum8(b),
    decreases a.len(),
{
    if a.len() > 0 {
        lemma_sum8_le(a.drop_first(), b.drop_first());
    }
}

/// Every element is bounded by the total sum.
pub proof fn lemma_sum8_element(s: Seq<u8>, i: int)
    requires
        0 <= i < s.len(),
    ensures
        s[i] <= sum8(s),
    decreases s.len(),
{
    lemma_sum8_nonneg(s.drop_first());
    if i > 0 {
        lemma_sum8_element(s.drop_first(), i - 1);
        lemma_sum8_nonneg(s.drop_first().drop_first());
    }
}

impl View for RollCounts {
    type V = Seq<u8>;

    closed spec fn view(&self) -> Seq<u8> {
        self.counts@
    }
}

impl View for KeepCounts {
    type V = Seq<u8>;

    closed spec fn view(&self) -> Seq<u8> {
        self.counts@
    }
}

impl RollCounts {
    #[verifier::type_invariant]
    spec fn wf(self) -> bool {
        valid_roll(self.counts@)
    }

    /// The per-face counts of this roll.
    pub fn roll_counts(&self) -> (r: &[u8; 6])
        ensures
            r@ == self@,
            valid_roll(self@),
    {
        proof {
            use_type_invariant(self);
        }
        &self.counts
    }

    /// Builds a roll from raw per-face counts, rejecting counts that do not
    /// describe five dice. A count larger than five is reported before the
    /// sum is examined, so wildly out-of-range input names the bad entry.
    pub fn try_from(value: [u8; 6]) -> (r: Result<Self, ConstructionError>)
        ensures
            r is Ok <==> valid_roll(value@),
            r matches Ok(rc) ==> rc@ == value@,
            (exists|i: int| 0 <= i < 6 && value@[i] > 5) ==> r == Err::<Self, _>(
                ConstructionError::ValueTooLarge { max: 5, got: value@[first_over_limit(value@, 5)] },
            ),
            (forall|i: int| 0 <= i < 6 ==> value@[i] <= 5) && sum8(value@) != 5 ==> r
                == Err::<Self, _>(
                ConstructionError::SumMismatch { expected: 5, got: sum8(value@) as u8 },
            ),
    {
        let mut i: usize = 0;
        while i < 6
            invariant
                i <= 6,
                forall|j: int| 0 <= j < i ==> value@[j] <= 5,
            decreases 6 - i,
        {
            if value[i] > 5 {
                proof {
                    lemma_first_over_limit(value@, 5, i as int);
                    lemma_sum8_element(value@, i as int);
                }
                return Err(ConstructionError::ValueTooLarge { max: 5, got: value[i] });
            }
            i += 1;
        }
        let mut sum: u16 = 0;
        let mut j: usize = 0;
        while j < 6
            invariant
                j <= 6,
                forall|k: int| 0 <= k < 6 ==> value@[k] <= 5,
                sum == sum8(value@.take(j as int)),
                sum <= 5 * j,
            decreases 6 - j,
        {
            proof {
                lemma_sum8_split(value@.take(j + 1), j as int);
                assert(value@.take(j + 1).take(j as int) =~= value@.take(j as int));
                assert(value@.take(j + 1).skip(j as int) =~= seq![value@[j as int]]);
                assert(seq![value@[j as int]].drop_first() =~= Seq::<u8>::empty());
                assert(sum8(Seq::<u8>::empty()) == 0);
                assert(sum8(seq![value@[j as int]]) == value@[j as int]);
            }
            sum += value[j] as u16;
            j += 1;
        }
        proof {
            assert(value@.take(6) =~= value@);
            lemma_no_over_limit(value@, 5);
        }
        if sum != 5 {
            return Err(ConstructionError::SumMismatch { expected: 5, got: sum as u8 });
        }
        Ok(RollCounts { counts: value })
    }

    /// Removes the kept dice from this roll, giving the dice to reroll.
    /// Fails on the first face of which more dice are kept than were rolled.
    pub fn subtract(&self, keep_counts: &KeepCounts) -> (r: Result<KeepCounts, SubtractionError>)
        ensures
            r is Ok <==> submultiset(keep_counts@, self@),
            r matches Ok(d) ==> d@.len() == 6 && forall|i: int|
                0 <= i < 6 ==> d@[i] == self@[i] - keep_counts@[i],
            !submultiset(keep_counts@, self@) ==> r == Err::<KeepCounts, _>(
                SubtractionError::Underflow {
                    index: first_underflow(self@, keep_counts@) as u8,
                },
            ),
    {
        proof {
            use_type_invariant(self);
            use_type_invariant(keep_counts);
        }
        let mut result: [u8; 6] = *self.roll_counts();
        let mut i: usize = 0;
        while i < 6
            invariant
                i <= 6,
                result@.len() == 6,
                forall|j: int| 0 <= j < i ==> self@[j] >= keep_counts@[j],
                forall|j: int| 0 <= j < i ==> result@[j] == self@[j] - keep_counts@[j],
                forall|j: int| i <= j < 6 ==> result@[j] == self@[j],
            decreases 6 - i,
        {
            if result[i] < keep_counts.keep_counts()[i] {
                proof {
                    lemma_first_underflow(self@, keep_counts@, i as int);
                }
                return Err(SubtractionError::Underflow { index: i as u8 });
            }
            result[i] = result[i] - keep_counts.keep_counts()[i];
            i += 1;
        }
        proof {
            lemma_sum8_le(result@, self.counts@);
            assert(sum8(result@) >= 0) by {
                lemma_sum8_nonneg(result@);
            }
        }
        Ok(KeepCounts { counts: result })
    }
}

/// A sum of unsigned bytes is nonnegative.
pub proof fn lemma_sum8_nonneg(s: Seq<u8>)
    ensures
        sum8(s) >= 0,
    decreases s.len(),
{
    if s.len() > 0 {
        lemma_sum8_nonneg(s.drop_first());
    }
}

/// A sequence of zeros sums to zero.
pub proof fn lemma_sum8_zero(s: Seq<u8>)
    requires
        forall|i: int| 0 <= i < s.len() ==> s[i] == 0,
    ensures
        sum8(s) == 0,
    decreases s.len(),
{
    if s.len() > 0 {
        lemma_sum8_zero(s.drop_first());
    }
}

impl KeepCounts {
    #[verifier::type_invariant]
    spec fn wf(self) -> bool {
        valid_keep(self.counts@)
    }

    /// The keep that keeps nothing: every die is rerolled.
    pub fn empty() -> (k: KeepCounts)
        ensures
            k@.len() == 6,
            forall|i: int| 0 <= i < 6 ==> k@[i] == 0,
            sum8(k@) == 0,
    {
        let counts: [u8; 6] = [0, 0, 0, 0, 0, 0];
        proof {
            lemma_sum8_zero(counts@);
        }
        KeepCounts { counts }
    }

    /// The per-face counts of this keep.
    pub fn keep_counts(&self) -> (r: &[u8; 6])
        ensures
            r@ == self@,
            valid_keep(self@),
    {
        proof {
            use_type_invariant(self);
        }
        &self.counts
    }

    /// Builds a keep from raw per-face counts, rejecting counts that keep
    /// more than five dice or hold an entry larger than five.
    pub fn try_from(value: [u8; 6]) -> (r: Result<Self, ConstructionError>)
        ensures
            r is Ok <==> valid_keep(value@),
            r matches Ok(kc) ==> kc@ == value@,
            (exists|i: int| 0 <= i < 6 && value@[i] > 5) ==> r == Err::<Self, _>(
                ConstructionError::ValueTooLarge { max: 5, got: value@[first_over_limit(value@, 5)] },
            ),
            (forall|i: int| 0 <= i < 6 ==> value@[i] <= 5) && sum8(value@) > 5 ==> r
                == Err::<Self, _>(
                ConstructionError::SumMismatch { expected: 5, got: sum8(value@) as u8 },
            ),
    {
        let mut i: usize = 0;
        while i < 6
            invariant
                i <= 6,
                forall|j: int| 0 <= j < i ==> value@[j] <= 5,
            decreases 6 - i,
        {
            if value[i] > 5 {
                proof {
                    lemma_first_over_limit(value@, 5, i as int);
                    lemma_sum8_element(value@, i as int);
                }
                return Err(ConstructionError::ValueTooLarge { max: 5, got: value[i] });
            }
            i += 1;
        }
        let mut sum: u16 = 0;
        let mut j: usize = 0;
        while j < 6
            invariant
                j <= 6,
                forall|k: int| 0 <= k < 6 ==> value@[k] <= 5,
                sum == sum8(value@.take(j as int)),
                sum <= 5 * j,
            decreases 6 - j,
        {
            proof {
                lemma_sum8_split(value@.take(j + 1), j as int);
                assert(value@.take(j + 1).take(j as int) =~= value@.take(j as int));
                assert(value@.take(j + 1).skip(j as int) =~= seq![value@[j as int]]);
                assert(seq![value@[j as int]].drop_first() =~= Seq::<u8>::empty());
                assert(sum8(Seq::<u8>::empty()) == 0);
                assert(sum8(seq![value@[j as int]]) == value@[j as int]);
            }
            sum += value[j] as u16;
            j += 1;
        }
        proof {
            assert(value@.take(6) =~= value@);
            lemma_no_over_limit(value@, 5);
        }
        if sum > 5 {
            return Err(ConstructionError::SumMismatch { expected: 5, got: sum as u8 });
        }
        Ok(KeepCounts { counts: value })
    }
}

impl RollsLeft {
    #[verifier::type_invariant]
    spec fn wf(self) -> bool {
        self.n <= 2
    }

    /// The number of rolls remaining.
    pub fn rolls_left(&self) -> (r: &u8)
        ensures
            r == self@,
            self@ <= 2,
    {
        proof {
            use_type_invariant(self);
        }
        &self.n
    }

    /// Builds a rolls-remaining counter, rejecting values above 2.
    pub fn try_from(value: u8) -> (r: Result<Self, ConstructionError>)
        ensures
            r is Ok <==> value <= 2,
            r matches Ok(rl) ==> rl@ == value,
            value > 2 ==> r == Err::<Self, _>(
                ConstructionError::ValueTooLarge { max: 2, got: value },
            ),
    {
        if value > 2 {
            Err(ConstructionError::ValueTooLarge { max: 2, got: value })
        } else {
            Ok(RollsLeft { n: value })
        }
    }
}

impl View for RollsLeft {
    type V = u8;

    closed spec fn view(&self) -> u8 {
        self.n
    }
}

impl CappedUpperSectionScore {
    #[verifier::type_invariant]
    spec fn wf(self) -> bool {
        self.total <= 63
    }

    /// The saturated upper-section total.
    pub fn score(&self) -> (r: u8)
        ensures
            r == self@,
            self@ <= 63,
    {
        proof {
            use_type_invariant(self);
        }
        self.total
    }

    /// Adds a category score to the running total, saturating at 63.
    pub fn add_clamped(&self, other: u8) -> (r: Self)
        ensures
            r@ == vstd::math::min(self@ + vstd::math::min(other as int, 63), 63),
    {
        proof {
            use_type_invariant(self);
        }
        let clamped_other: u8 = if other < 63 {
            other
        } else {
            63
        };
        let sum: u8 = self.total + clamped_other;
        let capped: u8 = if sum < 63 {
            sum
        } else {
            63
        };
        CappedUpperSectionScore { total: capped }
    }

    /// Builds a capped score, rejecting totals above the threshold 63.
    pub fn try_from(value: u8) -> (r: Result<Self, ConstructionError>)
        ensures
            r is Ok <==> value <= 63,
            r matches Ok(c) ==> c@ == value,
            value > 63 ==> r == Err::<Self, _>(
                ConstructionError::ValueTooLarge { max: 63, got: value },
            ),
    {
        if value > 63 {
            Err(ConstructionError::ValueTooLarge { max: 63, got: value })
        } else {
            Ok(CappedUpperSectionScore { total: value })
        }
    }
}

impl View for CappedUpperSectionScore {
    type V = u8;

    closed spec fn view(&self) -> u8 {
        self.total
    }
}

impl Default for CappedUpperSectionScore {
    /// A fresh upper section with nothing scored.
    fn default() -> (r: Self)
        ensures
            r@ == 0,
    {
        CappedUpperSectionScore { total: 0 }
    }
}


/// Position of a category on the canonical scorecard, `Aces` first.
pub open spec fn category_index(c: ScoreCategory) -> int {
    match c {
        ScoreCategory::Aces => 0,
        ScoreCategory::Twos => 1,
        ScoreCategory::Threes => 2,
        ScoreCategory::Fours => 3,
        ScoreCategory::Fives => 4,
        ScoreCategory::Sixes => 5,
        ScoreCategory::FullHouse => 6,
        ScoreCategory::ThreeOfAKind => 7,
        ScoreCategory::FourOfAKind => 8,
        ScoreCategory::SmallStraight => 9,
        ScoreCategory::LargeStraight => 10,
        ScoreCategory::Yahtzee => 11,
        ScoreCategory::Chance => 12,
    }
}

/// The category at a canonical scorecard position.
pub open spec fn index_category(i: int) -> ScoreCategory {
    if i == 0 {
        ScoreCategory::Aces
    } else if i == 1 {
        ScoreCategory::Twos
    } else if i == 2 {
        ScoreCategory::Threes
    } else if i == 3 {
        ScoreCategory::Fours
    } else if i == 4 {
        ScoreCategory::Fives
    } else if i == 5 {
        ScoreCategory::Sixes
    } else if i == 6 {
        ScoreCategory::FullHouse
    } else if i == 7 {
        ScoreCategory::ThreeOfAKind
    } else if i == 8 {
        ScoreCategory::FourOfAKind
    } else if i == 9 {
        ScoreCategory::SmallStraight
    } else if i == 10 {
        ScoreCategory::LargeStraight
    } else if i == 11 {
        ScoreCategory::Yahtzee
    } else {
        ScoreCategory::Chance
    }
}

/// Whether a category belongs to the upper section (Aces through Sixes).
pub open spec fn is_upper_spec(c: ScoreCategory) -> bool {
    category_index(c) < 6
}

/// The canonical category order: position and category invert each other.
pub proof fn lemma_category_roundtrip()
    ensures
        forall|c: ScoreCategory| index_category(#[trigger] category_index(c)) == c,
        forall|i: int| 0 <= i < 13 ==> category_index(#[trigger] index_category(i)) == i,
{
}

/// The thirteen categories in canonical scorecard order.
pub fn all_categories() -> (r: Vec<ScoreCategory>)
    ensures
        r@.len() == 13,
        forall|i: int| 0 <= i < 13 ==> r@[i] == index_category(i),
{
    let mut v: Vec<ScoreCategory> = Vec::new();
    v.push(ScoreCategory::Aces);
    v.push(ScoreCategory::Twos);
    v.push(ScoreCategory::Threes);
    v.push(ScoreCategory::Fours);
    v.push(ScoreCategory::Fives);
    v.push(ScoreCategory::Sixes);
    v.push(ScoreCategory::FullHouse);
    v.push(ScoreCategory::ThreeOfAKind);
    v.push(ScoreCategory::FourOfAKind);
    v.push(ScoreCategory::SmallStraight);
    v.push(ScoreCategory::LargeStraight);
    v.push(ScoreCategory::Yahtzee);
    v.push(ScoreCategory::Chance);
    v
}

/// The category at a canonical position, as executable code.
pub fn category_at(i: usize) -> (r: ScoreCategory)
    requires
        i < 13,
    ensures
        r == index_category(i as int),
{
    if i == 0 {
        ScoreCategory::Aces
    } else if i == 1 {
        ScoreCategory::Twos
    } else if i == 2 {
        ScoreCategory::Threes
    } else if i == 3 {
        ScoreCategory::Fours
    } else if i == 4 {
        ScoreCategory::Fives
    } else if i == 5 {
        ScoreCategory::Sixes
    } else if i == 6 {
        ScoreCategory::FullHouse
    } else if i == 7 {
        ScoreCategory::ThreeOfAKind
    } else if i == 8 {
        ScoreCategory::FourOfAKind
    } else if i == 9 {
        ScoreCategory::SmallStraight
    } else if i == 10 {
        ScoreCategory::LargeStraight
    } else if i == 11 {
        ScoreCategory::Yahtzee
    } else {
        ScoreCategory::Chance
    }
}

impl ScoreCategory {
    /// Whether this category is in the upper section (Aces through Sixes).
    pub fn is_upper_section(&self) -> (r: bool)
        ensures
            r == is_upper_spec(*self),
    {
        matches!(
            self,
            ScoreCategory::Aces
                | ScoreCategory::Twos
                | ScoreCategory::Threes
                | ScoreCategory::Fours
                | ScoreCategory::Fives
                | ScoreCategory::Sixes
        )
    }

    /// Whether this category is in the lower section.
    pub fn is_lower_section(&self) -> (r: bool)
        ensures
            r == !is_upper_spec(*self),
    {
        !self.is_upper_section()
    }
}

/// The roll is a Yahtzee: some face shows all five dice.
pub open spec fn is_yahtzee_roll(s: Seq<u8>) -> bool {
    exists|i: int| 0 <= i < 6 && s[i] == 5
}

/// The face showing all five dice of a Yahtzee roll.
pub open spec fn yahtzee_face(s: Seq<u8>) -> int {
    choose|i: int| 0 <= i < 6 && s[i] == 5
}

/// No two distinct elements exceed the whole sum together.
pub proof fn lemma_sum8_pair(s: Seq<u8>, i: int, j: int)
    requires
        0 <= i < j < s.len(),
    ensures
        s[i] + s[j] <= sum8(s),
    decreases s.len(),
{
    if i == 0 {
        lemma_sum8_element(s.drop_first(), j - 1);
    } else {
        lemma_sum8_pair(s.drop_first(), i - 1, j - 1);
    }
}

/// A valid roll shows at most one face with count five, so the Yahtzee face
/// is determined.
pub proof fn lemma_yahtzee_face_unique(s: Seq<u8>, i: int)
    requires
        valid_roll(s),
        0 <= i < 6,
        s[i] == 5,
    ensures
        yahtzee_face(s) == i,
{
    let j = yahtzee_face(s);
    assert(0 <= j < 6 && s[j] == 5);
    if i < j {
        lemma_sum8_pair(s, i, j);
    } else if j < i {
        lemma_sum8_pair(s, j, i);
    }
}

/// Weighted sum of the counts from position `i` on, each face weighted by
/// its pip value `i + 1`.
pub open spec fn pip_sum_from(s: Seq<u8>, i: int) -> int
    decreases 6 - i,
{
    if i < 0 || i >= 6 {
        0
    } else {
        (i + 1) * s[i] + pip_sum_from(s, i + 1)
    }
}

/// Total pip count of a roll: each die contributes its face value.
pub open spec fn pip_sum(s: Seq<u8>) -> int {
    pip_sum_from(s, 0)
}

/// The pip total of a roll of five dice is at most 30.
pub proof fn lemma_pip_sum_bound(s: Seq<u8>)
    requires
        s.len() == 6,
    ensures
        pip_sum(s) <= 6 * sum8(s),
        pip_sum(s) >= 0,
{
    lemma_pip_sum_bound_from(s, 0);
    assert(s.skip(0) =~= s);
}

proof fn lemma_pip_sum_bound_from(s: Seq<u8>, i: int)
    requires
        s.len() == 6,
        0 <= i <= 6,
    ensures
        pip_sum_from(s, i) <= 6 * sum8(s.skip(i)),
        pip_sum_from(s, i) >= 0,
    decreases 6 - i,
{
    if i < 6 {
        lemma_pip_sum_bound_from(s, i + 1);
        assert(s.skip(i).drop_first() =~= s.skip(i + 1));
        assert(sum8(s.skip(i)) == s[i] + sum8(s.skip(i + 1)));
        assert((i + 1) * s[i] <= 6 * s[i]) by (nonlinear_arith)
            requires
                0 <= i < 6,
                s[i] >= 0,
        ;
    }
}

/// Four consecutive faces all present somewhere in the roll.
pub open spec fn has_run4(s: Seq<u8>) -> bool {
    ||| (s[0] > 0 && s[1] > 0 && s[2] > 0 && s[3] > 0)
    ||| (s[1] > 0 && s[2] > 0 && s[3] > 0 && s[4] > 0)
    ||| (s[2] > 0 && s[3] > 0 && s[4] > 0 && s[5] > 0)
}

/// Five consecutive faces all present somewhere in the roll.
pub open spec fn has_run5(s: Seq<u8>) -> bool {
    ||| (s[0] > 0 && s[1] > 0 && s[2] > 0 && s[3] > 0 && s[4] > 0)
    ||| (s[1] > 0 && s[2] > 0 && s[3] > 0 && s[4] > 0 && s[5] > 0)
}

/// A full house without the Joker allowance: a face showing three dice and a
/// different face showing two.
pub open spec fn has_full_house(s: Seq<u8>) -> bool {
    (exists|i: int| 0 <= i < 6 && s[i] == 3) && (exists|j: int| 0 <= j < 6 && s[j] == 2)
}

/// The immediate score a roll earns in a category. `is_joker` relaxes the
/// pattern requirement of FullHouse and the straights, per the Joker rule;
/// it changes nothing else.
pub open spec fn score_value_spec(s: Seq<u8>, c: ScoreCategory, is_joker: bool) -> int {
    match c {
        ScoreCategory::Aces => 1 * s[0],
        ScoreCategory::Twos => 2 * s[1],
        ScoreCategory::Threes => 3 * s[2],
        ScoreCategory::Fours => 4 * s[3],
        ScoreCategory::Fives => 5 * s[4],
        ScoreCategory::Sixes => 6 * s[5],
        ScoreCategory::FullHouse => if is_joker || has_full_house(s) {
            25
        } else {
            0
        },
        ScoreCategory::ThreeOfAKind => if exists|i: int| 0 <= i < 6 && s[i] >= 3 {
            pip_sum(s)
        } else {
            0
        },
        ScoreCategory::FourOfAKind => if exists|i: int| 0 <= i < 6 && s[i] >= 4 {
            pip_sum(s)
        } else {
            0
        },
        ScoreCategory::SmallStraight => if is_joker || has_run4(s) {
            30
        } else {
            0
        },
        ScoreCategory::LargeStraight => if is_joker || has_run5(s) {
            40
        } else {
            0
        },
        ScoreCategory::Yahtzee => if is_yahtzee_roll(s) {
            50
        } else {
            0
        },
        ScoreCategory::Chance => pip_sum(s),
    }
}

impl RollCounts {
    /// Total pip count of this roll.
    pub fn sum_of_pips(&self) -> (r: u8)
        ensures
            r == pip_sum(self@),
    {
        proof {
            use_type_invariant(self);
            lemma_pip_sum_bound(self@);
        }
        let counts = self.roll_counts();
        let mut total: u8 = 0;
        let mut i: usize = 0;
        while i < 6
            invariant
                0 <= i <= 6,
                valid_roll(self@),
                counts@ == self@,
                total + pip_sum_from(self@, i as int) == pip_sum(self@),
                total <= 30,
            decreases 6 - i,
        {
            proof {
                lemma_sum8_element(self@, i as int);
                lemma_pip_sum_tail_bound(self@, i as int);
                assert((i as int + 1) * (self@[i as int] as int) <= 30) by (nonlinear_arith)
                    requires
                        0 <= i < 6,
                        0 <= self@[i as int] <= 5,
                ;
            }
            let term: u8 = (i as u8 + 1) * counts[i];
            proof {
                lemma_pip_sum_bound(self@);
            }
            total = total + term;
            i += 1;
        }
        total
    }

    /// If this roll is a Yahtzee, the matching upper-section category.
    pub fn is_yahtzee(&self) -> (r: Option<ScoreCategory>)
        ensures
            r is Some <==> is_yahtzee_roll(self@),
            r matches Some(c) ==> c == index_category(yahtzee_face(self@)),
    {
        proof {
            use_type_invariant(self);
        }
        let counts = self.roll_counts();
        let mut i: usize = 0;
        while i < 6
            invariant
                0 <= i <= 6,
                valid_roll(self@),
                counts@ == self@,
                forall|j: int| 0 <= j < i ==> self@[j] != 5,
            decreases 6 - i,
        {
            if counts[i] == 5 {
                proof {
                    lemma_yahtzee_face_unique(self@, i as int);
                }
                return Some(category_at(i));
            }
            i += 1;
        }
        None
    }
}

/// The pip contribution of the faces from `i` on is nonnegative and bounded.
proof fn lemma_pip_sum_tail_bound(s: Seq<u8>, i: int)
    requires
        s.len() == 6,
        0 <= i < 6,
    ensures
        pip_sum_from(s, i) >= (i + 1) * s[i],
        pip_sum_from(s, i + 1) >= 0,
    decreases 6 - i,
{
    lemma_pip_sum_bound_from(s, i + 1);
}

/// The immediate score a roll earns in a category.
pub fn score_value(roll: &RollCounts, category: ScoreCategory, is_joker: bool) -> (r: u8)
    ensures
        r == score_value_spec(roll@, category, is_joker),
{
    proof {
        use_type_invariant(roll);
        lemma_pip_sum_bound(roll@);
        lemma_sum8_element(roll@, 0);
        lemma_sum8_element(roll@, 1);
        lemma_sum8_element(roll@, 2);
        lemma_sum8_element(roll@, 3);
        lemma_sum8_element(roll@, 4);
        lemma_sum8_element(roll@, 5);
    }
    let counts = roll.roll_counts();
    match category {
        ScoreCategory::Aces => 1 * counts[0],
        ScoreCategory::Twos => 2 * counts[1],
        ScoreCategory::Threes => 3 * counts[2],
        ScoreCategory::Fours => 4 * counts[3],
        ScoreCategory::Fives => 5 * counts[4],
        ScoreCategory::Sixes => 6 * counts[5],
        ScoreCategory::FullHouse => {
            if is_joker || (has_count_exactly(counts, 3) && has_count_exactly(counts, 2)) {
                25
            } else {
                0
            }
        },
        ScoreCategory::ThreeOfAKind => {
            if has_count_at_least(counts, 3) {
                roll.sum_of_pips()
            } else {
                0
            }
        },
        ScoreCategory::FourOfAKind => {
            if has_count_at_least(counts, 4) {
                roll.sum_of_pips()
            } else {
                0
            }
        },
        ScoreCategory::SmallStraight => {
            if is_joker || (counts[0] > 0 && counts[1] > 0 && counts[2] > 0 && counts[3] > 0) || (
            counts[1] > 0 && counts[2] > 0 && counts[3] > 0 && counts[4] > 0) || (counts[2] > 0
                && counts[3] > 0 && counts[4] > 0 && counts[5] > 0) {
                30
            } else {
                0
            }
        },
        ScoreCategory::LargeStraight => {
            if is_joker || (counts[0] > 0 && counts[1] > 0 && counts[2] > 0 && counts[3] > 0
                && counts[4] > 0) || (counts[1] > 0 && counts[2] > 0 && counts[3] > 0 && counts[4]
                > 0 && counts[5] > 0) {
                40
            } else {
                0
            }
        },
        ScoreCategory::Yahtzee => {
            if has_count_at_least(counts, 5) {
                50
            } else {
                0
            }
        },
        ScoreCategory::Chance => roll.sum_of_pips(),
    }
}

/// Whether some face shows at least `n` dice.
fn has_count_at_least(counts: &[u8; 6], n: u8) -> (r: bool)
    ensures
        r == exists|i: int| 0 <= i < 6 && counts@[i] >= n,
{
    let mut i: usize = 0;
    while i < 6
        invariant
            0 <= i <= 6,
            forall|j: int| 0 <= j < i ==> counts@[j] < n,
        decreases 6 - i,
    {
        if counts[i] >= n {
            return true;
        }
        i += 1;
    }
    false
}

/// Whether some face shows exactly `n` dice.
fn has_count_exactly(counts: &[u8; 6], n: u8) -> (r: bool)
    ensures
        r == exists|i: int| 0 <= i < 6 && counts@[i] == n,
{
    let mut i: usize = 0;
    while i < 6
        invariant
            0 <= i <= 6,
            forall|j: int| 0 <= j < i ==> counts@[j] != n,
        decreases 6 - i,
    {
        if counts[i] == n {
            return true;
        }
        i += 1;
    }
    false
}


/// A partially filled scorecard: the saturated upper-section total and the
/// state of each of the thirteen category slots.
#[derive(Debug, Copy, Clone, Eq, PartialEq)]
pub struct ScorecardState {
    capped_upper_section_score: CappedUpperSectionScore,
    aces: ScoreCategoryState,
    twos: ScoreCategoryState,
    threes: ScoreCategoryState,
    fours: ScoreCategoryState,
    fives: ScoreCategoryState,
    sixes: ScoreCategoryState,
    full_house: ScoreCategoryState,
    three_of_a_kind: ScoreCategoryState,
    four_of_a_kind: ScoreCategoryState,
    small_straight: ScoreCategoryState,
    large_straight: ScoreCategoryState,
    yahtzee: ScoreCategoryState,
    chance: ScoreCategoryState,
}

impl ScorecardState {
    /// Only the Yahtzee category can ever hold a scratch.
    #[verifier::type_invariant]
    spec fn wf(self) -> bool {
        forall|c: ScoreCategory|
            c != ScoreCategory::Yahtzee ==> #[trigger] self.cat_state(c)
                != ScoreCategoryState::Scratched
    }

    /// The state of a category slot, as the mathematical model of this card.
    pub closed spec fn cat_state(self, c: ScoreCategory) -> ScoreCategoryState {
        match c {
            ScoreCategory::Aces => self.aces,
            ScoreCategory::Twos => self.twos,
            ScoreCategory::Threes => self.threes,
            ScoreCategory::Fours => self.fours,
            ScoreCategory::Fives => self.fives,
            ScoreCategory::Sixes => self.sixes,
            ScoreCategory::FullHouse => self.full_house,
            ScoreCategory::ThreeOfAKind => self.three_of_a_kind,
            ScoreCategory::FourOfAKind => self.four_of_a_kind,
            ScoreCategory::SmallStraight => self.small_straight,
            ScoreCategory::LargeStraight => self.large_straight,
            ScoreCategory::Yahtzee => self.yahtzee,
            ScoreCategory::Chance => self.chance,
        }
    }

    /// The saturated upper-section total of this card.
    pub closed spec fn upper(self) -> int {
        self.capped_upper_section_score@ as int
    }

    /// All thirteen slots are resolved; no further scoring is possible.
    pub open spec fn is_terminal_spec(self) -> bool {
        forall|c: ScoreCategory| #[trigger] self.cat_state(c) != ScoreCategoryState::Unscored
    }

    /// The roll counts as a Joker: it is a Yahtzee while the Yahtzee slot is
    /// already resolved (scored or scratched).
    pub open spec fn is_joker(self, roll: Seq<u8>) -> bool {
        is_yahtzee_roll(roll) && self.cat_state(ScoreCategory::Yahtzee)
            != ScoreCategoryState::Unscored
    }

    /// Under the `Forced` rule a Joker must be written into the matching
    /// upper-section category when that category is still open.
    pub open spec fn forced_joker(self, roll: Seq<u8>, rule: JokerRule) -> bool {
        &&& self.is_joker(roll)
        &&& rule == JokerRule::Forced
        &&& self.cat_state(index_category(yahtzee_face(roll))) == ScoreCategoryState::Unscored
    }

    /// Whether `c` may be scored now: the forced Joker category when the
    /// forced Joker rule bites, and any open category otherwise.
    pub open spec fn is_valid_category(
        self,
        roll: Seq<u8>,
        rule: JokerRule,
        c: ScoreCategory,
    ) -> bool {
        if self.forced_joker(roll, rule) {
            c == index_category(yahtzee_face(roll))
        } else {
            self.cat_state(c) == ScoreCategoryState::Unscored
        }
    }

    /// The bonus paid on top of the category score: 35 when an upper-section
    /// score pushes the capped upper total to 63, plus 100 when a Yahtzee is
    /// rolled while the Yahtzee category already holds a scored Yahtzee.
    pub open spec fn bonus_spec(self, roll: Seq<u8>, c: ScoreCategory) -> int {
        (if is_upper_spec(c) && self.upper() < 63 && self.upper() + score_value_spec(
            roll,
            c,
            self.is_joker(roll),
        ) >= 63 {
            35int
        } else {
            0int
        }) + (if is_yahtzee_roll(roll) && self.cat_state(ScoreCategory::Yahtzee)
            == ScoreCategoryState::Scored {
            100int
        } else {
            0int
        })
    }

    /// The card after writing `score` into `category`: the slot closes
    /// (scratched for a zero Yahtzee), and an upper-section score is added to
    /// the capped total.
    pub closed spec fn apply_spec(self, category: ScoreCategory, score: u8) -> ScorecardState {
        let slot = if category == ScoreCategory::Yahtzee && score == 0 {
            ScoreCategoryState::Scratched
        } else {
            ScoreCategoryState::Scored
        };
        ScorecardState {
            capped_upper_section_score: CappedUpperSectionScore {
                total: if is_upper_spec(category) {
                    vstd::math::min(self.upper() + vstd::math::min(score as int, 63), 63) as u8
                } else {
                    self.upper() as u8
                },
            },
            aces: if category == ScoreCategory::Aces {
                slot
            } else {
                self.aces
            },
            twos: if category == ScoreCategory::Twos {
                slot
            } else {
                self.twos
            },
            threes: if category == ScoreCategory::Threes {
                slot
            } else {
                self.threes
            },
            fours: if category == ScoreCategory::Fours {
                slot
            } else {
                self.fours
            },
            fives: if category == ScoreCategory::Fives {
                slot
            } else {
                self.fives
            },
            sixes: if category == ScoreCategory::Sixes {
                slot
            } else {
                self.sixes
            },
            full_house: if category == ScoreCategory::FullHouse {
                slot
            } else {
                self.full_house
            },
            three_of_a_kind: if category == ScoreCategory::ThreeOfAKind {
                slot
            } else {
                self.three_of_a_kind
            },
            four_of_a_kind: if category == ScoreCategory::FourOfAKind {
                slot
            } else {
                self.four_of_a_kind
            },
            small_straight: if category == ScoreCategory::SmallStraight {
                slot
            } else {
                self.small_straight
            },
            large_straight: if category == ScoreCategory::LargeStraight {
                slot
            } else {
                self.large_straight
            },
            yahtzee: if category == ScoreCategory::Yahtzee {
                slot
            } else {
                self.yahtzee
            },
            chance: if category == ScoreCategory::Chance {
                slot
            } else {
                self.chance
            },
        }
    }

    /// What `apply_spec` does, slot by slot: the written slot closes, every
    /// other slot is unchanged, and only an upper-section score moves the
    /// capped upper total.
    pub proof fn lemma_apply_spec(self, category: ScoreCategory, score: u8)
        ensures
            self.apply_spec(category, score).cat_state(category) == (if category
                == ScoreCategory::Yahtzee && score == 0 {
                ScoreCategoryState::Scratched
            } else {
                ScoreCategoryState::Scored
            }),
            forall|c: ScoreCategory| c != category ==> #[trigger] self.apply_spec(
                category,
                score,
            ).cat_state(c) == self.cat_state(c),
            self.apply_spec(category, score).upper() == (if is_upper_spec(category) {
                vstd::math::min(self.upper() + vstd::math::min(score as int, 63), 63)
            } else {
                self.upper()
            }),
            0 <= self.upper() <= 63 ==> 0 <= self.apply_spec(category, score).upper() <= 63,
    {
    }

    /// The saturated upper-section total.
    pub fn capped_upper_section_score(&self) -> (r: CappedUpperSectionScore)
        ensures
            r@ == self.upper(),
            self.upper() <= 63,
    {
        proof {
            use_type_invariant(&self.capped_upper_section_score);
        }
        self.capped_upper_section_score
    }

    /// The state of one category slot.
    pub fn category_state(&self, category: ScoreCategory) -> (r: ScoreCategoryState)
        ensures
            r == self.cat_state(category),
    {
        match category {
            ScoreCategory::Aces => self.aces,
            ScoreCategory::Twos => self.twos,
            ScoreCategory::Threes => self.threes,
            ScoreCategory::Fours => self.fours,
            ScoreCategory::Fives => self.fives,
            ScoreCategory::Sixes => self.sixes,
            ScoreCategory::FullHouse => self.full_house,
            ScoreCategory::ThreeOfAKind => self.three_of_a_kind,
            ScoreCategory::FourOfAKind => self.four_of_a_kind,
            ScoreCategory::SmallStraight => self.small_straight,
            ScoreCategory::LargeStraight => self.large_straight,
            ScoreCategory::Yahtzee => self.yahtzee,
            ScoreCategory::Chance => self.chance,
        }
    }

    /// The thirteen slot states in canonical category order.
    pub fn score_category_state(&self) -> (r: [ScoreCategoryState; 13])
        ensures
            forall|i: int| 0 <= i < 13 ==> r@[i] == self.cat_state(index_category(i)),
    {
        [
            self.aces,
            self.twos,
            self.threes,
            self.fours,
            self.fives,
            self.sixes,
            self.full_house,
            self.three_of_a_kind,
            self.four_of_a_kind,
            self.small_straight,
            self.large_straight,
            self.yahtzee,
            self.chance,
        ]
    }

    /// Whether every slot is resolved.
    pub fn is_terminal(&self) -> (r: bool)
        ensures
            r == self.is_terminal_spec(),
    {
        let states = self.score_category_state();
        let mut i: usize = 0;
        while i < 13
            invariant
                0 <= i <= 13,
                forall|j: int| 0 <= j < 13 ==> states@[j] == self.cat_state(index_category(j)),
                forall|j: int| 0 <= j < i ==> self.cat_state(index_category(j))
                    != ScoreCategoryState::Unscored,
            decreases 13 - i,
        {
            if matches!(states[i], ScoreCategoryState::Unscored) {
                proof {
                    assert(self.cat_state(index_category(i as int))
                        == ScoreCategoryState::Unscored);
                }
                return false;
            }
            i += 1;
        }
        proof {
            assert forall|c: ScoreCategory| #[trigger] self.cat_state(c)
                != ScoreCategoryState::Unscored by {
                lemma_category_roundtrip();
                assert(self.cat_state(index_category(category_index(c)))
                    != ScoreCategoryState::Unscored);
            }
        }
        true
    }

    /// Writes `score` into `category`, closing the slot and crediting the
    /// upper-section total; fails if the slot is not open. The receiver is
    /// never changed.
    #[verifier::rlimit(50)]
    pub fn score(&self, category: ScoreCategory, score: u8) -> (r: Result<Self, ScoringError>)
        ensures
            r is Ok <==> self.cat_state(category) == ScoreCategoryState::Unscored,
            r matches Ok(next) ==> next == self.apply_spec(category, score),
            self.cat_state(category) != ScoreCategoryState::Unscored ==> r == Err::<Self, _>(
                ScoringError::InvalidScoreCategory { category },
            ),
    {
        proof {
            use_type_invariant(self);
        }
        if !matches!(self.category_state(category), ScoreCategoryState::Unscored) {
            return Err(ScoringError::InvalidScoreCategory { category });
        }
        let new_state: ScoreCategoryState = if matches!(category, ScoreCategory::Yahtzee) && score
            == 0 {
            ScoreCategoryState::Scratched
        } else {
            ScoreCategoryState::Scored
        };
        let new_upper: CappedUpperSectionScore = if category.is_upper_section() {
            self.capped_upper_section_score().add_clamped(score)
        } else {
            self.capped_upper_section_score()
        };
        proof {
            assert(self.cat_state(ScoreCategory::Aces) != ScoreCategoryState::Scratched);
            assert(self.cat_state(ScoreCategory::Twos) != ScoreCategoryState::Scratched);
            assert(self.cat_state(ScoreCategory::Threes) != ScoreCategoryState::Scratched);
            assert(self.cat_state(ScoreCategory::Fours) != ScoreCategoryState::Scratched);
            assert(self.cat_state(ScoreCategory::Fives) != ScoreCategoryState::Scratched);
            assert(self.cat_state(ScoreCategory::Sixes) != ScoreCategoryState::Scratched);
            assert(self.cat_state(ScoreCategory::FullHouse) != ScoreCategoryState::Scratched);
            assert(self.cat_state(ScoreCategory::ThreeOfAKind) != ScoreCategoryState::Scratched);
            assert(self.cat_state(ScoreCategory::FourOfAKind) != ScoreCategoryState::Scratched);
            assert(self.cat_state(ScoreCategory::SmallStraight) != ScoreCategoryState::Scratched);
            assert(self.cat_state(ScoreCategory::LargeStraight) != ScoreCategoryState::Scratched);
            assert(self.cat_state(ScoreCategory::Chance) != ScoreCategoryState::Scratched);
        }
        let next = ScorecardState {
            capped_upper_section_score: new_upper,
            aces: if matches!(category, ScoreCategory::Aces) {
                new_state
            } else {
                self.aces
            },
            twos: if matches!(category, ScoreCategory::Twos) {
                new_state
            } else {
                self.twos
            },
            threes: if matches!(category, ScoreCategory::Threes) {
                new_state
            } else {
                self.threes
            },
            fours: if matches!(category, ScoreCategory::Fours) {
                new_state
            } else {
                self.fours
            },
            fives: if matches!(category, ScoreCategory::Fives) {
                new_state
            } else {
                self.fives
            },
            sixes: if matches!(category, ScoreCategory::Sixes) {
                new_state
            } else {
                self.sixes
            },
            full_house: if matches!(category, ScoreCategory::FullHouse) {
                new_state
            } else {
                self.full_house
            },
            three_of_a_kind: if matches!(category, ScoreCategory::ThreeOfAKind) {
                new_state
            } else {
                self.three_of_a_kind
            },
            four_of_a_kind: if matches!(category, ScoreCategory::FourOfAKind) {
                new_state
            } else {
                self.four_of_a_kind
            },
            small_straight: if matches!(category, ScoreCategory::SmallStraight) {
                new_state
            } else {
                self.small_straight
            },
            large_straight: if matches!(category, ScoreCategory::LargeStraight) {
                new_state
            } else {
                self.large_straight
            },
            yahtzee: if matches!(category, ScoreCategory::Yahtzee) {
                new_state
            } else {
                self.yahtzee
            },
            chance: if matches!(category, ScoreCategory::Chance) {
                new_state
            } else {
                self.chance
            },
        };
        proof {
            use_type_invariant(&new_upper);
            let expect = self.apply_spec(category, score);
            assert(next.capped_upper_section_score == expect.capped_upper_section_score);
            assert forall|c: ScoreCategory|
                c != ScoreCategory::Yahtzee implies #[trigger] next.cat_state(c)
                != ScoreCategoryState::Scratched by {
                assert(self.cat_state(c) != ScoreCategoryState::Scratched);
            }
        }
        Ok(next)
    }

    /// The categories that may be scored now from `roll` under `joker_rule`,
    /// in canonical order without repetition.
    pub fn valid_score_categories(
        &self,
        roll: &RollCounts,
        joker_rule: JokerRule,
    ) -> (r: Vec<ScoreCategory>)
        ensures
            forall|c: ScoreCategory| r@.contains(c) <==> self.is_valid_category(
                roll@,
                joker_rule,
                c,
            ),
            forall|i: int, j: int|
                0 <= i < j < r@.len() ==> category_index(r@[i]) < category_index(r@[j]),
            forall|i: int, j: int| 0 <= i < j < r@.len() ==> r@[i] != r@[j],
    {
        proof {
            use_type_invariant(roll);
        }
        let joker = match roll.is_yahtzee() {
            Some(upper_category) => {
                if !matches!(self.category_state(ScoreCategory::Yahtzee),
                    ScoreCategoryState::Unscored) && matches!(joker_rule, JokerRule::Forced)
                    && matches!(self.category_state(upper_category),
                    ScoreCategoryState::Unscored) {
                    let mut forced: Vec<ScoreCategory> = Vec::new();
                    forced.push(upper_category);
                    proof {
                        assert(self.forced_joker(roll@, joker_rule));
                        assert(forall|c: ScoreCategory|
                            forced@.contains(c) <==> c == upper_category) by {
                            assert(forced@[0] == upper_category);
                        }
                    }
                    return forced;
                }
            },
            None => {},
        };
        let mut open_slots: Vec<ScoreCategory> = Vec::new();
        let cats = all_categories();
        let mut i: usize = 0;
        while i < 13
            invariant
                0 <= i <= 13,
                cats@.len() == 13,
                forall|j: int| 0 <= j < 13 ==> cats@[j] == index_category(j),
                !self.forced_joker(roll@, joker_rule),
                forall|k: int| 0 <= k < open_slots@.len() ==> self.cat_state(
                    #[trigger] open_slots@[k],
                ) == ScoreCategoryState::Unscored,
                forall|k: int| 0 <= k < open_slots@.len() ==> 0 <= category_index(
                    #[trigger] open_slots@[k],
                ) < i,
                forall|j: int| 0 <= j < i && self.cat_state(#[trigger] index_category(j))
                    == ScoreCategoryState::Unscored ==> open_slots@.contains(index_category(j)),
                forall|k1: int, k2: int|
                    0 <= k1 < k2 < open_slots@.len() ==> category_index(open_slots@[k1])
                        < category_index(open_slots@[k2]),
            decreases 13 - i,
        {
            let c = cats[i];
            proof {
                lemma_category_roundtrip();
            }
            if matches!(self.category_state(c), ScoreCategoryState::Unscored) {
                let ghost before = open_slots@;
                open_slots.push(c);
                proof {
                    assert(open_slots@ =~= before.push(c));
                    assert(open_slots@.last() == c);
                    assert(c == index_category(i as int));
                    assert(category_index(index_category(i as int)) == i as int);
                    assert forall|k: int|
                        0 <= k < open_slots@.len() implies 0 <= category_index(
                        #[trigger] open_slots@[k],
                    ) < i + 1 by {
                        if k < open_slots@.len() - 1 {
                            assert(open_slots@[k] == before[k]);
                        } else {
                            assert(open_slots@[k] == c);
                        }
                    }
                    assert forall|j: int|
                        0 <= j < i + 1 && self.cat_state(#[trigger] index_category(j))
                            == ScoreCategoryState::Unscored implies open_slots@.contains(
                        index_category(j),
                    ) by {
                        if j < i {
                            let k = choose|k: int|
                                0 <= k < before.len() && before[k] == index_category(j);
                            assert(open_slots@[k] == index_category(j));
                        } else {
                            assert(open_slots@.last() == index_category(j));
                        }
                    }
                    assert forall|k1: int, k2: int|
                        0 <= k1 < k2 < open_slots@.len() implies category_index(open_slots@[k1])
                        < category_index(open_slots@[k2]) by {
                        if k2 == open_slots@.len() - 1 {
                            assert(open_slots@[k1] == before[k1]);
                            assert(category_index(open_slots@[k1]) < i as int);
                            assert(open_slots@[k2] == c);
                            assert(c == index_category(i as int));
                            assert(category_index(index_category(i as int)) == i as int);
                        } else {
                            assert(open_slots@[k1] == before[k1]);
                            assert(open_slots@[k2] == before[k2]);
                        }
                    }
                }
            }
            i += 1;
        }
        proof {
            lemma_category_roundtrip();
            assert forall|c: ScoreCategory|
                open_slots@.contains(c) <==> self.is_valid_category(roll@, joker_rule, c) by {
                if open_slots@.contains(c) {
                    let k = choose|k: int|
                        0 <= k < open_slots@.len() && open_slots@[k] == c;
                    assert(self.cat_state(open_slots@[k]) == ScoreCategoryState::Unscored);
                }
                if self.cat_state(c) == ScoreCategoryState::Unscored {
                    assert(0 <= category_index(c) < 13);
                    assert(self.cat_state(index_category(category_index(c)))
                        == ScoreCategoryState::Unscored);
                    assert(open_slots@.contains(index_category(category_index(c))));
                }
            }
        }
        open_slots
    }

    /// The category score and the bonus score that writing `category` from
    /// `roll` would earn now; fails if `category` may not be scored.
    pub fn score_components(
        &self,
        roll: &RollCounts,
        category: ScoreCategory,
        joker_rule: JokerRule,
    ) -> (r: Result<(u8, u8), ScoringError>)
        ensures
            r is Ok <==> self.is_valid_category(roll@, joker_rule, category),
            r matches Ok(p) ==> p.0 == score_value_spec(roll@, category, self.is_joker(roll@))
                && p.1 == self.bonus_spec(roll@, category),
            !self.is_valid_category(roll@, joker_rule, category) ==> r == Err::<(u8, u8), _>(
                ScoringError::InvalidScoreCategory { category },
            ),
    {
        proof {
            use_type_invariant(roll);
        }
        let valid = self.is_category_valid(roll, category, joker_rule);
        if !valid {
            return Err(ScoringError::InvalidScoreCategory { category });
        }
        let is_joker = match roll.is_yahtzee() {
            Some(_) => !matches!(self.category_state(ScoreCategory::Yahtzee),
                ScoreCategoryState::Unscored),
            None => false,
        };
        let category_score = score_value(roll, category, is_joker);
        let mut bonus: u8 = 0;
        if category.is_upper_section() {
            let upper = self.capped_upper_section_score().score();
            if upper < 63 && upper as u16 + category_score as u16 >= 63 {
                bonus = 35;
            }
        }
        if matches!(roll.is_yahtzee(), Some(_)) && matches!(self.category_state(
            ScoreCategory::Yahtzee), ScoreCategoryState::Scored) {
            bonus = bonus + 100;
        }
        Ok((category_score, bonus))
    }

    /// Whether `category` may be scored now from `roll`.
    fn is_category_valid(
        &self,
        roll: &RollCounts,
        category: ScoreCategory,
        joker_rule: JokerRule,
    ) -> (r: bool)
        ensures
            r == self.is_valid_category(roll@, joker_rule, category),
    {
        proof {
            use_type_invariant(roll);
        }
        match roll.is_yahtzee() {
            Some(upper_category) => {
                if !matches!(self.category_state(ScoreCategory::Yahtzee),
                    ScoreCategoryState::Unscored) && matches!(joker_rule, JokerRule::Forced)
                    && matches!(self.category_state(upper_category),
                    ScoreCategoryState::Unscored) {
                    matches!(category.eq_category(upper_category), true)
                } else {
                    matches!(self.category_state(category), ScoreCategoryState::Unscored)
                }
            },
            None => matches!(self.category_state(category), ScoreCategoryState::Unscored),
        }
    }
}

impl ScoreCategory {
    /// Whether two categories are the same.
    pub fn eq_category(&self, other: ScoreCategory) -> (r: bool)
        ensures
            r == (*self == other),
    {
        *self == other
    }
}

impl ScorecardState {
    /// The fresh scorecard: nothing scored, upper total zero.
    pub closed spec fn fresh() -> ScorecardState {
        ScorecardState {
            capped_upper_section_score: CappedUpperSectionScore { total: 0 },
            aces: ScoreCategoryState::Unscored,
            twos: ScoreCategoryState::Unscored,
            threes: ScoreCategoryState::Unscored,
            fours: ScoreCategoryState::Unscored,
            fives: ScoreCategoryState::Unscored,
            sixes: ScoreCategoryState::Unscored,
            full_house: ScoreCategoryState::Unscored,
            three_of_a_kind: ScoreCategoryState::Unscored,
            four_of_a_kind: ScoreCategoryState::Unscored,
            small_straight: ScoreCategoryState::Unscored,
            large_straight: ScoreCategoryState::Unscored,
            yahtzee: ScoreCategoryState::Unscored,
            chance: ScoreCategoryState::Unscored,
        }
    }

    /// The fresh card has every slot open and an empty upper section.
    pub proof fn lemma_fresh()
        ensures
            ScorecardState::fresh().upper() == 0,
            forall|c: ScoreCategory| #[trigger] ScorecardState::fresh().cat_state(c)
                == ScoreCategoryState::Unscored,
    {
    }
}

impl Default for ScorecardState {
    /// A fresh scorecard: nothing scored, upper total zero.
    fn default() -> (r: Self)
        ensures
            r == ScorecardState::fresh(),
            r.upper() == 0,
            forall|c: ScoreCategory| #[trigger] r.cat_state(c) == ScoreCategoryState::Unscored,
    {
        ScorecardState {
            capped_upper_section_score: CappedUpperSectionScore { total: 0 },
            aces: ScoreCategoryState::Unscored,
            twos: ScoreCategoryState::Unscored,
            threes: ScoreCategoryState::Unscored,
            fours: ScoreCategoryState::Unscored,
            fives: ScoreCategoryState::Unscored,
            sixes: ScoreCategoryState::Unscored,
            full_house: ScoreCategoryState::Unscored,
            three_of_a_kind: ScoreCategoryState::Unscored,
            four_of_a_kind: ScoreCategoryState::Unscored,
            small_straight: ScoreCategoryState::Unscored,
            large_straight: ScoreCategoryState::Unscored,
            yahtzee: ScoreCategoryState::Unscored,
            chance: ScoreCategoryState::Unscored,
        }
    }
}


impl RollsLeft {
    /// The abstract rolls-remaining value holding `n`.
    pub closed spec fn from_count(n: u8) -> RollsLeft {
        RollsLeft { n }
    }

    /// `from_count` inverts the view: every counter is determined by it.
    pub proof fn lemma_from_count(self)
        ensures
            self == RollsLeft::from_count(self@),
            RollsLeft::from_count(self@)@ == self@,
    {
    }

    /// The view of `from_count` is its argument.
    pub proof fn lemma_from_count_view(n: u8)
        ensures
            RollsLeft::from_count(n)@ == n,
    {
    }
}

/// Rolls with equal views are equal.
pub proof fn lemma_roll_counts_ext(a: RollCounts, b: RollCounts)
    requires
        a@ == b@,
    ensures
        a == b,
{
    broadcast use vstd::array::group_array_axioms;

    assert(a.counts =~= b.counts);
}

/// Keeps with equal views are equal.
pub proof fn lemma_keep_counts_ext(a: KeepCounts, b: KeepCounts)
    requires
        a@ == b@,
    ensures
        a == b,
{
    broadcast use vstd::array::group_array_axioms;

    assert(a.counts =~= b.counts);
}

/// Rolls-remaining counters with equal views are equal.
pub proof fn lemma_rolls_left_ext(a: RollsLeft, b: RollsLeft)
    requires
        a@ == b@,
    ensures
        a == b,
{
}

/// The score a roll can earn in a category lies between 0 and 50.
pub proof fn lemma_score_value_bound(s: Seq<u8>, c: ScoreCategory, is_joker: bool)
    requires
        valid_roll(s),
    ensures
        0 <= score_value_spec(s, c, is_joker) <= 50,
{
    lemma_pip_sum_bound(s);
    lemma_sum8_element(s, 0);
    lemma_sum8_element(s, 1);
    lemma_sum8_element(s, 2);
    lemma_sum8_element(s, 3);
    lemma_sum8_element(s, 4);
    lemma_sum8_element(s, 5);
}

impl ScorecardState {
    /// Number of category slots still open from position `i` on.
    pub open spec fn unscored_from(self, i: int) -> nat
        decreases 13 - i,
    {
        if i < 0 || i >= 13 {
            0
        } else {
            (if self.cat_state(index_category(i)) == ScoreCategoryState::Unscored {
                1nat
            } else {
                0nat
            }) + self.unscored_from(i + 1)
        }
    }

    /// Number of category slots still open.
    pub open spec fn unscored_count(self) -> nat {
        self.unscored_from(0)
    }

    /// At most thirteen slots can be open.
    pub proof fn lemma_unscored_le(self, i: int)
        ensures
            self.unscored_from(i) <= 13,
            i >= 0 ==> self.unscored_from(i) <= 13 - i || self.unscored_from(i) == 0,
        decreases 13 - i,
    {
        if 0 <= i < 13 {
            self.lemma_unscored_le(i + 1);
        } else if i < 0 {
            self.lemma_unscored_le(0);
            assert(self.unscored_from(i) == 0);
        }
    }

    /// An open slot makes the count positive.
    pub proof fn lemma_unscored_positive(self, c: ScoreCategory)
        requires
            self.cat_state(c) == ScoreCategoryState::Unscored,
        ensures
            self.unscored_count() >= 1,
    {
        lemma_category_roundtrip();
        self.lemma_unscored_positive_from(0, category_index(c));
    }

    proof fn lemma_unscored_positive_from(self, i: int, j: int)
        requires
            0 <= i <= j < 13,
            self.cat_state(index_category(j)) == ScoreCategoryState::Unscored,
        ensures
            self.unscored_from(i) >= 1,
        decreases 13 - i,
    {
        if i < j {
            self.lemma_unscored_positive_from(i + 1, j);
        }
    }

    /// A terminal card has no open slot, and conversely.
    pub proof fn lemma_terminal_unscored(self)
        ensures
            self.is_terminal_spec() <==> self.unscored_count() == 0,
    {
        if self.is_terminal_spec() {
            self.lemma_unscored_zero_from(0);
        } else {
            let c = choose|c: ScoreCategory|
                self.cat_state(c) == ScoreCategoryState::Unscored;
            self.lemma_unscored_positive(c);
        }
    }

    proof fn lemma_unscored_zero_from(self, i: int)
        requires
            self.is_terminal_spec(),
            0 <= i <= 13,
        ensures
            self.unscored_from(i) == 0,
        decreases 13 - i,
    {
        if i < 13 {
            self.lemma_unscored_zero_from(i + 1);
        }
    }

    /// Writing a score into an open slot closes exactly one slot.
    pub proof fn lemma_unscored_apply(self, category: ScoreCategory, score: u8)
        requires
            self.cat_state(category) == ScoreCategoryState::Unscored,
        ensures
            self.apply_spec(category, score).unscored_count() == self.unscored_count() - 1,
    {
        lemma_category_roundtrip();
        self.lemma_apply_spec(category, score);
        self.lemma_unscored_apply_from(category, score, 0);
    }

    proof fn lemma_unscored_apply_from(self, category: ScoreCategory, score: u8, i: int)
        requires
            self.cat_state(category) == ScoreCategoryState::Unscored,
            0 <= i <= 13,
        ensures
            self.apply_spec(category, score).unscored_from(i) == self.unscored_from(i) - (
            if i <= category_index(category) {
                1int
            } else {
                0int
            }),
        decreases 13 - i,
    {
        lemma_category_roundtrip();
        self.lemma_apply_spec(category, score);
        if i < 13 {
            self.lemma_unscored_apply_from(category, score, i + 1);
            if index_category(i) == category {
                assert(category_index(category) == i);
            }
        }
    }

    /// The state of a slot as one bit: zero while open, one once resolved.
    pub open spec fn slot_bit(self, i: int) -> int {
        if self.cat_state(index_category(i)) == ScoreCategoryState::Unscored {
            0
        } else {
            1
        }
    }

    /// The code of the Yahtzee slot: open, scored, or scratched.
    pub open spec fn yahtzee_code(self) -> int {
        match self.cat_state(ScoreCategory::Yahtzee) {
            ScoreCategoryState::Unscored => 0,
            ScoreCategoryState::Scored => 1,
            ScoreCategoryState::Scratched => 2,
        }
    }

    /// No slot but the Yahtzee slot can hold a scratch. This holds of every
    /// card the library hands out.
    pub open spec fn state_ok(self) -> bool {
        forall|c: ScoreCategory|
            c != ScoreCategory::Yahtzee ==> #[trigger] self.cat_state(c)
                != ScoreCategoryState::Scratched
    }

    /// A dense injective index of scorecard states: the capped upper total,
    /// the three-valued Yahtzee slot, and one bit per other slot.
    pub open spec fn state_encode(self) -> int {
        self.upper() * 12288 + self.yahtzee_code() * 4096 + self.slot_bit(0) * 1 + self.slot_bit(
            1,
        ) * 2 + self.slot_bit(2) * 4 + self.slot_bit(3) * 8 + self.slot_bit(4) * 16
            + self.slot_bit(5) * 32 + self.slot_bit(6) * 64 + self.slot_bit(7) * 128
            + self.slot_bit(8) * 256 + self.slot_bit(9) * 512 + self.slot_bit(10) * 1024
            + self.slot_bit(12) * 2048
    }

    /// One slot of this card as executable code: zero while open, one once
    /// resolved.
    fn slot_bit_exec(&self, i: usize) -> (r: usize)
        requires
            i < 13,
        ensures
            r == self.slot_bit(i as int),
            r <= 1,
    {
        if matches!(self.category_state(category_at(i)), ScoreCategoryState::Unscored) {
            0
        } else {
            1
        }
    }

    /// The dense index of this card, below `64 * 3 * 4096 = 786432`.
    pub fn state_index(&self) -> (r: usize)
        ensures
            r == self.state_encode(),
            r < 786432,
            self.state_ok(),
            0 <= self.upper() <= 63,
    {
        proof {
            use_type_invariant(self);
        }
        let upper = self.capped_upper_section_score().score();
        let ycode: usize = match self.category_state(ScoreCategory::Yahtzee) {
            ScoreCategoryState::Unscored => 0,
            ScoreCategoryState::Scored => 1,
            ScoreCategoryState::Scratched => 2,
        };
        let bits: usize = self.slot_bit_exec(0) * 1 + self.slot_bit_exec(1) * 2
            + self.slot_bit_exec(2) * 4 + self.slot_bit_exec(3) * 8 + self.slot_bit_exec(4) * 16
            + self.slot_bit_exec(5) * 32 + self.slot_bit_exec(6) * 64 + self.slot_bit_exec(7)
            * 128 + self.slot_bit_exec(8) * 256 + self.slot_bit_exec(9) * 512
            + self.slot_bit_exec(10) * 1024 + self.slot_bit_exec(12) * 2048;
        upper as usize * 12288 + ycode * 4096 + bits
    }

    /// Equal dense indices force equal components.
    #[verifier::rlimit(100)]
    proof fn lemma_state_components(a: ScorecardState, b: ScorecardState)
        requires
            0 <= a.upper() <= 63,
            0 <= b.upper() <= 63,
            a.state_encode() == b.state_encode(),
        ensures
            a.upper() == b.upper(),
            a.yahtzee_code() == b.yahtzee_code(),
            a.slot_bit(0) == b.slot_bit(0),
            a.slot_bit(1) == b.slot_bit(1),
            a.slot_bit(2) == b.slot_bit(2),
            a.slot_bit(3) == b.slot_bit(3),
            a.slot_bit(4) == b.slot_bit(4),
            a.slot_bit(5) == b.slot_bit(5),
            a.slot_bit(6) == b.slot_bit(6),
            a.slot_bit(7) == b.slot_bit(7),
            a.slot_bit(8) == b.slot_bit(8),
            a.slot_bit(9) == b.slot_bit(9),
            a.slot_bit(10) == b.slot_bit(10),
            a.slot_bit(12) == b.slot_bit(12),
    {
        assert(0 <= a.slot_bit(0) <= 1 && 0 <= b.slot_bit(0) <= 1);
        assert(0 <= a.slot_bit(1) <= 1 && 0 <= b.slot_bit(1) <= 1);
        assert(0 <= a.slot_bit(2) <= 1 && 0 <= b.slot_bit(2) <= 1);
        assert(0 <= a.slot_bit(3) <= 1 && 0 <= b.slot_bit(3) <= 1);
        assert(0 <= a.slot_bit(4) <= 1 && 0 <= b.slot_bit(4) <= 1);
        assert(0 <= a.slot_bit(5) <= 1 && 0 <= b.slot_bit(5) <= 1);
        assert(0 <= a.slot_bit(6) <= 1 && 0 <= b.slot_bit(6) <= 1);
        assert(0 <= a.slot_bit(7) <= 1 && 0 <= b.slot_bit(7) <= 1);
        assert(0 <= a.slot_bit(8) <= 1 && 0 <= b.slot_bit(8) <= 1);
        assert(0 <= a.slot_bit(9) <= 1 && 0 <= b.slot_bit(9) <= 1);
        assert(0 <= a.slot_bit(10) <= 1 && 0 <= b.slot_bit(10) <= 1);
        assert(0 <= a.slot_bit(12) <= 1 && 0 <= b.slot_bit(12) <= 1);
        assert(0 <= a.yahtzee_code() <= 2 && 0 <= b.yahtzee_code() <= 2);
    }

    /// The dense index determines the card.
    pub proof fn lemma_state_encode_injective(a: ScorecardState, b: ScorecardState)
        requires
            a.state_ok(),
            b.state_ok(),
            0 <= a.upper() <= 63,
            0 <= b.upper() <= 63,
            a.state_encode() == b.state_encode(),
        ensures
            a == b,
    {
        ScorecardState::lemma_state_components(a, b);
        assert(a.capped_upper_section_score == b.capped_upper_section_score);
        assert(a.cat_state(ScoreCategory::Yahtzee) == b.cat_state(ScoreCategory::Yahtzee));
        assert forall|i: int|
            0 <= i < 13 && i != 11 && a.slot_bit(i) == b.slot_bit(i) implies a.cat_state(
            index_category(i),
        ) == b.cat_state(index_category(i)) by {
            assert(index_category(i) != ScoreCategory::Yahtzee);
        }
        assert(a.cat_state(ScoreCategory::Aces) == b.cat_state(ScoreCategory::Aces));
        assert(a.cat_state(ScoreCategory::Twos) == b.cat_state(ScoreCategory::Twos));
        assert(a.cat_state(ScoreCategory::Threes) == b.cat_state(ScoreCategory::Threes));
        assert(a.cat_state(ScoreCategory::Fours) == b.cat_state(ScoreCategory::Fours));
        assert(a.cat_state(ScoreCategory::Fives) == b.cat_state(ScoreCategory::Fives));
        assert(a.cat_state(ScoreCategory::Sixes) == b.cat_state(ScoreCategory::Sixes));
        assert(a.cat_state(ScoreCategory::FullHouse) == b.cat_state(ScoreCategory::FullHouse));
        assert(a.cat_state(ScoreCategory::ThreeOfAKind) == b.cat_state(
            ScoreCategory::ThreeOfAKind,
        ));
        assert(a.cat_state(ScoreCategory::FourOfAKind) == b.cat_state(
            ScoreCategory::FourOfAKind,
        ));
        assert(a.cat_state(ScoreCategory::SmallStraight) == b.cat_state(
            ScoreCategory::SmallStraight,
        ));
        assert(a.cat_state(ScoreCategory::LargeStraight) == b.cat_state(
            ScoreCategory::LargeStraight,
        ));
        assert(a.cat_state(ScoreCategory::Chance) == b.cat_state(ScoreCategory::Chance));
    }
}

} // verus!
