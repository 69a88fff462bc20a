//! Optimal expected-value solver for the dice game Yahtzee.
//!
//! The solver treats a game as a finite-horizon Markov decision process and
//! solves it by dynamic programming on two levels: an inner DP over dice
//! states within a single turn, and an outer DP over scorecard states.
//! All probabilities are exact integer weights over a common denominator of
//! `6^5 = 7776`, and expected values are fixed-point integers scaled by
//! `EV_SCALE`, so every quantity the solver manipulates is verified exactly.

pub mod combinatorics;
pub mod types;
pub mod yahtzee;

use vstd::prelude::*;

use crate::combinatorics::{
    keep_list_ok, lemma_roll_weight_keep_all, rank_spec, roll_table_ok, roll_weight, sub_comps,
    weight_row_ok, Tables,
};
use crate::types::{
    index_category, score_value_spec, sum8, valid_roll, DiceState, JokerRule, KeepCounts,
    RollCounts, RollsLeft, ScoreCategory, ScorecardState,
};

verus! {

/// Number of dice rolled in a turn.
pub const NUM_DICE: usize = 5;

/// Number of faces on each die.
pub const NUM_FACES: usize = 6;

/// Common denominator for all roll probabilities: `6^5` orderings of five dice.
pub const TOTAL_ORDERINGS: u64 = 7776;

/// Fixed-point scale for expected values: an EV of `x` game points is stored
/// as `x * EV_SCALE`, rounded down.
pub const EV_SCALE: u64 = 1048576;


/// The largest fixed-point expected value the solver can produce: thirteen
/// turn gains of at most 185 game points each, `13 * 185 = 2405` points.
pub const EV_LIMIT: u64 = 2405 * 1048576;

/// A key that can stand in a dense array: it maps injectively into
/// `0 ..= max_index`.
pub trait IndexKey: Sized {
    /// The values this key type promises to hand to a memo: every key the
    /// library constructs satisfies it.
    spec fn inv(&self) -> bool;

    /// The dense index of this key.
    spec fn spec_index(&self) -> int;

    /// The largest index any key can take.
    spec fn spec_max_index() -> int;

    /// Indices are in range and distinct keys get distinct indices.
    proof fn lemma_index_injective(&self, other: &Self)
        requires
            self.inv(),
            other.inv(),
        ensures
            0 <= self.spec_index() <= Self::spec_max_index() < 100000000,
            self.spec_index() == other.spec_index() ==> self == other,
    ;

    /// The dense index of this key, as executable code.
    fn to_index(&self) -> (i: usize)
        ensures
            self.inv(),
            i == self.spec_index(),
            0 <= i <= Self::spec_max_index(),
    ;

    /// The largest index, as executable code.
    fn max_index() -> (m: usize)
        ensures
            m == Self::spec_max_index(),
            m < 100000000,
    ;
}

/// A mutable map from keys to values, the capability set the DP is written
/// against. An implementation whose `obeys` holds behaves exactly as the
/// abstract map `contents` describes.
pub trait Memo<K, V>: Sized {
    /// Whether this implementation honours the map contract.
    spec fn obeys(&self) -> bool;

    /// The abstract map this memo holds.
    spec fn contents(&self) -> Map<K, V>;

    /// Returns a reference to the stored value, if `key` is present.
    fn get(&self, key: &K) -> (r: Option<&V>)
        ensures
            self.obeys() ==> match r {
                Some(v) => self.contents().contains_key(*key) && *v == self.contents()[*key],
                None => !self.contents().contains_key(*key),
            },
    ;

    /// Stores `value` under `key`, returning what was there before.
    fn set(&mut self, key: K, value: V) -> (prev: Option<V>)
        ensures
            old(self).obeys() ==> {
                &&& final(self).obeys()
                &&& final(self).contents() == old(self).contents().insert(key, value)
                &&& match prev {
                    Some(v) => old(self).contents().contains_key(key) && v == old(
                        self,
                    ).contents()[key],
                    None => !old(self).contents().contains_key(key),
                }
            },
    ;

    /// Removes `key`, returning what was there before.
    fn remove(&mut self, key: &K) -> (prev: Option<V>)
        ensures
            old(self).obeys() ==> {
                &&& final(self).obeys()
                &&& final(self).contents() == old(self).contents().remove(*key)
                &&& match prev {
                    Some(v) => old(self).contents().contains_key(*key) && v == old(
                        self,
                    ).contents()[*key],
                    None => !old(self).contents().contains_key(*key),
                }
            },
    ;
}

/// A dense memo: one slot per index of the key type.
pub struct VecMemo<K: IndexKey, V> {
    memo: Vec<Option<V>>,
    _phantom: core::marker::PhantomData<K>,
}

impl<K: IndexKey, V> VecMemo<K, V> {
    #[verifier::type_invariant]
    spec fn wf(self) -> bool {
        self.memo@.len() == K::spec_max_index() + 1
    }

    /// An empty dense memo with a slot for every index.
    pub fn new() -> (r: Self)
        ensures
            r.obeys(),
            r.contents() == Map::<K, V>::empty(),
    {
        let size = K::max_index() + 1;
        let mut vec: Vec<Option<V>> = Vec::new();
        let mut z: usize = 0;
        while z < size
            invariant
                vec@.len() == z,
                z <= size,
                forall|j: int| 0 <= j < z ==> vec@[j] is None,
            decreases size - z,
        {
            vec.push(None);
            z += 1;
        }
        let r = VecMemo { memo: vec, _phantom: core::marker::PhantomData };
        proof {
            broadcast use vstd::set::group_set_axioms, vstd::map::group_map_axioms;

            assert(r.contents() =~= Map::<K, V>::empty());
        }
        r
    }

    /// Returns a reference to the value at a raw index, if one is stored.
    pub fn raw_get(&self, key: usize) -> (r: Option<&V>)
        requires
            key <= K::spec_max_index(),
        ensures
            match r {
                Some(v) => self.raw_contents()[key as int] == Some(*v),
                None => self.raw_contents()[key as int] is None,
            },
    {
        proof {
            use_type_invariant(self);
        }
        match &self.memo[key] {
            Some(v) => Some(v),
            None => None,
        }
    }

    /// Stores a value at a raw index, returning what was there before.
    pub fn raw_set(&mut self, key: usize, value: V) -> (prev: Option<V>)
        requires
            key <= K::spec_max_index(),
        ensures
            final(self).raw_contents() == old(self).raw_contents().update(
                key as int,
                Some(value),
            ),
            prev == old(self).raw_contents()[key as int],
    {
        proof {
            use_type_invariant(&*self);
        }
        let prev = self.memo[key].take();
        self.memo[key] = Some(value);
        prev
    }

    /// Removes the value at a raw index, returning what was there.
    pub fn raw_remove(&mut self, key: usize) -> (prev: Option<V>)
        requires
            key <= K::spec_max_index(),
        ensures
            final(self).raw_contents() == old(self).raw_contents().update(key as int, None),
            prev == old(self).raw_contents()[key as int],
    {
        proof {
            use_type_invariant(&*self);
        }
        self.memo[key].take()
    }

    /// The raw slots of this memo, indexed by dense index.
    pub closed spec fn raw_contents(self) -> Seq<Option<V>> {
        self.memo@
    }

    /// A raw slot holds exactly the keyed entry of the key that indexes it.
    pub proof fn lemma_raw(self, key: K)
        requires
            key.inv(),
            0 <= key.spec_index() < self.raw_contents().len(),
        ensures
            self.contents().contains_key(key) <==> self.raw_contents()[key.spec_index()]
                is Some,
            self.contents().contains_key(key) ==> Some(self.contents()[key])
                == self.raw_contents()[key.spec_index()],
    {
        broadcast use vstd::set::group_set_axioms, vstd::map::group_map_axioms;

    }
}

impl<K: IndexKey, V> Memo<K, V> for VecMemo<K, V> {
    open spec fn obeys(&self) -> bool {
        true
    }

    closed spec fn contents(&self) -> Map<K, V> {
        Map::new(
            |k: K|
                k.inv() && 0 <= k.spec_index() < self.memo@.len() && self.memo@[k.spec_index()]
                    is Some,
            |k: K| self.memo@[k.spec_index()]->Some_0,
        )
    }

    fn get(&self, key: &K) -> (r: Option<&V>) {
        proof {
            use_type_invariant(self);
        }
        let idx = key.to_index();
        match &self.memo[idx] {
            Some(v) => Some(v),
            None => None,
        }
    }

    fn set(&mut self, key: K, value: V) -> (prev: Option<V>) {
        proof {
            use_type_invariant(&*self);
        }
        let idx = key.to_index();
        let prev = self.memo[idx].take();
        self.memo[idx] = Some(value);
        proof {
            broadcast use vstd::set::group_set_axioms, vstd::map::group_map_axioms;

            assert forall|k2: K| #![all_triggers] true implies {
                &&& final(self).contents().contains_key(k2) <==> old(self).contents().insert(
                    key,
                    value,
                ).contains_key(k2)
                &&& final(self).contents().contains_key(k2) ==> final(self).contents()[k2] == old(
                    self,
                ).contents().insert(key, value)[k2]
            } by {
                if k2.inv() {
                    key.lemma_index_injective(&k2);
                    k2.lemma_index_injective(&key);
                }
            }
            assert(final(self).contents() =~= old(self).contents().insert(key, value));
        }
        prev
    }

    fn remove(&mut self, key: &K) -> (prev: Option<V>) {
        proof {
            use_type_invariant(&*self);
        }
        let idx = key.to_index();
        let prev = self.memo[idx].take();
        proof {
            broadcast use vstd::set::group_set_axioms, vstd::map::group_map_axioms;

            assert forall|k2: K| #![all_triggers] true implies {
                &&& final(self).contents().contains_key(k2) <==> old(self).contents().remove(
                    *key,
                ).contains_key(k2)
                &&& final(self).contents().contains_key(k2) ==> final(self).contents()[k2] == old(
                    self,
                ).contents().remove(*key)[k2]
            } by {
                if k2.inv() {
                    key.lemma_index_injective(&k2);
                    k2.lemma_index_injective(&key);
                }
            }
            assert(final(self).contents() =~= old(self).contents().remove(*key));
        }
        prev
    }
}

/// A hash-table memo, keyed by the dense index of the key.
pub struct MapMemo<K, V> {
    memo: std::collections::HashMap<usize, V>,
    _phantom: core::marker::PhantomData<K>,
}

impl<K: IndexKey, V> MapMemo<K, V> {
    /// An empty hash-table memo.
    pub fn new() -> (r: Self)
        ensures
            r.obeys(),
            r.contents() == Map::<K, V>::empty(),
    {
        let r = MapMemo {
            memo: std::collections::HashMap::<usize, V>::new(),
            _phantom: core::marker::PhantomData,
        };
        proof {
            broadcast use vstd::std_specs::hash::group_hash_axioms;
            broadcast use vstd::set::group_set_axioms, vstd::map::group_map_axioms;

            assert(r.contents() =~= Map::<K, V>::empty());
        }
        r
    }
}

impl<K: IndexKey, V> Default for MapMemo<K, V> {
    /// An empty hash-table memo.
    fn default() -> (r: Self)
        ensures
            r.obeys(),
            r.contents() == Map::<K, V>::empty(),
    {
        MapMemo::new()
    }
}

impl<K: IndexKey, V> Memo<K, V> for MapMemo<K, V> {
    open spec fn obeys(&self) -> bool {
        vstd::std_specs::hash::obeys_key_model::<usize>()
            && vstd::std_specs::hash::builds_valid_hashers::<std::hash::RandomState>()
    }

    closed spec fn contents(&self) -> Map<K, V> {
        Map::new(
            |k: K| k.inv() && self.memo@.contains_key(k.spec_index() as usize),
            |k: K| self.memo@[k.spec_index() as usize],
        )
    }

    fn get(&self, key: &K) -> (r: Option<&V>) {
        proof {
            broadcast use vstd::std_specs::hash::group_hash_axioms;

        }
        let idx = key.to_index();
        self.memo.get(&idx)
    }

    fn set(&mut self, key: K, value: V) -> (prev: Option<V>) {
        proof {
            broadcast use vstd::std_specs::hash::group_hash_axioms;

        }
        let idx = key.to_index();
        let prev = self.memo.insert(idx, value);
        proof {
            if old(self).obeys() {
                broadcast use vstd::set::group_set_axioms, vstd::map::group_map_axioms;

                assert(final(self).memo@ == old(self).memo@.insert(idx, value));
                assert forall|k2: K| #![all_triggers] true implies {
                    &&& final(self).contents().contains_key(k2) <==> old(
                        self,
                    ).contents().insert(key, value).contains_key(k2)
                    &&& final(self).contents().contains_key(k2) ==> final(self).contents()[k2]
                        == old(self).contents().insert(key, value)[k2]
                } by {
                    if k2.inv() {
                        key.lemma_index_injective(&k2);
                        k2.lemma_index_injective(&key);
                        if k2.spec_index() == key.spec_index() {
                            assert(k2 == key);
                            assert(final(self).memo@.contains_key(k2.spec_index() as usize));
                            assert(final(self).contents().contains_key(k2));
                            assert(old(self).contents().insert(key, value).contains_key(k2));
                            assert(final(self).contents()[k2] == value);
                            assert(old(self).contents().insert(key, value)[k2] == value);
                        } else {
                            assert((k2.spec_index() as usize) != idx);
                            assert(final(self).memo@.contains_key(k2.spec_index() as usize)
                                <==> old(self).memo@.contains_key(k2.spec_index() as usize));
                            assert(final(self).contents().contains_key(k2) <==> old(
                                self,
                            ).contents().contains_key(k2));
                            assert(old(self).contents().insert(key, value).contains_key(k2)
                                <==> old(self).contents().contains_key(k2));
                            if final(self).contents().contains_key(k2) {
                                assert(final(self).memo@[k2.spec_index() as usize] == old(
                                    self,
                                ).memo@[k2.spec_index() as usize]);
                                assert(old(self).contents().insert(key, value)[k2] == old(
                                    self,
                                ).contents()[k2]);
                            }
                        }
                    } else {
                        assert(!final(self).contents().contains_key(k2));
                        assert(k2 != key);
                        assert(!old(self).contents().insert(key, value).contains_key(k2));
                    }
                }
                assert(final(self).contents() =~= old(self).contents().insert(key, value));
            }
        }
        prev
    }

    fn remove(&mut self, key: &K) -> (prev: Option<V>) {
        proof {
            broadcast use vstd::std_specs::hash::group_hash_axioms;

        }
        let idx = key.to_index();
        let prev = self.memo.remove(&idx);
        proof {
            if old(self).obeys() {
                broadcast use vstd::set::group_set_axioms, vstd::map::group_map_axioms;

                assert forall|k2: K| #![all_triggers] true implies {
                    &&& final(self).contents().contains_key(k2) <==> old(
                        self,
                    ).contents().remove(*key).contains_key(k2)
                    &&& final(self).contents().contains_key(k2) ==> final(self).contents()[k2]
                        == old(self).contents().remove(*key)[k2]
                } by {
                    if k2.inv() {
                        key.lemma_index_injective(&k2);
                        k2.lemma_index_injective(&key);
                    }
                }
                assert(final(self).contents() =~= old(self).contents().remove(*key));
            }
        }
        prev
    }
}

/// A stand-in scorecard memo that answers every lookup with the same
/// fixed-point value; useful for exercising the inner DP on its own. It does
/// not honour the map contract, and says so: its `obeys` is false.
pub struct MockScorecardMemo {
    value: u64,
}

impl MockScorecardMemo {
    /// A mock memo answering ten game points for every state.
    pub fn new() -> (r: Self)
        ensures
            r.value_spec() == 10 * EV_SCALE,
    {
        MockScorecardMemo { value: 10 * EV_SCALE }
    }

    /// The fixed value this mock answers.
    pub closed spec fn value_spec(self) -> u64 {
        self.value
    }
}

impl Memo<ScorecardState, u64> for MockScorecardMemo {
    open spec fn obeys(&self) -> bool {
        false
    }

    closed spec fn contents(&self) -> Map<ScorecardState, u64> {
        Map::empty()
    }

    /// Answers the fixed value for every key.
    fn get(&self, key: &ScorecardState) -> (r: Option<&u64>)
        ensures
            r matches Some(v) && *v == self.value_spec(),
    {
        Some(&self.value)
    }

    /// Stores nothing and reports the fixed value as the previous entry.
    fn set(&mut self, key: ScorecardState, value: u64) -> (prev: Option<u64>)
        ensures
            prev == Some(old(self).value_spec()),
            final(self).value_spec() == old(self).value_spec(),
    {
        Some(self.value)
    }

    /// Removes nothing and reports the fixed value as the removed entry.
    fn remove(&mut self, key: &ScorecardState) -> (prev: Option<u64>)
        ensures
            prev == Some(old(self).value_spec()),
            final(self).value_spec() == old(self).value_spec(),
    {
        Some(self.value)
    }
}

impl IndexKey for RollCounts {
    open spec fn inv(&self) -> bool {
        crate::types::valid_roll(self@)
    }

    open spec fn spec_index(&self) -> int {
        crate::combinatorics::rank_spec(self@) as int
    }

    open spec fn spec_max_index() -> int {
        251
    }

    proof fn lemma_index_injective(&self, other: &Self) {
        crate::combinatorics::lemma_rank_spec_bound(self@);
        if self.spec_index() == other.spec_index() && *self != *other {
            if self@ == other@ {
                crate::types::lemma_roll_counts_ext(*self, *other);
            } else {
                crate::combinatorics::lemma_rank_injective(self@, other@);
            }
        }
    }

    fn to_index(&self) -> (i: usize) {
        self.rank()
    }

    fn max_index() -> (m: usize) {
        251
    }
}

impl IndexKey for KeepCounts {
    open spec fn inv(&self) -> bool {
        crate::types::valid_keep(self@)
    }

    open spec fn spec_index(&self) -> int {
        crate::combinatorics::keep_encode(self@)
    }

    open spec fn spec_max_index() -> int {
        46655
    }

    proof fn lemma_index_injective(&self, other: &Self) {
        crate::types::lemma_sum8_element(self@, 0);
        crate::types::lemma_sum8_element(self@, 1);
        crate::types::lemma_sum8_element(self@, 2);
        crate::types::lemma_sum8_element(self@, 3);
        crate::types::lemma_sum8_element(self@, 4);
        crate::types::lemma_sum8_element(self@, 5);
        crate::types::lemma_sum8_element(other@, 0);
        crate::types::lemma_sum8_element(other@, 1);
        crate::types::lemma_sum8_element(other@, 2);
        crate::types::lemma_sum8_element(other@, 3);
        crate::types::lemma_sum8_element(other@, 4);
        crate::types::lemma_sum8_element(other@, 5);
        crate::combinatorics::lemma_keep_encode_bound(self@);
        if self.spec_index() == other.spec_index() {
            crate::combinatorics::lemma_keep_encode_injective(self@, other@);
            crate::types::lemma_keep_counts_ext(*self, *other);
        }
    }

    fn to_index(&self) -> (i: usize) {
        let counts = self.keep_counts();
        self.keep_index()
    }

    fn max_index() -> (m: usize) {
        46655
    }
}

impl IndexKey for DiceState {
    open spec fn inv(&self) -> bool {
        crate::types::valid_roll(self.roll_counts@) && self.rolls_left@ <= 2
    }

    open spec fn spec_index(&self) -> int {
        crate::combinatorics::rank_spec(self.roll_counts@) * 3 + self.rolls_left@
    }

    open spec fn spec_max_index() -> int {
        755
    }

    proof fn lemma_index_injective(&self, other: &Self) {
        crate::combinatorics::lemma_rank_spec_bound(self.roll_counts@);
        crate::combinatorics::lemma_rank_spec_bound(other.roll_counts@);
        if self.spec_index() == other.spec_index() {
            assert(crate::combinatorics::rank_spec(self.roll_counts@)
                == crate::combinatorics::rank_spec(other.roll_counts@) && self.rolls_left@
                == other.rolls_left@);
            if self.roll_counts@ != other.roll_counts@ {
                crate::combinatorics::lemma_rank_injective(
                    self.roll_counts@,
                    other.roll_counts@,
                );
            }
            crate::types::lemma_roll_counts_ext(self.roll_counts, other.roll_counts);
            crate::types::lemma_rolls_left_ext(self.rolls_left, other.rolls_left);
        }
    }

    fn to_index(&self) -> (i: usize) {
        let rank = self.roll_counts.rank();
        let q = *self.rolls_left.rolls_left();
        rank * 3 + q as usize
    }

    fn max_index() -> (m: usize) {
        755
    }
}

impl IndexKey for ScorecardState {
    open spec fn inv(&self) -> bool {
        self.state_ok() && 0 <= self.upper() <= 63
    }

    open spec fn spec_index(&self) -> int {
        self.state_encode()
    }

    open spec fn spec_max_index() -> int {
        786431
    }

    proof fn lemma_index_injective(&self, other: &Self) {
        assert(0 <= self.slot_bit(0) <= 1);
        assert(0 <= self.slot_bit(1) <= 1);
        assert(0 <= self.slot_bit(2) <= 1);
        assert(0 <= self.slot_bit(3) <= 1);
        assert(0 <= self.slot_bit(4) <= 1);
        assert(0 <= self.slot_bit(5) <= 1);
        assert(0 <= self.slot_bit(6) <= 1);
        assert(0 <= self.slot_bit(7) <= 1);
        assert(0 <= self.slot_bit(8) <= 1);
        assert(0 <= self.slot_bit(9) <= 1);
        assert(0 <= self.slot_bit(10) <= 1);
        assert(0 <= self.slot_bit(12) <= 1);
        assert(0 <= self.yahtzee_code() <= 2);
        if self.spec_index() == other.spec_index() {
            ScorecardState::lemma_state_encode_injective(*self, *other);
        }
    }

    fn to_index(&self) -> (i: usize) {
        self.state_index()
    }

    fn max_index() -> (m: usize) {
        786431
    }
}


/// The canonical list of keeps available from roll `r`: its submultisets in
/// enumeration order.
pub open spec fn keeps_of(r: Seq<u8>) -> Seq<Seq<u8>> {
    sub_comps(r, crate::combinatorics::zero6(), 0)
}

/// The value of writing roll `r` into category `c` now: the category score
/// and bonus in fixed point, plus the solved value of the scorecard state
/// this scoring leads to (zero once the card is full).
pub open spec fn category_value(
    state: ScorecardState,
    memo: Map<ScorecardState, u64>,
    r: Seq<u8>,
    c: ScoreCategory,
) -> int {
    let s = score_value_spec(r, c, state.is_joker(r));
    let b = state.bonus_spec(r, c);
    let next = state.apply_spec(c, s as u8);
    (s + b) * EV_SCALE + (if next.is_terminal_spec() {
        0int
    } else {
        memo[next] as int
    })
}

/// The best value over the categories from position `i` on that may be
/// scored now; zero if none may.
pub open spec fn stop_ev_from(
    state: ScorecardState,
    memo: Map<ScorecardState, u64>,
    r: Seq<u8>,
    rule: JokerRule,
    i: int,
) -> int
    decreases 13 - i,
{
    if i < 0 || i >= 13 {
        0
    } else {
        let rest = stop_ev_from(state, memo, r, rule, i + 1);
        if state.is_valid_category(r, rule, index_category(i)) {
            vstd::math::max(category_value(state, memo, r, index_category(i)), rest)
        } else {
            rest
        }
    }
}

/// The value of stopping now: score the best available category.
pub open spec fn stop_ev(
    state: ScorecardState,
    memo: Map<ScorecardState, u64>,
    r: Seq<u8>,
    rule: JokerRule,
) -> int {
    stop_ev_from(state, memo, r, rule, 0)
}

/// The weighted sum, over the rolls from position `i` on, of the roll's
/// weight under keep `k` times its solved value with `q` rolls remaining.
pub open spec fn wsum(
    rolls: Seq<RollCounts>,
    state: ScorecardState,
    memo: Map<ScorecardState, u64>,
    rule: JokerRule,
    k: Seq<u8>,
    q: nat,
    i: int,
) -> int
    decreases q, 9int, 252 - i,
{
    if i < 0 || i >= 252 {
        0
    } else {
        roll_weight(rolls[i]@, k) * dice_ev(rolls, state, memo, rule, rolls[i]@, q) + wsum(
            rolls,
            state,
            memo,
            rule,
            k,
            q,
            i + 1,
        )
    }
}

/// Scans the keeps in order, as the solver does: a keep replaces the best
/// choice so far exactly when its expected value strictly improves, so on
/// ties the earlier choice - and initially, stopping - wins.
pub open spec fn scan_keeps(
    rolls: Seq<RollCounts>,
    state: ScorecardState,
    memo: Map<ScorecardState, u64>,
    rule: JokerRule,
    keeps: Seq<Seq<u8>>,
    q: nat,
    best: int,
    choice: Option<Seq<u8>>,
) -> (int, Option<Seq<u8>>)
    decreases q, 2int, keeps.len(),
{
    if q == 0 || keeps.len() == 0 {
        (best, choice)
    } else {
        let ev = wsum(rolls, state, memo, rule, keeps[0], (q - 1) as nat, 0) / 7776;
        if ev > best {
            scan_keeps(rolls, state, memo, rule, keeps.drop_first(), q, ev, Some(keeps[0]))
        } else {
            scan_keeps(rolls, state, memo, rule, keeps.drop_first(), q, best, choice)
        }
    }
}

/// The solved value of dice state `(r, q)` under scorecard `state`: with no
/// rolls left, the best immediate score; otherwise the better of stopping
/// now and the best reroll.
pub open spec fn dice_ev(
    rolls: Seq<RollCounts>,
    state: ScorecardState,
    memo: Map<ScorecardState, u64>,
    rule: JokerRule,
    r: Seq<u8>,
    q: nat,
) -> int
    decreases q, 3int, 0int,
{
    if q == 0 {
        stop_ev(state, memo, r, rule)
    } else {
        scan_keeps(
            rolls,
            state,
            memo,
            rule,
            keeps_of(r),
            q,
            stop_ev(state, memo, r, rule),
            None,
        ).0
    }
}

/// The keep the solver records for dice state `(r, q)`: the first keep whose
/// expected value strictly beats stopping and every earlier keep, if any.
pub open spec fn dice_policy(
    rolls: Seq<RollCounts>,
    state: ScorecardState,
    memo: Map<ScorecardState, u64>,
    rule: JokerRule,
    r: Seq<u8>,
    q: nat,
) -> Option<Seq<u8>>
    decreases q, 4int, 0int,
{
    scan_keeps(rolls, state, memo, rule, keeps_of(r), q, stop_ev(state, memo, r, rule), None).1
}

/// Whether the memo covers, within the fixed-point budget of twelve
/// remaining turns, the scorecard state that scoring `c` from `r` leads to.
pub open spec fn covered_one(
    state: ScorecardState,
    memo: Map<ScorecardState, u64>,
    r: Seq<u8>,
    c: ScoreCategory,
    bound: int,
) -> bool {
    let next = successor_state(state, r, c);
    !next.is_terminal_spec() ==> memo.contains_key(next) && memo[next] <= bound
}

/// The scorecard state that scoring `c` from roll `r` leads to.
pub open spec fn successor_state(state: ScorecardState, r: Seq<u8>, c: ScoreCategory)
    -> ScorecardState {
    state.apply_spec(c, score_value_spec(r, c, state.is_joker(r)) as u8)
}

/// Whether the memo covers every scorecard state reachable from `state` by
/// one valid scoring of any distinct roll.
pub open spec fn successors_covered(
    state: ScorecardState,
    memo: Map<ScorecardState, u64>,
    rolls: Seq<RollCounts>,
    rule: JokerRule,
    bound: int,
) -> bool {
    forall|i: int, c: ScoreCategory|
        0 <= i < 252 && state.is_valid_category(rolls[i]@, rule, c) ==> #[trigger] covered_one(
            state,
            memo,
            rolls[i]@,
            c,
            bound,
        )
}


/// The dice-state key for the roll at table position `i` with `q` rolls
/// remaining.
pub open spec fn dice_key(rolls: Seq<RollCounts>, i: int, q: int) -> DiceState {
    DiceState { roll_counts: rolls[i], rolls_left: RollsLeft::from_count(q as u8) }
}

/// Distinct table positions or rolls-remaining give distinct keys.
proof fn lemma_dice_key_injective(rolls: Seq<RollCounts>, i1: int, q1: int, i2: int, q2: int)
    requires
        roll_table_ok(rolls),
        0 <= i1 < 252,
        0 <= i2 < 252,
        0 <= q1 < 3,
        0 <= q2 < 3,
        i1 != i2 || q1 != q2,
    ensures
        dice_key(rolls, i1, q1) != dice_key(rolls, i2, q2),
{
    RollsLeft::lemma_from_count_view(q1 as u8);
    RollsLeft::lemma_from_count_view(q2 as u8);
    if i1 != i2 {
        if rolls[i1] == rolls[i2] {
            assert(rank_spec(rolls[i1]@) == i1);
            assert(rank_spec(rolls[i2]@) == i2);
        }
    }
}

/// The best-available-category value is never negative.
proof fn lemma_stop_ev_from_nonneg(
    state: ScorecardState,
    memo: Map<ScorecardState, u64>,
    r: Seq<u8>,
    rule: JokerRule,
    i: int,
)
    ensures
        stop_ev_from(state, memo, r, rule, i) >= 0,
    decreases 13 - i,
{
    if 0 <= i < 13 {
        lemma_stop_ev_from_nonneg(state, memo, r, rule, i + 1);
    }
}

/// Turns a rolls-remaining count into its counter value.
fn rolls_left_of(q: u8) -> (r: RollsLeft)
    requires
        q <= 2,
    ensures
        r == RollsLeft::from_count(q),
        r@ == q,
{
    match RollsLeft::try_from(q) {
        Ok(rl) => {
            proof {
                rl.lemma_from_count();
            }
            rl
        },
        Err(_) => {
            proof {
                assert(false);
            }
            loop
                invariant
                    false,
                decreases 0int,
            {
            }
        },
    }
}

/// The value of stopping now and scoring `roll` at the best open category,
/// in fixed point.
fn stop_value<S: Memo<ScorecardState, u64>>(
    scorecard_state: &ScorecardState,
    scorecard_memo: &S,
    joker_rule: JokerRule,
    roll: &RollCounts,
    Ghost(bound): Ghost<int>,
) -> (v: u64)
    requires
        scorecard_memo.obeys(),
        0 <= bound <= 2220 * EV_SCALE,
        forall|c: ScoreCategory|
            scorecard_state.is_valid_category(roll@, joker_rule, c) ==> #[trigger] covered_one(
                *scorecard_state,
                scorecard_memo.contents(),
                roll@,
                c,
                bound,
            ),
    ensures
        v == stop_ev(*scorecard_state, scorecard_memo.contents(), roll@, joker_rule),
        v <= bound + 185 * EV_SCALE,
{
    let counts = roll.roll_counts();
    let ghost memo_map = scorecard_memo.contents();
    let mut best: u64 = 0;
    let mut idx: usize = 0;
    proof {
        lemma_stop_ev_from_nonneg(*scorecard_state, memo_map, roll@, joker_rule, 0);
    }
    while idx < 13
        invariant
            0 <= idx <= 13,
            valid_roll(roll@),
            scorecard_memo.obeys(),
            memo_map == scorecard_memo.contents(),
            0 <= bound <= 2220 * EV_SCALE,
            forall|c: ScoreCategory|
                scorecard_state.is_valid_category(roll@, joker_rule, c) ==> #[trigger]
                covered_one(*scorecard_state, memo_map, roll@, c, bound),
            vstd::math::max(
                best as int,
                stop_ev_from(*scorecard_state, memo_map, roll@, joker_rule, idx as int),
            ) == stop_ev(*scorecard_state, memo_map, roll@, joker_rule),
            best <= bound + 185 * EV_SCALE,
        decreases 13 - idx,
    {
        let c = crate::types::category_at(idx);
        match scorecard_state.score_components(roll, c, joker_rule) {
            Ok((category_score, bonus_score)) => {
                proof {
                    crate::types::lemma_score_value_bound(
                        roll@,
                        c,
                        scorecard_state.is_joker(roll@),
                    );
                }
                let next = match scorecard_state.score(c, category_score) {
                    Ok(n) => n,
                    Err(_) => {
                        proof {
                            assert(false);
                        }
                        return 0;
                    },
                };
                let down: u64 = if next.is_terminal() {
                    0
                } else {
                    proof {
                        assert(covered_one(*scorecard_state, memo_map, roll@, c, bound));
                    }
                    match scorecard_memo.get(&next) {
                        Some(v) => *v,
                        None => {
                            proof {
                                assert(false);
                            }
                            return 0;
                        },
                    }
                };
                let total: u64 = (category_score as u64 + bonus_score as u64) * EV_SCALE + down;
                proof {
                    assert(total == category_value(*scorecard_state, memo_map, roll@, c));
                }
                if total > best {
                    best = total;
                }
            },
            Err(_) => {},
        }
        proof {
            lemma_stop_ev_from_nonneg(
                *scorecard_state,
                memo_map,
                roll@,
                joker_rule,
                idx + 1,
            );
        }
        idx += 1;
    }
    best
}

/// Solves the per-turn MDP over dice states for one scorecard state: for
/// every distinct roll and rolls-remaining count, the optimal expected
/// value in fixed point, and the keep to reroll with whenever rerolling
/// strictly beats stopping. Requires the EVs of all scorecard states
/// reachable by one scoring to be in `scorecard_memo` already.
fn dice_dp_inner<S: Memo<ScorecardState, u64>>(
    tables: &Tables,
    scorecard_state: &ScorecardState,
    scorecard_memo: &S,
    joker_rule: JokerRule,
    Ghost(bound): Ghost<int>,
) -> (r: (VecMemo<DiceState, u64>, VecMemo<DiceState, KeepCounts>))
    requires
        scorecard_memo.obeys(),
        0 <= bound <= 2220 * EV_SCALE,
        successors_covered(
            *scorecard_state,
            scorecard_memo.contents(),
            tables.rolls_seq(),
            joker_rule,
            bound,
        ),
    ensures
        forall|i: int, q: int|
            0 <= i < 252 && 0 <= q < 3 ==> {
                let d = #[trigger] dice_key(tables.rolls_seq(), i, q);
                &&& r.0.contents().contains_key(d)
                &&& r.0.contents()[d] == dice_ev(
                    tables.rolls_seq(),
                    *scorecard_state,
                    scorecard_memo.contents(),
                    joker_rule,
                    tables.rolls_seq()[i]@,
                    q as nat,
                )
                &&& r.0.contents()[d] <= bound + 185 * EV_SCALE
            },
        forall|i: int, q: int|
            0 <= i < 252 && 1 <= q < 3 ==> {
                let d = #[trigger] dice_key(tables.rolls_seq(), i, q);
                match dice_policy(
                    tables.rolls_seq(),
                    *scorecard_state,
                    scorecard_memo.contents(),
                    joker_rule,
                    tables.rolls_seq()[i]@,
                    q as nat,
                ) {
                    Some(kq) => r.1.contents().contains_key(d) && r.1.contents()[d]@ == kq,
                    None => !r.1.contents().contains_key(d),
                }
            },
        forall|d: DiceState| r.1.contents().contains_key(d) ==> d.rolls_left@ >= 1,
{
    let rolls = tables.enumerate_distinct_rolls();
    let ghost rollsv = tables.rolls_seq();
    let ghost state = *scorecard_state;
    let ghost memo_map = scorecard_memo.contents();
    let mut ev_memo: VecMemo<DiceState, u64> = VecMemo::new();
    let mut policy_memo: VecMemo<DiceState, KeepCounts> = VecMemo::new();
    let mut i: usize = 0;
    while i < 252
        invariant
            0 <= i <= 252,
            rolls@ == rollsv,
            rollsv == tables.rolls_seq(),
            roll_table_ok(rollsv),
            scorecard_memo.obeys(),
            memo_map == scorecard_memo.contents(),
            state == *scorecard_state,
            successors_covered(state, memo_map, rollsv, joker_rule, bound),
            0 <= bound <= 2220 * EV_SCALE,
            ev_memo.obeys(),
            policy_memo.obeys(),
            policy_memo.contents() == Map::<DiceState, KeepCounts>::empty(),
            forall|i2: int, q2: int|
                0 <= i2 < i && 0 <= q2 < 3 ==> {
                    let d = #[trigger] dice_key(rollsv, i2, q2);
                    &&& ev_memo.contents().contains_key(d)
                    &&& ev_memo.contents()[d] == stop_ev(state, memo_map, rollsv[i2]@, joker_rule)
                    &&& ev_memo.contents()[d] <= bound + 185 * EV_SCALE
                },
        decreases 252 - i,
    {
        let roll = &rolls[i];
        proof {
            assert forall|c: ScoreCategory|
                state.is_valid_category(roll@, joker_rule, c) implies #[trigger] covered_one(
                state,
                memo_map,
                roll@,
                c,
                bound,
            ) by {
                assert(state.is_valid_category(rollsv[i as int]@, joker_rule, c));
            }
        }
        let best = stop_value(scorecard_state, scorecard_memo, joker_rule, roll, Ghost(bound));
        let mut q: u8 = 0;
        while q < 3
            invariant
                0 <= q <= 3,
                0 <= i < 252,
                rolls@ == rollsv,
            rollsv == tables.rolls_seq(),
                rollsv == tables.rolls_seq(),
                roll_table_ok(rollsv),
                roll == &rolls@[i as int],
                best == stop_ev(state, memo_map, rollsv[i as int]@, joker_rule),
                best <= bound + 185 * EV_SCALE,
                ev_memo.obeys(),
                forall|i2: int, q2: int|
                    (0 <= i2 < i && 0 <= q2 < 3) || (i2 == i && 0 <= q2 < q) ==> {
                        let d = #[trigger] dice_key(rollsv, i2, q2);
                        &&& ev_memo.contents().contains_key(d)
                        &&& ev_memo.contents()[d] == stop_ev(
                            state,
                            memo_map,
                            rollsv[i2]@,
                            joker_rule,
                        )
                        &&& ev_memo.contents()[d] <= bound + 185 * EV_SCALE
                    },
            decreases 3 - q,
        {
            let rl = rolls_left_of(q);
            let d = DiceState { roll_counts: *roll, rolls_left: rl };
            let ghost before = ev_memo.contents();
            ev_memo.set(d, best);
            proof {
                assert(d == dice_key(rollsv, i as int, q as int));
                assert forall|i2: int, q2: int|
                    (0 <= i2 < i && 0 <= q2 < 3) || (i2 == i && 0 <= q2 < q + 1) implies {
                    let d2 = #[trigger] dice_key(rollsv, i2, q2);
                    &&& ev_memo.contents().contains_key(d2)
                    &&& ev_memo.contents()[d2] == stop_ev(state, memo_map, rollsv[i2]@, joker_rule)
                    &&& ev_memo.contents()[d2] <= bound + 185 * EV_SCALE
                } by {
                    if i2 != i || q2 != q {
                        lemma_dice_key_injective(rollsv, i2, q2, i as int, q as int);
                        assert(ev_memo.contents()[dice_key(rollsv, i2, q2)] == before[dice_key(
                            rollsv,
                            i2,
                            q2,
                        )]);
                    }
                }
            }
            q += 1;
        }
        i += 1;
    }
    let mut q: u8 = 1;
    while q < 3
        invariant
            1 <= q <= 3,
            rolls@ == rollsv,
            rollsv == tables.rolls_seq(),
            roll_table_ok(rollsv),
            scorecard_memo.obeys(),
            memo_map == scorecard_memo.contents(),
            state == *scorecard_state,
            successors_covered(state, memo_map, rollsv, joker_rule, bound),
            0 <= bound <= 2220 * EV_SCALE,
            ev_memo.obeys(),
            policy_memo.obeys(),
            forall|i2: int, q2: int|
                0 <= i2 < 252 && 0 <= q2 < 3 ==> {
                    let d = #[trigger] dice_key(rollsv, i2, q2);
                    &&& ev_memo.contents().contains_key(d)
                    &&& ev_memo.contents()[d] == (if q2 < q {
                        dice_ev(rollsv, state, memo_map, joker_rule, rollsv[i2]@, q2 as nat)
                    } else {
                        stop_ev(state, memo_map, rollsv[i2]@, joker_rule)
                    })
                    &&& ev_memo.contents()[d] <= bound + 185 * EV_SCALE
                },
            forall|i2: int, q2: int|
                0 <= i2 < 252 && 1 <= q2 < 3 && q2 < q ==> {
                    let d = #[trigger] dice_key(rollsv, i2, q2);
                    match dice_policy(rollsv, state, memo_map, joker_rule, rollsv[i2]@, q2 as nat) {
                        Some(kq) => policy_memo.contents().contains_key(d)
                            && policy_memo.contents()[d]@ == kq,
                        None => !policy_memo.contents().contains_key(d),
                    }
                },
            forall|i2: int, q2: int|
                0 <= i2 < 252 && 1 <= q2 < 3 && q2 >= q ==> !policy_memo.contents().contains_key(
                    #[trigger] dice_key(rollsv, i2, q2),
                ),
            forall|d: DiceState| #[trigger]
                policy_memo.contents().contains_key(d) ==> d.rolls_left@ >= 1,
        decreases 3 - q,
    {
        let mut i: usize = 0;
        while i < 252
            invariant
                0 <= i <= 252,
                1 <= q < 3,
                rolls@ == rollsv,
            rollsv == tables.rolls_seq(),
                rollsv == tables.rolls_seq(),
                roll_table_ok(rollsv),
                scorecard_memo.obeys(),
                memo_map == scorecard_memo.contents(),
                state == *scorecard_state,
                successors_covered(state, memo_map, rollsv, joker_rule, bound),
            0 <= bound <= 2220 * EV_SCALE,
                ev_memo.obeys(),
                policy_memo.obeys(),
                forall|i2: int, q2: int|
                    0 <= i2 < 252 && 0 <= q2 < 3 ==> {
                        let d = #[trigger] dice_key(rollsv, i2, q2);
                        &&& ev_memo.contents().contains_key(d)
                        &&& ev_memo.contents()[d] == (if q2 < q || (q2 == q && i2 < i) {
                            dice_ev(rollsv, state, memo_map, joker_rule, rollsv[i2]@, q2 as nat)
                        } else {
                            stop_ev(state, memo_map, rollsv[i2]@, joker_rule)
                        })
                        &&& ev_memo.contents()[d] <= bound + 185 * EV_SCALE
                    },
                forall|i2: int, q2: int|
                    0 <= i2 < 252 && 1 <= q2 < 3 && (q2 < q || (q2 == q && i2 < i)) ==> {
                        let d = #[trigger] dice_key(rollsv, i2, q2);
                        match dice_policy(
                            rollsv,
                            state,
                            memo_map,
                            joker_rule,
                            rollsv[i2]@,
                            q2 as nat,
                        ) {
                            Some(kq) => policy_memo.contents().contains_key(d)
                                && policy_memo.contents()[d]@ == kq,
                            None => !policy_memo.contents().contains_key(d),
                        }
                    },
                forall|i2: int, q2: int|
                    0 <= i2 < 252 && 1 <= q2 < 3 && !(q2 < q || (q2 == q && i2 < i))
                        ==> !policy_memo.contents().contains_key(
                        #[trigger] dice_key(rollsv, i2, q2),
                    ),
                forall|d: DiceState| #[trigger]
                    policy_memo.contents().contains_key(d) ==> d.rolls_left@ >= 1,
            decreases 252 - i,
        {
            let roll = &rolls[i];
            let ghost rq = roll@;
            let d = DiceState { roll_counts: *roll, rolls_left: rolls_left_of(q) };
            proof {
                assert(d == dice_key(rollsv, i as int, q as int));
            }
            let mut best: u64 = match ev_memo.get(&d) {
                Some(v) => *v,
                None => {
                    proof {
                        assert(false);
                    }
                    return (ev_memo, policy_memo);
                },
            };
            let ghost stop = stop_ev(state, memo_map, rq, joker_rule);
            let mut best_keep: Option<KeepCounts> = None;
            let keeps = tables.valid_keeps_at(i);
            let ghost keep_seq = keeps_of(rq);
            let ghost target = scan_keeps(
                rollsv,
                state,
                memo_map,
                joker_rule,
                keep_seq,
                q as nat,
                stop,
                None,
            );
            let rl_down = rolls_left_of(q - 1);
            proof {
                assert(rolls@ == rollsv);
                assert(*roll == rolls@[i as int]);
                assert(*roll == rollsv[i as int]);
                assert(rq == tables.rolls_seq()[i as int]@);
                assert(keep_list_ok(keeps@, tables.rolls_seq()[i as int]@));
                assert(keep_list_ok(keeps@, rq));
                assert(keeps@.len() == keep_seq.len());
                assert(target == scan_keeps(
                    rollsv,
                    state,
                    memo_map,
                    joker_rule,
                    keep_seq,
                    q as nat,
                    stop,
                    None,
                ));
                assert(keep_seq.skip(0) =~= keep_seq);
                assert(best as int == stop);
            }
            let mut ki: usize = 0;
            while ki < keeps.len()
                invariant
                    0 <= ki <= keeps@.len(),
                    0 <= bound <= 2220 * EV_SCALE,
                    1 <= q < 3,
                    0 <= i < 252,
                    rolls@ == rollsv,
            rollsv == tables.rolls_seq(),
                    rollsv == tables.rolls_seq(),
                rollsv == tables.rolls_seq(),
                    roll_table_ok(rollsv),
                    scorecard_memo.obeys(),
                    memo_map == scorecard_memo.contents(),
                    state == *scorecard_state,
                    ev_memo.obeys(),
                    rq == rollsv[i as int]@,
                    keep_list_ok(keeps@, rq),
                    keep_seq == keeps_of(rq),
                    keeps@.len() == keep_seq.len(),
                    rl_down == RollsLeft::from_count((q - 1) as u8),
                    target == scan_keeps(
                        rollsv,
                        state,
                        memo_map,
                        joker_rule,
                        keep_seq,
                        q as nat,
                        stop,
                        None,
                    ),
                    scan_keeps(
                        rollsv,
                        state,
                        memo_map,
                        joker_rule,
                        keep_seq.skip(ki as int),
                        q as nat,
                        best as int,
                        match best_keep {
                            Some(bk) => Some(bk@),
                            None => None,
                        },
                    ) == target,
                    best <= bound + 185 * EV_SCALE,
                    forall|i2: int, q2: int|
                        0 <= i2 < 252 && 0 <= q2 < 3 ==> {
                            let d2 = #[trigger] dice_key(rollsv, i2, q2);
                            &&& ev_memo.contents().contains_key(d2)
                            &&& ev_memo.contents()[d2] == (if q2 < q || (q2 == q && i2 < i) {
                                dice_ev(
                                    rollsv,
                                    state,
                                    memo_map,
                                    joker_rule,
                                    rollsv[i2]@,
                                    q2 as nat,
                                )
                            } else {
                                stop_ev(state, memo_map, rollsv[i2]@, joker_rule)
                            })
                            &&& ev_memo.contents()[d2] <= bound + 185 * EV_SCALE
                        },
                decreases keeps@.len() - ki,
            {
                let keep = &keeps[ki];
                let row = tables.weight_row(keep);
                let mut total: u64 = 0;
                let mut j: usize = 0;
                proof {
                    assert(row@.take(0) =~= Seq::<u64>::empty());
                    assert(crate::combinatorics::sum64(Seq::<u64>::empty()) == 0);
                }
                while j < 252
                    invariant
                        0 <= j <= 252,
                        0 <= bound <= 2220 * EV_SCALE,
                        1 <= q < 3,
                        rolls@ == rollsv,
            rollsv == tables.rolls_seq(),
                    rollsv == tables.rolls_seq(),
                rollsv == tables.rolls_seq(),
                        roll_table_ok(rollsv),
                        ev_memo.obeys(),
                        rl_down == RollsLeft::from_count((q - 1) as u8),
                        weight_row_ok(row@, rollsv, keep@),
                        total + wsum(
                            rollsv,
                            state,
                            memo_map,
                            joker_rule,
                            keep@,
                            (q - 1) as nat,
                            j as int,
                        ) == wsum(rollsv, state, memo_map, joker_rule, keep@, (q - 1) as nat, 0),
                        total <= crate::combinatorics::sum64(row@.take(j as int)) * (bound
                            + 185 * EV_SCALE),
                        forall|i2: int, q2: int|
                            0 <= i2 < 252 && 0 <= q2 < 3 ==> {
                                let d2 = #[trigger] dice_key(rollsv, i2, q2);
                                &&& ev_memo.contents().contains_key(d2)
                                &&& ev_memo.contents()[d2] == (if q2 < q || (q2 == q && i2 < i) {
                                    dice_ev(
                                        rollsv,
                                        state,
                                        memo_map,
                                        joker_rule,
                                        rollsv[i2]@,
                                        q2 as nat,
                                    )
                                } else {
                                    stop_ev(state, memo_map, rollsv[i2]@, joker_rule)
                                })
                                &&& ev_memo.contents()[d2] <= bound + 185 * EV_SCALE
                            },
                    decreases 252 - j,
                {
                    let w = row[j];
                    let ghost dj = dice_key(rollsv, j as int, q - 1);
                    proof {
                        use_type_invariant(&ev_memo);
                        RollsLeft::lemma_from_count_view((q - 1) as u8);
                        crate::combinatorics::lemma_rank_spec_bound(rollsv[j as int]@);
                        assert(dj.inv());
                        assert(dj.spec_index() == 3 * j + q - 1);
                        ev_memo.lemma_raw(dj);
                    }
                    let e: u64 = match ev_memo.raw_get(j * 3 + (q - 1) as usize) {
                        Some(v) => *v,
                        None => {
                            proof {
                                assert(false);
                            }
                            return (ev_memo, policy_memo);
                        },
                    };
                    proof {
                        crate::combinatorics::lemma_sum64_split(row@, j as int);
                        crate::combinatorics::lemma_sum64_split(row@.take(j + 1), j as int);
                        assert(row@.take(j + 1).take(j as int) =~= row@.take(j as int));
                        assert(row@.take(j + 1).skip(j as int) =~= seq![w]);
                        assert(seq![w].drop_first() =~= Seq::<u64>::empty());
                        assert(crate::combinatorics::sum64(Seq::<u64>::empty()) == 0);
                        assert(crate::combinatorics::sum64(seq![w]) == w);
                        crate::combinatorics::lemma_sum64_nonneg(row@.skip(j + 1));
                        crate::combinatorics::lemma_sum64_nonneg(row@.take(j as int));
                        assert(crate::combinatorics::sum64(row@.take(j + 1)) <= 7776) by {
                            assert(crate::combinatorics::sum64(row@) == crate::combinatorics::sum64(
                                row@.take(j + 1),
                            ) + crate::combinatorics::sum64(row@.skip(j + 1))) by {
                                crate::combinatorics::lemma_sum64_split(row@, j + 1);
                            }
                        }
                        crate::combinatorics::lemma_sum64_element(row@, j as int);
                        assert(w <= 7776);
                        assert(w * e <= 7776 * (bound + 185 * EV_SCALE)) by (nonlinear_arith)
                            requires
                                0 <= w <= 7776,
                                0 <= e <= bound + 185 * EV_SCALE,
                        ;
                        assert(w * e <= w * (bound + 185 * EV_SCALE)) by (nonlinear_arith)
                            requires
                                0 <= w,
                                0 <= e <= bound + 185 * EV_SCALE,
                        ;
                        assert(total + w * e <= (crate::combinatorics::sum64(row@.take(j as int))
                            + w) * (bound + 185 * EV_SCALE)) by (nonlinear_arith)
                            requires
                                total <= crate::combinatorics::sum64(row@.take(j as int)) * (bound
                                    + 185 * EV_SCALE),
                                w * e <= w * (bound + 185 * EV_SCALE),
                        ;
                        assert(w == roll_weight(rollsv[j as int]@, keep@));
                        assert((crate::combinatorics::sum64(row@.take(j as int)) + w) * (bound
                            + 185 * EV_SCALE) <= 7776 * (bound + 185 * EV_SCALE))
                            by (nonlinear_arith)
                            requires
                                0 <= crate::combinatorics::sum64(row@.take(j as int)) + w <= 7776,
                                0 <= bound + 185 * EV_SCALE,
                        ;
                    }
                    total = total + w * e;
                    j += 1;
                }
                proof {
                    assert(row@.take(252) =~= row@);
                    assert(wsum(rollsv, state, memo_map, joker_rule, keep@, (q - 1) as nat, 252)
                        == 0);
                    assert(total == wsum(
                        rollsv,
                        state,
                        memo_map,
                        joker_rule,
                        keep@,
                        (q - 1) as nat,
                        0,
                    ));
                    assert(total <= 7776 * (bound + 185 * EV_SCALE));
                }
                let ev = total / 7776;
                proof {
                    vstd::arithmetic::div_mod::lemma_div_is_ordered(
                        total as int,
                        7776 * (bound + 185 * EV_SCALE),
                        7776,
                    );
                    vstd::arithmetic::div_mod::lemma_div_by_multiple(bound + 185 * EV_SCALE as int, 7776);
                    assert(keep_seq.skip(ki as int)[0] == keep_seq[ki as int]);
                    assert(keep_seq[ki as int] == keeps@[ki as int]@);
                    assert(keep_seq.skip(ki as int).drop_first() =~= keep_seq.skip(ki + 1));
                }
                if ev > best {
                    best = ev;
                    best_keep = Some(*keep);
                }
                ki += 1;
            }
            proof {
                assert(keep_seq.skip(keeps@.len() as int) =~= Seq::<Seq<u8>>::empty());
                assert(scan_keeps(
                    rollsv,
                    state,
                    memo_map,
                    joker_rule,
                    keep_seq.skip(keeps@.len() as int),
                    q as nat,
                    best as int,
                    match best_keep {
                        Some(bk) => Some(bk@),
                        None => None,
                    },
                ) == (
                    best as int,
                    match best_keep {
                        Some(bk) => Some(bk@),
                        None => None,
                    },
                ));
                assert(best as int == dice_ev(
                    rollsv,
                    state,
                    memo_map,
                    joker_rule,
                    rq,
                    q as nat,
                ));
            }
            let ghost ev_before = ev_memo.contents();
            let ghost pol_before = policy_memo.contents();
            ev_memo.set(d, best);
            match &best_keep {
                Some(bk) => {
                    policy_memo.set(d, *bk);
                },
                None => {},
            }
            proof {
                assert forall|i2: int, q2: int|
                    0 <= i2 < 252 && 0 <= q2 < 3 implies {
                    let d2 = #[trigger] dice_key(rollsv, i2, q2);
                    &&& ev_memo.contents().contains_key(d2)
                    &&& ev_memo.contents()[d2] == (if q2 < q || (q2 == q && i2 < i + 1) {
                        dice_ev(rollsv, state, memo_map, joker_rule, rollsv[i2]@, q2 as nat)
                    } else {
                        stop_ev(state, memo_map, rollsv[i2]@, joker_rule)
                    })
                    &&& ev_memo.contents()[d2] <= bound + 185 * EV_SCALE
                } by {
                    if i2 != i || q2 != q {
                        lemma_dice_key_injective(rollsv, i2, q2, i as int, q as int);
                        assert(ev_memo.contents()[dice_key(rollsv, i2, q2)] == ev_before[dice_key(
                            rollsv,
                            i2,
                            q2,
                        )]);
                    }
                }
                assert forall|i2: int, q2: int|
                    0 <= i2 < 252 && 1 <= q2 < 3 && (q2 < q || (q2 == q && i2 < i + 1)) implies {
                    let d2 = #[trigger] dice_key(rollsv, i2, q2);
                    match dice_policy(rollsv, state, memo_map, joker_rule, rollsv[i2]@, q2 as nat) {
                        Some(kq) => policy_memo.contents().contains_key(d2)
                            && policy_memo.contents()[d2]@ == kq,
                        None => !policy_memo.contents().contains_key(d2),
                    }
                } by {
                    if i2 == i && q2 == q {
                        assert(dice_policy(
                            rollsv,
                            state,
                            memo_map,
                            joker_rule,
                            rollsv[i2]@,
                            q2 as nat,
                        ) == target.1);
                    } else {
                        lemma_dice_key_injective(rollsv, i2, q2, i as int, q as int);
                    }
                }
                assert forall|i2: int, q2: int|
                    0 <= i2 < 252 && 1 <= q2 < 3 && !(q2 < q || (q2 == q && i2 < i + 1))
                    implies !policy_memo.contents().contains_key(
                    #[trigger] dice_key(rollsv, i2, q2),
                ) by {
                    lemma_dice_key_injective(rollsv, i2, q2, i as int, q as int);
                }
                assert forall|d3: DiceState| #[trigger]
                    policy_memo.contents().contains_key(d3) implies d3.rolls_left@ >= 1 by {
                    RollsLeft::lemma_from_count_view(q);
                    if !pol_before.contains_key(d3) {
                        assert(d3 == dice_key(rollsv, i as int, q as int));
                    }
                }
            }
            i += 1;
        }
        q += 1;
    }
    (ev_memo, policy_memo)
}


/// The weighted sum under the keep-everything choice collapses to the full
/// weight on the kept roll itself.
proof fn lemma_wsum_keep_all(
    rolls: Seq<RollCounts>,
    state: ScorecardState,
    memo: Map<ScorecardState, u64>,
    rule: JokerRule,
    r: Seq<u8>,
    qd: nat,
    j: int,
)
    requires
        roll_table_ok(rolls),
        valid_roll(r),
        0 <= j <= 252,
    ensures
        wsum(rolls, state, memo, rule, r, qd, j) == if j <= rank_spec(r) {
            7776 * dice_ev(rolls, state, memo, rule, r, qd)
        } else {
            0
        },
    decreases 252 - j,
{
    crate::combinatorics::lemma_roll_table_complete(rolls, r);
    if j < 252 {
        lemma_wsum_keep_all(rolls, state, memo, rule, r, qd, j + 1);
        lemma_roll_weight_keep_all(rolls[j]@, r);
        if j == rank_spec(r) {
            assert(rolls[j]@ == r);
        } else {
            if rolls[j]@ == r {
                assert(rank_spec(rolls[j]@) == j);
            }
            assert(roll_weight(rolls[j]@, r) == 0);
        }
    }
}

/// A scan result is no smaller than its running best, nor than the keep
/// value of any scanned keep.
proof fn lemma_scan_ge(
    rolls: Seq<RollCounts>,
    state: ScorecardState,
    memo: Map<ScorecardState, u64>,
    rule: JokerRule,
    keeps: Seq<Seq<u8>>,
    q: nat,
    best: int,
    choice: Option<Seq<u8>>,
)
    ensures
        scan_keeps(rolls, state, memo, rule, keeps, q, best, choice).0 >= best,
        forall|m: int|
            0 <= m < keeps.len() && q >= 1 ==> scan_keeps(
                rolls,
                state,
                memo,
                rule,
                keeps,
                q,
                best,
                choice,
            ).0 >= wsum(rolls, state, memo, rule, #[trigger] keeps[m], (q - 1) as nat, 0) / 7776,
    decreases keeps.len(),
{
    if q >= 1 && keeps.len() > 0 {
        let ev = wsum(rolls, state, memo, rule, keeps[0], (q - 1) as nat, 0) / 7776;
        if ev > best {
            lemma_scan_ge(rolls, state, memo, rule, keeps.drop_first(), q, ev, Some(keeps[0]));
        } else {
            lemma_scan_ge(rolls, state, memo, rule, keeps.drop_first(), q, best, choice);
        }
        assert forall|m: int|
            0 <= m < keeps.len() && q >= 1 implies scan_keeps(
            rolls,
            state,
            memo,
            rule,
            keeps,
            q,
            best,
            choice,
        ).0 >= wsum(rolls, state, memo, rule, #[trigger] keeps[m], (q - 1) as nat, 0) / 7776 by {
            if m > 0 {
                assert(keeps.drop_first()[m - 1] == keeps[m]);
            }
        }
    }
}

/// Solved dice values are never negative.
proof fn lemma_dice_ev_nonneg(
    rolls: Seq<RollCounts>,
    state: ScorecardState,
    memo: Map<ScorecardState, u64>,
    rule: JokerRule,
    r: Seq<u8>,
    q: nat,
)
    ensures
        dice_ev(rolls, state, memo, rule, r, q) >= 0,
{
    lemma_stop_ev_from_nonneg(state, memo, r, rule, 0);
    if q >= 1 {
        lemma_scan_ge(
            rolls,
            state,
            memo,
            rule,
            keeps_of(r),
            q,
            stop_ev(state, memo, r, rule),
            None,
        );
    }
}

/// An extra reroll can never hurt: the solved value of a dice state does not
/// fall when one more roll remains.
pub proof fn lemma_dice_ev_monotone(
    rolls: Seq<RollCounts>,
    state: ScorecardState,
    memo: Map<ScorecardState, u64>,
    rule: JokerRule,
    r: Seq<u8>,
    q: nat,
)
    requires
        roll_table_ok(rolls),
        valid_roll(r),
        q >= 1,
    ensures
        dice_ev(rolls, state, memo, rule, r, q) >= dice_ev(
            rolls,
            state,
            memo,
            rule,
            r,
            (q - 1) as nat,
        ),
{
    crate::combinatorics::lemma_sub_comps_complete(r, crate::combinatorics::zero6(), 0, r);
    let keeps = keeps_of(r);
    let m = choose|m: int| 0 <= m < keeps.len() && keeps[m] == r;
    let stop = stop_ev(state, memo, r, rule);
    lemma_scan_ge(rolls, state, memo, rule, keeps, q, stop, None);
    lemma_wsum_keep_all(rolls, state, memo, rule, r, (q - 1) as nat, 0);
    crate::combinatorics::lemma_rank_spec_bound(r);
    lemma_dice_ev_nonneg(rolls, state, memo, rule, r, (q - 1) as nat);
    vstd::arithmetic::div_mod::lemma_div_by_multiple(
        dice_ev(rolls, state, memo, rule, r, (q - 1) as nat),
        7776,
    );
    assert(wsum(rolls, state, memo, rule, r, (q - 1) as nat, 0) / 7776 == dice_ev(
        rolls,
        state,
        memo,
        rule,
        r,
        (q - 1) as nat,
    ));
    if q - 1 >= 1 {
        assert(dice_ev(rolls, state, memo, rule, r, q) >= wsum(
            rolls,
            state,
            memo,
            rule,
            keeps[m],
            (q - 1) as nat,
            0,
        ) / 7776);
    } else {
        assert(dice_ev(rolls, state, memo, rule, r, q) >= stop);
    }
}


/// Solves the per-turn MDP over dice states for one scorecard state: for
/// every distinct roll and rolls-remaining count, the optimal expected
/// value in fixed point, and the keep to reroll with whenever rerolling
/// strictly beats stopping. Requires the EVs of all scorecard states
/// reachable by one scoring to be in `scorecard_memo` already.
pub fn dice_dp<S: Memo<ScorecardState, u64>>(
    tables: &Tables,
    scorecard_state: &ScorecardState,
    scorecard_memo: &S,
    joker_rule: JokerRule,
) -> (r: (VecMemo<DiceState, u64>, VecMemo<DiceState, KeepCounts>))
    requires
        scorecard_memo.obeys(),
        successors_covered(
            *scorecard_state,
            scorecard_memo.contents(),
            tables.rolls_seq(),
            joker_rule,
            2220 * EV_SCALE as int,
        ),
    ensures
        forall|i: int, q: int|
            0 <= i < 252 && 0 <= q < 3 ==> {
                let d = #[trigger] dice_key(tables.rolls_seq(), i, q);
                &&& r.0.contents().contains_key(d)
                &&& r.0.contents()[d] == dice_ev(
                    tables.rolls_seq(),
                    *scorecard_state,
                    scorecard_memo.contents(),
                    joker_rule,
                    tables.rolls_seq()[i]@,
                    q as nat,
                )
                &&& r.0.contents()[d] <= EV_LIMIT
            },
        forall|i: int, q: int|
            0 <= i < 252 && 1 <= q < 3 ==> {
                let d = #[trigger] dice_key(tables.rolls_seq(), i, q);
                match dice_policy(
                    tables.rolls_seq(),
                    *scorecard_state,
                    scorecard_memo.contents(),
                    joker_rule,
                    tables.rolls_seq()[i]@,
                    q as nat,
                ) {
                    Some(kq) => r.1.contents().contains_key(d) && r.1.contents()[d]@ == kq,
                    None => !r.1.contents().contains_key(d),
                }
            },
        forall|d: DiceState| r.1.contents().contains_key(d) ==> d.rolls_left@ >= 1,
{
    dice_dp_inner(
        tables,
        scorecard_state,
        scorecard_memo,
        joker_rule,
        Ghost(2220 * EV_SCALE as int),
    )
}


/// The weighted sum over fresh opening rolls, from table position `i` on,
/// of the solved turn value starting at that roll with two rerolls left.
pub open spec fn start_wsum(
    rolls: Seq<RollCounts>,
    state: ScorecardState,
    memo: Map<ScorecardState, u64>,
    rule: JokerRule,
    i: int,
) -> int
    decreases 252 - i,
{
    if i < 0 || i >= 252 {
        0
    } else {
        roll_weight(rolls[i]@, crate::combinatorics::zero6()) * dice_ev(
            rolls,
            state,
            memo,
            rule,
            rolls[i]@,
            2,
        ) + start_wsum(rolls, state, memo, rule, i + 1)
    }
}

/// The solved expected value of a whole turn from scorecard `state`: zero on
/// a full card, and otherwise the average over the 252 opening rolls of the
/// optimal play value, in fixed point.
pub open spec fn turn_ev(
    rolls: Seq<RollCounts>,
    state: ScorecardState,
    memo: Map<ScorecardState, u64>,
    rule: JokerRule,
) -> int {
    if state.is_terminal_spec() {
        0
    } else {
        start_wsum(rolls, state, memo, rule, 0) / 7776
    }
}

/// Whether the scorecard state that scoring `c` from `r` leads to is solved
/// in the memo (or needs no solving because it is full).
pub open spec fn present_one(
    state: ScorecardState,
    memo: Map<ScorecardState, u64>,
    r: Seq<u8>,
    c: ScoreCategory,
) -> bool {
    let next = successor_state(state, r, c);
    !next.is_terminal_spec() ==> memo.contains_key(next)
}

/// Whether every scorecard state reachable from `state` by one valid
/// scoring of any distinct roll is solved in the memo.
pub open spec fn successors_present(
    state: ScorecardState,
    memo: Map<ScorecardState, u64>,
    rolls: Seq<RollCounts>,
    rule: JokerRule,
) -> bool {
    forall|i: int, c: ScoreCategory|
        0 <= i < 252 && state.is_valid_category(rolls[i]@, rule, c) ==> #[trigger] present_one(
            state,
            memo,
            rolls[i]@,
            c,
        )
}

/// A Bellman-consistent memo: every solved state holds exactly its turn
/// value computed from the memo itself, its successors are solved too, and
/// its value stays within 185 fixed-point game points per open slot.
pub open spec fn memo_consistent(
    memo: Map<ScorecardState, u64>,
    rolls: Seq<RollCounts>,
    rule: JokerRule,
) -> bool {
    forall|s: ScorecardState| #[trigger]
        memo.contains_key(s) ==> {
            &&& memo[s] == turn_ev(rolls, s, memo, rule)
            &&& memo[s] <= 185 * s.unscored_count() * EV_SCALE
            &&& successors_present(s, memo, rolls, rule)
        }
}

/// One map extends another: every solved state stays solved with the same
/// value.
pub open spec fn map_extends(m1: Map<ScorecardState, u64>, m2: Map<ScorecardState, u64>) -> bool {
    forall|s: ScorecardState| #[trigger]
        m1.contains_key(s) ==> m2.contains_key(s) && m2[s] == m1[s]
}

/// Two memos agree on every solved successor of `state`: enough for every
/// value computed under `state` to coincide.
pub open spec fn agree_on_successors(
    state: ScorecardState,
    m1: Map<ScorecardState, u64>,
    m2: Map<ScorecardState, u64>,
    rolls: Seq<RollCounts>,
    rule: JokerRule,
) -> bool {
    forall|i: int, c: ScoreCategory|
        0 <= i < 252 && state.is_valid_category(rolls[i]@, rule, c) ==> {
            let next = #[trigger] successor_state(state, rolls[i]@, c);
            !next.is_terminal_spec() ==> m1.contains_key(next) && m2.contains_key(next)
                && m1[next] == m2[next]
        }
}

/// Growing the memo does not change the stop value of a state whose
/// successors it already solves.
proof fn lemma_stop_frame(
    rolls: Seq<RollCounts>,
    state: ScorecardState,
    m1: Map<ScorecardState, u64>,
    m2: Map<ScorecardState, u64>,
    rule: JokerRule,
    i: int,
    ci: int,
)
    requires
        agree_on_successors(state, m1, m2, rolls, rule),
        0 <= i < 252,
    ensures
        stop_ev_from(state, m1, rolls[i]@, rule, ci) == stop_ev_from(
            state,
            m2,
            rolls[i]@,
            rule,
            ci,
        ),
    decreases 13 - ci,
{
    if 0 <= ci < 13 {
        lemma_stop_frame(rolls, state, m1, m2, rule, i, ci + 1);
        let c = index_category(ci);
        if state.is_valid_category(rolls[i]@, rule, c) {
            assert(!successor_state(state, rolls[i]@, c).is_terminal_spec()
                ==> m1[successor_state(state, rolls[i]@, c)] == m2[successor_state(
                state,
                rolls[i]@,
                c,
            )]);
        }
    }
}

/// Growing the memo does not change a weighted sum over it.
proof fn lemma_wsum_frame(
    rolls: Seq<RollCounts>,
    state: ScorecardState,
    m1: Map<ScorecardState, u64>,
    m2: Map<ScorecardState, u64>,
    rule: JokerRule,
    k: Seq<u8>,
    q: nat,
    j: int,
)
    requires
        agree_on_successors(state, m1, m2, rolls, rule),
    ensures
        wsum(rolls, state, m1, rule, k, q, j) == wsum(rolls, state, m2, rule, k, q, j),
    decreases q, 9int, 252 - j,
{
    if 0 <= j < 252 {
        lemma_dice_frame(rolls, state, m1, m2, rule, j, q);
        lemma_wsum_frame(rolls, state, m1, m2, rule, k, q, j + 1);
    }
}

/// Growing the memo does not change a keep scan over it.
proof fn lemma_scan_frame(
    rolls: Seq<RollCounts>,
    state: ScorecardState,
    m1: Map<ScorecardState, u64>,
    m2: Map<ScorecardState, u64>,
    rule: JokerRule,
    keeps: Seq<Seq<u8>>,
    q: nat,
    best: int,
    choice: Option<Seq<u8>>,
)
    requires
        agree_on_successors(state, m1, m2, rolls, rule),
    ensures
        scan_keeps(rolls, state, m1, rule, keeps, q, best, choice) == scan_keeps(
            rolls,
            state,
            m2,
            rule,
            keeps,
            q,
            best,
            choice,
        ),
    decreases q, 2int, keeps.len(),
{
    if q >= 1 && keeps.len() > 0 {
        lemma_wsum_frame(rolls, state, m1, m2, rule, keeps[0], (q - 1) as nat, 0);
        let ev = wsum(rolls, state, m1, rule, keeps[0], (q - 1) as nat, 0) / 7776;
        if ev > best {
            lemma_scan_frame(
                rolls,
                state,
                m1,
                m2,
                rule,
                keeps.drop_first(),
                q,
                ev,
                Some(keeps[0]),
            );
        } else {
            lemma_scan_frame(rolls, state, m1, m2, rule, keeps.drop_first(), q, best, choice);
        }
    }
}

/// Growing the memo does not change a solved dice value over it.
proof fn lemma_dice_frame(
    rolls: Seq<RollCounts>,
    state: ScorecardState,
    m1: Map<ScorecardState, u64>,
    m2: Map<ScorecardState, u64>,
    rule: JokerRule,
    i: int,
    q: nat,
)
    requires
        agree_on_successors(state, m1, m2, rolls, rule),
        0 <= i < 252,
    ensures
        dice_ev(rolls, state, m1, rule, rolls[i]@, q) == dice_ev(
            rolls,
            state,
            m2,
            rule,
            rolls[i]@,
            q,
        ),
    decreases q, 3int, 0int,
{
    lemma_stop_frame(rolls, state, m1, m2, rule, i, 0);
    if q >= 1 {
        lemma_scan_frame(
            rolls,
            state,
            m1,
            m2,
            rule,
            keeps_of(rolls[i]@),
            q,
            stop_ev(state, m1, rolls[i]@, rule),
            None,
        );
    }
}

/// Growing the memo does not change a solved turn value over it.
proof fn lemma_turn_frame(
    rolls: Seq<RollCounts>,
    state: ScorecardState,
    m1: Map<ScorecardState, u64>,
    m2: Map<ScorecardState, u64>,
    rule: JokerRule,
    i: int,
)
    requires
        agree_on_successors(state, m1, m2, rolls, rule),
        0 <= i <= 252,
    ensures
        start_wsum(rolls, state, m1, rule, i) == start_wsum(rolls, state, m2, rule, i),
    decreases 252 - i,
{
    if i < 252 {
        lemma_dice_frame(rolls, state, m1, m2, rule, i, 2);
        lemma_turn_frame(rolls, state, m1, m2, rule, i + 1);
    }
}

/// A grown memo agrees with the original on every turn value the original
/// already grounds.
proof fn lemma_turn_frame_base(
    rolls: Seq<RollCounts>,
    state: ScorecardState,
    m1: Map<ScorecardState, u64>,
    m2: Map<ScorecardState, u64>,
    rule: JokerRule,
)
    requires
        map_extends(m1, m2),
        successors_present(state, m1, rolls, rule),
    ensures
        turn_ev(rolls, state, m1, rule) == turn_ev(rolls, state, m2, rule),
{
    assert forall|i: int, c: ScoreCategory|
        0 <= i < 252 && state.is_valid_category(rolls[i]@, rule, c) implies {
        let next = #[trigger] successor_state(state, rolls[i]@, c);
        !next.is_terminal_spec() ==> m1.contains_key(next) && m2.contains_key(next) && m1[next]
            == m2[next]
    } by {
        assert(present_one(state, m1, rolls[i]@, c));
    }
    lemma_turn_frame(rolls, state, m1, m2, rule, 0);
}

/// Bellman-consistent memos agree wherever they are both solved: the memo a
/// solver returns is the unique solution on its domain.
pub proof fn lemma_consistent_unique(
    rolls: Seq<RollCounts>,
    m1: Map<ScorecardState, u64>,
    m2: Map<ScorecardState, u64>,
    rule: JokerRule,
    state: ScorecardState,
)
    requires
        memo_consistent(m1, rolls, rule),
        memo_consistent(m2, rolls, rule),
        m1.contains_key(state),
        m2.contains_key(state),
    ensures
        m1[state] == m2[state],
    decreases state.unscored_count(),
{
    assert forall|i: int, c: ScoreCategory|
        0 <= i < 252 && state.is_valid_category(rolls[i]@, rule, c) implies {
        let next = #[trigger] successor_state(state, rolls[i]@, c);
        !next.is_terminal_spec() ==> m1.contains_key(next) && m2.contains_key(next) && m1[next]
            == m2[next]
    } by {
        assert(present_one(state, m1, rolls[i]@, c));
        assert(present_one(state, m2, rolls[i]@, c));
        let next = successor_state(state, rolls[i]@, c);
        if !next.is_terminal_spec() {
            let cs = score_value_spec(rolls[i]@, c, state.is_joker(rolls[i]@));
            if state.cat_state(c) == crate::types::ScoreCategoryState::Unscored {
                state.lemma_unscored_apply(c, cs as u8);
            }
            lemma_consistent_unique(rolls, m1, m2, rule, next);
        }
    }
    lemma_turn_frame(rolls, state, m1, m2, rule, 0);
    assert(turn_ev(rolls, state, m1, rule) == turn_ev(rolls, state, m2, rule));
}


/// Solves the scorecard MDP from `state` down: recursively solves every
/// scorecard state reachable from it, depth first, so that each state is
/// valued only after all its transition targets, and records each state's
/// turn value in the memo. The memo stays Bellman-consistent throughout.
pub fn solve_scorecard(
    tables: &Tables,
    state: &ScorecardState,
    memo: &mut MapMemo<ScorecardState, u64>,
    joker_rule: JokerRule,
)
    requires
        old(memo).obeys(),
        memo_consistent(old(memo).contents(), tables.rolls_seq(), joker_rule),
    ensures
        final(memo).obeys(),
        memo_consistent(final(memo).contents(), tables.rolls_seq(), joker_rule),
        map_extends(old(memo).contents(), final(memo).contents()),
        final(memo).contents().contains_key(*state),
        forall|s: ScorecardState| #[trigger]
            final(memo).contents().contains_key(s) ==> old(memo).contents().contains_key(s)
                || s.unscored_count() <= state.unscored_count(),
    decreases state.unscored_count(),
{
    let ghost rollsv = tables.rolls_seq();
    match memo.get(state) {
        Some(_) => {
            return ;
        },
        None => {},
    }
    if state.is_terminal() {
        let ghost before = memo.contents();
        memo.set(*state, 0);
        proof {
            state.lemma_terminal_unscored();
            assert forall|i: int, c: ScoreCategory|
                0 <= i < 252 && state.is_valid_category(rollsv[i]@, joker_rule, c)
                implies #[trigger] present_one(*state, memo.contents(), rollsv[i]@, c) by {
                assert(state.cat_state(c) != crate::types::ScoreCategoryState::Unscored);
                assert(state.cat_state(
                    index_category(crate::types::yahtzee_face(rollsv[i]@)),
                ) != crate::types::ScoreCategoryState::Unscored);
            }
            assert forall|s: ScorecardState| #[trigger]
                memo.contents().contains_key(s) implies {
                &&& memo.contents()[s] == turn_ev(rollsv, s, memo.contents(), joker_rule)
                &&& memo.contents()[s] <= 185 * s.unscored_count() * EV_SCALE
                &&& successors_present(s, memo.contents(), rollsv, joker_rule)
            } by {
                if s == *state {
                    assert(turn_ev(rollsv, s, memo.contents(), joker_rule) == 0);
                } else {
                    assert(before.contains_key(s));
                    assert(successors_present(s, before, rollsv, joker_rule));
                    lemma_turn_frame_base(rollsv, s, before, memo.contents(), joker_rule);
                    assert forall|i: int, c: ScoreCategory|
                        0 <= i < 252 && s.is_valid_category(rollsv[i]@, joker_rule, c)
                        implies #[trigger] present_one(s, memo.contents(), rollsv[i]@, c) by {
                        assert(present_one(s, before, rollsv[i]@, c));
                    }
                }
            }
        }
        return ;
    }
    let rolls = tables.enumerate_distinct_rolls();
    let ghost u = state.unscored_count();
    proof {
        state.lemma_terminal_unscored();
        state.lemma_unscored_le(0);
    }
    let mut i: usize = 0;
    while i < 252
        invariant
            0 <= i <= 252,
            rolls@ == rollsv,
            rollsv == tables.rolls_seq(),
            roll_table_ok(rollsv),
            u == state.unscored_count(),
            1 <= u <= 13,
            !state.is_terminal_spec(),
            memo.obeys(),
            memo_consistent(memo.contents(), rollsv, joker_rule),
            map_extends(old(memo).contents(), memo.contents()),
            forall|s: ScorecardState| #[trigger]
                memo.contents().contains_key(s) ==> old(memo).contents().contains_key(s)
                    || s.unscored_count() < u,
            forall|i2: int, c: ScoreCategory|
                0 <= i2 < i && state.is_valid_category(rollsv[i2]@, joker_rule, c)
                    ==> #[trigger] present_one(*state, memo.contents(), rollsv[i2]@, c),
        decreases 252 - i,
    {
        let roll = &rolls[i];
        let mut ci: usize = 0;
        while ci < 13
            invariant
                0 <= ci <= 13,
                0 <= i < 252,
                rolls@ == rollsv,
                rollsv == tables.rolls_seq(),
                roll_table_ok(rollsv),
                roll == &rolls@[i as int],
                u == state.unscored_count(),
                1 <= u <= 13,
                !state.is_terminal_spec(),
                memo.obeys(),
                memo_consistent(memo.contents(), rollsv, joker_rule),
                map_extends(old(memo).contents(), memo.contents()),
                forall|s: ScorecardState| #[trigger]
                    memo.contents().contains_key(s) ==> old(memo).contents().contains_key(s)
                        || s.unscored_count() < u,
                forall|i2: int, c: ScoreCategory|
                    0 <= i2 < i && state.is_valid_category(rollsv[i2]@, joker_rule, c)
                        ==> #[trigger] present_one(*state, memo.contents(), rollsv[i2]@, c),
                forall|c: ScoreCategory|
                    0 <= crate::types::category_index(c) < ci && state.is_valid_category(
                        rollsv[i as int]@,
                        joker_rule,
                        c,
                    ) ==> #[trigger] present_one(*state, memo.contents(), rollsv[i as int]@, c),
            decreases 13 - ci,
        {
            let c = crate::types::category_at(ci);
            match state.score_components(roll, c, joker_rule) {
                Ok((category_score, _bonus)) => {
                    proof {
                        crate::types::lemma_score_value_bound(
                            roll@,
                            c,
                            state.is_joker(roll@),
                        );
                        crate::types::lemma_category_roundtrip();
                    }
                    let next = match state.score(c, category_score) {
                        Ok(n) => n,
                        Err(_) => {
                            proof {
                                assert(false);
                            }
                            return ;
                        },
                    };
                    proof {
                        assert(next == successor_state(*state, roll@, c));
                        state.lemma_unscored_apply(c, category_score);
                    }
                    if !next.is_terminal() {
                        let ghost mid = memo.contents();
                        solve_scorecard(tables, &next, memo, joker_rule);
                        proof {
                            assert forall|i2: int, c2: ScoreCategory|
                                0 <= i2 < i && state.is_valid_category(
                                    rollsv[i2]@,
                                    joker_rule,
                                    c2,
                                ) implies #[trigger] present_one(
                                *state,
                                memo.contents(),
                                rollsv[i2]@,
                                c2,
                            ) by {
                                assert(present_one(*state, mid, rollsv[i2]@, c2));
                            }
                            assert forall|c2: ScoreCategory|
                                0 <= crate::types::category_index(c2) < ci
                                    && state.is_valid_category(
                                    rollsv[i as int]@,
                                    joker_rule,
                                    c2,
                                ) implies #[trigger] present_one(
                                *state,
                                memo.contents(),
                                rollsv[i as int]@,
                                c2,
                            ) by {
                                assert(present_one(*state, mid, rollsv[i as int]@, c2));
                            }
                            assert forall|s: ScorecardState| #[trigger]
                                memo.contents().contains_key(s) implies old(
                                memo,
                            ).contents().contains_key(s) || s.unscored_count() < u by {
                                if !mid.contains_key(s) {
                                    assert(s.unscored_count() <= next.unscored_count());
                                }
                            }
                        }
                    }
                },
                Err(_) => {},
            }
            proof {
                crate::types::lemma_category_roundtrip();
                assert forall|c2: ScoreCategory|
                    0 <= crate::types::category_index(c2) < ci + 1 && state.is_valid_category(
                        rollsv[i as int]@,
                        joker_rule,
                        c2,
                    ) implies #[trigger] present_one(
                    *state,
                    memo.contents(),
                    rollsv[i as int]@,
                    c2,
                ) by {
                    if crate::types::category_index(c2) == ci {
                        assert(c2 == c);
                    }
                }
            }
            ci += 1;
        }
        i += 1;
    }
    proof {
        assert(successors_present(*state, memo.contents(), rollsv, joker_rule));
    }
    let ghost solved = memo.contents();
    let ghost b = 185 * (u - 1) * (EV_SCALE as int);
    proof {
        assert forall|i2: int, c: ScoreCategory|
            0 <= i2 < 252 && state.is_valid_category(rollsv[i2]@, joker_rule, c)
            implies #[trigger] covered_one(*state, solved, rollsv[i2]@, c, b) by {
            assert(present_one(*state, solved, rollsv[i2]@, c));
            let next = successor_state(*state, rollsv[i2]@, c);
            if !next.is_terminal_spec() {
                crate::types::lemma_score_value_bound(
                    rollsv[i2]@,
                    c,
                    state.is_joker(rollsv[i2]@),
                );
                state.lemma_unscored_apply(
                    c,
                    score_value_spec(rollsv[i2]@, c, state.is_joker(rollsv[i2]@)) as u8,
                );
                assert(solved[next] <= 185 * next.unscored_count() * EV_SCALE);
            }
        }
    }
    let (ev_memo, _policy) = dice_dp_inner(tables, state, &*memo, joker_rule, Ghost(b));
    let empty_keep = KeepCounts::empty();
    let row = tables.weight_row(&empty_keep);
    let rl2 = rolls_left_of(2);
    proof {
        assert(empty_keep@ =~= crate::combinatorics::zero6());
    }
    let mut total: u64 = 0;
    let mut j: usize = 0;
    proof {
        assert(row@.take(0) =~= Seq::<u64>::empty());
        assert(crate::combinatorics::sum64(Seq::<u64>::empty()) == 0);
    }
    while j < 252
        invariant
            0 <= j <= 252,
            rolls@ == rollsv,
            rollsv == tables.rolls_seq(),
            roll_table_ok(rollsv),
            u == state.unscored_count(),
            1 <= u <= 13,
            0 <= b == 185 * (u - 1) * (EV_SCALE as int) <= 2220 * EV_SCALE,
            memo.obeys(),
            solved == memo.contents(),
            ev_memo.obeys(),
            rl2 == RollsLeft::from_count(2),
            weight_row_ok(row@, rollsv, crate::combinatorics::zero6()),
            forall|i2: int, q2: int|
                0 <= i2 < 252 && 0 <= q2 < 3 ==> {
                    let d = #[trigger] dice_key(rollsv, i2, q2);
                    &&& ev_memo.contents().contains_key(d)
                    &&& ev_memo.contents()[d] == dice_ev(
                        rollsv,
                        *state,
                        solved,
                        joker_rule,
                        rollsv[i2]@,
                        q2 as nat,
                    )
                    &&& ev_memo.contents()[d] <= b + 185 * EV_SCALE
                },
            total + start_wsum(rollsv, *state, solved, joker_rule, j as int) == start_wsum(
                rollsv,
                *state,
                solved,
                joker_rule,
                0,
            ),
            total <= crate::combinatorics::sum64(row@.take(j as int)) * (b + 185 * EV_SCALE),
        decreases 252 - j,
    {
        let w = row[j];
        let dj = DiceState { roll_counts: rolls[j], rolls_left: rl2 };
        proof {
            assert(dj == dice_key(rollsv, j as int, 2));
        }
        let e: u64 = match ev_memo.get(&dj) {
            Some(v) => *v,
            None => {
                proof {
                    assert(false);
                }
                return ;
            },
        };
        proof {
            crate::combinatorics::lemma_sum64_split(row@.take(j + 1), j as int);
            assert(row@.take(j + 1).take(j as int) =~= row@.take(j as int));
            assert(row@.take(j + 1).skip(j as int) =~= seq![w]);
            assert(seq![w].drop_first() =~= Seq::<u64>::empty());
            assert(crate::combinatorics::sum64(Seq::<u64>::empty()) == 0);
            assert(crate::combinatorics::sum64(seq![w]) == w);
            crate::combinatorics::lemma_sum64_nonneg(row@.skip(j + 1));
            crate::combinatorics::lemma_sum64_nonneg(row@.take(j as int));
            assert(crate::combinatorics::sum64(row@.take(j + 1)) <= 7776) by {
                assert(crate::combinatorics::sum64(row@) == crate::combinatorics::sum64(
                    row@.take(j + 1),
                ) + crate::combinatorics::sum64(row@.skip(j + 1))) by {
                    crate::combinatorics::lemma_sum64_split(row@, j + 1);
                }
            }
            crate::combinatorics::lemma_sum64_element(row@, j as int);
            assert(w <= 7776);
            assert(w * e <= 7776 * (b + 185 * EV_SCALE)) by (nonlinear_arith)
                requires
                    0 <= w <= 7776,
                    0 <= e <= b + 185 * EV_SCALE,
            ;
            assert(w * e <= w * (b + 185 * EV_SCALE)) by (nonlinear_arith)
                requires
                    0 <= w,
                    0 <= e <= b + 185 * EV_SCALE,
            ;
            assert(total + w * e <= (crate::combinatorics::sum64(row@.take(j as int)) + w) * (b
                + 185 * EV_SCALE)) by (nonlinear_arith)
                requires
                    total <= crate::combinatorics::sum64(row@.take(j as int)) * (b + 185
                        * EV_SCALE),
                    w * e <= w * (b + 185 * EV_SCALE),
            ;
            assert((crate::combinatorics::sum64(row@.take(j as int)) + w) * (b + 185 * EV_SCALE)
                <= 7776 * (b + 185 * EV_SCALE)) by (nonlinear_arith)
                requires
                    0 <= crate::combinatorics::sum64(row@.take(j as int)) + w <= 7776,
                    0 <= b + 185 * EV_SCALE,
            ;
            assert(w == roll_weight(rollsv[j as int]@, crate::combinatorics::zero6()));
        }
        total = total + w * e;
        j += 1;
    }
    proof {
        assert(start_wsum(rollsv, *state, solved, joker_rule, 252) == 0);
        assert(total == start_wsum(rollsv, *state, solved, joker_rule, 0));
        assert(total <= 7776 * (b + 185 * EV_SCALE)) by {
            assert(row@.take(252) =~= row@);
            assert(crate::combinatorics::sum64(row@) == 7776);
            assert(total <= 7776 * (b + 185 * EV_SCALE)) by (nonlinear_arith)
                requires
                    total <= 7776 * (b + 185 * EV_SCALE),
            ;
        }
    }
    let ev = total / 7776;
    proof {
        vstd::arithmetic::div_mod::lemma_div_is_ordered(
            total as int,
            7776 * (b + 185 * EV_SCALE),
            7776,
        );
        vstd::arithmetic::div_mod::lemma_div_by_multiple(b + 185 * EV_SCALE, 7776);
        assert(ev <= b + 185 * EV_SCALE);
        assert(b + 185 * EV_SCALE == 185 * u * EV_SCALE) by (nonlinear_arith)
            requires
                b == 185 * (u - 1) * (EV_SCALE as int),
        ;
        assert(ev as int == turn_ev(rollsv, *state, solved, joker_rule));
    }
    let ghost before = memo.contents();
    memo.set(*state, ev);
    proof {
        assert(!before.contains_key(*state));
        assert forall|s: ScorecardState| #[trigger]
            memo.contents().contains_key(s) implies {
            &&& memo.contents()[s] == turn_ev(rollsv, s, memo.contents(), joker_rule)
            &&& memo.contents()[s] <= 185 * s.unscored_count() * EV_SCALE
            &&& successors_present(s, memo.contents(), rollsv, joker_rule)
        } by {
            if s == *state {
                lemma_turn_frame_base(rollsv, s, before, memo.contents(), joker_rule);
                assert forall|i2: int, c: ScoreCategory|
                    0 <= i2 < 252 && s.is_valid_category(rollsv[i2]@, joker_rule, c)
                    implies #[trigger] present_one(s, memo.contents(), rollsv[i2]@, c) by {
                    assert(present_one(s, before, rollsv[i2]@, c));
                }
            } else {
                assert(before.contains_key(s));
                assert(successors_present(s, before, rollsv, joker_rule));
                lemma_turn_frame_base(rollsv, s, before, memo.contents(), joker_rule);
                assert forall|i2: int, c: ScoreCategory|
                    0 <= i2 < 252 && s.is_valid_category(rollsv[i2]@, joker_rule, c)
                    implies #[trigger] present_one(s, memo.contents(), rollsv[i2]@, c) by {
                    assert(present_one(s, before, rollsv[i2]@, c));
                }
            }
        }
    }
}

/// Solves the scorecard MDP for the whole game: returns a Bellman-consistent
/// memo valuing every scorecard state reachable from the fresh card - the
/// global EV table of optimal play.
pub fn scorecard_dp(tables: &Tables, joker_rule: JokerRule) -> (m: MapMemo<ScorecardState, u64>)
    ensures
        m.obeys(),
        memo_consistent(m.contents(), tables.rolls_seq(), joker_rule),
        m.contents().contains_key(ScorecardState::fresh()),
{
    let mut memo: MapMemo<ScorecardState, u64> = MapMemo::new();
    let start = ScorecardState::default();
    solve_scorecard(tables, &start, &mut memo, joker_rule);
    memo
}

/// The solved expected value of optimal play from one scorecard state, in
/// fixed point: the value a Bellman-consistent memo assigns to it. A full
/// card is worth exactly zero.
pub fn scorecard_ev(tables: &Tables, state: &ScorecardState, joker_rule: JokerRule) -> (r: u64)
    ensures
        exists|m: Map<ScorecardState, u64>|
            memo_consistent(m, tables.rolls_seq(), joker_rule) && #[trigger] m.contains_key(
                *state,
            ) && m[*state] == r,
        state.is_terminal_spec() ==> r == 0,
{
    let mut memo: MapMemo<ScorecardState, u64> = MapMemo::new();
    solve_scorecard(tables, state, &mut memo, joker_rule);
    match memo.get(state) {
        Some(v) => {
            proof {
                if state.is_terminal_spec() {
                    assert(turn_ev(tables.rolls_seq(), *state, memo.contents(), joker_rule)
                        == 0);
                }
            }
            *v
        },
        None => {
            proof {
                assert(false);
            }
            0
        },
    }
}

} // verus!
