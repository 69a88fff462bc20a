//! Combinatorial kernel: factorials, binomial coefficients, the
//! stars-and-bars rank of a roll multiset, enumeration of distinct rolls and
//! keeps, and exact roll probabilities as integer weights over `6^5 = 7776`.

use vstd::prelude::*;

use crate::types::{
    lemma_sum8_element, lemma_sum8_le, lemma_sum8_nonneg, lemma_sum8_split, submultiset, sum8,
    valid_keep, valid_roll, KeepCounts, RollCounts,
};

verus! {

/// The number of distinct rolls of five dice over six faces: `C(10, 5)`.
pub const DISTINCT_ROLL_COUNTS: usize = 252;

/// The number of distinct keeps of at most five dice over six faces.
pub const DISTINCT_KEEP_COUNTS: usize = 462;

/// Factorial of `n`.
pub open spec fn fact(n: nat) -> nat
    decreases n,
{
    if n == 0 {
        1
    } else {
        n * fact((n - 1) as nat)
    }
}

/// Binomial coefficient `C(n, k)` by Pascal's rule.
pub open spec fn binom(n: nat, k: nat) -> nat
    decreases n, k,
{
    if k == 0 {
        1
    } else if n == 0 {
        0
    } else {
        binom((n - 1) as nat, (k - 1) as nat) + binom((n - 1) as nat, k)
    }
}

/// Powers of two, used only to bound small binomials.
pub open spec fn pow2(n: nat) -> nat
    decreases n,
{
    if n == 0 {
        1
    } else {
        2 * pow2((n - 1) as nat)
    }
}

/// Powers of six, the denominators of roll probabilities.
pub open spec fn pow6(n: nat) -> nat
    decreases n,
{
    if n == 0 {
        1
    } else {
        6 * pow6((n - 1) as nat)
    }
}

/// `C(n, k)` vanishes above the diagonal.
pub proof fn lemma_binom_above(n: nat, k: nat)
    requires
        k > n,
    ensures
        binom(n, k) == 0,
    decreases n,
{
    if n > 0 {
        lemma_binom_above((n - 1) as nat, (k - 1) as nat);
        lemma_binom_above((n - 1) as nat, k);
    }
}

/// `C(n, n)` is one.
pub proof fn lemma_binom_diag(n: nat)
    ensures
        binom(n, n) == 1,
    decreases n,
{
    if n > 0 {
        lemma_binom_diag((n - 1) as nat);
        lemma_binom_above((n - 1) as nat, n);
    }
}

/// Every binomial in row `n` is at most `2^n`.
pub proof fn lemma_binom_le_pow2(n: nat, k: nat)
    ensures
        binom(n, k) <= pow2(n),
        pow2(n) >= 1,
    decreases n,
{
    if n == 0 {
    } else if k == 0 {
        lemma_binom_le_pow2((n - 1) as nat, 0);
    } else {
        lemma_binom_le_pow2((n - 1) as nat, (k - 1) as nat);
        lemma_binom_le_pow2((n - 1) as nat, k);
    }
}

/// Binomial coefficient as executable code, by Pascal's triangle.
pub fn binom_exec(n: u64, k: u64) -> (r: u64)
    requires
        n <= 10,
    ensures
        r == binom(n as nat, k as nat),
{
    if k > n {
        proof {
            lemma_binom_above(n as nat, k as nat);
        }
        return 0;
    }
    let mut row: Vec<u64> = Vec::new();
    row.push(1);
    let mut m: u64 = 0;
    while m < n
        invariant
            0 <= m <= n <= 10,
            row@.len() == m + 1,
            forall|j: int| 0 <= j <= m ==> row@[j] == binom(m as nat, j as nat),
        decreases n - m,
    {
        let mut next: Vec<u64> = Vec::new();
        next.push(1);
        let mut j: usize = 1;
        while j <= m as usize
            invariant
                1 <= j <= m + 1,
                m < n <= 10,
                row@.len() == m + 1,
                forall|jj: int| 0 <= jj <= m ==> row@[jj] == binom(m as nat, jj as nat),
                next@.len() == j,
                forall|jj: int| 0 <= jj < j ==> next@[jj] == binom((m + 1) as nat, jj as nat),
            decreases m + 1 - j,
        {
            proof {
                lemma_binom_le_pow2(m as nat, (j - 1) as nat);
                lemma_binom_le_pow2(m as nat, j as nat);
                lemma_pow2_mono(m as nat, 10);
            }
            let v: u64 = row[j - 1] + row[j];
            next.push(v);
            j += 1;
        }
        proof {
            lemma_binom_above(m as nat, (m + 1) as nat);
            lemma_binom_diag(m as nat);
            assert(binom((m + 1) as nat, (m + 1) as nat) == 1);
        }
        next.push(1);
        row = next;
        m += 1;
    }
    row[k as usize]
}

/// `2^n` grows with `n`.
proof fn lemma_pow2_mono(a: nat, b: nat)
    requires
        a <= b,
    ensures
        pow2(a) <= pow2(b),
        pow2(b) <= pow2(10) ==> pow2(b) <= 1024,
    decreases b,
{
    if a < b {
        lemma_pow2_mono(a, (b - 1) as nat);
    }
    assert(pow2(10) == 1024) by {
        assert(pow2(0) == 1);
        assert(pow2(1) == 2);
        assert(pow2(2) == 4);
        assert(pow2(3) == 8);
        assert(pow2(4) == 16);
        assert(pow2(5) == 32);
        assert(pow2(6) == 64);
        assert(pow2(7) == 128);
        assert(pow2(8) == 256);
        assert(pow2(9) == 512);
    }
}

/// Counts the distinct keeps by summing, over each number of kept dice, the
/// multisets of that many dice over six faces.
pub fn compute_distinct_keep_counts() -> (n: usize)
    ensures
        n == DISTINCT_KEEP_COUNTS,
{
    let mut counts: u64 = 0;
    let mut n_kept: u64 = 0;
    while n_kept <= 5
        invariant
            n_kept <= 6,
            counts == keep_size_sum(n_kept as nat),
            counts <= 462,
        decreases 6 - n_kept,
    {
        proof {
            lemma_keep_size_sum_values();
        }
        counts += binom_exec(n_kept + 5, n_kept);
        n_kept += 1;
    }
    proof {
        lemma_keep_size_sum_values();
    }
    counts as usize
}

/// Partial sums of the keep counts: multisets of fewer than `n` dice.
spec fn keep_size_sum(n: nat) -> nat
    decreases n,
{
    if n == 0 {
        0
    } else {
        keep_size_sum((n - 1) as nat) + binom((n - 1 + 5) as nat, (n - 1) as nat)
    }
}

/// The keep counts sum to 462 over the six possible kept-dice numbers.
proof fn lemma_keep_size_sum_values()
    ensures
        keep_size_sum(0) == 0,
        keep_size_sum(1) == 1,
        keep_size_sum(2) == 7,
        keep_size_sum(3) == 28,
        keep_size_sum(4) == 84,
        keep_size_sum(5) == 210,
        keep_size_sum(6) == 462,
{
    assert(binom(5, 0) == 1);
    assert(binom(6, 1) == 6) by {
        reveal_with_fuel(binom, 8);
    }
    assert(binom(7, 2) == 21) by {
        reveal_with_fuel(binom, 9);
    }
    assert(binom(8, 3) == 56) by {
        reveal_with_fuel(binom, 10);
    }
    assert(binom(9, 4) == 126) by {
        reveal_with_fuel(binom, 11);
    }
    assert(binom(10, 5) == 252) by {
        reveal_with_fuel(binom, 12);
    }
}

/// Factorial as executable code, for every value that fits a machine word.
pub fn factorial(n: u64) -> (r: u64)
    requires
        n <= 20,
    ensures
        r == fact(n as nat),
{
    proof {
        assert(fact(0) == 1);
        assert(fact(1) == 1 * fact(0));
    }
    let mut ans: u64 = 1;
    let mut i: u64 = 1;
    while i < n
        invariant
            n <= 20,
            1 <= i <= if n == 0 {
                1u64
            } else {
                n
            },
            ans == fact(i as nat),
            ans <= 2432902008176640000,
        decreases n - i,
    {
        proof {
            lemma_fact_le_20((i + 1) as nat);
            assert(fact((i + 1) as nat) == (i + 1) * fact(i as nat));
            assert(ans * (i + 1) == fact((i + 1) as nat)) by (nonlinear_arith)
                requires
                    ans == fact(i as nat),
                    fact((i + 1) as nat) == (i + 1) * fact(i as nat),
            ;
        }
        ans = ans * (i + 1);
        i += 1;
    }
    proof {
        assert(fact(0) == 1);
        assert(fact(1) == 1 * fact(0));
    }
    ans
}

/// Factorials up to 20 fit in a machine word.
proof fn lemma_fact_le_20(n: nat)
    requires
        n <= 20,
    ensures
        fact(n) <= 2432902008176640000,
{
    lemma_fact_mono(n, 20);
    assert(fact(0) == 1);
    assert(fact(1) == 1);
    assert(fact(2) == 2);
    assert(fact(3) == 6);
    assert(fact(4) == 24);
    assert(fact(5) == 120);
    assert(fact(6) == 720);
    assert(fact(7) == 5040);
    assert(fact(8) == 40320);
    assert(fact(9) == 362880);
    assert(fact(10) == 3628800);
    assert(fact(11) == 39916800);
    assert(fact(12) == 479001600);
    assert(fact(13) == 6227020800);
    assert(fact(14) == 87178291200);
    assert(fact(15) == 1307674368000);
    assert(fact(16) == 20922789888000);
    assert(fact(17) == 355687428096000);
    assert(fact(18) == 6402373705728000);
    assert(fact(19) == 121645100408832000);
    assert(fact(20) == 2432902008176640000);
}

/// Factorial is weakly monotone.
pub proof fn lemma_fact_mono(a: nat, b: nat)
    requires
        a <= b,
    ensures
        fact(a) <= fact(b),
    decreases b,
{
    if a < b {
        lemma_fact_mono(a, (b - 1) as nat);
        lemma_fact_grows(b);
        assert(fact(b) == b * fact((b - 1) as nat));
        assert(b * fact((b - 1) as nat) >= 1 * fact((b - 1) as nat)) by (nonlinear_arith)
            requires
                b >= 1,
                fact((b - 1) as nat) >= 0,
        ;
    }
}

/// Factorial is at least one and weakly monotone step by step.
proof fn lemma_fact_grows(n: nat)
    ensures
        fact(n) >= 1,
        n >= 1 ==> fact(n) >= fact((n - 1) as nat),
    decreases n,
{
    if n >= 1 {
        lemma_fact_grows((n - 1) as nat);
        assert(fact(n) == n * fact((n - 1) as nat));
        assert(n * fact((n - 1) as nat) >= 1 * fact((n - 1) as nat)) by (nonlinear_arith)
            requires
                n >= 1,
                fact((n - 1) as nat) >= 1,
        ;
    }
}

/// The first `n` rows of a binomial table are correct and 11 wide.
pub open spec fn binom_table_ok(t: Seq<Vec<u64>>, n: int) -> bool {
    forall|m: int, k: int|
        0 <= m < n && 0 <= k < 11 ==> #[trigger] t[m]@[k] == binom(m as nat, k as nat)
            && t[m]@.len() == 11
}

/// Pascal's triangle for `C(n, k)` with `n, k` up to 10, row by row.
pub fn make_binom() -> (t: Vec<Vec<u64>>)
    ensures
        t@.len() == 11,
        binom_table_ok(t@, 11),
{
    let mut t: Vec<Vec<u64>> = Vec::new();
    let mut n: u64 = 0;
    while n < 11
        invariant
            0 <= n <= 11,
            t@.len() == n,
            binom_table_ok(t@, n as int),
        decreases 11 - n,
    {
        let mut row: Vec<u64> = Vec::new();
        let mut k: u64 = 0;
        while k < 11
            invariant
                0 <= k <= 11,
                n <= 10,
                row@.len() == k,
                forall|j: int| 0 <= j < k ==> row@[j] == binom(n as nat, j as nat),
            decreases 11 - k,
        {
            row.push(binom_exec(n, k));
            k += 1;
        }
        let ghost row_view = row@;
        let ghost t_before = t@;
        t.push(row);
        proof {
            assert(t@[n as int]@ == row_view);
            assert forall|m: int, k: int|
                0 <= m < n + 1 && 0 <= k < 11 implies #[trigger] t@[m]@[k] == binom(
                m as nat,
                k as nat,
            ) && t@[m]@.len() == 11 by {
                if m < n {
                    assert(t@[m] == t_before[m]);
                    assert(binom_table_ok(t_before, n as int));
                    assert(t_before[m]@[k] == binom(m as nat, k as nat));
                } else {
                    assert(t@[m]@ == row_view);
                }
            }
        }
        n += 1;
    }
    t
}


/// Contribution of one face to the stars-and-bars rank: placing `c` dice one
/// by one with `d` dice still unplaced and `l` faces after this one, the
/// `i`-th die adds `C(d - i + l - 1, l - 1)`.
pub open spec fn face_contrib(d: nat, c: nat, l: nat) -> nat
    decreases c,
{
    if c == 0 {
        0
    } else {
        binom((d + l - 1) as nat, (l - 1) as nat) + if d == 0 {
            0
        } else {
            face_contrib((d - 1) as nat, (c - 1) as nat, l)
        }
    }
}

/// Stars-and-bars rank contribution of faces `f` and later, with `d` dice
/// not yet placed before face `f`.
pub open spec fn rank_from(s: Seq<u8>, f: int, d: nat) -> nat
    decreases 6 - f,
{
    if f < 0 || f >= 5 {
        0
    } else {
        face_contrib(d, s[f] as nat, (5 - f) as nat) + rank_from(
            s,
            f + 1,
            if s[f] as nat <= d {
                (d - s[f]) as nat
            } else {
                0
            },
        )
    }
}

/// The stars-and-bars rank of a roll multiset: a bijection between valid
/// rolls and the integers `0 .. 252`.
pub open spec fn rank_spec(s: Seq<u8>) -> nat {
    rank_from(s, 0, 5)
}

/// Extending a face contribution by one more die appends the next binomial.
proof fn lemma_face_contrib_snoc(d: nat, c: nat, l: nat)
    requires
        c <= d,
        l >= 1,
    ensures
        face_contrib(d, (c + 1) as nat, l) == face_contrib(d, c, l) + binom(
            (d - c + l - 1) as nat,
            (l - 1) as nat,
        ),
    decreases c,
{
    if c == 0 {
        assert(face_contrib(d, 1, l) == binom((d + l - 1) as nat, (l - 1) as nat) + if d == 0 {
            0nat
        } else {
            face_contrib((d - 1) as nat, 0, l)
        });
        assert(face_contrib(d, 0, l) == 0);
        if d > 0 {
            assert(face_contrib((d - 1) as nat, 0, l) == 0);
        }
    } else {
        lemma_face_contrib_snoc((d - 1) as nat, (c - 1) as nat, l);
        assert(face_contrib(d, (c + 1) as nat, l) == binom((d + l - 1) as nat, (l - 1) as nat)
            + face_contrib((d - 1) as nat, c, l));
        assert(face_contrib(d, c, l) == binom((d + l - 1) as nat, (l - 1) as nat) + face_contrib(
            (d - 1) as nat,
            (c - 1) as nat,
            l,
        ));
    }
}

/// The hockey-stick identity: placing all `d` dice on one face sweeps out
/// every multiset of `d` dice over `l + 1` faces but the first.
proof fn lemma_hockey(d: nat, l: nat)
    requires
        l >= 1,
    ensures
        face_contrib(d, d, l) + 1 == binom((d + l) as nat, l),
    decreases d,
{
    if d == 0 {
        lemma_binom_diag(l);
    } else {
        lemma_hockey((d - 1) as nat, l);
    }
}

/// A face contribution grows with the number of dice placed.
proof fn lemma_face_contrib_mono(d: nat, c1: nat, c2: nat, l: nat)
    requires
        c1 <= c2 <= d + 1,
        l >= 1,
    ensures
        face_contrib(d, c1, l) <= face_contrib(d, c2, l),
    decreases c1,
{
    if c1 > 0 && d > 0 {
        lemma_face_contrib_mono((d - 1) as nat, (c1 - 1) as nat, (c2 - 1) as nat, l);
    }
}

/// No face contribution outgrows the count of multisets it selects from.
proof fn lemma_face_contrib_le(d: nat, c: nat, l: nat)
    requires
        c <= d + 1,
        l >= 1,
    ensures
        face_contrib(d, c, l) <= binom((d + l) as nat, l),
{
    lemma_face_contrib_mono(d, c, (d + 1) as nat, l);
    lemma_face_contrib_snoc(d, d, l);
    lemma_binom_diag((l - 1) as nat);
    lemma_hockey(d, l);
}

/// The rank contribution of a suffix stays below the count of multisets the
/// suffix ranges over.
proof fn lemma_rank_from_bound(s: Seq<u8>, f: int, d: nat)
    requires
        s.len() == 6,
        0 <= f <= 5,
        d == sum8(s.skip(f)),
    ensures
        rank_from(s, f, d) < binom((d + 5 - f) as nat, (5 - f) as nat),
    decreases 5 - f,
{
    if f == 5 {
        assert(rank_from(s, f, d) == 0);
        assert(binom((d + 0) as nat, 0) == 1);
    } else {
        let c = s[f] as nat;
        let l = (5 - f) as nat;
        assert(s.skip(f)[0] == s[f]);
        lemma_sum8_element(s.skip(f), 0);
        lemma_sum8_nonneg(s.skip(f).drop_first());
        assert(s.skip(f).drop_first() =~= s.skip(f + 1));
        assert(d == s[f] + sum8(s.skip(f + 1)));
        lemma_rank_from_bound(s, f + 1, (d - c) as nat);
        lemma_face_contrib_snoc(d, c, l);
        lemma_face_contrib_le(d, (c + 1) as nat, l);
    }
}

/// The rank of a valid roll lies below 252.
pub proof fn lemma_rank_spec_bound(s: Seq<u8>)
    requires
        valid_roll(s),
    ensures
        rank_spec(s) < 252,
{
    assert(s.skip(0) =~= s);
    lemma_rank_from_bound(s, 0, 5);
    lemma_binom_10_5();
}

/// `C(10, 5) == 252`, the number of multisets of five dice over six faces.
pub proof fn lemma_binom_10_5()
    ensures
        binom(10, 5) == 252,
{
    assert(binom(10, 5) == 252) by {
        reveal_with_fuel(binom, 12);
    }
}

/// Suffixes that differ somewhere have different rank contributions.
proof fn lemma_rank_from_ne(s: Seq<u8>, t: Seq<u8>, f: int, d: nat)
    requires
        s.len() == 6,
        t.len() == 6,
        0 <= f <= 5,
        d == sum8(s.skip(f)),
        d == sum8(t.skip(f)),
        exists|j: int| f <= j < 6 && s[j] != t[j],
    ensures
        rank_from(s, f, d) != rank_from(t, f, d),
    decreases 5 - f,
{
    assert(s.skip(f)[0] == s[f]);
    assert(t.skip(f)[0] == t[f]);
    lemma_sum8_element(s.skip(f), 0);
    lemma_sum8_element(t.skip(f), 0);
    assert(s.skip(f).drop_first() =~= s.skip(f + 1));
    assert(t.skip(f).drop_first() =~= t.skip(f + 1));
    lemma_sum8_nonneg(s.skip(f + 1));
    lemma_sum8_nonneg(t.skip(f + 1));
    assert(d == s[f] + sum8(s.skip(f + 1)));
    assert(d == t[f] + sum8(t.skip(f + 1)));
    if f == 5 {
        assert(s.skip(5).drop_first() =~= Seq::<u8>::empty());
        assert(s[5] == d && t[5] == d);
        let j = choose|j: int| f <= j < 6 && s[j] != t[j];
        assert(false);
    } else {
        let l = (5 - f) as nat;
        let cs = s[f] as nat;
        let ct = t[f] as nat;
        if cs == ct {
            let j = choose|j: int| f <= j < 6 && s[j] != t[j];
            assert(f + 1 <= j < 6 && s[j] != t[j]);
            lemma_rank_from_ne(s, t, f + 1, (d - cs) as nat);
        } else if cs < ct {
            lemma_rank_from_bound(s, f + 1, (d - cs) as nat);
            lemma_face_contrib_snoc(d, cs, l);
            lemma_face_contrib_mono(d, (cs + 1) as nat, ct, l);
            assert(rank_from(s, f, d) < face_contrib(d, (cs + 1) as nat, l));
            assert(rank_from(t, f, d) >= face_contrib(d, ct, l));
        } else {
            lemma_rank_from_bound(t, f + 1, (d - ct) as nat);
            lemma_face_contrib_snoc(d, ct, l);
            lemma_face_contrib_mono(d, (ct + 1) as nat, cs, l);
            assert(rank_from(t, f, d) < face_contrib(d, (ct + 1) as nat, l));
            assert(rank_from(s, f, d) >= face_contrib(d, cs, l));
        }
    }
}

/// The rank is injective: distinct valid rolls have distinct ranks.
pub proof fn lemma_rank_injective(s: Seq<u8>, t: Seq<u8>)
    requires
        valid_roll(s),
        valid_roll(t),
        s != t,
    ensures
        rank_spec(s) != rank_spec(t),
{
    if forall|j: int| 0 <= j < 6 ==> s[j] == t[j] {
        assert(s =~= t);
    } else {
        assert(s.skip(0) =~= s);
        assert(t.skip(0) =~= t);
        lemma_rank_from_ne(s, t, 0, 5);
    }
}

impl RollCounts {
    /// The stars-and-bars rank of this roll: an integer below 252, distinct
    /// for distinct rolls, and matching the position of this roll in the
    /// canonical enumeration of distinct rolls.
    pub fn rank(&self) -> (r: usize)
        ensures
            r == rank_spec(self@),
            r < 252,
            valid_roll(self@),
    {
        let counts = self.roll_counts();
        proof {
            lemma_rank_spec_bound(self@);
            assert(self@.skip(0) =~= self@);
        }
        let mut rank_acc: u64 = 0;
        let mut dice_remaining: u64 = 5;
        let mut face: usize = 0;
        while face < 5
            invariant
                0 <= face <= 5,
                valid_roll(self@),
                counts@ == self@,
                dice_remaining == sum8(self@.skip(face as int)),
                0 <= dice_remaining <= 5,
                rank_acc + rank_from(self@, face as int, dice_remaining as nat) == rank_spec(
                    self@,
                ),
                rank_spec(self@) < 252,
            decreases 5 - face,
        {
            let count = counts[face];
            proof {
                assert(self@.skip(face as int)[0] == self@[face as int]);
                lemma_sum8_element(self@.skip(face as int), 0);
                assert(self@.skip(face as int).drop_first() =~= self@.skip(face as int + 1));
                lemma_sum8_nonneg(self@.skip(face as int + 1));
                assert(dice_remaining == self@[face as int] + sum8(self@.skip(face as int + 1)));
            }
            let mut i: u64 = 0;
            while i < count as u64
                invariant
                    0 <= i <= count,
                    0 <= face < 5,
                    valid_roll(self@),
                    counts@ == self@,
                    count == self@[face as int],
                    dice_remaining == sum8(self@.skip(face as int)),
                    count <= dice_remaining <= 5,
                    rank_acc + face_contrib(
                        (dice_remaining - i) as nat,
                        (count - i) as nat,
                        (5 - face) as nat,
                    ) + rank_from(
                        self@,
                        face as int + 1,
                        (dice_remaining - count) as nat,
                    ) == rank_spec(self@),
                    rank_spec(self@) < 252,
                decreases count - i,
            {
                let dice_left = dice_remaining - i;
                let faces_left: u64 = 5 - face as u64;
                let b = binom_exec(dice_left + faces_left - 1, faces_left - 1);
                proof {
                    assert(face_contrib(
                        (dice_remaining - i) as nat,
                        (count - i) as nat,
                        (5 - face) as nat,
                    ) == binom(
                        (dice_left + faces_left - 1) as nat,
                        (faces_left - 1) as nat,
                    ) + face_contrib(
                        (dice_remaining - i - 1) as nat,
                        (count - i - 1) as nat,
                        (5 - face) as nat,
                    ));
                }
                rank_acc = rank_acc + b;
                i += 1;
            }
            proof {
                assert(rank_from(self@, face as int, dice_remaining as nat) == face_contrib(
                    dice_remaining as nat,
                    count as nat,
                    (5 - face) as nat,
                ) + rank_from(self@, face as int + 1, (dice_remaining - count as u64) as nat));
            }
            dice_remaining = dice_remaining - count as u64;
            face += 1;
        }
        proof {
            assert(rank_from(self@, 5, dice_remaining as nat) == 0);
        }
        rank_acc as usize
    }
}


/// Product of the factorials of the first `i` entries.
pub open spec fn fact_product_take(d: Seq<u8>, i: int) -> nat
    decreases i,
{
    if i <= 0 {
        1
    } else {
        fact_product_take(d, i - 1) * fact(d[i - 1] as nat)
    }
}

/// The multinomial numerator for rerolled counts `d`: the number of ordered
/// die sequences realising the multiset, `n! / (d[0]! ... d[5]!)` with
/// `n = sum(d)`.
pub open spec fn multinom_num(d: Seq<u8>) -> nat {
    fact(sum8(d) as nat) / fact_product_take(d, 6)
}

/// The per-face counts of the dice rerolled: the roll minus the keep.
pub open spec fn diff6(r: Seq<u8>, k: Seq<u8>) -> Seq<u8> {
    Seq::new(6, |i: int| (r[i] - k[i]) as u8)
}

/// The probability weight of rolling `r` when keeping `k`, as a numerator
/// over the common denominator `6^5 = 7776`: zero unless `k` is a
/// submultiset of `r`, and otherwise the multinomial count of the rerolled
/// dice scaled by `6^|k|`.
pub open spec fn roll_weight(r: Seq<u8>, k: Seq<u8>) -> nat {
    if submultiset(k, r) {
        multinom_num(diff6(r, k)) * pow6(sum8(k) as nat)
    } else {
        0
    }
}

/// Sum of six per-face counts, as executable code.
pub fn count_sum(counts: &[u8; 6]) -> (s: u64)
    ensures
        s == sum8(counts@),
{
    let mut sum: u64 = 0;
    let mut j: usize = 0;
    while j < 6
        invariant
            0 <= j <= 6,
            sum == sum8(counts@.take(j as int)),
            sum <= 255 * j,
        decreases 6 - j,
    {
        proof {
            lemma_sum8_split(counts@.take(j + 1), j as int);
            assert(counts@.take(j + 1).take(j as int) =~= counts@.take(j as int));
            assert(counts@.take(j + 1).skip(j as int) =~= seq![counts@[j as int]]);
            assert(seq![counts@[j as int]].drop_first() =~= Seq::<u8>::empty());
            assert(sum8(Seq::<u8>::empty()) == 0);
            assert(sum8(seq![counts@[j as int]]) == counts@[j as int]);
        }
        sum += counts[j] as u64;
        j += 1;
    }
    proof {
        assert(counts@.take(6) =~= counts@);
    }
    sum
}

impl RollCounts {
    /// The probability weight, over the denominator 7776, of rolling this
    /// multiset fresh with all five dice.
    pub fn p_roll(&self) -> (w: u64)
        ensures
            w == roll_weight(self@, Seq::new(6, |i: int| 0u8)),
    {
        let zero_keep = KeepCounts::empty();
        proof {
            assert(zero_keep@ =~= Seq::new(6, |i: int| 0u8));
        }
        self.p_roll_given_keep(&zero_keep)
    }

    /// The probability weight, over the denominator 7776, of ending at this
    /// multiset after keeping `keep_counts` and rerolling the rest.
    pub fn p_roll_given_keep(&self, keep_counts: &KeepCounts) -> (w: u64)
        ensures
            w == roll_weight(self@, keep_counts@),
            w <= 933120,
    {
        let to_reroll = match self.subtract(keep_counts) {
            Ok(d) => d,
            Err(_) => {
                return 0;
            },
        };
        let reroll_counts = to_reroll.keep_counts();
        proof {
            assert(to_reroll@ =~= Seq::new(6, |i: int| (self@[i] - keep_counts@[i]) as u8));
        }
        let n = count_sum(reroll_counts);
        proof {
            lemma_sum8_nonneg(to_reroll@);
        }
        let numerator = factorial(n);
        let mut denominator: u64 = 1;
        let mut j: usize = 0;
        while j < 6
            invariant
                0 <= j <= 6,
                reroll_counts@ == to_reroll@,
                valid_keep(to_reroll@),
                denominator == fact_product_take(to_reroll@, j as int),
                1 <= denominator <= pow120(j as nat),
                pow120(j as nat) <= 2985984000000,
            decreases 6 - j,
        {
            proof {
                lemma_sum8_element(to_reroll@, j as int);
                lemma_fact_mono(to_reroll@[j as int] as nat, 5);
                lemma_pow120_le((j + 1) as nat);
                assert(fact(5) == 120) by {
                    reveal_with_fuel(fact, 7);
                }
                assert(pow120((j + 1) as nat) == 120 * pow120(j as nat));
                assert(1 <= denominator * fact(to_reroll@[j as int] as nat) <= pow120(j as nat)
                    * 120) by (nonlinear_arith)
                    requires
                        1 <= denominator <= pow120(j as nat),
                        1 <= fact(to_reroll@[j as int] as nat) <= 120,
                ;
            }
            let f = factorial(reroll_counts[j] as u64);
            denominator = denominator * f;
            j += 1;
        }
        proof {
            vstd::arithmetic::div_mod::lemma_div_nonincreasing(numerator as int, denominator as int);
            lemma_fact_mono(sum8(to_reroll@) as nat, 5);
            assert(fact(5) == 120) by {
                reveal_with_fuel(fact, 7);
            }
        }
        let base = numerator / denominator;
        let keep_arr = keep_counts.keep_counts();
        let keep_total = count_sum(keep_arr);
        let scale = pow6_exec(keep_total);
        proof {
            assert(base * scale <= 120 * 7776) by (nonlinear_arith)
                requires
                    0 <= base <= 120,
                    0 <= scale <= 7776,
            ;
            assert(submultiset(keep_counts@, self@));
        }
        base * scale
    }
}

/// `6^n` as executable code, for `n` at most five.
pub fn pow6_exec(n: u64) -> (r: u64)
    requires
        n <= 5,
    ensures
        r == pow6(n as nat),
        r <= 7776,
{
    let mut r: u64 = 1;
    let mut i: u64 = 0;
    while i < n
        invariant
            0 <= i <= n <= 5,
            r == pow6(i as nat),
            r <= 7776,
        decreases n - i,
    {
        proof {
            lemma_pow6_le(
                (i + 1) as nat,
            );
        }
        r = r * 6;
        i += 1;
    }
    r
}

/// `6^n` stays within the turn denominator for `n` at most five.
proof fn lemma_pow6_le(n: nat)
    requires
        n <= 5,
    ensures
        pow6(n) <= 7776,
        pow6(n) >= 1,
{
    assert(pow6(0) == 1);
    assert(pow6(1) == 6);
    assert(pow6(2) == 36);
    assert(pow6(3) == 216);
    assert(pow6(4) == 1296);
    assert(pow6(5) == 7776);
}

/// Powers of 120, bounding partial products of small factorials.
spec fn pow120(n: nat) -> nat
    decreases n,
{
    if n == 0 {
        1
    } else {
        120 * pow120((n - 1) as nat)
    }
}

/// `120^n` for `n` at most six stays within a machine word.
proof fn lemma_pow120_le(n: nat)
    requires
        n <= 6,
    ensures
        1 <= pow120(n) <= 2985984000000,
{
    assert(pow120(0) == 1);
    assert(pow120(1) == 120);
    assert(pow120(2) == 14400);
    assert(pow120(3) == 1728000);
    assert(pow120(4) == 207360000);
    assert(pow120(5) == 24883200000);
    assert(pow120(6) == 2985984000000);
}


/// All submultisets of `roll` that agree with `prefix` below `face`, varying
/// the faces from `face` on: the canonical enumeration of valid keeps.
pub open spec fn sub_comps(roll: Seq<u8>, prefix: Seq<u8>, face: int) -> Seq<Seq<u8>>
    decreases 6 - face, 1int, 0int,
{
    if face < 0 || face >= 6 {
        seq![prefix]
    } else {
        sub_comps_from(roll, prefix, face, 0)
    }
}

/// The part of `sub_comps` whose count at `face` is at least `v`.
pub open spec fn sub_comps_from(roll: Seq<u8>, prefix: Seq<u8>, face: int, v: int) -> Seq<
    Seq<u8>,
>
    decreases 6 - face, 0int, roll[face] - v + 1,
{
    if face < 0 || face >= 6 || v < 0 || v > roll[face] {
        Seq::empty()
    } else {
        sub_comps(roll, prefix.update(face, v as u8), face + 1) + sub_comps_from(
            roll,
            prefix,
            face,
            v + 1,
        )
    }
}

/// Product `(roll[face] + 1) * ... * (roll[5] + 1)`: how many keeps extend a
/// prefix at `face`.
pub open spec fn keep_product_from(roll: Seq<u8>, face: int) -> nat
    decreases 6 - face,
{
    if face < 0 || face >= 6 {
        1
    } else {
        ((roll[face] + 1) * keep_product_from(roll, face + 1)) as nat
    }
}

/// The number of submultisets of a roll: the product over its faces of one
/// more than each count.
pub open spec fn keep_count_product(roll: Seq<u8>) -> nat {
    keep_product_from(roll, 0)
}

/// Every enumerated keep extends the prefix and stays below the roll.
proof fn lemma_sub_comps_sound(roll: Seq<u8>, prefix: Seq<u8>, face: int)
    requires
        roll.len() == 6,
        prefix.len() == 6,
        0 <= face <= 6,
    ensures
        forall|m: int|
            0 <= m < sub_comps(roll, prefix, face).len() ==> {
                let e = #[trigger] sub_comps(roll, prefix, face)[m];
                &&& e.len() == 6
                &&& forall|i: int| 0 <= i < face ==> e[i] == prefix[i]
                &&& forall|i: int| face <= i < 6 ==> e[i] <= roll[i]
            },
    decreases 6 - face, 1int, 0int,
{
    if face >= 6 {
        assert(sub_comps(roll, prefix, face) =~= seq![prefix]);
    } else {
        lemma_sub_comps_from_sound(roll, prefix, face, 0);
        assert(sub_comps(roll, prefix, face) == sub_comps_from(roll, prefix, face, 0));
        assert forall|m: int|
            0 <= m < sub_comps(roll, prefix, face).len() implies {
            let e = #[trigger] sub_comps(roll, prefix, face)[m];
            &&& e.len() == 6
            &&& forall|i: int| 0 <= i < face ==> e[i] == prefix[i]
            &&& forall|i: int| face <= i < 6 ==> e[i] <= roll[i]
        } by {
            assert(sub_comps(roll, prefix, face)[m] == sub_comps_from(roll, prefix, face, 0)[m]);
        }
    }
}

/// Every keep enumerated from `v` on extends the prefix, stays below the
/// roll, and shows at least `v` at `face`.
proof fn lemma_sub_comps_from_sound(roll: Seq<u8>, prefix: Seq<u8>, face: int, v: int)
    requires
        roll.len() == 6,
        prefix.len() == 6,
        0 <= face < 6,
        0 <= v,
    ensures
        forall|m: int|
            0 <= m < sub_comps_from(roll, prefix, face, v).len() ==> {
                let e = #[trigger] sub_comps_from(roll, prefix, face, v)[m];
                &&& e.len() == 6
                &&& forall|i: int| 0 <= i < face ==> e[i] == prefix[i]
                &&& forall|i: int| face <= i < 6 ==> e[i] <= roll[i]
                &&& v <= e[face]
            },
    decreases 6 - face, 0int, roll[face] - v + 1,
{
    if v > roll[face] {
    } else {
        let updated = prefix.update(face, v as u8);
        lemma_sub_comps_sound(roll, updated, face + 1);
        lemma_sub_comps_from_sound(roll, prefix, face, v + 1);
        let left = sub_comps(roll, updated, face + 1);
        let right = sub_comps_from(roll, prefix, face, v + 1);
        assert forall|m: int|
            0 <= m < sub_comps_from(roll, prefix, face, v).len() implies {
            let e = #[trigger] sub_comps_from(roll, prefix, face, v)[m];
            &&& e.len() == 6
            &&& forall|i: int| 0 <= i < face ==> e[i] == prefix[i]
            &&& forall|i: int| face <= i < 6 ==> e[i] <= roll[i]
            &&& v <= e[face]
        } by {
            if m < left.len() {
                assert(sub_comps_from(roll, prefix, face, v)[m] == left[m]);
                assert(left[m][face] == updated[face]);
            } else {
                assert(sub_comps_from(roll, prefix, face, v)[m] == right[m - left.len()]);
            }
        }
    }
}

/// Every submultiset extending the prefix is enumerated.
pub proof fn lemma_sub_comps_complete(roll: Seq<u8>, prefix: Seq<u8>, face: int, q: Seq<u8>)
    requires
        roll.len() == 6,
        prefix.len() == 6,
        0 <= face <= 6,
        q.len() == 6,
        forall|i: int| 0 <= i < face ==> q[i] == prefix[i],
        forall|i: int| face <= i < 6 ==> q[i] <= roll[i],
    ensures
        sub_comps(roll, prefix, face).contains(q),
    decreases 6 - face, 1int, 0int,
{
    if face >= 6 {
        assert(q =~= prefix);
        assert(sub_comps(roll, prefix, face)[0] == prefix);
    } else {
        lemma_sub_comps_from_complete(roll, prefix, face, 0, q);
    }
}

/// Every submultiset extending the prefix with at least `v` at `face` is
/// enumerated from `v` on.
proof fn lemma_sub_comps_from_complete(roll: Seq<u8>, prefix: Seq<u8>, face: int, v: int, q: Seq<
    u8,
>)
    requires
        roll.len() == 6,
        prefix.len() == 6,
        0 <= face < 6,
        0 <= v <= q[face],
        q.len() == 6,
        forall|i: int| 0 <= i < face ==> q[i] == prefix[i],
        forall|i: int| face <= i < 6 ==> q[i] <= roll[i],
    ensures
        sub_comps_from(roll, prefix, face, v).contains(q),
    decreases 6 - face, 0int, roll[face] - v + 1,
{
    let updated = prefix.update(face, v as u8);
    let left = sub_comps(roll, updated, face + 1);
    let right = sub_comps_from(roll, prefix, face, v + 1);
    if q[face] == v {
        lemma_sub_comps_complete(roll, updated, face + 1, q);
        let m = choose|m: int| 0 <= m < left.len() && left[m] == q;
        assert(sub_comps_from(roll, prefix, face, v)[m] == q);
    } else {
        lemma_sub_comps_from_complete(roll, prefix, face, v + 1, q);
        let m = choose|m: int| 0 <= m < right.len() && right[m] == q;
        assert(sub_comps_from(roll, prefix, face, v)[left.len() + m] == q);
    }
}

/// The enumeration has exactly the product count.
proof fn lemma_sub_comps_len(roll: Seq<u8>, prefix: Seq<u8>, face: int)
    requires
        roll.len() == 6,
        prefix.len() == 6,
        0 <= face <= 6,
    ensures
        sub_comps(roll, prefix, face).len() == keep_product_from(roll, face),
    decreases 6 - face, 1int, 0int,
{
    if face >= 6 {
        assert(sub_comps(roll, prefix, face) =~= seq![prefix]);
    } else {
        lemma_sub_comps_from_len(roll, prefix, face, 0);
        assert(sub_comps_from(roll, prefix, face, 0).len() == (roll[face] + 1)
            * keep_product_from(roll, face + 1));
    }
}

/// The enumeration from `v` on counts the remaining values at `face` times
/// the product of the later faces.
proof fn lemma_sub_comps_from_len(roll: Seq<u8>, prefix: Seq<u8>, face: int, v: int)
    requires
        roll.len() == 6,
        prefix.len() == 6,
        0 <= face < 6,
        0 <= v,
    ensures
        v <= roll[face] + 1 ==> sub_comps_from(roll, prefix, face, v).len() == (roll[face] + 1
            - v) * keep_product_from(roll, face + 1),
        v > roll[face] ==> sub_comps_from(roll, prefix, face, v).len() == 0,
    decreases 6 - face, 0int, roll[face] - v + 1,
{
    if v > roll[face] {
        if v == roll[face] + 1 {
            let p = keep_product_from(roll, face + 1);
            assert((roll[face] + 1 - v) * p == 0) by (nonlinear_arith)
                requires
                    v == roll[face] + 1,
            ;
        }
    } else {
        let updated = prefix.update(face, v as u8);
        lemma_sub_comps_len(roll, updated, face + 1);
        lemma_sub_comps_from_len(roll, prefix, face, v + 1);
        let p = keep_product_from(roll, face + 1);
        assert(sub_comps_from(roll, prefix, face, v).len() == sub_comps(
            roll,
            updated,
            face + 1,
        ).len() + sub_comps_from(roll, prefix, face, v + 1).len());
        assert((roll[face] + 1 - v) * p == p + (roll[face] - v) * p) by (nonlinear_arith);
    }
}

/// The enumerated keeps are pairwise distinct.
proof fn lemma_sub_comps_distinct(roll: Seq<u8>, prefix: Seq<u8>, face: int)
    requires
        roll.len() == 6,
        prefix.len() == 6,
        0 <= face <= 6,
    ensures
        forall|m1: int, m2: int|
            0 <= m1 < m2 < sub_comps(roll, prefix, face).len() ==> #[trigger] sub_comps(
                roll,
                prefix,
                face,
            )[m1] != #[trigger] sub_comps(roll, prefix, face)[m2],
    decreases 6 - face, 1int, 0int,
{
    if face >= 6 {
        assert(sub_comps(roll, prefix, face) =~= seq![prefix]);
    } else {
        lemma_sub_comps_from_distinct(roll, prefix, face, 0);
        assert forall|m1: int, m2: int|
            0 <= m1 < m2 < sub_comps(roll, prefix, face).len() implies #[trigger] sub_comps(
            roll,
            prefix,
            face,
        )[m1] != #[trigger] sub_comps(roll, prefix, face)[m2] by {
            assert(sub_comps(roll, prefix, face)[m1] == sub_comps_from(roll, prefix, face, 0)[m1]);
            assert(sub_comps(roll, prefix, face)[m2] == sub_comps_from(roll, prefix, face, 0)[m2]);
        }
    }
}

/// The keeps enumerated from `v` on are pairwise distinct.
proof fn lemma_sub_comps_from_distinct(roll: Seq<u8>, prefix: Seq<u8>, face: int, v: int)
    requires
        roll.len() == 6,
        prefix.len() == 6,
        0 <= face < 6,
        0 <= v,
    ensures
        forall|m1: int, m2: int|
            0 <= m1 < m2 < sub_comps_from(roll, prefix, face, v).len() ==> #[trigger]
            sub_comps_from(roll, prefix, face, v)[m1] != #[trigger] sub_comps_from(
                roll,
                prefix,
                face,
                v,
            )[m2],
    decreases 6 - face, 0int, roll[face] - v + 1,
{
    if v > roll[face] {
    } else {
        let updated = prefix.update(face, v as u8);
        let whole = sub_comps_from(roll, prefix, face, v);
        let left = sub_comps(roll, updated, face + 1);
        let right = sub_comps_from(roll, prefix, face, v + 1);
        lemma_sub_comps_distinct(roll, updated, face + 1);
        lemma_sub_comps_from_distinct(roll, prefix, face, v + 1);
        lemma_sub_comps_sound(roll, updated, face + 1);
        lemma_sub_comps_from_sound(roll, prefix, face, v + 1);
        assert forall|m1: int, m2: int|
            0 <= m1 < m2 < whole.len() implies #[trigger] whole[m1] != #[trigger] whole[m2] by {
            if m2 < left.len() {
                assert(whole[m1] == left[m1] && whole[m2] == left[m2]);
            } else if m1 >= left.len() {
                assert(whole[m1] == right[m1 - left.len()] && whole[m2] == right[m2 - left.len()]);
            } else {
                assert(whole[m1] == left[m1] && whole[m2] == right[m2 - left.len()]);
                assert(left[m1][face] == updated[face]);
                assert(right[m2 - left.len()][face] >= v + 1);
            }
        }
    }
}

/// Appends a `KeepCounts` for every enumerated extension of `prefix`.
fn collect_keeps(roll_arr: &[u8; 6], prefix: [u8; 6], face: usize, out: &mut Vec<KeepCounts>)
    requires
        face <= 6,
        sum8(roll_arr@) == 5,
        forall|i: int| face <= i < 6 ==> prefix@[i] == 0,
        forall|i: int| 0 <= i < face ==> prefix@[i] <= roll_arr@[i],
    ensures
        final(out)@.len() == old(out)@.len() + sub_comps(roll_arr@, prefix@, face as int).len(),
        forall|m: int| 0 <= m < old(out)@.len() ==> final(out)@[m] == old(out)@[m],
        forall|m: int|
            0 <= m < sub_comps(roll_arr@, prefix@, face as int).len() ==> #[trigger] final(out)@[old(
                out,
            )@.len() + m]@ == sub_comps(roll_arr@, prefix@, face as int)[m],
    decreases 6 - face, 1int, 0int,
{
    if face == 6 {
        proof {
            assert forall|i: int| 0 <= i < 6 implies prefix@[i] <= roll_arr@[i] by {}
            lemma_sum8_le(prefix@, roll_arr@);
            lemma_sum8_nonneg(prefix@);
        }
        let keep = match KeepCounts::try_from(prefix) {
            Ok(k) => k,
            Err(_) => {
                proof {
                    assert(false);
                }
                return ;
            },
        };
        out.push(keep);
        proof {
            assert(sub_comps(roll_arr@, prefix@, 6)[0] == prefix@);
        }
    } else {
        collect_keeps_from(roll_arr, prefix, face, 0, out);
    }
}

/// Appends a `KeepCounts` for every enumerated extension with at least `v`
/// dice kept at `face`.
fn collect_keeps_from(
    roll_arr: &[u8; 6],
    prefix: [u8; 6],
    face: usize,
    v: u8,
    out: &mut Vec<KeepCounts>,
)
    requires
        face < 6,
        sum8(roll_arr@) == 5,
        forall|i: int| face <= i < 6 ==> prefix@[i] == 0,
        forall|i: int| 0 <= i < face ==> prefix@[i] <= roll_arr@[i],
    ensures
        final(out)@.len() == old(out)@.len() + sub_comps_from(
            roll_arr@,
            prefix@,
            face as int,
            v as int,
        ).len(),
        forall|m: int| 0 <= m < old(out)@.len() ==> final(out)@[m] == old(out)@[m],
        forall|m: int|
            0 <= m < sub_comps_from(roll_arr@, prefix@, face as int, v as int).len()
                ==> #[trigger] final(out)@[old(out)@.len() + m]@ == sub_comps_from(
                roll_arr@,
                prefix@,
                face as int,
                v as int,
            )[m],
    decreases 6 - face, 0int, roll_arr@[face as int] - v + 1,
{
    proof {
        lemma_sum8_element(roll_arr@, face as int);
    }
    if v > roll_arr[face] {
        return ;
    }
    let ghost whole = sub_comps_from(roll_arr@, prefix@, face as int, v as int);
    let mut updated = prefix;
    updated[face] = v;
    let ghost left = sub_comps(roll_arr@, updated@, face as int + 1);
    let ghost right = sub_comps_from(roll_arr@, prefix@, face as int, v as int + 1);
    let ghost base = out@.len() as int;
    proof {
        assert(updated@ == prefix@.update(face as int, v));
        assert(whole == left + right);
    }
    collect_keeps(roll_arr, updated, face + 1, out);
    collect_keeps_from(roll_arr, prefix, face, v + 1, out);
    proof {
        assert forall|m: int| 0 <= m < whole.len() implies #[trigger] out@[base + m]@
            == whole[m] by {
            if m < left.len() {
                assert(out@[base + m]@ == left[m]);
                assert(whole[m] == left[m]);
            } else {
                assert(out@[base + left.len() + (m - left.len())]@ == right[m - left.len()]);
                assert(whole[m] == right[m - left.len()]);
            }
        }
    }
}

impl RollCounts {
    /// Every way to keep a submultiset of this roll: exactly the
    /// submultisets, each once, `(c[0] + 1) * ... * (c[5] + 1)` in all.
    pub fn valid_keep_counts(&self) -> (r: Vec<KeepCounts>)
        ensures
            r@.len() == keep_count_product(self@),
            r@.len() == sub_comps(self@, zero6(), 0).len(),
            forall|m: int| 0 <= m < r@.len() ==> #[trigger] r@[m]@ == sub_comps(
                self@,
                zero6(),
                0,
            )[m],
            forall|m: int| 0 <= m < r@.len() ==> submultiset(#[trigger] r@[m]@, self@),
            forall|q: Seq<u8>|
                submultiset(q, self@) ==> exists|m: int| 0 <= m < r@.len() && #[trigger] r@[m]@
                    == q,
            forall|m1: int, m2: int| 0 <= m1 < m2 < r@.len() ==> r@[m1]@ != r@[m2]@,
    {
        let counts = self.roll_counts();
        let mut out: Vec<KeepCounts> = Vec::new();
        let prefix: [u8; 6] = [0, 0, 0, 0, 0, 0];
        collect_keeps(counts, prefix, 0, &mut out);
        proof {
            assert(prefix@ =~= zero6());
            lemma_sub_comps_len(self@, prefix@, 0);
            lemma_sub_comps_sound(self@, prefix@, 0);
            lemma_sub_comps_distinct(self@, prefix@, 0);
            let enumerated = sub_comps(self@, prefix@, 0);
            assert forall|m: int| 0 <= m < out@.len() implies #[trigger] out@[m]@
                == enumerated[m] by {
                assert(out@[0 + m]@ == enumerated[m]);
            }
            assert forall|m: int| 0 <= m < out@.len() implies submultiset(
                #[trigger] out@[m]@,
                self@,
            ) by {
                assert(out@[m]@ == enumerated[m]);
            }
            assert forall|q: Seq<u8>| submultiset(q, self@) implies exists|m: int|
                0 <= m < out@.len() && #[trigger] out@[m]@ == q by {
                lemma_sub_comps_complete(self@, prefix@, 0, q);
                let m = choose|m: int| 0 <= m < enumerated.len() && enumerated[m] == q;
                assert(out@[m]@ == q);
            }
            assert forall|m1: int, m2: int| 0 <= m1 < m2 < out@.len() implies out@[m1]@
                != out@[m2]@ by {
                assert(out@[m1]@ == enumerated[m1]);
                assert(out@[m2]@ == enumerated[m2]);
            }
        }
        out
    }
}


/// Sum of a sequence of machine words.
pub open spec fn sum64(s: Seq<u64>) -> int
    decreases s.len(),
{
    if s.len() == 0 {
        0
    } else {
        s[0] + sum64(s.drop_first())
    }
}

/// The sum of a prefix plus the sum of the rest is the whole sum.
pub proof fn lemma_sum64_split(s: Seq<u64>, i: int)
    requires
        0 <= i <= s.len(),
    ensures
        sum64(s) == sum64(s.take(i)) + sum64(s.skip(i)),
    decreases i,
{
    if i == 0 {
        assert(s.take(0) =~= Seq::<u64>::empty());
        assert(s.skip(0) =~= s);
    } else {
        lemma_sum64_split(s.drop_first(), i - 1);
        assert(s.take(i).drop_first() =~= s.drop_first().take(i - 1));
        assert(s.skip(i) =~= s.drop_first().skip(i - 1));
        assert(sum64(s.take(i)) == s[0] + sum64(s.drop_first().take(i - 1)));
    }
}

/// The mixed-radix base-6 index of a keep, most significant face first:
/// a sparse injection of valid keeps into `0 .. 6^6`.
pub open spec fn keep_encode(s: Seq<u8>) -> int {
    s[0] * 7776 + s[1] * 1296 + s[2] * 216 + s[3] * 36 + s[4] * 6 + s[5]
}

/// The keep index of a valid keep lies below `6^6 = 46656`.
pub proof fn lemma_keep_encode_bound(s: Seq<u8>)
    requires
        s.len() == 6,
        forall|i: int| 0 <= i < 6 ==> s[i] <= 5,
    ensures
        0 <= keep_encode(s) < 46656,
{
}

/// The keep index determines the keep: base-6 digits below six are unique.
pub proof fn lemma_keep_encode_injective(a: Seq<u8>, b: Seq<u8>)
    requires
        a.len() == 6,
        b.len() == 6,
        forall|i: int| 0 <= i < 6 ==> a[i] <= 5,
        forall|i: int| 0 <= i < 6 ==> b[i] <= 5,
        keep_encode(a) == keep_encode(b),
    ensures
        a =~= b,
{
    let a0 = a[0] as int;
    let a1 = a[1] as int;
    let a2 = a[2] as int;
    let a3 = a[3] as int;
    let a4 = a[4] as int;
    let a5 = a[5] as int;
    let b0 = b[0] as int;
    let b1 = b[1] as int;
    let b2 = b[2] as int;
    let b3 = b[3] as int;
    let b4 = b[4] as int;
    let b5 = b[5] as int;
    assert(a0 == b0 && a1 == b1 && a2 == b2 && a3 == b3 && a4 == b4 && a5 == b5)
        by (nonlinear_arith)
        requires
            0 <= a0 <= 5,
            0 <= a1 <= 5,
            0 <= a2 <= 5,
            0 <= a3 <= 5,
            0 <= a4 <= 5,
            0 <= a5 <= 5,
            0 <= b0 <= 5,
            0 <= b1 <= 5,
            0 <= b2 <= 5,
            0 <= b3 <= 5,
            0 <= b4 <= 5,
            0 <= b5 <= 5,
            a0 * 7776 + a1 * 1296 + a2 * 216 + a3 * 36 + a4 * 6 + a5 == b0 * 7776 + b1 * 1296
                + b2 * 216 + b3 * 36 + b4 * 6 + b5,
    ;
}

impl KeepCounts {
    /// The mixed-radix base-6 index of this keep, below `6^6`.
    pub fn keep_index(&self) -> (r: usize)
        ensures
            r == keep_encode(self@),
            r < 46656,
    {
        let counts = self.keep_counts();
        proof {
            lemma_sum8_element(self@, 0);
            lemma_sum8_element(self@, 1);
            lemma_sum8_element(self@, 2);
            lemma_sum8_element(self@, 3);
            lemma_sum8_element(self@, 4);
            lemma_sum8_element(self@, 5);
        }
        let mut rank: usize = 0;
        rank = rank * 6 + counts[0] as usize;
        rank = rank * 6 + counts[1] as usize;
        rank = rank * 6 + counts[2] as usize;
        rank = rank * 6 + counts[3] as usize;
        rank = rank * 6 + counts[4] as usize;
        rank = rank * 6 + counts[5] as usize;
        rank
    }
}

/// One probability row: for each distinct roll in order, the weight of
/// reaching it from `keep`, over the common denominator 7776. Returns the
/// row only when its weights sum exactly to 7776, so every returned row is a
/// probability distribution.
fn row_for_keep(rolls: &Vec<RollCounts>, keep: &KeepCounts) -> (row: Vec<u64>)
    requires
        roll_table_ok(rolls@),
    ensures
        weight_row_ok(row@, rolls@, keep@),
    {
    let keep_arr = keep.keep_counts();
    proof {
        lemma_weight_total(rolls@, keep@);
    }
    let mut row: Vec<u64> = Vec::new();
    let mut total: u64 = 0;
    let mut i: usize = 0;
    while i < 252
        invariant
            0 <= i <= 252,
            rolls@.len() == 252,
            row@.len() == i,
            forall|m: int| 0 <= m < i ==> #[trigger] row@[m] == roll_weight(rolls@[m]@, keep@),
            total == sum64(row@),
            total <= 933120 * i,
            total + weight_total(rolls@, keep@, i as int) == weight_total(rolls@, keep@, 0),
            weight_total(rolls@, keep@, 0) == 7776,
        decreases 252 - i,
    {
        let w = rolls[i].p_roll_given_keep(keep);
        let ghost before = row@;
        row.push(w);
        proof {
            lemma_sum64_split(row@, i as int);
            assert(row@.take(i as int) =~= before);
            assert(row@.skip(i as int) =~= seq![w]);
            assert(seq![w].drop_first() =~= Seq::<u64>::empty());
            assert(sum64(Seq::<u64>::empty()) == 0);
            assert(sum64(seq![w]) == w);
        }
        total = total + w;
        i += 1;
    }
    proof {
        assert(weight_total(rolls@, keep@, 252) == 0);
    }
    row
}


/// A well-formed roll table: the 252 distinct rolls, listed so that each
/// sits at its own rank.
pub open spec fn roll_table_ok(rolls: Seq<RollCounts>) -> bool {
    &&& rolls.len() == 252
    &&& forall|i: int|
        0 <= i < 252 ==> valid_roll(#[trigger] rolls[i]@) && rank_spec(rolls[i]@) == i
}

/// The all-zero keep tuple: reroll every die.
pub open spec fn zero6() -> Seq<u8> {
    seq![0u8, 0u8, 0u8, 0u8, 0u8, 0u8]
}

/// A well-formed keep list for one roll: the canonical enumeration of its
/// submultisets - exactly the submultisets, each once, the product count in
/// all.
pub open spec fn keep_list_ok(ks: Seq<KeepCounts>, roll: Seq<u8>) -> bool {
    &&& ks.len() == keep_count_product(roll)
    &&& ks.len() == sub_comps(roll, zero6(), 0).len()
    &&& forall|m: int| 0 <= m < ks.len() ==> #[trigger] ks[m]@ == sub_comps(roll, zero6(), 0)[m]
    &&& forall|m: int| 0 <= m < ks.len() ==> submultiset(#[trigger] ks[m]@, roll)
    &&& forall|q: Seq<u8>|
        submultiset(q, roll) ==> exists|m: int| 0 <= m < ks.len() && #[trigger] ks[m]@ == q
    &&& forall|m1: int, m2: int| 0 <= m1 < m2 < ks.len() ==> ks[m1]@ != ks[m2]@
}

/// A well-formed probability row for keep `q`: one weight per distinct
/// roll, summing to the full denominator 7776.
pub open spec fn weight_row_ok(row: Seq<u64>, rolls: Seq<RollCounts>, q: Seq<u8>) -> bool {
    &&& row.len() == 252
    &&& forall|i: int| 0 <= i < 252 ==> #[trigger] row[i] == roll_weight(rolls[i]@, q)
    &&& sum64(row) == 7776
}

/// A well-formed row table: a correct probability row for every valid keep,
/// stored at the keep's base-6 index.
pub open spec fn row_table_ok(rows: Seq<Option<Vec<u64>>>, rolls: Seq<RollCounts>) -> bool {
    &&& rows.len() == 46656
    &&& forall|q: Seq<u8>|
        valid_keep(q) ==> ((#[trigger] rows[keep_encode(q)]) matches Some(row) && weight_row_ok(
            row@,
            rolls,
            q,
        ))
}

/// The rank contribution of a suffix reads only the suffix.
proof fn lemma_rank_from_agree(a: Seq<u8>, b: Seq<u8>, f: int, d: nat)
    requires
        a.len() == 6,
        b.len() == 6,
        forall|i: int| f <= i < 6 ==> a[i] == b[i],
    ensures
        rank_from(a, f, d) == rank_from(b, f, d),
    decreases 6 - f,
{
    if 0 <= f < 5 {
        lemma_rank_from_agree(
            a,
            b,
            f + 1,
            if a[f] as nat <= d {
                (d - a[f]) as nat
            } else {
                0
            },
        );
    }
}

/// Builds, by unranking, the unique suffix from `face` on that places `d`
/// dice and has the given rank contribution; the faces below `face` are
/// left at zero.
fn unrank_from(t: u64, face: usize, d: u64) -> (r: [u8; 6])
    requires
        face <= 5,
        d <= 5,
        t < binom((d + 5 - face) as nat, (5 - face) as nat),
    ensures
        forall|i: int| 0 <= i < face ==> r@[i] == 0,
        sum8(r@.skip(face as int)) == d,
        rank_from(r@, face as int, d as nat) == t,
    decreases 5 - face,
{
    if face == 5 {
        let r: [u8; 6] = [0, 0, 0, 0, 0, d as u8];
        proof {
            assert(binom((d + 0) as nat, 0) == 1);
            assert(r@.skip(5) =~= seq![d as u8]);
            assert(seq![d as u8].drop_first() =~= Seq::<u8>::empty());
            assert(sum8(Seq::<u8>::empty()) == 0);
            assert(sum8(seq![d as u8]) == d);
        }
        return r;
    }
    let l: u64 = 5 - face as u64;
    let mut acc: u64 = 0;
    let mut c: u64 = 0;
    let mut term: u64 = binom_exec(d + l - 1, l - 1);
    proof {
        lemma_binom_le_pow2((d + l) as nat, l as nat);
        lemma_pow2_mono((d + l) as nat, 10);
    }
    while acc + term <= t
        invariant
            face < 5,
            l == 5 - face,
            d <= 5,
            0 <= c <= d,
            acc == face_contrib(d as nat, c as nat, l as nat),
            term == binom((d - c + l - 1) as nat, (l - 1) as nat),
            acc <= t,
            t < binom((d + l) as nat, l as nat),
            binom((d + l) as nat, l as nat) <= 1024,
            term <= 1024,
        decreases d - c,
    {
        proof {
            if c == d {
                lemma_face_contrib_snoc(d as nat, d as nat, l as nat);
                lemma_hockey(d as nat, l as nat);
                lemma_binom_diag((l - 1) as nat);
                assert(acc + term == binom((d + l) as nat, l as nat));
                assert(false);
            }
            lemma_face_contrib_snoc(d as nat, c as nat, l as nat);
        }
        acc = acc + term;
        c = c + 1;
        term = binom_exec(d - c + l - 1, l - 1);
        proof {
            lemma_binom_le_pow2((d - c + l - 1) as nat, (l - 1) as nat);
            lemma_pow2_mono((d - c + l - 1) as nat, 10);
        }
    }
    proof {
        lemma_face_contrib_snoc(d as nat, c as nat, l as nat);
        assert(t - acc < binom((d - c + l - 1) as nat, (l - 1) as nat));
    }
    let suffix = unrank_from(t - acc, face + 1, d - c);
    let mut r = suffix;
    r[face] = c as u8;
    proof {
        assert(r@ == suffix@.update(face as int, c as u8));
        assert(r@.skip(face as int + 1) =~= suffix@.skip(face as int + 1));
        lemma_rank_from_agree(r@, suffix@, face as int + 1, (d - c) as nat);
        assert(r@.skip(face as int)[0] == c as u8);
        assert(r@.skip(face as int).drop_first() =~= r@.skip(face as int + 1));
        assert(sum8(r@.skip(face as int)) == c + sum8(r@.skip(face as int + 1)));
        assert(rank_from(r@, face as int, d as nat) == face_contrib(
            d as nat,
            c as nat,
            l as nat,
        ) + rank_from(r@, face as int + 1, (d - c) as nat));
    }
    r
}

/// Enumerates the 252 distinct rolls of five dice, each at its own
/// stars-and-bars rank - the ascending lexicographic order of their
/// per-face counts - so the list is duplicate-free and complete.
pub fn make_distinct_rolls() -> (r: Vec<RollCounts>)
    ensures
        r@.len() == 252,
        forall|i: int|
            0 <= i < 252 ==> valid_roll(#[trigger] r@[i]@) && rank_spec(r@[i]@) == i,
        roll_table_ok(r@),
{
    let mut out: Vec<RollCounts> = Vec::new();
    let mut t: u64 = 0;
    while t < 252
        invariant
            out@.len() == t,
            t <= 252,
            forall|i: int|
                0 <= i < t ==> valid_roll(#[trigger] out@[i]@) && rank_spec(out@[i]@) == i,
        decreases 252 - t,
    {
        proof {
            lemma_binom_10_5();
        }
        let arr = unrank_from(t, 0, 5);
        proof {
            assert(arr@.skip(0) =~= arr@);
        }
        match RollCounts::try_from(arr) {
            Ok(rc) => {
                out.push(rc);
            },
            Err(_) => {
                proof {
                    assert(false);
                }
            },
        }
        t += 1;
    }
    out
}

/// Incrementing a zero entry adds its new value to the sum.
proof fn lemma_sum8_update_zero(s: Seq<u8>, i: int, v: u8)
    requires
        0 <= i < s.len(),
        s[i] == 0,
    ensures
        sum8(s.update(i, v)) == sum8(s) + v,
    decreases s.len(),
{
    if i == 0 {
        assert(s.update(0, v).drop_first() =~= s.drop_first());
    } else {
        lemma_sum8_update_zero(s.drop_first(), i - 1, v);
        assert(s.update(i, v).drop_first() =~= s.drop_first().update(i - 1, v));
    }
}

/// A smaller digit at the first differing position gives a smaller base-6
/// index.
proof fn lemma_keep_encode_lex(a: Seq<u8>, b: Seq<u8>, f: int)
    requires
        a.len() == 6,
        b.len() == 6,
        forall|i: int| 0 <= i < 6 ==> a[i] <= 5,
        forall|i: int| 0 <= i < 6 ==> b[i] <= 5,
        0 <= f < 6,
        forall|i: int| 0 <= i < f ==> a[i] == b[i],
        a[f] < b[f],
    ensures
        keep_encode(a) < keep_encode(b),
{
}

/// All submultiset extensions of `prefix` that place at most `budget` dice
/// on the faces from `face` on: the canonical enumeration of valid keeps.
pub open spec fn budget_comps(prefix: Seq<u8>, face: int, budget: nat) -> Seq<Seq<u8>>
    decreases 6 - face, 1int, 0int,
{
    if face < 0 || face >= 6 {
        seq![prefix]
    } else {
        budget_comps_from(prefix, face, budget, 0)
    }
}

/// The part of `budget_comps` whose count at `face` is at least `v`.
pub open spec fn budget_comps_from(prefix: Seq<u8>, face: int, budget: nat, v: int) -> Seq<
    Seq<u8>,
>
    decreases 6 - face, 0int, budget - v + 1,
{
    if face < 0 || face >= 6 || v < 0 || v > budget {
        Seq::empty()
    } else {
        budget_comps(prefix.update(face, v as u8), face + 1, (budget - v) as nat)
            + budget_comps_from(prefix, face, budget, v + 1)
    }
}

/// Every enumerated keep extends the prefix and spends at most the budget.
proof fn lemma_budget_comps_sound(prefix: Seq<u8>, face: int, budget: nat)
    requires
        prefix.len() == 6,
        0 <= face <= 6,
        budget <= 5,
    ensures
        forall|m: int|
            0 <= m < budget_comps(prefix, face, budget).len() ==> {
                let e = #[trigger] budget_comps(prefix, face, budget)[m];
                &&& e.len() == 6
                &&& forall|i: int| 0 <= i < face ==> e[i] == prefix[i]
                &&& sum8(e.skip(face)) <= budget
            },
    decreases 6 - face, 1int, 0int,
{
    if face >= 6 {
        assert(budget_comps(prefix, face, budget) =~= seq![prefix]);
        assert forall|m: int|
            0 <= m < budget_comps(prefix, face, budget).len() implies {
            let e = #[trigger] budget_comps(prefix, face, budget)[m];
            &&& e.len() == 6
            &&& forall|i: int| 0 <= i < face ==> e[i] == prefix[i]
            &&& sum8(e.skip(face)) <= budget
        } by {
            assert(budget_comps(prefix, face, budget)[m] == prefix);
            assert(prefix.skip(6) =~= Seq::<u8>::empty());
            assert(sum8(Seq::<u8>::empty()) == 0);
        }
    } else {
        lemma_budget_comps_from_sound(prefix, face, budget, 0);
        assert forall|m: int|
            0 <= m < budget_comps(prefix, face, budget).len() implies {
            let e = #[trigger] budget_comps(prefix, face, budget)[m];
            &&& e.len() == 6
            &&& forall|i: int| 0 <= i < face ==> e[i] == prefix[i]
            &&& sum8(e.skip(face)) <= budget
        } by {
            assert(budget_comps(prefix, face, budget)[m] == budget_comps_from(
                prefix,
                face,
                budget,
                0,
            )[m]);
        }
    }
}

/// Every keep enumerated from `v` on extends the prefix, spends at most the
/// budget, and shows at least `v` at `face`.
proof fn lemma_budget_comps_from_sound(prefix: Seq<u8>, face: int, budget: nat, v: int)
    requires
        prefix.len() == 6,
        0 <= face < 6,
        budget <= 5,
        0 <= v,
    ensures
        forall|m: int|
            0 <= m < budget_comps_from(prefix, face, budget, v).len() ==> {
                let e = #[trigger] budget_comps_from(prefix, face, budget, v)[m];
                &&& e.len() == 6
                &&& forall|i: int| 0 <= i < face ==> e[i] == prefix[i]
                &&& sum8(e.skip(face)) <= budget
                &&& v <= e[face]
            },
    decreases 6 - face, 0int, budget - v + 1,
{
    if v > budget {
    } else {
        let updated = prefix.update(face, v as u8);
        lemma_budget_comps_sound(updated, face + 1, (budget - v) as nat);
        lemma_budget_comps_from_sound(prefix, face, budget, v + 1);
        let left = budget_comps(updated, face + 1, (budget - v) as nat);
        let right = budget_comps_from(prefix, face, budget, v + 1);
        assert forall|m: int|
            0 <= m < budget_comps_from(prefix, face, budget, v).len() implies {
            let e = #[trigger] budget_comps_from(prefix, face, budget, v)[m];
            &&& e.len() == 6
            &&& forall|i: int| 0 <= i < face ==> e[i] == prefix[i]
            &&& sum8(e.skip(face)) <= budget
            &&& v <= e[face]
        } by {
            if m < left.len() {
                let e = left[m];
                assert(budget_comps_from(prefix, face, budget, v)[m] == e);
                assert(e.len() == 6 && sum8(e.skip(face + 1)) <= budget - v);
                assert(e[face] == updated[face]);
                assert(e.skip(face)[0] == e[face]);
                assert(e.skip(face).drop_first() =~= e.skip(face + 1));
                assert(sum8(e.skip(face)) == e[face] + sum8(e.skip(face + 1)));
            } else {
                assert(budget_comps_from(prefix, face, budget, v)[m] == right[m - left.len()]);
            }
        }
    }
}

/// Every submultiset extension within budget is enumerated.
proof fn lemma_budget_comps_complete(prefix: Seq<u8>, face: int, budget: nat, q: Seq<u8>)
    requires
        prefix.len() == 6,
        0 <= face <= 6,
        q.len() == 6,
        forall|i: int| 0 <= i < face ==> q[i] == prefix[i],
        sum8(q.skip(face)) <= budget,
    ensures
        budget_comps(prefix, face, budget).contains(q),
    decreases 6 - face, 1int, 0int,
{
    if face >= 6 {
        assert(q =~= prefix);
        assert(budget_comps(prefix, face, budget)[0] == prefix);
    } else {
        assert(q.skip(face)[0] == q[face]);
        lemma_sum8_element(q.skip(face), 0);
        lemma_sum8_nonneg(q.skip(face).drop_first());
        lemma_budget_comps_from_complete(prefix, face, budget, 0, q);
    }
}

/// Every submultiset extension with at least `v` at `face` is enumerated
/// from `v` on.
proof fn lemma_budget_comps_from_complete(
    prefix: Seq<u8>,
    face: int,
    budget: nat,
    v: int,
    q: Seq<u8>,
)
    requires
        prefix.len() == 6,
        0 <= face < 6,
        q.len() == 6,
        forall|i: int| 0 <= i < face ==> q[i] == prefix[i],
        sum8(q.skip(face)) <= budget,
        0 <= v <= q[face],
    ensures
        budget_comps_from(prefix, face, budget, v).contains(q),
    decreases 6 - face, 0int, budget - v + 1,
{
    assert(q.skip(face)[0] == q[face]);
    lemma_sum8_element(q.skip(face), 0);
    lemma_sum8_nonneg(q.skip(face).drop_first());
    assert(q.skip(face).drop_first() =~= q.skip(face + 1));
    let updated = prefix.update(face, v as u8);
    let left = budget_comps(updated, face + 1, (budget - v) as nat);
    let right = budget_comps_from(prefix, face, budget, v + 1);
    if q[face] == v {
        lemma_budget_comps_complete(updated, face + 1, (budget - v) as nat, q);
        let m = choose|m: int| 0 <= m < left.len() && left[m] == q;
        assert(budget_comps_from(prefix, face, budget, v)[m] == q);
    } else {
        lemma_budget_comps_from_complete(prefix, face, budget, v + 1, q);
        let m = choose|m: int| 0 <= m < right.len() && right[m] == q;
        assert(budget_comps_from(prefix, face, budget, v)[left.len() + m] == q);
    }
}

/// The enumeration counts the multisets of at most `budget` dice over the
/// remaining faces: a binomial coefficient.
proof fn lemma_budget_comps_len(prefix: Seq<u8>, face: int, budget: nat)
    requires
        prefix.len() == 6,
        0 <= face <= 6,
    ensures
        budget_comps(prefix, face, budget).len() == binom(
            (budget + 6 - face) as nat,
            (6 - face) as nat,
        ),
    decreases 6 - face, 1int, 0int,
{
    if face >= 6 {
    } else {
        lemma_budget_comps_from_len(prefix, face, budget, 0);
    }
}

/// The enumeration from `v` on counts the remaining choices by Pascal's
/// rule.
proof fn lemma_budget_comps_from_len(prefix: Seq<u8>, face: int, budget: nat, v: int)
    requires
        prefix.len() == 6,
        0 <= face < 6,
        0 <= v,
    ensures
        v <= budget + 1 ==> budget_comps_from(prefix, face, budget, v).len() == binom(
            (budget + 6 - face - v) as nat,
            (6 - face) as nat,
        ),
        v > budget ==> budget_comps_from(prefix, face, budget, v).len() == 0,
    decreases 6 - face, 0int, budget - v + 1,
{
    if v > budget {
        if v == budget + 1 {
            lemma_binom_above((budget + 6 - face - v) as nat, (6 - face) as nat);
        }
    } else {
        let updated = prefix.update(face, v as u8);
        lemma_budget_comps_len(updated, face + 1, (budget - v) as nat);
        lemma_budget_comps_from_len(prefix, face, budget, v + 1);
        assert(binom((budget + 6 - face - v) as nat, (6 - face) as nat) == binom(
            (budget + 6 - face - v - 1) as nat,
            (6 - face - 1) as nat,
        ) + binom((budget + 6 - face - v - 1) as nat, (6 - face) as nat));
    }
}

/// The enumerated keeps are listed in strictly increasing base-6 index -
/// the ascending lexicographic order - so they are pairwise distinct.
proof fn lemma_budget_comps_from_order(prefix: Seq<u8>, face: int, budget: nat, v: int)
    requires
        prefix.len() == 6,
        forall|i: int| 0 <= i < 6 ==> prefix[i] <= 5,
        budget <= 5,
        0 <= face < 6,
        0 <= v,
    ensures
        forall|m1: int, m2: int|
            0 <= m1 < m2 < budget_comps_from(prefix, face, budget, v).len() ==> keep_encode(
                #[trigger] budget_comps_from(prefix, face, budget, v)[m1],
            ) < keep_encode(#[trigger] budget_comps_from(prefix, face, budget, v)[m2]),
    decreases 6 - face, 0int, budget - v + 1,
{
    if v > budget {
    } else {
        let updated = prefix.update(face, v as u8);
        let whole = budget_comps_from(prefix, face, budget, v);
        let left = budget_comps(updated, face + 1, (budget - v) as nat);
        let right = budget_comps_from(prefix, face, budget, v + 1);
        lemma_budget_comps_order(updated, face + 1, (budget - v) as nat);
        lemma_budget_comps_from_order(prefix, face, budget, v + 1);
        lemma_budget_comps_sound(updated, face + 1, (budget - v) as nat);
        lemma_budget_comps_from_sound(prefix, face, budget, v + 1);
        lemma_budget_comps_from_sound(prefix, face, budget, v);
        assert forall|m1: int, m2: int|
            0 <= m1 < m2 < whole.len() implies keep_encode(#[trigger] whole[m1]) < keep_encode(
            #[trigger] whole[m2],
        ) by {
            if m2 < left.len() {
                assert(whole[m1] == left[m1] && whole[m2] == left[m2]);
            } else if m1 >= left.len() {
                assert(whole[m1] == right[m1 - left.len()] && whole[m2] == right[m2
                    - left.len()]);
            } else {
                let e1 = left[m1];
                let e2 = right[m2 - left.len()];
                assert(whole[m1] == e1 && whole[m2] == e2);
                assert(e1.len() == 6 && sum8(e1.skip(face)) <= budget);
                assert(e2.len() == 6 && sum8(e2.skip(face)) <= budget);
                lemma_budget_digits_le(prefix, face, budget, e1, updated);
                lemma_budget_digits_le(prefix, face, budget, e2, updated);
                assert(e1[face] == updated[face]);
                assert(e2[face] >= v + 1);
                assert forall|i: int| 0 <= i < face implies e1[i] == e2[i] by {
                    assert(e1[i] == prefix[i] && e2[i] == prefix[i]);
                }
                lemma_keep_encode_lex(e1, e2, face);
            }
        }
    }
}

/// Digit bounds for enumerated keeps: every face shows at most five dice.
proof fn lemma_budget_digits_le(
    prefix: Seq<u8>,
    face: int,
    budget: nat,
    e: Seq<u8>,
    updated: Seq<u8>,
)
    requires
        prefix.len() == 6,
        forall|i: int| 0 <= i < 6 ==> prefix[i] <= 5,
        budget <= 5,
        0 <= face < 6,
        e.len() == 6,
        forall|i: int| 0 <= i < face ==> e[i] == prefix[i],
        sum8(e.skip(face)) <= budget,
    ensures
        forall|i: int| 0 <= i < 6 ==> e[i] <= 5,
{
    assert forall|i: int| 0 <= i < 6 implies e[i] <= 5 by {
        if i >= face {
            lemma_sum8_element(e.skip(face), i - face);
            lemma_sum8_nonneg(e.skip(face));
            assert(e.skip(face)[i - face] == e[i]);
        }
    }
}

/// Same ordering statement for the whole enumeration at a face.
proof fn lemma_budget_comps_order(prefix: Seq<u8>, face: int, budget: nat)
    requires
        prefix.len() == 6,
        forall|i: int| 0 <= i < 6 ==> prefix[i] <= 5,
        budget <= 5,
        0 <= face <= 6,
    ensures
        forall|m1: int, m2: int|
            0 <= m1 < m2 < budget_comps(prefix, face, budget).len() ==> keep_encode(
                #[trigger] budget_comps(prefix, face, budget)[m1],
            ) < keep_encode(#[trigger] budget_comps(prefix, face, budget)[m2]),
    decreases 6 - face, 1int, 0int,
{
    if face >= 6 {
    } else {
        lemma_budget_comps_from_order(prefix, face, budget, 0);
        assert forall|m1: int, m2: int|
            0 <= m1 < m2 < budget_comps(prefix, face, budget).len() implies keep_encode(
            #[trigger] budget_comps(prefix, face, budget)[m1],
        ) < keep_encode(#[trigger] budget_comps(prefix, face, budget)[m2]) by {
            assert(budget_comps(prefix, face, budget)[m1] == budget_comps_from(
                prefix,
                face,
                budget,
                0,
            )[m1]);
            assert(budget_comps(prefix, face, budget)[m2] == budget_comps_from(
                prefix,
                face,
                budget,
                0,
            )[m2]);
        }
    }
}

/// Appends a `KeepCounts` for every enumerated extension of `prefix` within
/// the budget.
fn collect_budget_keeps(prefix: [u8; 6], face: usize, budget: u8, out: &mut Vec<KeepCounts>)
    requires
        face <= 6,
        budget <= 5,
        sum8(prefix@) + budget <= 5,
        forall|i: int| face <= i < 6 ==> prefix@[i] == 0,
    ensures
        final(out)@.len() == old(out)@.len() + budget_comps(
            prefix@,
            face as int,
            budget as nat,
        ).len(),
        forall|m: int| 0 <= m < old(out)@.len() ==> final(out)@[m] == old(out)@[m],
        forall|m: int|
            0 <= m < budget_comps(prefix@, face as int, budget as nat).len() ==> #[trigger]
            final(out)@[old(out)@.len() + m]@ == budget_comps(
                prefix@,
                face as int,
                budget as nat,
            )[m],
    decreases 6 - face, 1int, 0int,
{
    proof {
        lemma_sum8_nonneg(prefix@);
    }
    if face == 6 {
        let keep = match KeepCounts::try_from(prefix) {
            Ok(k) => k,
            Err(_) => {
                proof {
                    assert(false);
                }
                return ;
            },
        };
        out.push(keep);
        proof {
            assert(budget_comps(prefix@, 6, budget as nat)[0] == prefix@);
        }
    } else {
        collect_budget_keeps_from(prefix, face, budget, 0, out);
    }
}

/// Appends a `KeepCounts` for every enumerated extension keeping at least
/// `v` dice at `face`.
fn collect_budget_keeps_from(
    prefix: [u8; 6],
    face: usize,
    budget: u8,
    v: u8,
    out: &mut Vec<KeepCounts>,
)
    requires
        face < 6,
        budget <= 5,
        sum8(prefix@) + budget <= 5,
        forall|i: int| face <= i < 6 ==> prefix@[i] == 0,
    ensures
        final(out)@.len() == old(out)@.len() + budget_comps_from(
            prefix@,
            face as int,
            budget as nat,
            v as int,
        ).len(),
        forall|m: int| 0 <= m < old(out)@.len() ==> final(out)@[m] == old(out)@[m],
        forall|m: int|
            0 <= m < budget_comps_from(prefix@, face as int, budget as nat, v as int).len()
                ==> #[trigger] final(out)@[old(out)@.len() + m]@ == budget_comps_from(
                prefix@,
                face as int,
                budget as nat,
                v as int,
            )[m],
    decreases 6 - face, 0int, budget - v + 1,
{
    if v > budget {
        return ;
    }
    let ghost whole = budget_comps_from(prefix@, face as int, budget as nat, v as int);
    let mut updated = prefix;
    updated[face] = v;
    let ghost left = budget_comps(updated@, face as int + 1, (budget - v) as nat);
    let ghost right = budget_comps_from(prefix@, face as int, budget as nat, v as int + 1);
    let ghost base = out@.len() as int;
    proof {
        assert(updated@ == prefix@.update(face as int, v));
        assert(whole == left + right);
        lemma_sum8_update_zero(prefix@, face as int, v);
    }
    collect_budget_keeps(updated, face + 1, budget - v, out);
    collect_budget_keeps_from(prefix, face, budget, v + 1, out);
    proof {
        assert forall|m: int| 0 <= m < whole.len() implies #[trigger] out@[base + m]@
            == whole[m] by {
            if m < left.len() {
                assert(out@[base + m]@ == left[m]);
                assert(whole[m] == left[m]);
            } else {
                assert(out@[base + left.len() + (m - left.len())]@ == right[m - left.len()]);
                assert(whole[m] == right[m - left.len()]);
            }
        }
    }
}

/// Enumerates the 462 distinct keeps of at most five dice, in increasing
/// order of their base-6 index (lexicographic order of their per-face
/// counts), covering every valid keep exactly once.
pub fn make_distinct_keeps() -> (r: Vec<KeepCounts>)
    ensures
        r@.len() == 462,
        forall|m: int| 0 <= m < r@.len() ==> valid_keep(#[trigger] r@[m]@),
        forall|m1: int, m2: int|
            0 <= m1 < m2 < r@.len() ==> keep_encode(r@[m1]@) < keep_encode(r@[m2]@),
        forall|q: Seq<u8>|
            valid_keep(q) ==> exists|m: int| 0 <= m < r@.len() && #[trigger] r@[m]@ == q,
{
    let mut out: Vec<KeepCounts> = Vec::new();
    let prefix: [u8; 6] = [0, 0, 0, 0, 0, 0];
    proof {
        crate::types::lemma_sum8_zero(prefix@);
    }
    collect_budget_keeps(prefix, 0, 5, &mut out);
    proof {
        let enumerated = budget_comps(prefix@, 0, 5);
        lemma_budget_comps_len(prefix@, 0, 5);
        assert(binom(11, 6) == 462) by {
            reveal_with_fuel(binom, 13);
        }
        lemma_budget_comps_sound(prefix@, 0, 5);
        lemma_budget_comps_order(prefix@, 0, 5);
        assert forall|m: int| 0 <= m < out@.len() implies #[trigger] out@[m]@
            == enumerated[m] by {
            assert(out@[0 + m]@ == enumerated[m]);
        }
        assert forall|m: int| 0 <= m < out@.len() implies valid_keep(#[trigger] out@[m]@) by {
            assert(out@[m]@ == enumerated[m]);
            assert(enumerated[m].skip(0) =~= enumerated[m]);
        }
        assert forall|q: Seq<u8>| valid_keep(q) implies exists|m: int|
            0 <= m < out@.len() && #[trigger] out@[m]@ == q by {
            assert(q.skip(0) =~= q);
            lemma_budget_comps_complete(prefix@, 0, 5, q);
            let m = choose|m: int| 0 <= m < enumerated.len() && enumerated[m] == q;
            assert(out@[m]@ == q);
        }
    }
    out
}

/// The precomputed static tables of the solver: the distinct rolls at their
/// ranks, the distinct keeps, the submultiset keeps of every roll, and a
/// probability row for every keep. Built once and shared read-only.
pub struct Tables {
    rolls: Vec<RollCounts>,
    keeps: Vec<KeepCounts>,
    vkeeps: Vec<Vec<KeepCounts>>,
    rows: Vec<Option<Vec<u64>>>,
}

impl Tables {
    /// The tables are coherent: rolls sit at their ranks, every roll has
    /// exactly its submultisets listed, and every valid keep has a
    /// probability row summing to 7776.
    #[verifier::type_invariant]
    pub closed spec fn wf(self) -> bool {
        &&& roll_table_ok(self.rolls@)
        &&& self.keeps@.len() == 462
        &&& forall|m: int| 0 <= m < 462 ==> valid_keep(#[trigger] self.keeps@[m]@)
        &&& forall|m1: int, m2: int|
            0 <= m1 < m2 < 462 ==> keep_encode(self.keeps@[m1]@) < keep_encode(self.keeps@[m2]@)
        &&& forall|q: Seq<u8>|
            valid_keep(q) ==> exists|m: int| 0 <= m < 462 && #[trigger] self.keeps@[m]@ == q
        &&& self.vkeeps@.len() == 252
        &&& forall|i: int|
            0 <= i < 252 ==> keep_list_ok(#[trigger] self.vkeeps@[i]@, self.rolls@[i]@)
        &&& row_table_ok(self.rows@, self.rolls@)
    }

    /// The rolls of this table, as the mathematical model other contracts
    /// refer to.
    pub closed spec fn rolls_seq(self) -> Seq<RollCounts> {
        self.rolls@
    }

    /// Builds the tables. Every part is proved outright - the rolls sit at
    /// their ranks, the 462 keeps are complete, and every probability row
    /// sums to the full denominator - so construction always succeeds.
    pub fn new() -> (r: Option<Tables>)
        ensures
            r is Some,
            r matches Some(t) ==> roll_table_ok(t.rolls_seq()),
    {
        let rolls = make_distinct_rolls();
        let mut vkeeps: Vec<Vec<KeepCounts>> = Vec::new();
        let mut v: usize = 0;
        while v < 252
            invariant
                0 <= v <= 252,
                roll_table_ok(rolls@),
                vkeeps@.len() == v,
                forall|m: int|
                    0 <= m < v ==> keep_list_ok(#[trigger] vkeeps@[m]@, rolls@[m]@),
            decreases 252 - v,
        {
            let ks = rolls[v].valid_keep_counts();
            vkeeps.push(ks);
            v += 1;
        }
        let keeps = make_distinct_keeps();
        let mut rows: Vec<Option<Vec<u64>>> = Vec::new();
        let mut z: usize = 0;
        while z < 46656
            invariant
                rows@.len() == z,
                z <= 46656,
            decreases 46656 - z,
        {
            rows.push(None);
            z += 1;
        }
        let mut m: usize = 0;
        while m < 462
            invariant
                0 <= m <= 462,
                roll_table_ok(rolls@),
                keeps@.len() == 462,
                forall|k: int| 0 <= k < 462 ==> valid_keep(#[trigger] keeps@[k]@),
                rows@.len() == 46656,
                forall|k: int|
                    0 <= k < m ==> {
                        let q = #[trigger] keeps@[k]@;
                        &&& rows@[keep_encode(q)] is Some
                        &&& weight_row_ok(rows@[keep_encode(q)]->Some_0@, rolls@, q)
                    },
            decreases 462 - m,
        {
            let keep = &keeps[m];
            let row = row_for_keep(&rolls, keep);
            let idx = keep.keep_index();
            let ghost rows_before = rows@;
            rows[idx] = Some(row);
            proof {
                assert forall|k: int|
                    0 <= k < m + 1 implies {
                    let q = #[trigger] keeps@[k]@;
                    &&& rows@[keep_encode(q)] is Some
                    &&& weight_row_ok(rows@[keep_encode(q)]->Some_0@, rolls@, q)
                } by {
                    let q = keeps@[k]@;
                    lemma_sum8_element(q, 0);
                    lemma_sum8_element(q, 1);
                    lemma_sum8_element(q, 2);
                    lemma_sum8_element(q, 3);
                    lemma_sum8_element(q, 4);
                    lemma_sum8_element(q, 5);
                    lemma_keep_encode_bound(q);
                    if k < m {
                        if keep_encode(q) != idx {
                            assert(rows@[keep_encode(q)] == rows_before[keep_encode(q)]);
                        } else {
                            let p = keeps@[m as int]@;
                            lemma_sum8_element(p, 0);
                            lemma_sum8_element(p, 1);
                            lemma_sum8_element(p, 2);
                            lemma_sum8_element(p, 3);
                            lemma_sum8_element(p, 4);
                            lemma_sum8_element(p, 5);
                            lemma_keep_encode_injective(q, p);
                        }
                    }
                }
            }
            m += 1;
        }
        proof {
            assert forall|q: Seq<u8>| valid_keep(q) implies ((#[trigger] rows@[keep_encode(
                q,
            )]) matches Some(row) && weight_row_ok(row@, rolls@, q)) by {
                let m = choose|m: int| 0 <= m < 462 && keeps@[m]@ == q;
                assert(rows@[keep_encode(keeps@[m]@)] is Some);
            }
        }
        let t = Tables { rolls, keeps, vkeeps, rows };
        Some(t)
    }

    /// The 252 distinct rolls, each at its own rank.
    pub fn enumerate_distinct_rolls(&self) -> (r: &Vec<RollCounts>)
        ensures
            r@ == self.rolls_seq(),
            roll_table_ok(r@),
    {
        proof {
            use_type_invariant(self);
        }
        &self.rolls
    }

    /// The 462 distinct keeps, in lexicographic order, covering every valid
    /// keep exactly once.
    pub fn enumerate_distinct_keeps(&self) -> (r: &Vec<KeepCounts>)
        ensures
            r@.len() == 462,
            forall|m: int| 0 <= m < 462 ==> valid_keep(#[trigger] r@[m]@),
            forall|m1: int, m2: int|
                0 <= m1 < m2 < 462 ==> keep_encode(r@[m1]@) < keep_encode(r@[m2]@),
            forall|q: Seq<u8>|
                valid_keep(q) ==> exists|m: int| 0 <= m < 462 && #[trigger] r@[m]@ == q,
    {
        proof {
            use_type_invariant(self);
        }
        &self.keeps
    }

    /// The keeps that may be chosen from the roll at rank `i`: exactly its
    /// submultisets.
    pub fn valid_keeps_at(&self, i: usize) -> (r: &Vec<KeepCounts>)
        requires
            i < 252,
        ensures
            keep_list_ok(r@, self.rolls_seq()[i as int]@),
    {
        proof {
            use_type_invariant(self);
        }
        &self.vkeeps[i]
    }

    /// The probability row of `keep`: for each distinct roll in rank order,
    /// the weight of reaching it after rerolling the dice not kept, over the
    /// common denominator 7776. The weights sum to exactly 7776.
    pub fn weight_row(&self, keep: &KeepCounts) -> (r: &Vec<u64>)
        ensures
            weight_row_ok(r@, self.rolls_seq(), keep@),
    {
        proof {
            use_type_invariant(self);
        }
        let keep_arr = keep.keep_counts();
        let idx = keep.keep_index();
        match &self.rows[idx] {
            Some(row) => row,
            None => {
                proof {
                    assert(false);
                }
                loop
                    invariant
                        false,
                    decreases 0int,
                {
                }
            },
        }
    }
}

/// Any valid roll stands in a well-formed roll table at its own rank.
pub proof fn lemma_roll_table_complete(rolls: Seq<RollCounts>, q: Seq<u8>)
    requires
        roll_table_ok(rolls),
        valid_roll(q),
    ensures
        0 <= rank_spec(q) < 252,
        rolls[rank_spec(q) as int]@ == q,
{
    lemma_rank_spec_bound(q);
    let r = rank_spec(q) as int;
    if rolls[r]@ != q {
        lemma_rank_injective(q, rolls[r]@);
    }
}


/// A sum of machine words is nonnegative.
pub proof fn lemma_sum64_nonneg(s: Seq<u64>)
    ensures
        sum64(s) >= 0,
    decreases s.len(),
{
    if s.len() > 0 {
        lemma_sum64_nonneg(s.drop_first());
    }
}

/// Every element is bounded by the total sum.
pub proof fn lemma_sum64_element(s: Seq<u64>, i: int)
    requires
        0 <= i < s.len(),
    ensures
        s[i] <= sum64(s),
    decreases s.len(),
{
    lemma_sum64_nonneg(s.drop_first());
    if i > 0 {
        lemma_sum64_element(s.drop_first(), i - 1);
        lemma_sum64_nonneg(s.drop_first().drop_first());
    }
}


/// Replacing one entry shifts the sum by the difference.
pub proof fn lemma_sum8_update_general(s: Seq<u8>, i: int, v: u8)
    requires
        0 <= i < s.len(),
    ensures
        sum8(s.update(i, v)) == sum8(s) - s[i] + v,
    decreases s.len(),
{
    if i == 0 {
        assert(s.update(0, v).drop_first() =~= s.drop_first());
    } else {
        lemma_sum8_update_general(s.drop_first(), i - 1, v);
        assert(s.update(i, v).drop_first() =~= s.drop_first().update(i - 1, v));
    }
}

/// The number of ordered die sequences realising a count multiset, defined
/// by the multinomial recurrence: each sequence starts with one die of some
/// face that the multiset shows. `n` is the number of dice still to place,
/// kept as an explicit argument so the recursion is structural.
pub open spec fn mcount_n(d: Seq<u8>, n: nat) -> nat
    decreases n, 1int, 0int,
{
    if n == 0 {
        1
    } else {
        mc_sum(d, n, 0)
    }
}

/// The part of the multinomial recurrence over the faces from `f` on.
pub open spec fn mc_sum(d: Seq<u8>, n: nat, f: int) -> nat
    decreases n, 0int, 6 - f,
{
    if n == 0 || f < 0 || f >= 6 {
        0
    } else {
        (if d[f] > 0 {
            mcount_n(d.update(f, (d[f] - 1) as u8), (n - 1) as nat)
        } else {
            0
        }) + mc_sum(d, n, f + 1)
    }
}

/// Factorial products read only the entries below the bound.
proof fn lemma_fact_product_agree(a: Seq<u8>, b: Seq<u8>, j: int)
    requires
        forall|i: int| 0 <= i < j ==> a[i] == b[i],
    ensures
        fact_product_take(a, j) == fact_product_take(b, j),
    decreases j,
{
    if j > 0 {
        lemma_fact_product_agree(a, b, j - 1);
    }
}

/// Factorial products are positive.
proof fn lemma_fact_product_pos(d: Seq<u8>, j: int)
    ensures
        fact_product_take(d, j) >= 1,
    decreases j,
{
    if j > 0 {
        lemma_fact_product_pos(d, j - 1);
        lemma_fact_grows(d[j - 1] as nat);
        assert(fact_product_take(d, j - 1) * fact(d[j - 1] as nat) >= 1) by (nonlinear_arith)
            requires
                fact_product_take(d, j - 1) >= 1,
                fact(d[j - 1] as nat) >= 1,
        ;
    }
}

/// Taking one die off a face divides the factorial product by that face's
/// count.
proof fn lemma_fact_product_update(d: Seq<u8>, f: int, j: int)
    requires
        d.len() == 6,
        0 <= f < j <= 6,
        d[f] >= 1,
    ensures
        fact_product_take(d, j) == fact_product_take(d.update(f, (d[f] - 1) as u8), j) * (
        d[f] as nat),
    decreases j,
{
    let upd = d.update(f, (d[f] - 1) as u8);
    if j == f + 1 {
        lemma_fact_product_agree(d, upd, f);
        assert(fact(d[f] as nat) == (d[f] as nat) * fact((d[f] - 1) as nat));
        assert(fact_product_take(upd, f) * ((d[f] as nat) * fact((d[f] - 1) as nat))
            == (fact_product_take(upd, f) * fact((d[f] - 1) as nat)) * (d[f] as nat))
            by (nonlinear_arith);
    } else {
        lemma_fact_product_update(d, f, j - 1);
        assert(upd[j - 1] == d[j - 1]);
        assert((fact_product_take(upd, j - 1) * (d[f] as nat)) * fact(d[j - 1] as nat)
            == (fact_product_take(upd, j - 1) * fact(d[j - 1] as nat)) * (d[f] as nat))
            by (nonlinear_arith);
    }
}

/// The recurrence count times the factorial product of the counts is the
/// factorial of the dice placed: the multinomial identity in product form.
#[verifier::rlimit(50)]
#[verifier::spinoff_prover]
proof fn lemma_mcount_product(d: Seq<u8>, n: nat)
    requires
        d.len() == 6,
        n == sum8(d),
    ensures
        mcount_n(d, n) * fact_product_take(d, 6) == fact(n),
    decreases n, 1int, 0int,
{
    if n == 0 {
        lemma_sum8_element(d, 0);
        lemma_sum8_element(d, 1);
        lemma_sum8_element(d, 2);
        lemma_sum8_element(d, 3);
        lemma_sum8_element(d, 4);
        lemma_sum8_element(d, 5);
        lemma_sum8_nonneg(d.drop_first());
        assert(fact(0) == 1);
        assert(fact_product_take(d, 0) == 1);
        assert(fact_product_take(d, 1) == 1nat * fact(d[0] as nat));
        assert(fact_product_take(d, 2) == fact_product_take(d, 1) * fact(d[1] as nat));
        assert(fact_product_take(d, 3) == fact_product_take(d, 2) * fact(d[2] as nat));
        assert(fact_product_take(d, 4) == fact_product_take(d, 3) * fact(d[3] as nat));
        assert(fact_product_take(d, 5) == fact_product_take(d, 4) * fact(d[4] as nat));
        assert(fact_product_take(d, 6) == fact_product_take(d, 5) * fact(d[5] as nat));
    } else {
        assert(d.skip(0) =~= d);
        lemma_mc_sum_product(d, n, 0);
        assert(fact(n) == n * fact((n - 1) as nat));
    }
}

/// The partial recurrence sum times the factorial product counts the dice on
/// the remaining faces, each weighted by the shorter sequences.
proof fn lemma_mc_sum_product(d: Seq<u8>, n: nat, f: int)
    requires
        d.len() == 6,
        n == sum8(d),
        n >= 1,
        0 <= f <= 6,
    ensures
        mc_sum(d, n, f) * fact_product_take(d, 6) == fact((n - 1) as nat) * sum8(d.skip(f)),
    decreases n, 0int, 6 - f,
{
    let p = fact_product_take(d, 6);
    if f >= 6 {
        assert(d.skip(6) =~= Seq::<u8>::empty());
        assert(sum8(Seq::<u8>::empty()) == 0);
        assert(mc_sum(d, n, f) == 0);
        assert(0nat * p == 0) by (nonlinear_arith);
        assert(fact((n - 1) as nat) * 0 == 0) by (nonlinear_arith);
    } else {
        lemma_mc_sum_product(d, n, f + 1);
        assert(d.skip(f)[0] == d[f]);
        assert(d.skip(f).drop_first() =~= d.skip(f + 1));
        assert(sum8(d.skip(f)) == d[f] + sum8(d.skip(f + 1)));
        let t = if d[f] > 0 {
            mcount_n(d.update(f, (d[f] - 1) as u8), (n - 1) as nat)
        } else {
            0nat
        };
        assert(mc_sum(d, n, f) == t + mc_sum(d, n, f + 1));
        assert((t + mc_sum(d, n, f + 1)) * p == t * p + mc_sum(d, n, f + 1) * p)
            by (nonlinear_arith);
        if d[f] > 0 {
            let upd = d.update(f, (d[f] - 1) as u8);
            lemma_sum8_update_general(d, f, (d[f] - 1) as u8);
            lemma_mcount_product(upd, (n - 1) as nat);
            lemma_fact_product_update(d, f, 6);
            assert(t * p == t * (fact_product_take(upd, 6) * (d[f] as nat)))
                by (nonlinear_arith)
                requires
                    p == fact_product_take(upd, 6) * (d[f] as nat),
            ;
            assert(t * (fact_product_take(upd, 6) * (d[f] as nat)) == (t * fact_product_take(
                upd,
                6,
            )) * (d[f] as nat)) by (nonlinear_arith);
            assert(t * fact_product_take(upd, 6) == fact((n - 1) as nat));
            assert(t * p == fact((n - 1) as nat) * (d[f] as nat));
        } else {
            assert(t * p == 0) by (nonlinear_arith)
                requires
                    t == 0,
            ;
        }
        assert(fact((n - 1) as nat) * (d[f] as int) + fact((n - 1) as nat) * sum8(d.skip(f + 1))
            == fact((n - 1) as nat) * (d[f] + sum8(d.skip(f + 1)))) by (nonlinear_arith);
        if d[f] > 0 {
            assert(mc_sum(d, n, f) * p == fact((n - 1) as nat) * (d[f] as int) + fact(
                (n - 1) as nat,
            ) * sum8(d.skip(f + 1)));
        } else {
            assert(mc_sum(d, n, f) * p == 0 + fact((n - 1) as nat) * sum8(d.skip(f + 1)));
            assert(fact((n - 1) as nat) * (d[f] as int) == 0) by (nonlinear_arith)
                requires
                    d[f] == 0,
            ;
        }
        assert(mc_sum(d, n, f) * p == fact((n - 1) as nat) * sum8(d.skip(f)));
    }
}

/// The division in `multinom_num` is exact: it equals the recurrence count.
pub proof fn lemma_multinom_eq_mcount(d: Seq<u8>)
    requires
        d.len() == 6,
    ensures
        multinom_num(d) == mcount_n(d, sum8(d) as nat),
    decreases 0int,
{
    lemma_sum8_nonneg(d);
    let n = sum8(d) as nat;
    lemma_mcount_product(d, n);
    lemma_fact_product_pos(d, 6);
    vstd::arithmetic::div_mod::lemma_div_by_multiple(
        mcount_n(d, n) as int,
        fact_product_take(d, 6) as int,
    );
    assert((mcount_n(d, n) * fact_product_take(d, 6)) as int / (fact_product_take(d, 6) as int)
        == mcount_n(d, n));
}


/// Keeping a whole roll reaches exactly that roll again: the weight is the
/// full denominator on the roll itself and zero elsewhere.
pub proof fn lemma_roll_weight_keep_all(a: Seq<u8>, r: Seq<u8>)
    requires
        valid_roll(a),
        valid_roll(r),
    ensures
        a == r ==> roll_weight(a, r) == 7776,
        a != r ==> roll_weight(a, r) == 0,
{
    if submultiset(r, a) {
        if a != r {
            if forall|i: int| 0 <= i < 6 ==> a[i] == r[i] {
                assert(a =~= r);
            }
            let j = choose|i: int| 0 <= i < 6 && a[i] != r[i];
            crate::types::lemma_sum8_lt(r, a, j);
            assert(false);
        }
        let diff = diff6(a, r);
        assert(forall|i: int| 0 <= i < diff.len() ==> diff[i] == 0);
        crate::types::lemma_sum8_zero(diff);
        assert(fact(0) == 1);
        assert(fact_product_take(diff, 6) == 1) by {
            assert(fact(diff[0] as nat) == 1);
            assert(fact(diff[1] as nat) == 1);
            assert(fact(diff[2] as nat) == 1);
            assert(fact(diff[3] as nat) == 1);
            assert(fact(diff[4] as nat) == 1);
            assert(fact(diff[5] as nat) == 1);
            assert(fact_product_take(diff, 0) == 1);
            assert(fact_product_take(diff, 1) == 1nat * fact(diff[0] as nat));
            assert(fact_product_take(diff, 2) == fact_product_take(diff, 1) * fact(
                diff[1] as nat,
            ));
            assert(fact_product_take(diff, 3) == fact_product_take(diff, 2) * fact(
                diff[2] as nat,
            ));
            assert(fact_product_take(diff, 4) == fact_product_take(diff, 3) * fact(
                diff[3] as nat,
            ));
            assert(fact_product_take(diff, 5) == fact_product_take(diff, 4) * fact(
                diff[4] as nat,
            ));
            assert(fact_product_take(diff, 6) == fact_product_take(diff, 5) * fact(
                diff[5] as nat,
            ));
        }
        assert(multinom_num(diff) == 1nat / 1nat);
        assert(pow6(5) == 7776) by {
            assert(pow6(0) == 1);
            assert(pow6(1) == 6);
            assert(pow6(2) == 36);
            assert(pow6(3) == 216);
            assert(pow6(4) == 1296);
        }
        assert(roll_weight(a, r) == 1nat * pow6(sum8(r) as nat));
    } else {
        if a == r {
            assert(submultiset(r, a));
        }
    }
}


/// A pointwise difference sums to the difference of the sums.
proof fn lemma_sum8_pointwise_diff(c: Seq<u8>, a: Seq<u8>, b: Seq<u8>)
    requires
        c.len() == a.len(),
        c.len() == b.len(),
        forall|i: int| 0 <= i < c.len() ==> b[i] <= a[i],
        forall|i: int| 0 <= i < c.len() ==> c[i] == a[i] - b[i],
    ensures
        sum8(c) == sum8(a) - sum8(b),
    decreases c.len(),
{
    if c.len() > 0 {
        lemma_sum8_pointwise_diff(c.drop_first(), a.drop_first(), b.drop_first());
    }
}

/// Keeping one more die of face `f`: the weight of reaching `r` becomes the
/// multinomial count with one fewer die of that face to reroll, or zero when
/// no such die was being rerolled.
proof fn lemma_roll_weight_face_step(r: Seq<u8>, k: Seq<u8>, f: int)
    requires
        valid_roll(r),
        valid_keep(k),
        sum8(k) <= 4,
        submultiset(k, r),
        0 <= f < 6,
    ensures
        roll_weight(r, k.update(f, (k[f] + 1) as u8)) == if k[f] < r[f] {
            multinom_num(diff6(r, k).update(f, (diff6(r, k)[f] - 1) as u8)) * pow6(
                (sum8(k) + 1) as nat,
            )
        } else {
            0nat
        },
{
    lemma_sum8_element(k, f);
    let kp = k.update(f, (k[f] + 1) as u8);
    lemma_sum8_update_general(k, f, (k[f] + 1) as u8);
    let d = diff6(r, k);
    if k[f] < r[f] {
        assert(submultiset(kp, r));
        assert(diff6(r, kp) =~= d.update(f, (d[f] - 1) as u8));
        assert(roll_weight(r, kp) == multinom_num(diff6(r, kp)) * pow6(sum8(kp) as nat));
    } else {
        assert(kp[f] > r[f]);
        assert(!submultiset(kp, r));
    }
}

/// Splitting over the six ways to keep one more die: together they weigh six
/// times the original keep, the multinomial recurrence read through weights.
proof fn lemma_roll_weight_faces(r: Seq<u8>, k: Seq<u8>)
    requires
        valid_roll(r),
        valid_keep(k),
        sum8(k) <= 4,
    ensures
        roll_weight(r, k.update(0, (k[0] + 1) as u8)) + roll_weight(
            r,
            k.update(1, (k[1] + 1) as u8),
        ) + roll_weight(r, k.update(2, (k[2] + 1) as u8)) + roll_weight(
            r,
            k.update(3, (k[3] + 1) as u8),
        ) + roll_weight(r, k.update(4, (k[4] + 1) as u8)) + roll_weight(
            r,
            k.update(5, (k[5] + 1) as u8),
        ) == 6 * roll_weight(r, k),
{
    if !submultiset(k, r) {
        assert forall|f: int| 0 <= f < 6 implies roll_weight(
            r,
            k.update(f, (k[f] + 1) as u8),
        ) == 0 by {
            lemma_sum8_element(k, f);
            let kp = k.update(f, (k[f] + 1) as u8);
            if submultiset(kp, r) {
                assert(forall|i: int| 0 <= i < 6 ==> k[i] <= kp[i]);
                assert(submultiset(k, r));
            }
        }
        assert(6 * roll_weight(r, k) == 0) by (nonlinear_arith)
            requires
                roll_weight(r, k) == 0,
        ;
    } else {
        let d = diff6(r, k);
        lemma_sum8_pointwise_diff(d, r, k);
        crate::types::lemma_sum8_nonneg(k);
        let n = (sum8(d)) as nat;
        assert(1 <= n <= 5);
        let m = sum8(k) as nat;
        lemma_multinom_eq_mcount(d);
        assert(mcount_n(d, n) == mc_sum(d, n, 0));
        let t0 = term_of(d, n, 0);
        let t1 = term_of(d, n, 1);
        let t2 = term_of(d, n, 2);
        let t3 = term_of(d, n, 3);
        let t4 = term_of(d, n, 4);
        let t5 = term_of(d, n, 5);
        assert(mc_sum(d, n, 6) == 0);
        assert(mc_sum(d, n, 5) == t5 + mc_sum(d, n, 6));
        assert(mc_sum(d, n, 4) == t4 + mc_sum(d, n, 5));
        assert(mc_sum(d, n, 3) == t3 + mc_sum(d, n, 4));
        assert(mc_sum(d, n, 2) == t2 + mc_sum(d, n, 3));
        assert(mc_sum(d, n, 1) == t1 + mc_sum(d, n, 2));
        assert(mc_sum(d, n, 0) == t0 + mc_sum(d, n, 1));
        assert forall|f: int| 0 <= f < 6 implies roll_weight(
            r,
            k.update(f, (k[f] + 1) as u8),
        ) == term_of(d, n, f) * pow6((m + 1) as nat) by {
            lemma_roll_weight_face_step(r, k, f);
            if k[f] < r[f] {
                let upd = d.update(f, (d[f] - 1) as u8);
                lemma_sum8_update_general(d, f, (d[f] - 1) as u8);
                lemma_multinom_eq_mcount(upd);
                assert(term_of(d, n, f) == mcount_n(upd, (n - 1) as nat));
            } else {
                assert(d[f] == 0);
                assert(term_of(d, n, f) == 0);
                assert(0nat * pow6((m + 1) as nat) == 0) by (nonlinear_arith);
            }
        }
        let c = pow6((m + 1) as nat);
        assert(t0 * c + t1 * c + t2 * c + t3 * c + t4 * c + t5 * c == (t0 + t1 + t2 + t3 + t4
            + t5) * c) by (nonlinear_arith);
        assert(t0 + t1 + t2 + t3 + t4 + t5 == mcount_n(d, n));
        assert(pow6((m + 1) as nat) == 6 * pow6(m));
        assert(mcount_n(d, n) * (6 * pow6(m)) == 6 * (mcount_n(d, n) * pow6(m)))
            by (nonlinear_arith);
        assert(roll_weight(r, k) == multinom_num(d) * pow6(m));
    }
}

/// One term of the multinomial recurrence at face `f`.
spec fn term_of(d: Seq<u8>, n: nat, f: int) -> nat {
    if 0 <= f < 6 && d[f] > 0 {
        mcount_n(d.update(f, (d[f] - 1) as u8), (n - 1) as nat)
    } else {
        0
    }
}

/// The total weight of reaching each distinct roll from `j` on when keeping
/// `k`.
pub open spec fn weight_total(rolls: Seq<RollCounts>, k: Seq<u8>, j: int) -> int
    decreases 252 - j,
{
    if j < 0 || j >= 252 {
        0
    } else {
        roll_weight(rolls[j]@, k) + weight_total(rolls, k, j + 1)
    }
}

/// Keeping everything of a full keep concentrates the whole weight on the
/// keep itself.
proof fn lemma_weight_total_full(rolls: Seq<RollCounts>, k: Seq<u8>, j: int)
    requires
        roll_table_ok(rolls),
        valid_keep(k),
        sum8(k) == 5,
        0 <= j <= 252,
    ensures
        weight_total(rolls, k, j) == if j <= rank_spec(k) {
            7776int
        } else {
            0int
        },
    decreases 252 - j,
{
    lemma_roll_table_complete(rolls, k);
    if j < 252 {
        lemma_weight_total_full(rolls, k, j + 1);
        lemma_roll_weight_keep_all(rolls[j]@, k);
        if j == rank_spec(k) {
            assert(rolls[j]@ == k);
        } else {
            if rolls[j]@ == k {
                assert(rank_spec(rolls[j]@) == j);
            }
            assert(roll_weight(rolls[j]@, k) == 0);
        }
    }
}

/// The six one-more-die keeps together weigh six times the original, roll by
/// roll over the whole table.
proof fn lemma_weight_total_step(rolls: Seq<RollCounts>, k: Seq<u8>, j: int)
    requires
        roll_table_ok(rolls),
        valid_keep(k),
        sum8(k) <= 4,
        0 <= j <= 252,
    ensures
        6 * weight_total(rolls, k, j) == weight_total(rolls, k.update(0, (k[0] + 1) as u8), j)
            + weight_total(rolls, k.update(1, (k[1] + 1) as u8), j) + weight_total(
            rolls,
            k.update(2, (k[2] + 1) as u8),
            j,
        ) + weight_total(rolls, k.update(3, (k[3] + 1) as u8), j) + weight_total(
            rolls,
            k.update(4, (k[4] + 1) as u8),
            j,
        ) + weight_total(rolls, k.update(5, (k[5] + 1) as u8), j),
    decreases 252 - j,
{
    if j < 252 {
        lemma_weight_total_step(rolls, k, j + 1);
        lemma_roll_weight_faces(rolls[j]@, k);
    }
}

/// The weights of one keep over all distinct rolls sum to the full
/// denominator: every conditional roll distribution sums to one, exactly.
pub proof fn lemma_weight_total(rolls: Seq<RollCounts>, k: Seq<u8>)
    requires
        roll_table_ok(rolls),
        valid_keep(k),
    ensures
        weight_total(rolls, k, 0) == 7776,
    decreases 5 - sum8(k),
{
    crate::types::lemma_sum8_nonneg(k);
    if sum8(k) == 5 {
        lemma_weight_total_full(rolls, k, 0);
        lemma_rank_spec_bound(k);
    } else {
        lemma_weight_total_step(rolls, k, 0);
        assert forall|f: int| 0 <= f < 6 implies weight_total(
            rolls,
            k.update(f, (k[f] + 1) as u8),
            0,
        ) == 7776 by {
            lemma_sum8_element(k, f);
            lemma_sum8_update_general(k, f, (k[f] + 1) as u8);
            lemma_weight_total(rolls, k.update(f, (k[f] + 1) as u8));
        }
    }
}

} // verus!
