//! Scaling a score by how much a field counts, in single precision.

use vstd::prelude::*;

verus! {

/// How much a hit in a searchable field counts: `parts` out of 2^25, the
/// finest step that single precision has between a quarter and a half.
#[derive(Clone, Copy)]
pub struct Weight {
    pub parts: u32,
}

/// The number of parts that make up a full weight.
pub const WHOLE: u32 = 33_554_432;

/// 0.65, to single precision.
pub const GENERIC_NAME: u32 = 21_810_380;

/// 0.6, to single precision.
pub const EXECUTABLE: u32 = 20_132_660;

/// 0.45, to single precision.
pub const KEYWORDS: u32 = 15_099_494;

/// 0.35, to single precision.
pub const COMMENT: u32 = 11_744_051;

impl Weight {
    /// A weight is more than nothing and at most full.
    pub open spec fn wf(self) -> bool {
        1 <= self.parts <= WHOLE
    }

    /// The weight of a name, which is full.
    pub fn name() -> (r: Self)
        ensures
            r.wf(),
            r.parts == WHOLE,
    {
        Weight { parts: WHOLE }
    }

    /// The weight of a generic name.
    pub fn generic_name() -> (r: Self)
        ensures
            r.wf(),
            r.parts == GENERIC_NAME,
    {
        Weight { parts: GENERIC_NAME }
    }

    /// The weight of an executable.
    pub fn executable() -> (r: Self)
        ensures
            r.wf(),
            r.parts == EXECUTABLE,
    {
        Weight { parts: EXECUTABLE }
    }

    /// The weight of the keywords.
    pub fn keywords() -> (r: Self)
        ensures
            r.wf(),
            r.parts == KEYWORDS,
    {
        Weight { parts: KEYWORDS }
    }

    /// The weight of a comment.
    pub fn comment() -> (r: Self)
        ensures
            r.wf(),
            r.parts == COMMENT,
    {
        Weight { parts: COMMENT }
    }
}

/// The smallest number of 24 bits.
pub const LOW: u128 = 8_388_608;

/// The smallest number of 25 bits.
pub const HIGH: u128 = 16_777_216;

/// The whole number nearest to `n / d`, the even one of two equally near.
pub open spec fn nearest(n: int, d: int) -> int {
    let q = n / d;
    let r = n % d;
    if 2 * r > d || (2 * r == d && q % 2 == 1) {
        q + 1
    } else {
        q
    }
}

/// The whole part of `n / d` rounded to single precision, for a quotient below
/// 2^24: 24 significant bits, ties to even.
pub open spec fn single_small(n: int, d: int) -> int
    decreases HIGH * d - n,
{
    if n <= 0 || n >= LOW * d {
        nearest(n, d)
    } else {
        single_small(2 * n, d) / 2
    }
}

/// The whole part of `n / d` rounded to single precision.
pub open spec fn single(n: int, d: int) -> int
    decreases (if n >= HIGH * d {
        n - HIGH * d + 1
    } else {
        0
    }),
    when d >= 1
{
    if n >= HIGH * d {
        2 * single(n, 2 * d)
    } else {
        single_small(n, d)
    }
}

/// A whole number kept within 32 bits.
pub open spec fn saturated(n: int) -> int {
    if n > i32::MAX {
        i32::MAX as int
    } else if n < i32::MIN {
        i32::MIN as int
    } else {
        n
    }
}

/// A score with its weight applied. A score that is not negative is
/// multiplied by the weight, a negative one divided by it, each step rounded
/// to single precision and the result cut to a whole number.
pub open spec fn weighed(score: int, weight: Weight) -> int {
    if score >= 0 {
        saturated(single(single(score, 1) * weight.parts, WHOLE as int))
    } else {
        saturated(-single(single(-score, 1) * WHOLE, weight.parts as int))
    }
}

// ---------------------------------------------------------------------------
// Rounding keeps the order
// ---------------------------------------------------------------------------

proof fn lemma_nearest_bounds(n: int, d: int)
    requires
        n >= 0,
        d >= 1,
    ensures
        n / d <= nearest(n, d) <= n / d + 1,
        nearest(n, d) >= 0,
        n < HIGH * d ==> nearest(n, d) <= HIGH,
        n >= LOW * d ==> nearest(n, d) >= LOW && nearest(n, d) * d <= 2 * n,
{
    assert(0 <= n / d) by (nonlinear_arith)
        requires
            n >= 0,
            d >= 1,
    ;
    if n < HIGH * d {
        assert(n / d < HIGH) by (nonlinear_arith)
            requires
                0 <= n < HIGH * d,
                d >= 1,
        ;
    }
    if n >= LOW * d {
        assert(n / d >= LOW && (n / d + 1) * d <= 2 * n) by (nonlinear_arith)
            requires
                n >= LOW * d,
                d >= 1,
                LOW == 8_388_608,
        ;
        assert(nearest(n, d) * d <= (n / d + 1) * d) by (nonlinear_arith)
            requires
                nearest(n, d) <= n / d + 1,
                d >= 1,
        ;
    }
}

/// A larger quotient is not rounded to a smaller number.
proof fn lemma_nearest_keeps_order(n1: int, d1: int, n2: int, d2: int)
    requires
        n1 >= 0,
        n2 >= 0,
        d1 >= 1,
        d2 >= 1,
        n1 * d2 <= n2 * d1,
    ensures
        nearest(n1, d1) <= nearest(n2, d2),
{
    let q1 = n1 / d1;
    let r1 = n1 % d1;
    let q2 = n2 / d2;
    let r2 = n2 % d2;
    vstd::arithmetic::div_mod::lemma_fundamental_div_mod(n1, d1);
    vstd::arithmetic::div_mod::lemma_fundamental_div_mod(n2, d2);
    assert(q1 <= q2) by (nonlinear_arith)
        requires
            n1 == d1 * q1 + r1,
            n2 == d2 * q2 + r2,
            0 <= r1,
            r2 < d2,
            d1 >= 1,
            d2 >= 1,
            n1 * d2 <= n2 * d1,
    ;
    if q1 == q2 {
        assert(r1 * d2 <= r2 * d1) by (nonlinear_arith)
            requires
                n1 == d1 * q1 + r1,
                n2 == d2 * q2 + r2,
                q1 == q2,
                n1 * d2 <= n2 * d1,
        ;
        if 2 * r1 > d1 {
            assert(2 * r2 > d2) by (nonlinear_arith)
                requires
                    2 * r1 > d1,
                    r1 * d2 <= r2 * d1,
                    d1 >= 1,
                    d2 >= 1,
            ;
        } else if 2 * r1 == d1 {
            assert(2 * r2 >= d2) by (nonlinear_arith)
                requires
                    2 * r1 == d1,
                    r1 * d2 <= r2 * d1,
                    d1 >= 1,
            ;
        }
    }
}

proof fn lemma_small_bounds(n: int, d: int)
    requires
        0 <= n < HIGH * d,
        d >= 1,
    ensures
        0 <= single_small(n, d) <= HIGH,
        n < LOW * d ==> single_small(n, d) <= LOW,
        n >= LOW * d ==> single_small(n, d) >= LOW && single_small(n, d) * d <= 2 * n,
        n == 0 ==> single_small(n, d) == 0,
    decreases HIGH * d - n,
{
    lemma_nearest_bounds(n, d);
    if n == 0 {
        assert(0int / d == 0 && 0int % d == 0) by (nonlinear_arith)
            requires
                d >= 1,
        ;
    } else if n < LOW * d {
        lemma_small_bounds(2 * n, d);
    }
}

proof fn lemma_single_bounds(n: int, d: int)
    requires
        n >= 0,
        d >= 1,
    ensures
        single(n, d) >= 0,
        n == 0 ==> single(n, d) == 0,
        n < HIGH * d ==> single(n, d) <= HIGH,
        n >= LOW * d ==> single(n, d) >= LOW && single(n, d) * d <= 2 * n,
        n >= HIGH * d ==> single(n, d) >= HIGH,
    decreases (if n >= HIGH * d {
        n - HIGH * d + 1
    } else {
        0
    }),
{
    if n >= HIGH * d {
        lemma_single_bounds(n, 2 * d);
        assert(single(n, d) * d == single(n, 2 * d) * (2 * d)) by (nonlinear_arith)
            requires
                single(n, d) == 2 * single(n, 2 * d),
        ;
    } else {
        lemma_small_bounds(n, d);
    }
}

proof fn lemma_small_keeps_order(n1: int, d1: int, n2: int, d2: int)
    requires
        0 <= n1 < HIGH * d1,
        0 <= n2 < HIGH * d2,
        d1 >= 1,
        d2 >= 1,
        n1 * d2 <= n2 * d1,
    ensures
        single_small(n1, d1) <= single_small(n2, d2),
    decreases HIGH * d1 - n1,
{
    lemma_small_bounds(n1, d1);
    lemma_small_bounds(n2, d2);
    if n1 == 0 {
    } else if n1 < LOW * d1 {
        assert(n2 > 0) by (nonlinear_arith)
            requires
                n1 > 0,
                d2 >= 1,
                n1 * d2 <= n2 * d1,
                d1 >= 1,
        ;
        if n2 < LOW * d2 {
            assert((2 * n1) * d2 <= (2 * n2) * d1) by (nonlinear_arith)
                requires
                    n1 * d2 <= n2 * d1,
            ;
            lemma_small_keeps_order(2 * n1, d1, 2 * n2, d2);
        }
    } else {
        assert(n2 >= LOW * d2) by (nonlinear_arith)
            requires
                n1 >= LOW * d1,
                n1 * d2 <= n2 * d1,
                d1 >= 1,
                d2 >= 1,
        ;
        lemma_nearest_keeps_order(n1, d1, n2, d2);
    }
}

/// Rounding to single precision keeps the order of two quotients.
pub proof fn single_keeps_order(n1: int, d1: int, n2: int, d2: int)
    requires
        n1 >= 0,
        n2 >= 0,
        d1 >= 1,
        d2 >= 1,
        n1 * d2 <= n2 * d1,
    ensures
        single(n1, d1) <= single(n2, d2),
    decreases (if n1 >= HIGH * d1 {
        n1 - HIGH * d1 + 1
    } else {
        0
    }),
{
    lemma_single_bounds(n1, d1);
    lemma_single_bounds(n2, d2);
    if n1 >= HIGH * d1 {
        assert(n2 >= HIGH * d2) by (nonlinear_arith)
            requires
                n1 >= HIGH * d1,
                n1 * d2 <= n2 * d1,
                d1 >= 1,
                d2 >= 1,
        ;
        assert(n1 * (2 * d2) <= n2 * (2 * d1)) by (nonlinear_arith)
            requires
                n1 * d2 <= n2 * d1,
        ;
        single_keeps_order(n1, 2 * d1, n2, 2 * d2);
    } else if n2 < HIGH * d2 {
        lemma_small_keeps_order(n1, d1, n2, d2);
    }
}

/// A lower weight is worth no more, whatever the sign of the score.
pub proof fn lower_weight_is_worth_no_more(score: int, lower: Weight, higher: Weight)
    requires
        lower.wf(),
        higher.wf(),
        lower.parts <= higher.parts,
    ensures
        weighed(score, lower) <= weighed(score, higher),
{
    if score >= 0 {
        let s = single(score, 1);
        lemma_single_bounds(score, 1);
        assert((s * lower.parts) * WHOLE <= (s * higher.parts) * WHOLE && s * lower.parts >= 0 && s
            * higher.parts >= 0) by (nonlinear_arith)
            requires
                s >= 0,
                0 <= lower.parts <= higher.parts,
                WHOLE >= 0,
        ;
        single_keeps_order(s * lower.parts, WHOLE as int, s * higher.parts, WHOLE as int);
    } else {
        let s = single(-score, 1);
        lemma_single_bounds(-score, 1);
        assert((s * WHOLE) * lower.parts <= (s * WHOLE) * higher.parts && s * WHOLE >= 0)
            by (nonlinear_arith)
            requires
                s >= 0,
                0 <= lower.parts <= higher.parts,
                WHOLE >= 0,
        ;
        single_keeps_order(s * WHOLE, higher.parts as int, s * WHOLE, lower.parts as int);
    }
}

/// A better score is worth no less at the same weight.
pub proof fn better_score_is_worth_no_less(lower: int, higher: int, weight: Weight)
    requires
        weight.wf(),
        lower <= higher,
    ensures
        weighed(lower, weight) <= weighed(higher, weight),
{
    let whole = WHOLE as int;
    let parts = weight.parts as int;
    if lower >= 0 {
        single_keeps_order(lower, 1, higher, 1);
        let (a, b) = (single(lower, 1), single(higher, 1));
        lemma_single_bounds(lower, 1);
        assert((a * parts) * whole <= (b * parts) * whole && a * parts >= 0 && b * parts >= 0)
            by (nonlinear_arith)
            requires
                0 <= a <= b,
                parts >= 0,
                whole >= 0,
        ;
        single_keeps_order(a * parts, whole, b * parts, whole);
    } else if higher < 0 {
        single_keeps_order(-higher, 1, -lower, 1);
        let (a, b) = (single(-higher, 1), single(-lower, 1));
        lemma_single_bounds(-higher, 1);
        assert((a * whole) * parts <= (b * whole) * parts && a * whole >= 0 && b * whole >= 0)
            by (nonlinear_arith)
            requires
                0 <= a <= b,
                parts >= 0,
                whole >= 0,
        ;
        single_keeps_order(a * whole, parts, b * whole, parts);
    } else {
        let (a, b) = (single(-lower, 1), single(higher, 1));
        lemma_single_bounds(-lower, 1);
        lemma_single_bounds(higher, 1);
        assert(a * whole >= 0 && b * parts >= 0) by (nonlinear_arith)
            requires
                a >= 0,
                b >= 0,
                whole >= 0,
                parts >= 0,
        ;
        lemma_single_bounds(a * whole, parts);
        lemma_single_bounds(b * parts, whole);
    }
}

/// A score below 2^24 is kept as it is at full weight.
pub proof fn full_weight_keeps_the_score(score: int)
    requires
        -HIGH < score < HIGH,
    ensures
        weighed(score, (Weight { parts: WHOLE })) == score,
{
    let whole = WHOLE as int;
    let size = if score >= 0 {
        score
    } else {
        -score
    };
    lemma_whole_is_kept(size, 1);
    assert(single(size, 1) == size);
    assert(size * whole < HIGH * whole && size * whole >= 0) by (nonlinear_arith)
        requires
            0 <= size < HIGH,
            whole >= 1,
    ;
    lemma_whole_is_kept(size, whole);
}

/// A whole number below 2^24 is kept by rounding.
proof fn lemma_whole_is_kept(k: int, d: int)
    requires
        0 <= k < HIGH,
        d >= 1,
    ensures
        single(k * d, d) == k,
{
    assert(0 <= k * d < HIGH * d) by (nonlinear_arith)
        requires
            0 <= k < HIGH,
            d >= 1,
    ;
    lemma_small_whole_is_kept(k, d);
}

proof fn lemma_small_whole_is_kept(k: int, d: int)
    requires
        0 <= k < HIGH,
        d >= 1,
    ensures
        single_small(k * d, d) == k,
    decreases HIGH - k,
{
    let n = k * d;
    vstd::arithmetic::div_mod::lemma_fundamental_div_mod_converse(n, d, k, 0);
    if k == 0 {
    } else if k < LOW {
        assert(0 < n < LOW * d && 2 * n == (2 * k) * d) by (nonlinear_arith)
            requires
                0 < k < LOW,
                d >= 1,
                n == k * d,
        ;
        lemma_small_whole_is_kept(2 * k, d);
    } else {
        assert(n >= LOW * d) by (nonlinear_arith)
            requires
                k >= LOW,
                d >= 1,
                n == k * d,
        ;
    }
}

// ---------------------------------------------------------------------------
// Weighing
// ---------------------------------------------------------------------------

fn nearest_to(n: u128, d: u128) -> (r: u128)
    requires
        d >= 1,
        n <= 0x1000_0000_0000_0000_0000,
        d <= 0x1000_0000_0000_0000_0000,
    ensures
        r == nearest(n as int, d as int),
{
    let q: u128 = n / d;
    let r: u128 = n % d;
    assert(q <= n) by (nonlinear_arith)
        requires
            q == n / d,
            d >= 1,
    ;
    if 2 * r > d || (2 * r == d && q % 2 == 1) {
        q + 1
    } else {
        q
    }
}

fn single_small_of(n: u128, d: u128) -> (r: u128)
    requires
        1 <= d <= 0x1000_0000_0000,
        n < HIGH * d,
    ensures
        r == single_small(n as int, d as int),
    decreases HIGH * d - n,
{
    if n == 0 || n >= LOW * d {
        nearest_to(n, d)
    } else {
        single_small_of(2 * n, d) / 2
    }
}

/// The whole part of `n / d` rounded to single precision.
fn single_of(n: u128, d: u128) -> (r: u128)
    requires
        1 <= d <= 0x1000_0000_0000,
        n <= 0x400_0000_0000_0000,
    ensures
        r == single(n as int, d as int),
        r <= 2 * n || r <= HIGH,
    decreases (if n >= HIGH * d {
        n - HIGH * d + 1
    } else {
        0
    }),
{
    proof {
        lemma_single_bounds(n as int, d as int);
        if n >= HIGH * d {
            lemma_single_bounds(n as int, 2 * d);
            assert(single(n as int, d as int) <= 2 * n) by (nonlinear_arith)
                requires
                    single(n as int, d as int) * d <= 2 * n,
                    single(n as int, d as int) >= 0,
                    d >= 1,
            ;
        }
    }
    if n >= HIGH * d {
        2 * single_of(n, 2 * d)
    } else {
        single_small_of(n, d)
    }
}

/// Apply a field's weight to the score it produced.
///
/// Scaling cannot simply multiply: a score goes negative for a poor match in a
/// long field, and multiplying a negative by a weight below one makes it
/// *larger*, so a comment would outrank the keywords exactly when both matched
/// badly. Dividing on that side keeps a lower weight worth less whatever the
/// sign.
pub fn weigh(score: i32, weight: Weight) -> (r: i32)
    requires
        weight.wf(),
    ensures
        r == weighed(score as int, weight),
{
    if score >= 0 {
        let s: u128 = single_of(score as u128, 1);
        assert(0 <= s * weight.parts <= 0x1_0000_0000 * 33_554_432) by (nonlinear_arith)
            requires
                0 <= s <= 0x1_0000_0000,
                0 <= weight.parts <= 33_554_432,
        ;
        let product: u128 = s * weight.parts as u128;
        let whole: u128 = single_of(product, WHOLE as u128);
        if whole > 2_147_483_647 {
            2_147_483_647
        } else {
            whole as i32
        }
    } else {
        let size: i64 = 0 - score as i64;
        let s: u128 = single_of(size as u128, 1);
        assert(0 <= s * WHOLE <= 0x1_0000_0000 * 33_554_432) by (nonlinear_arith)
            requires
                0 <= s <= 0x1_0000_0000,
                WHOLE == 33_554_432,
        ;
        let product: u128 = s * WHOLE as u128;
        let whole: u128 = single_of(product, weight.parts as u128);
        if whole > 2_147_483_648 {
            -2_147_483_648
        } else {
            (0 - whole as i64) as i32
        }
    }
}

} // verus!
