use vstd::prelude::*;

verus! {

/// Scale of every fixed-point ratio in this crate: a ratio `r` is held as the
/// integer `r * FIXED_ONE`, truncated toward zero.
pub const FIXED_ONE: i128 = 100_000_000;

/// Number of basis points in one whole.
pub const BPS: i128 = 10_000;

/// Largest magnitude of a numerator accepted by `ratio_fixed` (2^100).
pub const RATIO_NUM_LIMIT: i128 = 0x10000000000000000000000000;

/// Integer division rounding toward zero (as Rust's `/` does on signed
/// integers), for a positive divisor.
pub open spec fn trunc_div(a: int, b: int) -> int
    recommends
        b > 0,
{
    if a >= 0 {
        a / b
    } else {
        -((-a) / b)
    }
}

/// The fixed-point value of the ratio `num / den`.
pub open spec fn fixed_ratio(num: int, den: int) -> int {
    trunc_div(num * FIXED_ONE, den)
}

/// Divides `a` by a positive `b`, rounding toward zero.
pub fn div_trunc(a: i128, b: i128) -> (r: i128)
    requires
        b > 0,
        a > i128::MIN,
    ensures
        r == trunc_div(a as int, b as int),
{
    if a >= 0 {
        a / b
    } else {
        let m: i128 = -a;
        -(m / b)
    }
}

/// The fixed-point value of `num / den` for a positive `den`.
pub fn ratio_fixed(num: i128, den: i128) -> (r: i128)
    requires
        den > 0,
        -RATIO_NUM_LIMIT <= num <= RATIO_NUM_LIMIT,
    ensures
        r == fixed_ratio(num as int, den as int),
{
    let scaled: i128 = num * FIXED_ONE;
    div_trunc(scaled, den)
}

} // verus!

verus! {

/// A count of items times the largest `u32` stays far below `RATIO_NUM_LIMIT`.
pub proof fn lemma_count_times_u32(n: int, total: int)
    requires
        0 <= n <= usize::MAX,
        0 <= total <= n * (u32::MAX as int),
    ensures
        total < 0x1000000000000000000000000,
{
    assert(n * (u32::MAX as int) <= (usize::MAX as int) * (u32::MAX as int)) by (nonlinear_arith)
        requires
            0 <= n <= usize::MAX,
    ;
}

/// Bounds on factors bound their product.
pub proof fn lemma_mul_within(a: int, b: int, bound_a: int, bound_b: int)
    requires
        -bound_a <= a <= bound_a,
        -bound_b <= b <= bound_b,
    ensures
        -(bound_a * bound_b) <= a * b <= bound_a * bound_b,
{
    if a >= 0 && b >= 0 {
        vstd::arithmetic::mul::lemma_mul_upper_bound(a, bound_a, b, bound_b);
    } else if a < 0 && b < 0 {
        vstd::arithmetic::mul::lemma_mul_upper_bound(-a, bound_a, -b, bound_b);
        assert((-a) * (-b) == a * b) by (nonlinear_arith);
    } else if a < 0 {
        vstd::arithmetic::mul::lemma_mul_upper_bound(-a, bound_a, b, bound_b);
        assert((-a) * b == -(a * b)) by (nonlinear_arith);
    } else {
        vstd::arithmetic::mul::lemma_mul_upper_bound(a, bound_a, -b, bound_b);
        assert(a * (-b) == -(a * b)) by (nonlinear_arith);
    }
}

/// Scaling a quotient: `(m * c) / q == (m / q) * c + ((m % q) * c) / q`.
pub proof fn lemma_scaled_div(m: int, c: int, q: int)
    requires
        m >= 0,
        c >= 0,
        q > 0,
    ensures
        (m * c) / q == (m / q) * c + ((m % q) * c) / q,
{
    let a = m / q;
    let r = m % q;
    vstd::arithmetic::div_mod::lemma_fundamental_div_mod(m, q);
    vstd::arithmetic::div_mod::lemma_mod_pos_bound(m, q);
    let b = (r * c) / q;
    let r2 = (r * c) % q;
    vstd::arithmetic::div_mod::lemma_fundamental_div_mod(r * c, q);
    vstd::arithmetic::div_mod::lemma_mod_pos_bound(r * c, q);
    assert(m * c == (a * c + b) * q + r2) by (nonlinear_arith)
        requires
            m == q * a + r,
            r * c == q * b + r2,
    ;
    vstd::arithmetic::div_mod::lemma_fundamental_div_mod_converse(m * c, q, a * c + b, r2);
}

/// A ratio whose numerator is no larger than its denominator lies in
/// `[-1, 1]`.
pub proof fn lemma_fixed_ratio_unit(num: int, den: int)
    requires
        den > 0,
        -den <= num <= den,
    ensures
        -FIXED_ONE <= fixed_ratio(num, den) <= FIXED_ONE,
        num >= 0 ==> fixed_ratio(num, den) >= 0,
        num <= 0 ==> fixed_ratio(num, den) <= 0,
{
    let m = if num >= 0 { num } else { -num };
    assert(0 <= m * FIXED_ONE <= den * FIXED_ONE) by (nonlinear_arith)
        requires
            0 <= m <= den,
    ;
    vstd::arithmetic::div_mod::lemma_div_is_ordered(m * FIXED_ONE, den * FIXED_ONE, den);
    assert(den * FIXED_ONE == FIXED_ONE * den) by (nonlinear_arith);
    vstd::arithmetic::div_mod::lemma_div_multiples_vanish(FIXED_ONE as int, den);
    vstd::arithmetic::div_mod::lemma_div_pos_is_pos(m * FIXED_ONE, den);
    if num < 0 {
        assert((-num) * FIXED_ONE == -(num * FIXED_ONE)) by (nonlinear_arith);
    }
}

/// An optional fixed-point value read as an optional integer.
pub open spec fn opt_int(o: Option<i128>) -> Option<int> {
    match o {
        Some(x) => Some(x as int),
        None => None,
    }
}

} // verus!
