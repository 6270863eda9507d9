//! The size of results, and that rounding keeps the order of numbers.

use crate::rounding::{
    excess, lemma_excess, lemma_nearest_error, lemma_rounded_exact, lemma_rounded_monotone,
    lemma_rounded_significand, nearest, rounded, SIGNIFICAND_END, SIGNIFICAND_TOP,
};
use crate::value::{Value, END_DIGITS, UNIT_DIGITS};
use vstd::arithmetic::power2::{
    lemma2_to64, lemma2_to64_rest, lemma_pow2_adds, lemma_pow2_pos, lemma_pow2_strictly_increases,
    pow2,
};
use vstd::prelude::*;

verus! {

/// `2^j` in units.
pub open spec fn span(j: int) -> nat {
    pow2((j + UNIT_DIGITS) as nat)
}

/// Whether the number is finite and its size is at most `2^j`.
pub open spec fn bounded(x: Value, j: int) -> bool {
    x matches Value::Finite { units, .. } && units <= span(j)
}

/// `n / d` rounded, whatever its sign.
pub open spec fn rounded_signed(n: int, d: nat) -> int {
    if n < 0 {
        -(rounded((-n) as nat, d) as int)
    } else {
        rounded(n as nat, d) as int
    }
}

pub(crate) proof fn lemma_span(j: int, k: nat)
    requires
        j >= -UNIT_DIGITS,
    ensures
        span(j + k) == span(j) * pow2(k),
        0 < span(j) <= span(j + k),
{
    lemma_pow2_adds((j + UNIT_DIGITS) as nat, k);
    lemma_pow2_pos((j + UNIT_DIGITS) as nat);
    lemma_pow2_pos(k);
    assert(span(j) <= span(j) * pow2(k)) by (nonlinear_arith)
        requires
            pow2(k) >= 1,
    ;
}

pub(crate) proof fn lemma_span_order(i: int, j: int)
    requires
        -UNIT_DIGITS <= i <= j,
    ensures
        0 < span(i) <= span(j),
{
    lemma_span(i, (j - i) as nat);
}

pub(crate) proof fn lemma_span_product(i: int, j: int)
    requires
        i >= -UNIT_DIGITS,
        j >= -UNIT_DIGITS,
        i + j >= -UNIT_DIGITS,
    ensures
        span(i) * span(j) == span(i + j) * span(0),
{
    lemma_pow2_adds((i + UNIT_DIGITS) as nat, (j + UNIT_DIGITS) as nat);
    lemma_pow2_adds((i + j + UNIT_DIGITS) as nat, UNIT_DIGITS as nat);
}

/// A number of at least `2^-1011` has many units.
pub(crate) proof fn lemma_many_units()
    ensures
        SIGNIFICAND_END * 1024 <= span(-1011),
        SIGNIFICAND_END * 1024 <= span(-400),
{
    lemma2_to64();
    lemma2_to64_rest();
    assert(span(-1011) == pow2(63));
    lemma_span_order(-1011, -400);
}

/// A quotient of at most `2^j` rounds to at most `2^j`.
pub(crate) proof fn lemma_rounded_at_most(n: nat, d: nat, j: int)
    requires
        d > 0,
        j >= -UNIT_DIGITS,
        n <= span(j) * d,
    ensures
        rounded(n, d) <= span(j),
{
    let k = (j + UNIT_DIGITS) as nat;
    lemma_rounded_exact(1, k, d);
    assert(1 * pow2(k) == pow2(k));
    assert(n * d <= (span(j) * d) * d) by (nonlinear_arith)
        requires
            n <= span(j) * d,
    ;
    lemma_rounded_monotone(n, d, span(j) * d, d);
}

/// A quotient of at least `2^j` rounds to at least `2^j`.
pub(crate) proof fn lemma_rounded_at_least(n: nat, d: nat, j: int)
    requires
        d > 0,
        j >= -UNIT_DIGITS,
        n >= span(j) * d,
    ensures
        rounded(n, d) >= span(j),
{
    let k = (j + UNIT_DIGITS) as nat;
    lemma_rounded_exact(1, k, d);
    assert(1 * pow2(k) == pow2(k));
    assert((span(j) * d) * d <= n * d) by (nonlinear_arith)
        requires
            n >= span(j) * d,
    ;
    lemma_rounded_monotone(span(j) * d, d, n, d);
}

pub(crate) proof fn lemma_finite(units: nat, j: int)
    requires
        units <= span(j),
        -UNIT_DIGITS <= j < 1024,
    ensures
        units < pow2(END_DIGITS as nat),
{
    lemma_pow2_strictly_increases((j + UNIT_DIGITS) as nat, END_DIGITS as nat);
}

/// Rounding keeps the order of quotients with one denominator, whatever their signs.
pub(crate) proof fn lemma_signed_monotone(n1: int, n2: int, d: nat)
    requires
        d > 0,
        n1 <= n2,
    ensures
        rounded_signed(n1, d) <= rounded_signed(n2, d),
{
    if n1 >= 0 {
        assert(n1 * d <= n2 * d) by (nonlinear_arith)
            requires
                n1 <= n2,
        ;
        lemma_rounded_monotone(n1 as nat, d, n2 as nat, d);
    } else if n2 < 0 {
        assert(-n2 * d <= -n1 * d) by (nonlinear_arith)
            requires
                n1 <= n2,
        ;
        lemma_rounded_monotone((-n2) as nat, d, (-n1) as nat, d);
    }
}

/// The sum of two bounded numbers.
pub(crate) proof fn lemma_plus(a: Value, b: Value, j: int)
    requires
        bounded(a, j),
        bounded(b, j),
        -UNIT_DIGITS <= j < 1023,
    ensures
        bounded(a.plus(b), j + 1),
        a.plus(b).signed_units() == rounded_signed(a.signed_units() + b.signed_units(), 1),
{
    let sum = a.signed_units() + b.signed_units();
    lemma_span(j, 1);
    lemma2_to64();
    assert(span(j + 1) == 2 * span(j));
    if sum == 0 {
        lemma_rounded_exact(0, 0, 1);
        assert(0 * pow2(0) * 1 == 0 && 0 * pow2(0) == 0) by (nonlinear_arith);
    } else {
        let size = if sum < 0 {
            (-sum) as nat
        } else {
            sum as nat
        };
        assert(span(j + 1) * 1 == span(j + 1));
        lemma_rounded_at_most(size, 1, j + 1);
        lemma_finite(rounded(size, 1), j + 1);
    }
}

/// The difference of two bounded numbers.
pub(crate) proof fn lemma_minus(a: Value, b: Value, j: int)
    requires
        bounded(a, j),
        bounded(b, j),
        -UNIT_DIGITS <= j < 1023,
    ensures
        bounded(a.minus(b), j + 1),
        a.minus(b).signed_units() == rounded_signed(a.signed_units() - b.signed_units(), 1),
{
    lemma_plus(a, b.negated(), j);
}

/// The product of two bounded numbers.
pub(crate) proof fn lemma_times(a: Value, b: Value, i: int, j: int)
    requires
        bounded(a, i),
        bounded(b, j),
        -UNIT_DIGITS <= i,
        -UNIT_DIGITS <= j,
        -UNIT_DIGITS <= i + j < 1024,
    ensures
        bounded(a.times(b), i + j),
        a.times(b).signed_units() == rounded_signed(a.signed_units() * b.signed_units(), span(0)),
        a.times(b)->Finite_units == rounded(a->Finite_units * b->Finite_units, span(0)),
{
    let (m, n) = (a->Finite_units, b->Finite_units);
    lemma_span_order(0, 0);
    lemma_span_product(i, j);
    assert(m * n <= span(i) * span(j)) by (nonlinear_arith)
        requires
            m <= span(i),
            n <= span(j),
    ;
    lemma_rounded_at_most(m * n, span(0), i + j);
    lemma_finite(rounded(m * n, span(0)), i + j);
    assert(-m * -n == m * n && m * -n == -(m * n) && -m * n == -(m * n)) by (nonlinear_arith);
    if m == 0 || n == 0 {
        assert(m * n == 0) by (nonlinear_arith)
            requires
                m == 0 || n == 0,
        ;
        lemma_zero(span(0));
    } else {
        assert(m * n > 0) by (nonlinear_arith)
            requires
                m > 0,
                n > 0,
        ;
    }
}

pub(crate) proof fn lemma_zero(d: nat)
    requires
        d > 0,
    ensures
        rounded(0, d) == 0,
{
    lemma_rounded_exact(0, 0, d);
    assert(0 * pow2(0) * d == 0 && 0 * pow2(0) == 0) by (nonlinear_arith);
}

/// The quotient of a number of at most `2^i` by one of at least `2^j`.
pub(crate) proof fn lemma_over(a: Value, b: Value, i: int, j: int)
    requires
        bounded(a, i),
        b matches Value::Finite { negative: false, units } && units >= span(j),
        -UNIT_DIGITS <= i,
        -UNIT_DIGITS <= j,
        -UNIT_DIGITS <= i - j < 1024,
    ensures
        bounded(a.over(b), i - j),
        a.over(b).signed_units() == rounded_signed(a.signed_units() * span(0), b->Finite_units),
        a.over(b)->Finite_units == rounded(a->Finite_units * span(0), b->Finite_units),
{
    let (m, n) = (a->Finite_units, b->Finite_units);
    lemma_span_order(0, 0);
    lemma_span_order(j, j);
    lemma_span_product(i - j, j);
    assert(m * span(0) <= span(i - j) * n) by (nonlinear_arith)
        requires
            m <= span(i),
            n >= span(j),
            span(i - j) * span(j) == span(i) * span(0),
    {
        assert(m * span(0) <= span(i) * span(0));
        assert(span(i - j) * span(j) <= span(i - j) * n);
    }
    lemma_rounded_at_most(m * span(0), n, i - j);
    lemma_finite(rounded(m * span(0), n), i - j);
    assert(-m * span(0) == -(m * span(0))) by (nonlinear_arith);
    if m == 0 {
        assert(m * span(0) == 0) by (nonlinear_arith)
            requires
                m == 0,
        ;
        lemma_zero(n);
    } else {
        assert(m * span(0) > 0) by (nonlinear_arith)
            requires
                m > 0,
                span(0) > 0,
        ;
    }
}

/// A ratio that is at most `2^j`.
pub(crate) proof fn lemma_ratio(n: nat, d: nat, j: int)
    requires
        d > 0,
        -UNIT_DIGITS <= j < 1000,
        n * span(0) <= span(j) * d,
    ensures
        Value::ratio(n, d) == (Value::Finite {
            negative: false,
            units: rounded(n * span(0), d),
        }),
        bounded(Value::ratio(n, d), j),
{
    lemma_rounded_at_most(n * span(0), d, j);
    lemma_finite(rounded(n * span(0), d), j);
}

/// A whole number of at most `2^j`.
pub(crate) proof fn lemma_whole(n: nat, j: nat)
    requires
        j < 1000,
        n <= pow2(j),
    ensures
        Value::whole(n) == (Value::Finite { negative: false, units: rounded(n * span(0), 1) }),
        bounded(Value::whole(n), j as int),
{
    lemma_span(0, j);
    assert(n * span(0) <= span(j as int) * 1) by (nonlinear_arith)
        requires
            n <= pow2(j),
            span(j as int) == span(0) * pow2(j),
    ;
    lemma_ratio(n, 1, j as int);
}

/// A whole number of at most fifty-three digits is exact.
pub(crate) proof fn lemma_whole_exact(n: nat)
    requires
        n <= SIGNIFICAND_END,
    ensures
        Value::whole(n) == (Value::Finite { negative: false, units: n * span(0) }),
        bounded(Value::whole(n), 53),
{
    lemma2_to64_rest();
    lemma_whole(n, 53);
    lemma_rounded_exact(n, UNIT_DIGITS as nat, 1);
    assert(n * span(0) * 1 == n * span(0));
}

/// Rounding moves a number of fifty-three digits or more by less than one part in `2^53`.
pub(crate) proof fn lemma_rounded_relative(n: nat, d: nat)
    requires
        d > 0,
        n >= SIGNIFICAND_TOP * d,
    ensures
        SIGNIFICAND_END * (rounded(n, d) * d) <= (SIGNIFICAND_END + 1) * n,
        (SIGNIFICAND_END - 1) * n <= SIGNIFICAND_END * (rounded(n, d) * d),
{
    let k = excess(n, d);
    let e = d * pow2(k);
    let m = nearest(n, e);
    lemma_excess(n, d);
    lemma_rounded_significand(n, d);
    lemma_nearest_error(n, e);
    lemma2_to64();
    assert(SIGNIFICAND_TOP * e <= n) by {
        if k == 0 {
            assert(d * pow2(0) == d);
        }
    }
    assert(rounded(n, d) * d == m * e) by (nonlinear_arith)
        requires
            rounded(n, d) == m * pow2(k),
            e == d * pow2(k),
    ;
}

/// A rounded number rounds to itself.
pub(crate) proof fn lemma_rounded_again(n: nat, d: nat)
    requires
        d > 0,
    ensures
        rounded(rounded(n, d), 1) == rounded(n, d),
{
    let k = excess(n, d);
    let m = nearest(n, d * pow2(k));
    lemma_rounded_significand(n, d);
    lemma_rounded_exact(m, k, 1);
    assert(m * pow2(k) * 1 == m * pow2(k));
}

} // verus!
