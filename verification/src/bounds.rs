//! Where the numbers of the cubic curve lie.

use crate::cube_root::{cube_root_value, first_guess, newton, newton_step, REPEATS};
use crate::order::{
    bounded, lemma_minus, lemma_over, lemma_plus, lemma_ratio, lemma_rounded_at_least,
    lemma_rounded_at_most, lemma_span, lemma_span_order, lemma_span_product, lemma_times,
    lemma_whole, lemma_whole_exact, lemma_zero, span,
};
use crate::rounding::{lemma_rounded_exact, lemma_rounded_monotone, rounded};
use crate::state::{beta, pace, pace_in_bytes, plateau_time};
use crate::value::{Value, UNIT_DIGITS};
use vstd::arithmetic::power2::{lemma2_to64, pow2};
use vstd::prelude::*;

verus! {

/// Whether the number is positive and lies between `2^i` and `2^j`.
pub open spec fn between(x: Value, i: int, j: int) -> bool {
    x matches Value::Finite { negative: false, units } && span(i) <= units <= span(j)
}

/// The product of two positive numbers.
pub(crate) proof fn lemma_times_between(a: Value, b: Value, i: int, j: int, k: int, l: int)
    requires
        between(a, i, j),
        between(b, k, l),
        -UNIT_DIGITS <= i,
        -UNIT_DIGITS <= j,
        -UNIT_DIGITS <= k,
        -UNIT_DIGITS <= l,
        -UNIT_DIGITS <= i + k,
        -UNIT_DIGITS <= j + l < 1024,
    ensures
        between(a.times(b), i + k, j + l),
{
    let (m, n) = (a->Finite_units, b->Finite_units);
    lemma_times(a, b, j, l);
    lemma_span_order(0, 0);
    lemma_span_product(i, k);
    assert(span(i) * span(k) <= m * n) by (nonlinear_arith)
        requires
            span(i) <= m,
            span(k) <= n,
    ;
    lemma_rounded_at_least(m * n, span(0), i + k);
}

/// The quotient of two positive numbers.
pub(crate) proof fn lemma_over_between(a: Value, b: Value, i: int, j: int, k: int, l: int)
    requires
        between(a, i, j),
        between(b, k, l),
        -UNIT_DIGITS <= i,
        -UNIT_DIGITS <= j,
        -UNIT_DIGITS <= k,
        -UNIT_DIGITS <= l,
        -UNIT_DIGITS <= i - l,
        -UNIT_DIGITS <= j - k < 1024,
    ensures
        between(a.over(b), i - l, j - k),
{
    let (m, n) = (a->Finite_units, b->Finite_units);
    lemma_over(a, b, j, k);
    lemma_span_order(0, 0);
    lemma_span_order(k, k);
    lemma_span_product(i - l, l);
    assert(m * span(0) >= span(i - l) * n) by (nonlinear_arith)
        requires
            span(i) <= m,
            n <= span(l),
            span(i - l) * span(l) == span(i) * span(0),
    {
        assert(span(i - l) * n <= span(i - l) * span(l));
        assert(span(i) * span(0) <= m * span(0));
    }
    lemma_rounded_at_least(m * span(0), n, i - l);
}

/// A whole number of at least one.
pub(crate) proof fn lemma_whole_between(n: nat, j: nat)
    requires
        1 <= n <= pow2(j),
        j < 1000,
    ensures
        between(Value::whole(n), 0, j as int),
{
    lemma_whole(n, j);
    assert(n * span(0) >= span(0) * 1) by (nonlinear_arith)
        requires
            n >= 1,
    ;
    lemma_rounded_at_least(n * span(0), 1, 0);
}

/// One step of Newton's method stays positive and finite.
pub(crate) proof fn lemma_newton_step_between(a: Value, x: Value, i: int, j: int)
    requires
        bounded(a, 70),
        a matches Value::Finite { negative: false, .. },
        between(x, i, j),
        -19 <= i <= 100,
        108 <= j <= 200,
    ensures
        between(newton_step(a, x), i - 1, j + 1),
{
    let two = Value::whole(2);
    let three = Value::whole(3);
    lemma2_to64();
    lemma_whole_exact(2);
    lemma_whole_exact(3);
    lemma_span(0, 1);
    lemma_span(0, 2);
    assert(between(two, 1, 1));
    assert(between(three, 1, 2));
    lemma_times_between(two, x, 1, 1, i, j);
    lemma_times_between(x, x, i, j, i, j);
    lemma_over(a, x.times(x), 70, 2 * i);
    lemma_span_order(70 - 2 * i, j + 1);
    let (p, q) = (two.times(x), a.over(x.times(x)));
    assert(!q.negative());
    lemma_plus(p, q, j + 1);
    let sum = p.plus(q);
    assert(between(sum, i + 1, j + 2)) by {
        lemma_span_order(i + 1, j + 2);
        let n = (p.signed_units() + q.signed_units()) as nat;
        assert(span(i + 1) * 1 == span(i + 1));
        lemma_rounded_at_least(n, 1, i + 1);
    }
    lemma_over_between(sum, three, i + 1, j + 2, 1, 2);
}

/// Newton's method stays positive and finite.
pub(crate) proof fn lemma_newton_between(a: Value, x: Value, tolerance: Value, n: nat, i: int, j: int)
    requires
        bounded(a, 70),
        a matches Value::Finite { negative: false, .. },
        between(x, i, j),
        -19 <= i - n,
        i <= 100,
        108 <= j,
        j + n <= 200,
    ensures
        between(newton(a, x, tolerance, n), i - n - 1, j + n + 1),
    decreases n,
{
    let next = newton_step(a, x);
    lemma_newton_step_between(a, x, i, j);
    if n == 0 || next.minus(x).magnitude().less(tolerance) {
        lemma_span_order(i - n - 1, i - 1);
        lemma_span_order(j + 1, j + n + 1);
    } else {
        lemma_newton_between(a, next, tolerance, (n - 1) as nat, i - 1, j + 1);
    }
}

/// Every first guess lies between `2^3` and `2^20`.
pub(crate) proof fn lemma_first_guess_between(a: Value)
    ensures
        between(first_guess(a).1, 3, 20),
{
    lemma2_to64();
    lemma_span(0, 3);
    lemma_span(0, 20);
    let o = span(0);
    lemma_guess_between(8_879_040_017_426_005, 1_000_000_000_000_000);
    lemma_guess_between(8_879_040_017_426_004, 100_000_000_000_000);
    lemma_guess_between(8_879_040_017_426_004, 10_000_000_000_000);
    lemma_guess_between(8_879_040_017_426_003, 1_000_000_000_000);
    lemma_guess_between(8_879_040_017_426_001, 100_000_000_000);
    lemma_guess_between(8_879_040_017_426, 10_000_000);
}

proof fn lemma_guess_between(n: nat, d: nat)
    requires
        d > 0,
        8 * d <= n <= 1048576 * d,
    ensures
        between(Value::ratio(n, d), 3, 20),
{
    lemma2_to64();
    lemma_span(0, 3);
    lemma_span(0, 20);
    assert(span(3) * d <= n * span(0) <= span(20) * d) by (nonlinear_arith)
        requires
            8 * d <= n <= 1048576 * d,
            span(3) == span(0) * 8,
            span(20) == span(0) * 1048576,
    ;
    lemma_ratio(n, d, 20);
    lemma_rounded_at_least(n * span(0), d, 3);
}

/// The cube root of a positive number of at most `2^70` is positive and finite.
pub(crate) proof fn lemma_cube_root_between(a: Value)
    requires
        bounded(a, 70),
        a.signed_units() > 0,
    ensures
        cube_root_value(a) matches Some(x) && between(x, -18, 131),
{
    let (tolerance, guess) = first_guess(a);
    lemma_first_guess_between(a);
    lemma_span_order(20, 110);
    lemma_newton_between(a, guess, tolerance, REPEATS as nat, 3, 110);
}

/// `beta` lies between one half and three quarters.
pub(crate) proof fn lemma_beta()
    ensures
        beta() == (Value::Finite { negative: false, units: rounded(7 * span(0), 10) }),
        span(0) <= 2 * rounded(7 * span(0), 10),
        4 * rounded(7 * span(0), 10) <= 3 * span(0),
        between(beta(), -1, 0),
{
    lemma2_to64();
    lemma_span(-1, 1);
    lemma_span(-2, 2);
    lemma_ratio(7, 10, 0);
    lemma_rounded_at_least(7 * span(0), 10, -1);
    lemma_rounded_exact(3, (UNIT_DIGITS - 2) as nat, 10);
    lemma_rounded_monotone(7 * span(0), 10, 3 * span(-2) * 10, 10);
}

/// `1 - beta` lies between one quarter and one half.
pub(crate) proof fn lemma_one_minus_beta()
    ensures
        between(Value::whole(1).minus(beta()), -2, -1),
{
    let one = Value::whole(1);
    lemma2_to64();
    lemma_beta();
    lemma_whole_exact(1);
    lemma_span(-1, 1);
    lemma_span(-2, 2);
    lemma_span_order(0, 0);
    assert(bounded(one, 0));
    lemma_minus(one, beta(), 0);
    let n = (one.signed_units() - beta().signed_units()) as nat;
    assert(span(-1) * 1 == span(-1) && span(-2) * 1 == span(-2));
    lemma_rounded_at_most(n, 1, -1);
    lemma_rounded_at_least(n, 1, -2);
}

/// The pace of at least one byte per segment.
pub(crate) proof fn lemma_pace_between(min_cwnd: nat)
    requires
        1 <= min_cwnd <= pow2(64),
    ensures
        between(pace_in_bytes(min_cwnd), -2, 63),
{
    lemma2_to64();
    lemma_span(-2, 2);
    lemma_span(-1, 1);
    lemma_ratio(4, 10, -1);
    lemma_rounded_at_least(4 * span(0), 10, -2);
    lemma_whole_between(min_cwnd, 64);
    lemma_times_between(pace(), Value::whole(min_cwnd), -2, -1, 0, 64);
}

/// With segments of at least a byte, the plateau is at a positive and finite time, unless it is
/// at a window of zero.
pub(crate) proof fn lemma_plateau_between(w_max: nat, min_cwnd: nat)
    requires
        w_max <= pow2(64),
        1 <= min_cwnd <= pow2(64),
    ensures
        w_max > 0 ==> (plateau_time(w_max, min_cwnd) matches Some(k) && between(k, -18, 131)),
        w_max == 0 ==> plateau_time(w_max, min_cwnd) is None,
{
    let c = pace_in_bytes(min_cwnd);
    let w = Value::whole(w_max);
    let f = Value::whole(1).minus(beta());
    lemma_pace_between(min_cwnd);
    lemma_one_minus_beta();
    if w_max > 0 {
        lemma_whole_between(w_max, 64);
        lemma_times_between(w, f, 0, 64, -2, -1);
        lemma_over_between(w.times(f), c, -2, 63, -2, 63);
        lemma_span_order(65, 70);
        lemma_span_order(-65, -65);
        lemma_cube_root_between(w.times(f).over(c));
    } else {
        lemma_whole_exact(0);
        assert(0 * span(0) == 0) by (nonlinear_arith);
        lemma_span_order(0, 0);
        lemma_zero(span(0));
        assert(0 * f->Finite_units == 0) by (nonlinear_arith);
        lemma_times(w, f, 0, -1);
        lemma_span_order(-2, 0);
        lemma_over(w.times(f), c, 0, -2);
        lemma_zero(c->Finite_units);
    }
}

} // verus!
