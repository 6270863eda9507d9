//! That the cube root is near the true one.

use crate::accuracy::{
    after, contracted, lemma_after_twenty, lemma_cube_order, lemma_first_step, lemma_rounding_near,
    lemma_short_step, lemma_step_above, lemma_step_contracts, near_step, FINE,
};
use crate::bounds::{
    between, lemma_first_guess_between, lemma_newton_between, lemma_newton_step_between,
    lemma_times_between,
};
use crate::cube_root::{cube_root_value, first_guess, newton, newton_step, REPEATS};
use crate::loss::lemma_product_near;
use crate::order::{
    bounded, lemma_many_units, lemma_minus, lemma_over, lemma_plus, lemma_rounded_again,
    lemma_rounded_relative, lemma_signed_monotone, lemma_span, lemma_span_order, lemma_span_product,
    lemma_times, lemma_whole_exact, span,
};
use crate::reach::lemma_root_above;
use crate::rounding::{rounded, SIGNIFICAND_END, SIGNIFICAND_TOP};
use crate::value::{Value, END_DIGITS};
use vstd::arithmetic::power2::{lemma2_to64, pow2};
use vstd::prelude::*;

verus! {

/// The cube of a number of units.
pub open spec fn cubed(x: nat) -> nat {
    x * x * x
}

/// A number of units, in those that the cube of a number of units is counted in.
pub open spec fn stretched(a: nat) -> nat {
    a * span(0) * span(0)
}

/// A step on binary64 numbers is one on their units, but for rounding.
pub(crate) proof fn lemma_step_near(a: Value, x: Value, e: int, f: int, i: int, j: int, l: int)
    requires
        between(a, e, f),
        between(x, i, j),
        -130 <= e <= f <= 1024,
        -19 <= i <= j <= 500,
        f - 2 * i <= l,
        j < l <= 1020,
        -1000 <= e - 2 * j,
    ensures
        newton_step(a, x) matches Value::Finite { negative: false, units: y } && 0 < y <= span(l)
            && near_step(stretched(a->Finite_units), x->Finite_units, y),
{
    let (two, three) = (Value::whole(2), Value::whole(3));
    let o = span(0);
    let (m, n) = (a->Finite_units, x->Finite_units);
    lemma2_to64();
    lemma_many_units();
    lemma_span_order(-400, i);
    lemma_span_order(-400, 0);
    lemma_whole_exact(2);
    lemma_whole_exact(3);
    lemma_span(0, 1);
    lemma_span(0, 2);
    // 2x
    lemma_times(two, x, 1, j);
    let t = rounded((2 * o) * n, o);
    assert((2 * o) * n == (2 * n) * o) by (nonlinear_arith);
    assert((2 * n) * o >= SIGNIFICAND_TOP * o) by (nonlinear_arith)
        requires
            n >= SIGNIFICAND_TOP,
    ;
    lemma_rounded_relative((2 * n) * o, o);
    lemma_product_near(2 * n, o, t);
    // x^2
    lemma_times(x, x, j, j);
    lemma_times_between(x, x, i, j, i, j);
    let q = rounded(n * n, o);
    lemma_span_product(i, i);
    lemma_span_order(-400, 2 * i);
    assert(n * n >= SIGNIFICAND_TOP * o) by (nonlinear_arith)
        requires
            n >= span(i),
            span(i) * span(i) == span(2 * i) * o,
            span(2 * i) >= SIGNIFICAND_TOP,
    {
        assert(n * n >= span(i) * span(i));
        assert(span(2 * i) * o >= SIGNIFICAND_TOP * o);
    }
    lemma_rounded_relative(n * n, o);
    // a / x^2
    lemma_over(a, x.times(x), f, 2 * i);
    let h = rounded(m * o, q);
    lemma_span_product(e - 2 * j, 2 * j);
    lemma_span_order(-1011, e - 2 * j);
    lemma_span_order(2 * i, 2 * j);
    assert(m * o >= SIGNIFICAND_TOP * q) by (nonlinear_arith)
        requires
            m >= span(e),
            q <= span(2 * j),
            span(e - 2 * j) * span(2 * j) == span(e) * o,
            span(e - 2 * j) >= SIGNIFICAND_TOP,
    {
        assert(m * o >= span(e) * o);
        assert(span(e - 2 * j) * span(2 * j) >= SIGNIFICAND_TOP * span(2 * j));
    }
    lemma_rounded_relative(m * o, q);
    // the sum
    let (vt, vh) = (two.times(x), a.over(x.times(x)));
    lemma_span_order(j + 1, l);
    lemma_span_order(f - 2 * i, l);
    lemma_plus(vt, vh, l);
    let u = rounded(t + h, 1);
    assert(SIGNIFICAND_END * t >= (SIGNIFICAND_END - 1) * (2 * n));
    assert(t >= n);
    lemma_rounded_relative(t + h, 1);
    assert(u * 1 == u);
    // a third of it
    assert(3 * u >= n * 1);
    assert(vt.plus(vh) == (Value::Finite { negative: false, units: u }));
    lemma_over(vt.plus(vh), three, l + 1, 1);
    let y = rounded(u * o, 3 * o);
    assert(u * o >= SIGNIFICAND_TOP * (3 * o)) by (nonlinear_arith)
        requires
            u >= 3 * SIGNIFICAND_TOP,
    ;
    lemma_rounded_relative(u * o, 3 * o);
    assert(y * (3 * o) == (3 * y) * o) by (nonlinear_arith);
    lemma_product_near(u, o, 3 * y);
    lemma_rounding_near(m, n, y, t, q, h, u, o);
}

/// Whether the cube of `y` units is within one part in `parts` of `a` units.
pub open spec fn near_root(a: nat, y: nat, parts: nat) -> bool {
    &&& parts * cubed(y) <= (parts + 1) * stretched(a)
    &&& (parts - 1) * stretched(a) <= parts * cubed(y)
}

/// One part in this many is how near the root of a number of at least `2^-7` is.
pub const NEAR_PARTS: u64 = 1073741824;

/// One part in this many is how near the root of a number of at least one half is.
pub const NEARER_PARTS: u64 = 17179869184;

/// What it means that a step moves by less than the tolerance.
pub(crate) proof fn lemma_moved(next: Value, x: Value, tolerance: nat, j: int)
    requires
        0 <= j < 1023,
        next matches Value::Finite { negative: false, .. },
        x matches Value::Finite { negative: false, .. },
        bounded(next, j),
        bounded(x, j),
        rounded(tolerance, 1) == tolerance,
        next.minus(x).magnitude().less(Value::Finite { negative: false, units: tolerance }),
    ensures
        -tolerance < next->Finite_units - x->Finite_units < tolerance,
{
    let d = next->Finite_units - x->Finite_units;
    lemma_minus(next, x, j);
    if d >= tolerance {
        lemma_signed_monotone(tolerance as int, d, 1);
    } else if d <= -tolerance {
        lemma_signed_monotone(tolerance as int, -d, 1);
    }
}

/// A step that moves by less than the tolerance ends near the root.
proof fn lemma_settles(a: Value, x: Value, tolerance: nat)
    requires
        between(a, -7, 70),
        between(x, -19, 131),
        rounded(tolerance, 1) == tolerance,
        2 * cubed(131072 * tolerance) <= stretched(a->Finite_units),
        newton_step(a, x).minus(x).magnitude().less(
            Value::Finite { negative: false, units: tolerance },
        ),
    ensures
        near_root(a->Finite_units, newton_step(a, x)->Finite_units, NEAR_PARTS as nat),
        2 * cubed(524288 * tolerance) <= stretched(a->Finite_units) ==> near_root(
            a->Finite_units,
            newton_step(a, x)->Finite_units,
            NEARER_PARTS as nat,
        ),
{
    let next = newton_step(a, x);
    let (n, y) = (x->Finite_units, next->Finite_units);
    let s = stretched(a->Finite_units);
    lemma_step_near(a, x, -7, 70, -19, 131, 132);
    lemma_newton_step_between(a, x, -19, 131);
    lemma_span_order(-19, 131);
    lemma_span_order(131, 132);
    lemma_moved(next, x, tolerance, 132);
    lemma_step_above(s, n, y);
    lemma_span_order(-7, 70);
    lemma_stretched_positive(a->Finite_units);
    lemma_long(s, y, 131072 * tolerance);
    if 2 * cubed(524288 * tolerance) <= s {
        lemma_long(s, y, 524288 * tolerance);
    }
    lemma_short_step(s, n, y, tolerance);
    lemma_near_parts(s, cubed(y));
}

/// One part in `2^40`, in numbers.
pub(crate) proof fn lemma_fine(s: nat, v: nat)
    requires
        FINE * s <= (FINE + 1) * v,
    ensures
        1099511627776 * s <= 1099511627777 * v,
{
    assert(1099511627776 * s <= 1099511627777 * v) by (nonlinear_arith)
        requires
            FINE * s <= (FINE + 1) * v,
            FINE == 1099511627776,
    ;
}

/// A number whose cube is about `s` is not less than one whose cube is half of it.
pub(crate) proof fn lemma_long(s: nat, y: nat, z: nat)
    requires
        s > 0,
        FINE * s <= (FINE + 1) * cubed(y),
        2 * cubed(z) <= s,
    ensures
        z <= y,
{
    lemma_fine(s, cubed(y));
    if y < z {
        lemma_cube_order(y, z);
    }
}

proof fn lemma_near_parts(s: nat, v: nat)
    requires
        FINE * s <= (FINE + 1) * v,
        2147483648 * v <= 2147483648 * s + v,
    ensures
        1073741824 * v <= 1073741825 * s,
        1073741823 * s <= 1073741824 * v,
        34359738368 * v <= 34359738368 * s + v ==> 17179869184 * v <= 17179869185 * s,
        17179869183 * s <= 17179869184 * v,
{
    lemma_fine(s, v);
}

pub(crate) proof fn lemma_stretched_positive(a: nat)
    requires
        a > 0,
    ensures
        stretched(a) > 0,
{
    lemma_span_order(0, 0);
    let o = span(0);
    assert(a * o * o > 0) by (nonlinear_arith)
        requires
            a > 0,
            o > 0,
    ;
}

/// Newton's method ends near the root, from a number whose cube is above it by no more than `n`
/// and one more steps can bring down.
proof fn lemma_newton_near(a: Value, x: Value, tolerance: nat, n: nat, q: nat, i: int, j: int)
    requires
        between(a, -7, 70),
        between(x, i, j),
        -19 <= i - n,
        i <= 100,
        108 <= j,
        j + n <= 131,
        rounded(tolerance, 1) == tolerance,
        2 * cubed(131072 * tolerance) <= stretched(a->Finite_units),
        q >= 1,
        after(q, n + 1) == 1,
        FINE * stretched(a->Finite_units) <= (FINE + 1) * cubed(x->Finite_units),
        FINE * cubed(x->Finite_units) <= (FINE + q) * stretched(a->Finite_units),
    ensures
        ({
            let y = newton(
                a,
                x,
                Value::Finite { negative: false, units: tolerance },
                n,
            )->Finite_units;
            &&& near_root(a->Finite_units, y, NEAR_PARTS as nat)
            &&& 2 * cubed(524288 * tolerance) <= stretched(a->Finite_units) ==> near_root(
                a->Finite_units,
                y,
                NEARER_PARTS as nat,
            )
        }),
    decreases n,
{
    let limit = Value::Finite { negative: false, units: tolerance };
    let next = newton_step(a, x);
    let (m, y) = (x->Finite_units, next->Finite_units);
    let s = stretched(a->Finite_units);
    lemma_span_order(-19, i);
    lemma_span_order(j, 131);
    lemma_span_order(-7, 70);
    lemma_stretched_positive(a->Finite_units);
    lemma_step_near(a, x, -7, 70, -19, 131, 132);
    lemma_step_above(s, m, y);
    lemma_step_contracts(s, m, y, q);
    assert(contracted(q) >= 1);
    assert(after(q, n + 1) == after(contracted(q), n));
    if next.minus(x).magnitude().less(limit) {
        lemma_settles(a, x, tolerance);
    } else if n > 0 {
        lemma_newton_step_between(a, x, i, j);
        lemma_newton_near(a, next, tolerance, (n - 1) as nat, contracted(q), i - 1, j + 1);
    } else {
        assert(after(contracted(q), 0) == contracted(q));
        assert(newton(a, x, limit, 0) == next);
        let v = cubed(y);
        assert(FINE * v <= (FINE + 1) * s && FINE * s <= (FINE + 1) * v);
        lemma_fine(v, s);
        lemma_near_parts(s, v);
    }
}

/// The guess for a number of at least `2^-7` and at most `2^64`, beside a power of ten that is
/// near the root.
proof fn lemma_guess(a: Value) -> (s: nat)
    requires
        between(a, -7, 64),
    ensures
        ({
            let m = stretched(a->Finite_units);
            let w = s * span(0);
            &&& cubed(w) <= 128 * m
            &&& a->Finite_units >= span(-1) ==> cubed(w) <= 2 * m
            &&& m <= 32768 * cubed(w)
            &&& w > 0
            &&& first_guess(a).1 matches Value::Finite { negative: false, units } && 8 * w <= units
                <= 9 * w
            &&& first_guess(a).0 matches Value::Finite { negative: false, units } && 1000000000
                * units <= 1001 * w && rounded(units, 1) == units
        }),
{
    let u = a->Finite_units;
    let o = span(0);
    lemma2_to64();
    lemma_span_order(0, 0);
    lemma_span(-1, 1);
    lemma_span(-7, 7);
    lemma_span(0, 64);
    lemma_whole_exact(1_000);
    lemma_whole_exact(1_000_000);
    lemma_whole_exact(1_000_000_000);
    lemma_whole_exact(1_000_000_000_000);
    lemma_whole_exact(1_000_000_000_000_000);
    if u < 1_000 * o {
        lemma_guess_ratio(8_879_040_017_426_005, 1_000_000_000_000_000, 1, 1);
        lemma_near_power(u, 1, 1);
        1
    } else if u < 1_000_000 * o {
        lemma_guess_ratio(8_879_040_017_426_004, 100_000_000_000_000, 5, 10);
        lemma_near_power(u, 10, 1_000);
        10
    } else if u < 1_000_000_000 * o {
        lemma_guess_ratio(8_879_040_017_426_004, 10_000_000_000_000, 50, 100);
        lemma_near_power(u, 100, 1_000_000);
        100
    } else if u < 1_000_000_000_000 * o {
        lemma_guess_ratio(8_879_040_017_426_003, 1_000_000_000_000, 500, 1_000);
        lemma_near_power(u, 1_000, 1_000_000_000);
        1_000
    } else if u < 1_000_000_000_000_000 * o {
        lemma_guess_ratio(8_879_040_017_426_001, 100_000_000_000, 5_000, 10_000);
        lemma_near_power(u, 10_000, 1_000_000_000_000);
        10_000
    } else {
        lemma_guess_ratio(8_879_040_017_426, 10_000_000, 50_000, 100_000);
        lemma_near_power(u, 100_000, 1_000_000_000_000_000);
        100_000
    }
}

proof fn lemma_near_power(u: nat, s: nat, c: nat)
    requires
        c == s * s * s,
        s > 0,
        c * span(0) <= 128 * u,
        u <= 32768 * (c * span(0)),
    ensures
        cubed(s * span(0)) <= 128 * stretched(u),
        c * span(0) <= 2 * u ==> cubed(s * span(0)) <= 2 * stretched(u),
        stretched(u) <= 32768 * cubed(s * span(0)),
        s * span(0) > 0,
{
    let o = span(0);
    let w = s * o;
    lemma_span_order(0, 0);
    assert(w > 0) by (nonlinear_arith)
        requires
            s > 0,
            o > 0,
            w == s * o,
    ;
    assert(w * w * w == (c * o) * o * o) by (nonlinear_arith)
        requires
            w == s * o,
            c == s * s * s,
    {
        assert((s * o) * (s * o) * (s * o) == (s * s * s) * (o * o * o));
        assert((c * o) * o * o == c * (o * o * o));
    }
    let v = c * o;
    assert(v <= 2 * u ==> v * o * o <= 2 * (u * o * o)) by (nonlinear_arith) {
        if v <= 2 * u {
            assert(v * (o * o) <= (2 * u) * (o * o));
        }
    }
    assert(v * o * o <= 128 * (u * o * o) && u * o * o <= 32768 * (v * o * o)) by (nonlinear_arith)
        requires
            v <= 128 * u,
            u <= 32768 * v,
    {
        assert(v * (o * o) <= (128 * u) * (o * o));
        assert(u * (o * o) <= (32768 * v) * (o * o));
    }
}

pub(crate) proof fn lemma_guess_ratio(n: nat, d: nat, t: nat, s: nat)
    requires
        d > 0,
        8 * (s * d) < n < 8 * (s * d) + s * d,
        0 < t <= s <= 100_000,
        100 * n <= 889 * (s * d),
        100 * n >= 887 * (s * d),
    ensures
        ({
            let w = s * span(0);
            &&& Value::ratio(n, d) matches Value::Finite { negative: false, units } && 8 * w <= units
                <= 9 * w
            &&& Value::ratio(t, 1_000_000) matches Value::Finite { negative: false, units }
                && 1000000000 * units <= 1001 * w && rounded(units, 1) == units
        }),
{
    let o = span(0);
    let w = s * o;
    lemma2_to64();
    lemma_many_units();
    lemma_span_order(-400, 0);
    lemma_span(0, 20);
    let sd = s * d;
    // the guess
    assert(n * o <= span(20) * d && n * o >= SIGNIFICAND_TOP * d) by (nonlinear_arith)
        requires
            n < 9 * sd,
            n > 8 * sd,
            sd == s * d,
            0 < s <= 100_000,
            span(20) == o * 1048576,
            o >= SIGNIFICAND_TOP,
            d > 0,
    {
        assert(sd <= 100_000 * d);
        assert(sd >= d);
        assert(n <= 1048576 * d);
        assert(n * o <= (1048576 * d) * o);
        assert(n >= d);
        assert(n * o >= d * o);
        assert(d * o >= d * SIGNIFICAND_TOP);
    }
    crate::order::lemma_ratio(n, d, 20);
    lemma_rounded_relative(n * o, d);
    let g = rounded(n * o, d);
    let (gd, wd) = (g * d, w * d);
    assert(100 * (n * o) <= 889 * wd && 100 * (n * o) >= 887 * wd) by (nonlinear_arith)
        requires
            100 * n <= 889 * sd,
            100 * n >= 887 * sd,
            sd == s * d,
            w == s * o,
            wd == w * d,
    {
        assert((100 * n) * o <= (889 * sd) * o);
        assert((100 * n) * o >= (887 * sd) * o);
        assert(sd * o == wd);
    }
    assert(8 * wd <= gd <= 9 * wd);
    assert(8 * w <= g <= 9 * w) by (nonlinear_arith)
        requires
            8 * wd <= gd <= 9 * wd,
            gd == g * d,
            wd == w * d,
            d > 0,
    ;
    // the tolerance
    assert(t * o <= s * o && t * o >= o) by (nonlinear_arith)
        requires
            0 < t <= s,
    ;
    assert(s * o <= 100_000 * o) by (nonlinear_arith)
        requires
            s <= 100_000,
    ;
    assert(t * o <= span(20) * 1_000_000);
    crate::order::lemma_ratio(t, 1_000_000, 20);
    lemma_tolerance_many(t);
    lemma_rounded_relative(t * o, 1_000_000);
    lemma_rounded_again(t * o, 1_000_000);
    let e = rounded(t * o, 1_000_000);
    assert(1000000000 * e <= 1001 * w);
}

proof fn lemma_tolerance_many(t: nat)
    requires
        t > 0,
    ensures
        t * span(0) >= SIGNIFICAND_TOP * 1_000_000,
{
    lemma2_to64();
    lemma_many_units();
    lemma_span(-400, 20);
    lemma_span_order(-380, 0);
    let o = span(0);
    assert(t * o >= o) by (nonlinear_arith)
        requires
            t > 0,
    ;
}

/// The cube root of every positive number is a positive number, whose cube is not below it by more
/// than one part in `2^40`. For a number between `2^-7` and `2^64` it is right: the cube is within
/// one part in `2^30` of the number, and within one in `2^34` if the number is at least one half.
pub proof fn law_cube_root_accurate(a: Value)
    requires
        a matches Value::Finite { negative: false, units } && 0 < units < pow2(END_DIGITS as nat),
    ensures
        cube_root_value(a) matches Some(Value::Finite { negative: false, units }) && {
            &&& units > 0
            &&& FINE * stretched(a->Finite_units) <= (FINE + 1) * cubed(units)
            &&& between(a, -7, 64) ==> near_root(a->Finite_units, units, NEAR_PARTS as nat)
            &&& between(a, -1, 64) ==> near_root(a->Finite_units, units, NEARER_PARTS as nat)
        },
{
    lemma_root_above(a);
    lemma_span_order(-7, -1);
    if between(a, -7, 64) {
        lemma_root_near(a);
    }
}

/// The part of the law for a number between `2^-7` and `2^64`.
proof fn lemma_root_near(a: Value)
    requires
        between(a, -7, 64),
    ensures
        cube_root_value(a) matches Some(Value::Finite { negative: false, units }) && {
            &&& near_root(a->Finite_units, units, NEAR_PARTS as nat)
            &&& a->Finite_units >= span(-1) ==> near_root(
                a->Finite_units,
                units,
                NEARER_PARTS as nat,
            )
        },
{
    let (limit, guess) = first_guess(a);
    let tolerance = limit->Finite_units;
    let m = stretched(a->Finite_units);
    let s = lemma_guess(a);
    let w = s * span(0);
    let g = guess->Finite_units;
    lemma_span_order(-7, -1);
    lemma_span_order(64, 70);
    lemma_first_guess_between(a);
    lemma_span_order(-19, 3);
    lemma_span_order(20, 110);
    lemma_span_order(110, 131);
    lemma_newton_between(a, guess, limit, REPEATS as nat, 3, 110);
    lemma_stretched_positive(a->Finite_units);
    assert(2 * cubed(131072 * tolerance) <= m) by {
        let z = 131072 * tolerance;
        assert(1000 * z <= 132 * w);
        assert(2 * (z * z * z) <= m) by (nonlinear_arith)
            requires
                1000 * z <= 132 * w,
                w * w * w <= 128 * m,
        {
            assert((1000 * z) * (1000 * z) <= (132 * w) * (132 * w));
            assert((1000 * z) * (1000 * z) * (1000 * z) <= (132 * w) * (132 * w) * (132 * w));
            assert(1000000000 * (z * z * z) <= 2299968 * (w * w * w));
        }
    }
    if a->Finite_units >= span(-1) {
        let z = 524288 * tolerance;
        assert(1000 * z <= 525 * w);
        assert(2 * (z * z * z) <= m) by (nonlinear_arith)
            requires
                1000 * z <= 525 * w,
                w * w * w <= 2 * m,
        {
            assert((1000 * z) * (1000 * z) <= (525 * w) * (525 * w));
            assert((1000 * z) * (1000 * z) * (1000 * z) <= (525 * w) * (525 * w) * (525 * w));
            assert(1000000000 * (z * z * z) <= 144703125 * (w * w * w));
        }
    }
    let next = newton_step(a, guess);
    lemma_step_near(a, guess, -7, 70, -19, 131, 132);
    let y = next->Finite_units;
    if next.minus(guess).magnitude().less(limit) {
        lemma_settles(a, guess, tolerance);
    } else {
        assert(m <= 64 * (g * g * g) && g * g * g <= 131072 * m) by (nonlinear_arith)
            requires
                8 * w <= g <= 9 * w,
                w * w * w <= 128 * m,
                m <= 32768 * (w * w * w),
        {
            assert((8 * w) * (8 * w) <= g * g);
            assert((8 * w) * (8 * w) * (8 * w) <= g * g * g);
            assert(g * g <= (9 * w) * (9 * w));
            assert(g * g * g <= (9 * w) * (9 * w) * (9 * w));
        }
        lemma_first_step(m, g, y);
        lemma_step_above(m, g, y);
        lemma_after_twenty();
        lemma_newton_step_between(a, guess, 3, 110);
        lemma_newton_near(a, next, tolerance, 19, 144115188075855872, 2, 111);
    }
}

} // verus!
