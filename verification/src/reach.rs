//! That the cube root of every positive number is a positive number, and not below the true one.

use crate::accuracy::{
    lemma_cube_order, lemma_narrowed, lemma_narrowed_large, lemma_step_above, lemma_step_toward,
    narrowed, near_step, FINE, FINER,
};
use crate::bounds::{
    between, lemma_first_guess_between, lemma_newton_step_between, lemma_times_between,
};
use crate::cube_root::{cube_root_value, first_guess, newton, newton_step, REPEATS};
use crate::loss::lemma_product_near;
use crate::order::{
    bounded, lemma_finite, lemma_many_units, lemma_over, lemma_plus, lemma_ratio,
    lemma_rounded_at_least, lemma_rounded_relative, lemma_span, lemma_span_order,
    lemma_span_product, lemma_times, lemma_whole_exact, span,
};
use crate::root::{
    cubed, lemma_guess_ratio, lemma_long, lemma_moved, lemma_step_near, lemma_stretched_positive,
    stretched,
};
use crate::rounding::{lemma_divides, rounded, SIGNIFICAND_END, SIGNIFICAND_TOP};
use crate::value::{Value, END_DIGITS};
use vstd::arithmetic::power2::{lemma2_to64, lemma2_to64_rest, lemma_pow2_adds, pow2};
use vstd::prelude::*;

verus! {

/// Two to the power of sixty.
const FAR: u64 = 1152921504606846976;

/// A step from a number that is far above the root takes a third of it away, but for rounding.
proof fn lemma_far_step(a: Value, x: Value, j: int)
    requires
        between(x, -19, j),
        -19 <= j <= 1010,
        a.over(x.times(x)) matches Value::Finite { negative: false, units } && FAR * units
            <= x->Finite_units,
        FAR * stretched(a->Finite_units) <= cubed(x->Finite_units),
    ensures
        newton_step(a, x) matches Value::Finite { negative: false, units: y } && 0 < y <= span(j + 1)
            && near_step(stretched(a->Finite_units), x->Finite_units, y),
{
    let (two, three) = (Value::whole(2), Value::whole(3));
    let o = span(0);
    let n = x->Finite_units;
    let s = stretched(a->Finite_units);
    lemma2_to64();
    lemma_many_units();
    lemma_span_order(-400, -19);
    lemma_span_order(-400, 0);
    lemma_whole_exact(2);
    lemma_whole_exact(3);
    lemma_span(0, 1);
    lemma_span(0, 2);
    // 2x
    lemma_times(two, x, 1, j);
    let t = rounded((2 * o) * n, o);
    assert((2 * o) * n == (2 * n) * o) by (nonlinear_arith);
    assert((2 * n) * o >= SIGNIFICAND_TOP * o) by (nonlinear_arith)
        requires
            n >= SIGNIFICAND_TOP,
    ;
    lemma_rounded_relative((2 * n) * o, o);
    lemma_product_near(2 * n, o, t);
    // the sum
    let (vt, vh) = (two.times(x), a.over(x.times(x)));
    let h = vh->Finite_units;
    lemma_span_order(j, j + 1);
    lemma_plus(vt, vh, j + 1);
    let u = rounded(t + h, 1);
    assert(SIGNIFICAND_END * t >= (SIGNIFICAND_END - 1) * (2 * n));
    assert(t >= n);
    lemma_rounded_relative(t + h, 1);
    assert(u * 1 == u);
    // a third of it
    assert(3 * u >= n * 1);
    assert(vt.plus(vh) == (Value::Finite { negative: false, units: u }));
    lemma_over(vt.plus(vh), three, j + 2, 1);
    let y = rounded(u * o, 3 * o);
    assert(u * o >= SIGNIFICAND_TOP * (3 * o)) by (nonlinear_arith)
        requires
            u >= 3 * SIGNIFICAND_TOP,
    ;
    lemma_rounded_relative(u * o, 3 * o);
    assert(y * (3 * o) == (3 * y) * o) by (nonlinear_arith);
    lemma_product_near(u, o, 3 * y);
    assert(2251799813685248 * (3 * y) <= 2251799813685249 * (2 * n));
    assert(2251799813685247 * (2 * n) <= 2251799813685248 * (3 * y));
    let c = cubed(n);
    let taken = 3 * (n * n) * y;
    assert(2251799813685248 * taken <= 2251799813685249 * (2 * c) && 2251799813685247 * (2 * c)
        <= 2251799813685248 * taken) by (nonlinear_arith)
        requires
            2251799813685248 * (3 * y) <= 2251799813685249 * (2 * n),
            2251799813685247 * (2 * n) <= 2251799813685248 * (3 * y),
            taken == 3 * (n * n) * y,
            c == n * n * n,
    {
        let r = n * n;
        assert(r * (2251799813685248 * (3 * y)) <= r * (2251799813685249 * (2 * n)));
        assert(r * (2251799813685247 * (2 * n)) <= r * (2251799813685248 * (3 * y)));
    }
    assert(1152921504606846976 * s <= c);
    assert(FINER * taken <= (FINER + 1) * (2 * c + s));
    assert((FINER - 1) * (2 * c + s) <= FINER * taken);
}

/// A lower bound on the cube of a number of at least `2^i`.
proof fn lemma_cubed_span(n: nat, i: int)
    requires
        n >= span(i),
        -300 <= i <= 1000,
    ensures
        cubed(n) >= stretched(span(3 * i)),
{
    let o = span(0);
    let (b, d, e) = (span(i), span(2 * i), span(3 * i));
    lemma_span_product(i, i);
    lemma_span_product(2 * i, i);
    assert(n * n * n >= e * o * o) by (nonlinear_arith)
        requires
            n >= b,
            b * b == d * o,
            d * b == e * o,
            b >= 0,
    {
        assert(n * n >= b * b);
        assert((n * n) * n >= (b * b) * b);
        assert((d * o) * b == (d * b) * o);
    }
}

/// A greater number is greater when stretched.
proof fn lemma_stretched_order(a: nat, b: nat)
    requires
        FAR * a <= b,
    ensures
        FAR * stretched(a) <= stretched(b),
{
    let o = span(0);
    let f = FAR as nat;
    assert(f * (a * o * o) <= b * o * o) by (nonlinear_arith)
        requires
            f * a <= b,
    {
        assert((f * a) * (o * o) <= b * (o * o));
    }
}

proof fn lemma_far(i: int)
    requires
        -1074 <= i,
    ensures
        FAR * span(i) == span(i + 60),
{
    lemma2_to64_rest();
    lemma_span(i, 60);
}

/// A step toward the root of a number of at most `2^70`.
pub(crate) proof fn lemma_small_step(a: Value, x: Value)
    requires
        bounded(a, 70),
        a.signed_units() > 0,
        between(x, -19, 131),
    ensures
        newton_step(a, x) matches Value::Finite { negative: false, units: y } && y > 0 && near_step(
            stretched(a->Finite_units),
            x->Finite_units,
            y,
        ),
{
    let m = a->Finite_units;
    let n = x->Finite_units;
    if m >= span(-130) {
        lemma_step_near(a, x, -130, 70, -19, 131, 132);
    } else {
        lemma_times_between(x, x, -19, 131, -19, 131);
        lemma_over(a, x.times(x), -130, -38);
        lemma_far(-92);
        lemma_span_order(-32, -19);
        let h = a.over(x.times(x))->Finite_units;
        assert(FAR * h <= FAR * span(-92));
        lemma_far(-130);
        lemma_span_order(-70, -57);
        assert(FAR * m <= FAR * span(-130));
        lemma_cubed_span(n, -19);
        lemma_stretched_order(m, span(-57));
        lemma_far_step(a, x, 131);
    }
}

/// A step toward the root of a number of at least `2^64`.
proof fn lemma_large_step(a: Value, x: Value, j: int)
    requires
        between(a, 64, 1024),
        between(x, 19, j),
        986 <= j <= 1010,
    ensures
        newton_step(a, x) matches Value::Finite { negative: false, units: y } && 0 < y <= span(j + 1)
            && near_step(stretched(a->Finite_units), x->Finite_units, y),
{
    let m = a->Finite_units;
    let n = x->Finite_units;
    let o = span(0);
    if n <= span(500) {
        lemma_step_near(a, x, 64, 1024, 19, 500, 986);
        lemma_span_order(986, j + 1);
    } else {
        lemma_span_order(0, 0);
        lemma_span_product(500, 500);
        assert(n * n >= span(1000) * o) by (nonlinear_arith)
            requires
                n >= span(500),
                span(500) * span(500) == span(1000) * o,
        ;
        lemma_rounded_at_least(n * n, o, 1000);
        let square = x.times(x);
        let h = a.over(square);
        lemma_span_order(24, 24);
        if square is Finite {
            lemma_over(a, square, 1024, 1000);
        }
        assert(bounded(h, 24) && !h.negative());
        lemma_far(24);
        lemma_span_order(84, 500);
        assert(FAR * h->Finite_units <= FAR * span(24));
        lemma_far(1024);
        lemma_span_order(1084, 1500);
        assert(FAR * m <= FAR * span(1024));
        lemma_cubed_span(n, 500);
        lemma_stretched_order(m, span(1500));
        lemma_span_order(-19, 19);
        lemma_far_step(a, x, j);
    }
}

/// Newton's method ends at a positive number that is not below the root by more than a trace, for
/// a number of at most `2^70`.
proof fn lemma_newton_above(a: Value, x: Value, tolerance: Value, n: nat, i: int, j: int)
    requires
        bounded(a, 70),
        a.signed_units() > 0,
        between(x, i, j),
        -19 <= i - n,
        i <= 100,
        108 <= j,
        j + n <= 131,
    ensures
        newton(a, x, tolerance, n) matches Value::Finite { negative: false, units: y } && y > 0
            && FINE * stretched(a->Finite_units) <= (FINE + 1) * cubed(y),
    decreases n,
{
    let next = newton_step(a, x);
    lemma_span_order(-19, i);
    lemma_span_order(j, 131);
    lemma_small_step(a, x);
    lemma_step_above(stretched(a->Finite_units), x->Finite_units, next->Finite_units);
    if n > 0 && !next.minus(x).magnitude().less(tolerance) {
        lemma_newton_step_between(a, x, i, j);
        lemma_newton_above(a, next, tolerance, (n - 1) as nat, i - 1, j + 1);
    }
}

/// The same for a number of at least `2^64`.
proof fn lemma_newton_above_large(a: Value, x: Value, tolerance: Value, n: nat, j: int)
    requires
        between(a, 64, 1024),
        between(x, 19, j),
        986 <= j,
        j + n <= 1010,
    ensures
        newton(a, x, tolerance, n) matches Value::Finite { negative: false, units: y } && y > 0
            && FINE * stretched(a->Finite_units) <= (FINE + 1) * cubed(y),
    decreases n,
{
    let next = newton_step(a, x);
    let s = stretched(a->Finite_units);
    lemma_large_step(a, x, j);
    lemma_span_order(19, j);
    lemma_step_above(s, x->Finite_units, next->Finite_units);
    if n > 0 && !next.minus(x).magnitude().less(tolerance) {
        lemma_large_root(a);
        lemma_long(s, next->Finite_units, span(19));
        lemma_newton_above_large(a, next, tolerance, (n - 1) as nat, j + 1);
    }
}

/// The cube root of every positive number is a positive number, whose cube is not below it by more
/// than one part in `2^40`.
pub(crate) proof fn lemma_root_above(a: Value)
    requires
        a matches Value::Finite { negative: false, units } && 0 < units < pow2(END_DIGITS as nat),
    ensures
        cube_root_value(a) matches Some(Value::Finite { negative: false, units: y }) && y > 0 && FINE
            * stretched(a->Finite_units) <= (FINE + 1) * cubed(y),
{
    let (tolerance, guess) = first_guess(a);
    lemma_first_guess_between(a);
    if a->Finite_units <= span(70) {
        lemma_span_order(20, 110);
        lemma_newton_above(a, guess, tolerance, REPEATS as nat, 3, 110);
    } else {
        let o = span(0);
        lemma2_to64();
        lemma_span(0, 19);
        lemma_span(0, 50);
        lemma2_to64_rest();
        lemma_span_order(50, 70);
        lemma_whole_exact(1_000);
        lemma_whole_exact(1_000_000);
        lemma_whole_exact(1_000_000_000);
        lemma_whole_exact(1_000_000_000_000);
        lemma_whole_exact(1_000_000_000_000_000);
        assert(guess == Value::ratio(8_879_040_017_426, 10_000_000));
        lemma_span(0, 20);
        lemma_ratio(8_879_040_017_426, 10_000_000, 20);
        lemma_rounded_at_least(8_879_040_017_426 * o, 10_000_000, 19);
        lemma_span_order(20, 986);
        lemma_span_order(64, 70);
        lemma_newton_above_large(a, guess, tolerance, REPEATS as nat, 986);
    }
}

/// Newton's method ends at no more than `2^-9` above the root, from a distance that `n` and one
/// more steps can bring down to that; `z` is any number that is not below the root, and the
/// distance is counted in parts of `2^-36`.
proof fn lemma_newton_off(
    a: Value,
    x: Value,
    tolerance: nat,
    n: nat,
    z: nat,
    e: nat,
    i: int,
    j: int,
)
    requires
        bounded(a, 0),
        a.signed_units() > 0,
        between(x, i, j),
        -19 <= i - n,
        i <= 100,
        108 <= j,
        j + n <= 131,
        rounded(tolerance, 1) == tolerance,
        2048 * tolerance <= span(0),
        FINE * stretched(a->Finite_units) <= (FINE + 1) * cubed(x->Finite_units),
        stretched(a->Finite_units) <= cubed(z),
        x->Finite_units <= z + e * span(-36),
        x->Finite_units + n * span(-36) <= 10 * span(0),
        narrowed(e, n + 1) <= 134217728,
    ensures
        newton(
            a,
            x,
            Value::Finite { negative: false, units: tolerance },
            n,
        )->Finite_units <= z + span(-9),
    decreases n,
{
    let limit = Value::Finite { negative: false, units: tolerance };
    let next = newton_step(a, x);
    let (u, y) = (x->Finite_units, next->Finite_units);
    let s = stretched(a->Finite_units);
    let p = span(-36);
    let f = (2 * e + 1) / 3 + 1;
    lemma2_to64();
    lemma2_to64_rest();
    lemma_span(-36, 36);
    lemma_span(-36, 27);
    lemma_span_order(0, 70);
    lemma_span_order(-19, i);
    lemma_span_order(j, 131);
    lemma_span_order(131, 132);
    lemma_small_step(a, x);
    lemma_newton_step_between(a, x, i, j);
    lemma_span_order(j + 1, 132);
    lemma_step_above(s, u, y);
    lemma_step_toward(s, u, y, z);
    let (ep, fp, np) = (e * p, f * p, n * p);
    assert(3 * fp >= 2 * ep + p && fp >= p && (f <= 134217728 ==> fp <= 134217728 * p) && np >= 0)
        by (nonlinear_arith)
        requires
            3 * f >= 2 * e + 1,
            f >= 1,
            ep == e * p,
            fp == f * p,
            np == n * p,
    {
        assert((3 * f) * p >= (2 * e + 1) * p);
    }
    assert(1099511627776 * y <= 1099511627776 * u + u);
    assert(y <= u + p);
    assert(y <= z + fp);
    assert(narrowed(e, n + 1) == narrowed(f, n));
    if next.minus(x).magnitude().less(limit) {
        lemma_moved(next, x, tolerance, 132);
    } else if n > 0 {
        assert((n - 1) * p + p == np) by (nonlinear_arith)
            requires
                np == n * p,
        ;
        lemma_newton_off(a, next, tolerance, (n - 1) as nat, z, f, i - 1, j + 1);
    } else {
        assert(narrowed(f, 0) == f);
    }
}

/// The cube root of a number of at most one is above the true one by no more than `2^-9`: it
/// exceeds any number whose cube is at least `a` by no more than that.
pub proof fn law_cube_root_of_small(a: Value, z: nat)
    requires
        a matches Value::Finite { negative: false, units } && 0 < units <= span(0),
        stretched(a->Finite_units) <= cubed(z),
    ensures
        cube_root_value(a) matches Some(Value::Finite { negative: false, units }) && units <= z
            + span(-9),
{
    let (limit, guess) = first_guess(a);
    let tolerance = limit->Finite_units;
    let o = span(0);
    let p = span(-36);
    let g = guess->Finite_units;
    lemma_finite(a->Finite_units, 0);
    lemma_root_above(a);
    lemma2_to64();
    lemma2_to64_rest();
    lemma_whole_exact(1_000);
    lemma_span(-36, 36);
    lemma_guess_ratio(8_879_040_017_426_005, 1_000_000_000_000_000, 1, 1);
    lemma_first_guess_between(a);
    lemma_span_order(20, 110);
    let e: nat = 618475290624;
    assert(g <= z + e * p);
    assert(FINE * stretched(a->Finite_units) <= (FINE + 1) * cubed(g)) by {
        let m = a->Finite_units;
        assert(m * o * o <= g * g * g) by (nonlinear_arith)
            requires
                m <= o,
                o <= g,
        {
            assert(m * o <= g * g);
            assert((m * o) * o <= (g * g) * g);
        }
    }
    lemma_narrowed();
    lemma_newton_off(a, guess, tolerance, REPEATS as nat, z, e, 3, 110);
}

/// The same for a number of at least `2^64`, with the distance counted in parts of `p` units.
proof fn lemma_newton_off_large(
    a: Value,
    x: Value,
    tolerance: nat,
    n: nat,
    z: nat,
    e: nat,
    p: nat,
    j: int,
)
    requires
        between(a, 64, 1024),
        between(x, 19, j),
        986 <= j,
        j + n <= 1010,
        rounded(tolerance, 1) == tolerance,
        2 * tolerance + p <= 268435456 * p,
        FINE * stretched(a->Finite_units) <= (FINE + 1) * cubed(x->Finite_units),
        stretched(a->Finite_units) <= cubed(z),
        x->Finite_units <= z + e * p,
        x->Finite_units + n * p <= 1099511627776 * p,
        narrowed(e, n + 1) <= 268435456,
    ensures
        newton(
            a,
            x,
            Value::Finite { negative: false, units: tolerance },
            n,
        )->Finite_units <= z + 268435456 * p,
    decreases n,
{
    let limit = Value::Finite { negative: false, units: tolerance };
    let next = newton_step(a, x);
    let (u, y) = (x->Finite_units, next->Finite_units);
    let s = stretched(a->Finite_units);
    let f = (2 * e + 1) / 3 + 1;
    lemma_span_order(19, j);
    lemma_span_order(j, j + 1);
    lemma_large_step(a, x, j);
    lemma_step_above(s, u, y);
    lemma_step_toward(s, u, y, z);
    let (ep, fp, np) = (e * p, f * p, n * p);
    assert(3 * fp >= 2 * ep + p && fp >= p && (f <= 268435456 ==> fp <= 268435456 * p) && np >= 0)
        by (nonlinear_arith)
        requires
            3 * f >= 2 * e + 1,
            f >= 1,
            ep == e * p,
            fp == f * p,
            np == n * p,
    {
        assert((3 * f) * p >= (2 * e + 1) * p);
    }
    assert(1099511627776 * y <= 1099511627776 * u + u);
    assert(y <= u + p);
    assert(y <= z + fp);
    assert(narrowed(e, n + 1) == narrowed(f, n));
    if next.minus(x).magnitude().less(limit) {
        lemma_moved(next, x, tolerance, j + 1);
    } else if n > 0 {
        assert((n - 1) * p + p == np) by (nonlinear_arith)
            requires
                np == n * p,
        ;
        lemma_large_root(a);
        lemma_long(s, y, span(19));
        lemma_newton_off_large(a, next, tolerance, (n - 1) as nat, z, f, p, j + 1);
    } else {
        assert(narrowed(f, 0) == f);
    }
}

/// The root of a number of at least `2^64` is at least `2^21`.
proof fn lemma_large_root(a: Value)
    requires
        between(a, 64, 1024),
    ensures
        stretched(a->Finite_units) > 0,
        2 * cubed(span(19)) <= stretched(a->Finite_units),
        2 * cubed(span(21)) <= stretched(a->Finite_units),
{
    let o = span(0);
    let m = a->Finite_units;
    lemma2_to64();
    lemma_span_order(64, 64);
    lemma_stretched_positive(m);
    lemma_span_order(19, 21);
    lemma_cube_order(span(19), span(21));
    lemma_span_product(21, 21);
    lemma_span_product(42, 21);
    lemma_span(63, 1);
    let (b, d, e) = (span(21), span(42), span(63));
    assert(2 * (b * b * b) <= m * o * o) by (nonlinear_arith)
        requires
            b * b == d * o,
            d * b == e * o,
            2 * e <= m,
    {
        assert((b * b) * b == (d * b) * o);
        assert((2 * e) * (o * o) <= m * (o * o));
    }
}

/// The cube root of a number of at least `2^64` is above the true one by no more than one part in
/// `2^51` of the number: it exceeds any number whose cube is at least `a` by no more than that.
pub proof fn law_cube_root_of_large(a: Value, z: nat)
    requires
        a matches Value::Finite { negative: false, units } && span(64) <= units < pow2(
            END_DIGITS as nat,
        ),
        stretched(a->Finite_units) <= cubed(z),
    ensures
        cube_root_value(a) matches Some(Value::Finite { negative: false, units })
            && 2251799813685248 * units <= 2251799813685248 * z + a->Finite_units,
{
    let (limit, guess) = first_guess(a);
    let tolerance = limit->Finite_units;
    let o = span(0);
    let m = a->Finite_units;
    let s = stretched(m);
    let g = guess->Finite_units;
    lemma2_to64();
    lemma2_to64_rest();
    lemma_span(0, 64);
    lemma_root_above(a);
    lemma_whole_exact(1_000);
    lemma_whole_exact(1_000_000);
    lemma_whole_exact(1_000_000_000);
    lemma_whole_exact(1_000_000_000_000);
    lemma_whole_exact(1_000_000_000_000_000);
    lemma_guess_ratio(8_879_040_017_426, 10_000_000, 50_000, 100_000);
    assert(800_000 * o <= g <= 900_000 * o);
    assert(tolerance <= o);
    // the first step is a long one
    lemma_span(0, 19);
    lemma_span(0, 20);
    lemma_span(0, 21);
    lemma_span_order(20, 986);
    lemma_large_step(a, guess, 986);
    let next = newton_step(a, guess);
    let y = next->Finite_units;
    lemma_step_above(s, g, y);
    lemma_large_root(a);
    lemma_long(s, y, span(21));
    lemma_span_order(19, 21);
    lemma_span_order(986, 987);
    if next.minus(guess).magnitude().less(limit) {
        lemma_moved(next, guess, tolerance, 987);
    }
    assert(1099511627776 * y <= m) by {
        lemma_first_of_large(m, g, y, o);
    }
    // what it leaves, in small parts
    let d: nat = 604462909807314587353088;
    let p = m / d;
    lemma_divides(m, d);
    lemma_span(0, 59);
    assert(m >= 18446744073709551616 * o);
    assert(p * d == 604462909807314587353088 * p);
    lemma_many_units();
    lemma_span_order(-400, 0);
    lemma_span(-79, 79);
    lemma_pow2_adds(63, 16);
    lemma_span_order(-400, -79);
    let e: nat = 549755813889;
    let ep = e * p;
    assert(p >= 549755813888) by {
        assert(m >= d * 549755813889);
    }
    assert(y <= z + ep);
    lemma_narrowed_large();
    lemma_newton_off_large(a, next, tolerance, 19, z, e, p, 987);
}

/// Where the first step leads to for a number `m` of at least `2^64`.
proof fn lemma_first_of_large(m: nat, g: nat, y: nat, o: nat)
    requires
        near_step(m * o * o, g, y),
        800_000 * o <= g <= 900_000 * o,
        18446744073709551616 * o <= m,
        o > 0,
    ensures
        1099511627776 * y <= m,
{
    let q = g * g;
    let (qy, qo, qm) = (q * y, q * o, q * m);
    let (g3, s) = (g * g * g, m * o * o);
    assert(3 * (g * g) * y == 3 * qy) by (nonlinear_arith)
        requires
            q == g * g,
            qy == q * y,
    ;
    assert(1125899906842624 * (3 * qy) <= 1125899906842625 * (2 * g3 + s)) by (nonlinear_arith)
        requires
            FINER * (3 * qy) <= (FINER + 1) * (2 * g3 + s),
            FINER == 1125899906842624,
    ;
    assert(g3 <= 900_000 * qo && 640_000_000_000 * s <= qm && 18446744073709551616 * qo <= qm && q
        > 0) by (nonlinear_arith)
        requires
            g3 == g * g * g,
            s == m * o * o,
            q == g * g,
            qo == q * o,
            qm == q * m,
            800_000 * o <= g <= 900_000 * o,
            18446744073709551616 * o <= m,
            o > 0,
    {
        assert(q * g <= q * (900_000 * o));
        assert((800_000 * o) * (800_000 * o) <= g * g);
        assert(m * ((800_000 * o) * (800_000 * o)) <= m * (g * g));
        assert(q * (18446744073709551616 * o) <= q * m);
    }
    assert(1099511627776 * qy <= qm);
    assert(1099511627776 * y <= m) by (nonlinear_arith)
        requires
            1099511627776 * qy <= qm,
            qy == q * y,
            qm == q * m,
            q > 0,
    {
        assert(q * (1099511627776 * y) <= q * m);
    }
}

/// Once a step is a NaN, all that follow are.
proof fn lemma_newton_nan(a: Value, tolerance: Value, n: nat)
    ensures
        newton(a, Value::NaN, tolerance, n) is NaN,
    decreases n,
{
    let next = newton_step(a, Value::NaN);
    assert(next is NaN);
    if n > 0 {
        lemma_newton_nan(a, tolerance, (n - 1) as nat);
    }
}

proof fn lemma_tolerance_finite(a: Value)
    ensures
        first_guess(a).0 is Finite,
{
    lemma_span_order(0, 0);
    lemma_ratio(1, 1_000_000, 0);
    lemma_ratio(5, 1_000_000, 0);
    lemma_ratio(50, 1_000_000, 0);
    lemma_ratio(500, 1_000_000, 0);
    lemma_ratio(5_000, 1_000_000, 0);
    lemma_ratio(50_000, 1_000_000, 0);
}

/// A number of zero or less has no cube root, and that of a NaN or of an infinite number is a NaN.
pub proof fn law_cube_root_of_special(a: Value)
    ensures
        a is Finite && a.signed_units() <= 0 ==> cube_root_value(a) is None,
        a == (Value::Infinite { negative: true }) ==> cube_root_value(a) is None,
        a is NaN ==> cube_root_value(a) == Some(Value::NaN),
        a == (Value::Infinite { negative: false }) ==> cube_root_value(a) == Some(Value::NaN),
{
    let (tolerance, guess) = first_guess(a);
    lemma_first_guess_between(a);
    lemma_span_order(3, 20);
    let next = newton_step(a, guess);
    if a is NaN {
        assert(next is NaN);
        lemma_newton_nan(a, tolerance, (REPEATS - 1) as nat);
    } else if a == (Value::Infinite { negative: false }) {
        lemma_times_between(guess, guess, 3, 20, 3, 20);
        lemma_span_order(6, 40);
        lemma_whole_exact(2);
        lemma_whole_exact(3);
        lemma_times(Value::whole(2), guess, 53, 20);
        assert(next == a);
        assert(a.minus(guess) == a);
        lemma_tolerance_finite(a);
        assert(!a.magnitude().less(tolerance));
        assert(newton_step(a, a) is NaN);
        assert(newton(a, a, tolerance, (REPEATS - 1) as nat) is NaN) by {
            lemma_newton_nan(a, tolerance, (REPEATS - 2) as nat);
        }
    }
}

} // verus!
