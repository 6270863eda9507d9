//! How far a loss cuts the window and the plateau.

use crate::bounds::{lemma_beta, lemma_times_between, lemma_whole_between};
use crate::nearness::{
    lemma_off_cancel, lemma_off_rounded, lemma_off_through, lemma_off_times, off,
};
use crate::order::{
    bounded, lemma_many_units, lemma_over, lemma_plus, lemma_rounded_at_least,
    lemma_rounded_relative, lemma_span, lemma_span_order, lemma_times, lemma_whole,
    lemma_whole_exact, lemma_zero, span,
};
use crate::rounding::{
    excess, law_rounded_to_nearest, lemma_divides, lemma_excess, lemma_rounded_exact,
    lemma_rounded_monotone, lemma_rounded_ratio, rounded, SIGNIFICAND_END, SIGNIFICAND_TOP,
};
use crate::state::{beta, cut, lowered_plateau};
use crate::value::{Value, UNIT_DIGITS};
use vstd::arithmetic::power2::{
    lemma2_to64, lemma2_to64_rest, lemma_pow2_adds, lemma_pow2_pos, lemma_pow2_strictly_increases,
    lemma_pow2_unfold, pow2,
};
use vstd::prelude::*;

verus! {

/// The numbers that `cut` goes through.
proof fn lemma_cut(c: nat) -> (sizes: (nat, nat, nat))
    requires
        1 <= c <= pow2(64),
    ensures
        ({
            let (r, b, p) = sizes;
            &&& r == rounded(c * span(0), 1)
            &&& b == rounded(7 * span(0), 10)
            &&& p == rounded(r * b, span(0))
            &&& span(0) <= r
            &&& span(0) <= 2 * b
            &&& 4 * b <= 3 * span(0)
            &&& cut(c) == if p / span(0) < usize::MAX {
                p / span(0)
            } else {
                usize::MAX as nat
            }
            &&& r * b >= SIGNIFICAND_TOP * span(0)
        }),
{
    let x = Value::whole(c);
    lemma_whole_between(c, 64);
    lemma_whole(c, 64);
    lemma_beta();
    lemma_times(x, beta(), 64, 0);
    lemma_many_units();
    lemma_span_order(-400, 0);
    let (r, b) = (rounded(c * span(0), 1), rounded(7 * span(0), 10));
    assert(r * b >= SIGNIFICAND_TOP * span(0)) by (nonlinear_arith)
        requires
            r >= span(0),
            2 * b >= span(0),
            span(0) >= SIGNIFICAND_END * 1024,
    {
        assert(2 * (r * b) >= span(0) * span(0));
        assert(span(0) * span(0) >= (SIGNIFICAND_END * 1024) * span(0));
    }
    (r, b, rounded(r * b, span(0)))
}

/// A loss cuts the window, unless it is empty.
pub proof fn law_cut_shrinks(c: nat)
    requires
        c <= usize::MAX,
    ensures
        c > 0 ==> cut(c) < c,
        c == 0 ==> cut(c) == 0,
{
    lemma2_to64();
    if c == 0 {
        lemma_cut_of_zero();
    } else {
        let (r, b, p) = lemma_cut(c);
        let o = span(0);
        lemma_many_units();
        lemma_span_order(-400, 0);
        assert(c * o >= SIGNIFICAND_TOP * 1) by (nonlinear_arith)
            requires
                c >= 1,
                o >= SIGNIFICAND_END * 1024,
        ;
        lemma_rounded_relative(c * o, 1);
        lemma_rounded_relative(r * b, o);
        assert(64 * r <= 65 * (c * o));
        assert(64 * (p * o) <= 65 * (r * b));
        assert(p < c * o) by (nonlinear_arith)
            requires
                64 * r <= 65 * (c * o),
                64 * (p * o) <= 65 * (r * b),
                4 * b <= 3 * o,
                o > 0,
                c * o > 0,
        {
            assert(4 * (r * b) <= 3 * (r * o));
            assert(256 * (p * o) <= 195 * (r * o));
            assert(256 * p <= 195 * r);
        }
        lemma_whole_part(p, c);
    }
}

proof fn lemma_whole_part(p: nat, c: nat)
    requires
        p < c * span(0),
    ensures
        p / span(0) < c,
{
    let o = span(0);
    let w = p / o;
    lemma_span_order(0, 0);
    lemma_divides(p, o);
    assert(w < c) by (nonlinear_arith)
        requires
            w * o <= p,
            p < c * o,
            o > 0,
    ;
}

proof fn lemma_cut_of_zero()
    ensures
        cut(0) == 0,
        lowered_plateau(0) == 0,
{
    let x = Value::whole(0);
    lemma_whole_exact(0);
    lemma_span_order(0, 0);
    lemma_zero(span(0));
    lemma_beta();
    assert(0 * span(0) == 0) by (nonlinear_arith);
    lemma_times(x, beta(), 0, 0);
    assert(0 * beta()->Finite_units == 0) by (nonlinear_arith);
    vstd::arithmetic::div_mod::lemma_div_of0(span(0) as int);
    let f = lemma_one_plus_beta();
    let g = Value::whole(1).plus(beta());
    lemma_times(x, g, 0, 1);
    assert(0 * f == 0) by (nonlinear_arith);
    lemma_whole_exact(2);
    lemma_span(0, 1);
    lemma2_to64();
    lemma_over(x.times(g), Value::whole(2), 1, 1);
    lemma_zero(2 * span(0));
}

/// `1 + beta` lies between one and a half and one and three quarters.
proof fn lemma_one_plus_beta() -> (f: nat)
    ensures
        Value::whole(1).plus(beta()) == (Value::Finite { negative: false, units: f }),
        f == rounded(span(0) + rounded(7 * span(0), 10), 1),
        bounded(Value::whole(1).plus(beta()), 1),
        span(0) <= f,
        4 * f <= 7 * span(0),
{
    let one = Value::whole(1);
    let b = rounded(7 * span(0), 10);
    lemma2_to64();
    lemma_whole_exact(1);
    lemma_beta();
    lemma_span(-2, 2);
    lemma_span_order(0, 0);
    lemma_plus(one, beta(), 0);
    assert(span(0) * 1 == span(0));
    lemma_rounded_at_least(span(0) + b, 1, 0);
    lemma_rounded_exact(7, (UNIT_DIGITS - 2) as nat, 1);
    lemma_rounded_monotone(span(0) + b, 1, 7 * span(-2) * 1, 1);
    rounded(span(0) + b, 1)
}

/// The numbers that `lowered_plateau` goes through.
proof fn lemma_lowered(c: nat) -> (sizes: (nat, nat, nat, nat))
    requires
        1 <= c <= pow2(64),
    ensures
        ({
            let (r, f, p, l) = sizes;
            &&& r == rounded(c * span(0), 1)
            &&& f == rounded(span(0) + rounded(7 * span(0), 10), 1)
            &&& p == rounded(r * f, span(0))
            &&& l == rounded(p * span(0), 2 * span(0))
            &&& span(0) <= r
            &&& span(0) <= f
            &&& 4 * f <= 7 * span(0)
            &&& span(0) <= p
            &&& lowered_plateau(c) == if l / span(0) < usize::MAX {
                l / span(0)
            } else {
                usize::MAX as nat
            }
            &&& r * f >= SIGNIFICAND_TOP * span(0)
            &&& p * span(0) >= SIGNIFICAND_TOP * (2 * span(0))
        }),
{
    let x = Value::whole(c);
    let g = Value::whole(1).plus(beta());
    let o = span(0);
    lemma2_to64();
    lemma_whole_between(c, 64);
    lemma_whole(c, 64);
    let f = lemma_one_plus_beta();
    lemma_times_between(x, g, 0, 64, 0, 1);
    lemma_times(x, g, 64, 1);
    lemma_whole_exact(2);
    lemma_span(0, 1);
    lemma_over(x.times(g), Value::whole(2), 65, 1);
    lemma_many_units();
    lemma_span_order(-400, 0);
    let r = rounded(c * o, 1);
    let p = rounded(r * f, o);
    assert(r * f >= SIGNIFICAND_TOP * o && p * o >= SIGNIFICAND_TOP * (2 * o)) by (nonlinear_arith)
        requires
            r >= o,
            f >= o,
            p >= o,
            o >= SIGNIFICAND_END * 1024,
    {
        assert(r * f >= o * o);
        assert(p * o >= o * o);
        assert(o * o >= (SIGNIFICAND_END * 1024) * o);
    }
    (r, f, p, rounded(p * o, 2 * o))
}

/// A loss below the last plateau leaves a plateau below the window, unless it is empty.
pub proof fn law_lowered_plateau_shrinks(c: nat)
    requires
        c <= usize::MAX,
    ensures
        c > 0 ==> lowered_plateau(c) < c,
        c == 0 ==> lowered_plateau(c) == 0,
{
    lemma2_to64();
    if c == 0 {
        lemma_cut_of_zero();
    } else {
        let (r, f, p, l) = lemma_lowered(c);
        let o = span(0);
        lemma_many_units();
        lemma_span_order(-400, 0);
        assert(c * o >= SIGNIFICAND_TOP * 1) by (nonlinear_arith)
            requires
                c >= 1,
                o >= SIGNIFICAND_END * 1024,
        ;
        lemma_rounded_relative(c * o, 1);
        lemma_rounded_relative(r * f, o);
        lemma_rounded_relative(p * o, 2 * o);
        assert(64 * r <= 65 * (c * o));
        assert(64 * (p * o) <= 65 * (r * f));
        assert(64 * (l * (2 * o)) <= 65 * (p * o));
        assert(l < c * o) by (nonlinear_arith)
            requires
                64 * r <= 65 * (c * o),
                64 * (p * o) <= 65 * (r * f),
                64 * (l * (2 * o)) <= 65 * (p * o),
                4 * f <= 7 * o,
                o > 0,
                c * o > 0,
        {
            assert(4 * (r * f) <= 7 * (r * o));
            assert(256 * (p * o) <= 455 * (r * o));
            assert(256 * p <= 455 * r);
            assert(l * (2 * o) == 2 * (l * o));
            assert(128 * (l * o) <= 65 * (p * o));
            assert(128 * l <= 65 * p);
        }
        lemma_whole_part(l, c);
    }
}

/// A loss leaves seven tenths of the window, within five parts in `2^53` and a byte.
pub proof fn law_cut_near_seven_tenths(c: nat)
    requires
        c <= usize::MAX,
    ensures
        SIGNIFICAND_END * (10 * cut(c)) <= (SIGNIFICAND_END + 5) * (7 * c),
        (SIGNIFICAND_END - 5) * (7 * c) <= SIGNIFICAND_END * (10 * cut(c) + 10),
{
    lemma2_to64();
    if c == 0 {
        lemma_cut_of_zero();
    } else {
        let (r, b, p) = lemma_cut(c);
        let o = span(0);
        let co = c * o;
        lemma_many_units();
        lemma_span_order(-400, 0);
        assert(co >= SIGNIFICAND_TOP * 1) by (nonlinear_arith)
            requires
                c >= 1,
                o >= SIGNIFICAND_END * 1024,
                co == c * o,
        ;
        lemma_off_rounded(co, 1);
        lemma_off_rounded(7 * o, 10);
        lemma_off_rounded(r * b, o);
        lemma_off_times(r, co, 1, b * 10, 7 * o, 1);
        assert(r * (b * 10) == 10 * (r * b) && co * (7 * o) == (7 * co) * o && 10 * (p * o) == (10
            * p) * o) by (nonlinear_arith);
        assert(off(10 * (p * o), 10 * (r * b), 1));
        lemma_off_through(10 * (p * o), 10 * (r * b), 1, (7 * co) * o, 3);
        lemma_off_cancel(10 * p, 7 * co, o, 5);
        law_cut_shrinks(c);
        assert(7 * co == (7 * c) * o) by (nonlinear_arith)
            requires
                co == c * o,
        ;
        lemma_floor_near(p, 10, 7 * c, 5);
    }
}

/// The whole part of a number that is near `v / a`.
proof fn lemma_floor_near(p: nat, a: nat, v: nat, k: nat)
    requires
        off(a * p, v * span(0), k),
        k <= 1000,
    ensures
        SIGNIFICAND_END * (a * (p / span(0))) <= (SIGNIFICAND_END + k) * v,
        (SIGNIFICAND_END - k) * v <= SIGNIFICAND_END * (a * (p / span(0)) + a),
{
    let o = span(0);
    let w = p / o;
    let d = SIGNIFICAND_END as int;
    let (g, h) = (d + k, d - k);
    lemma_span_order(0, 0);
    lemma_divides(p, o);
    assert(d * (a * w) <= g * v) by (nonlinear_arith)
        requires
            w * o <= p,
            d * (a * p) <= g * (v * o),
            o > 0,
            d > 0,
            a >= 0,
    {
        assert(a * (w * o) <= a * p);
        assert(d * (a * (w * o)) <= d * (a * p));
        assert((d * (a * w)) * o <= (g * v) * o);
    }
    assert(h * v <= d * (a * w + a)) by (nonlinear_arith)
        requires
            p < w * o + o,
            h * (v * o) <= d * (a * p),
            o > 0,
            d > 0,
            a >= 0,
    {
        assert(a * p <= a * (w * o + o));
        assert(d * (a * p) <= d * (a * (w * o + o)));
        assert(d * (a * (w * o + o)) == (d * (a * w + a)) * o);
        assert((h * v) * o <= (d * (a * w + a)) * o);
    }
}

/// A loss below the last plateau leaves a plateau of seventeen twentieths of the window, within nine
/// parts in `2^53` and a byte.
pub proof fn law_lowered_plateau_near_seventeen_twentieths(c: nat)
    requires
        c <= usize::MAX,
    ensures
        SIGNIFICAND_END * (20 * lowered_plateau(c)) <= (SIGNIFICAND_END + 9) * (17 * c),
        (SIGNIFICAND_END - 9) * (17 * c) <= SIGNIFICAND_END * (20 * lowered_plateau(c) + 20),
{
    lemma2_to64();
    if c == 0 {
        lemma_cut_of_zero();
    } else {
        let (r, f, p, l) = lemma_lowered(c);
        let o = span(0);
        let b = rounded(7 * o, 10);
        let co = c * o;
        lemma_many_units();
        lemma_span_order(-400, 0);
        assert(co >= SIGNIFICAND_TOP * 1) by (nonlinear_arith)
            requires
                c >= 1,
                o >= SIGNIFICAND_END * 1024,
                co == c * o,
        ;
        lemma_off_rounded(co, 1);
        lemma_off_rounded(7 * o, 10);
        lemma_off_rounded(o + b, 1);
        lemma_off_rounded(r * f, o);
        lemma_off_rounded(p * o, 2 * o);
        assert(off(10 * f, 10 * (o + b), 1));
        assert(off(10 * (o + b), 17 * o, 1));
        lemma_off_through(10 * f, 10 * (o + b), 1, 17 * o, 1);
        lemma_off_times(r, co, 1, 10 * f, 17 * o, 3);
        assert(r * (10 * f) == 10 * (r * f) && co * (17 * o) == (17 * co) * o && 10 * (p * o) == (10
            * p) * o && l * (2 * o) == (2 * l) * o) by (nonlinear_arith);
        assert(off(10 * (p * o), 10 * (r * f), 1));
        lemma_off_through(10 * (p * o), 10 * (r * f), 1, (17 * co) * o, 5);
        lemma_off_cancel(10 * p, 17 * co, o, 7);
        lemma_off_cancel(2 * l, p, o, 1);
        assert(off(20 * l, 10 * p, 1));
        lemma_off_through(20 * l, 10 * p, 1, 17 * co, 7);
        law_lowered_plateau_shrinks(c);
        assert(17 * co == (17 * c) * o) by (nonlinear_arith)
            requires
                co == c * o,
        ;
        lemma_floor_near(l, 20, 17 * c, 9);
    }
}

/// The greatest window for which the rounding of `beta` is known to stay below a byte.
pub const EXACT_WINDOW: u64 = 70368744177664;

/// A loss leaves seven tenths of the window, rounded down, or a byte less.
pub proof fn law_cut_is_seven_tenths(c: nat)
    requires
        c <= EXACT_WINDOW,
        c <= usize::MAX,
    ensures
        7 * c - 10 <= 10 * cut(c) <= 7 * c,
{
    lemma2_to64();
    if c == 0 {
        lemma_cut_of_zero();
    } else {
        let (r, b, p) = lemma_cut(c);
        let o = span(0);
        lemma_many_units();
        lemma_span_order(-400, 0);
        lemma_rounded_exact(c, UNIT_DIGITS as nat, 1);
        assert(c * o * 1 == c * o);
        assert(7 * o >= SIGNIFICAND_TOP * 10);
        lemma_rounded_relative(7 * o, 10);
        lemma_rounded_relative(r * b, o);
        let (y, z) = (c * b, c * o);
        assert(r * b == y * o) by (nonlinear_arith)
            requires
                r == c * o,
                y == c * b,
        ;
        lemma_product_near(y, o, p);
        lemma_factor_near(10 * b, 7 * o, c);
        assert(c * (10 * b) == 10 * y && c * (7 * o) == 7 * z) by (nonlinear_arith)
            requires
                y == c * b,
                z == c * o,
        ;
        assert(128 * z <= SIGNIFICAND_END * o && 7 * z == (7 * c) * o) by (nonlinear_arith)
            requires
                z == c * o,
                128 * c <= SIGNIFICAND_END,
        ;
        law_cut_shrinks(c);
        lemma_floor(p, 10, 7 * c);
    }
}

/// An error of one part in `2^53` in a product is one in its factor.
pub(crate) proof fn lemma_product_near(y: nat, o: nat, p: nat)
    requires
        o > 0,
        SIGNIFICAND_END * (p * o) <= (SIGNIFICAND_END + 1) * (y * o),
        (SIGNIFICAND_END - 1) * (y * o) <= SIGNIFICAND_END * (p * o),
    ensures
        SIGNIFICAND_END * p <= (SIGNIFICAND_END + 1) * y,
        (SIGNIFICAND_END - 1) * y <= SIGNIFICAND_END * p,
{
    assert(SIGNIFICAND_END * p <= (SIGNIFICAND_END + 1) * y) by (nonlinear_arith)
        requires
            o > 0,
            SIGNIFICAND_END * (p * o) <= (SIGNIFICAND_END + 1) * (y * o),
    {
        assert((SIGNIFICAND_END * p) * o <= ((SIGNIFICAND_END + 1) * y) * o);
    }
    assert((SIGNIFICAND_END - 1) * y <= SIGNIFICAND_END * p) by (nonlinear_arith)
        requires
            o > 0,
            (SIGNIFICAND_END - 1) * (y * o) <= SIGNIFICAND_END * (p * o),
    {
        assert(((SIGNIFICAND_END - 1) * y) * o <= (SIGNIFICAND_END * p) * o);
    }
}

/// An error of one part in `2^53` in a factor is one in the product.
proof fn lemma_factor_near(a: nat, b: nat, c: nat)
    requires
        SIGNIFICAND_END * a <= (SIGNIFICAND_END + 1) * b,
        (SIGNIFICAND_END - 1) * b <= SIGNIFICAND_END * a,
    ensures
        SIGNIFICAND_END * (c * a) <= (SIGNIFICAND_END + 1) * (c * b),
        (SIGNIFICAND_END - 1) * (c * b) <= SIGNIFICAND_END * (c * a),
{
    assert(SIGNIFICAND_END * (c * a) <= (SIGNIFICAND_END + 1) * (c * b)) by (nonlinear_arith)
        requires
            SIGNIFICAND_END * a <= (SIGNIFICAND_END + 1) * b,
    {
        assert(c * (SIGNIFICAND_END * a) <= c * ((SIGNIFICAND_END + 1) * b));
    }
    assert((SIGNIFICAND_END - 1) * (c * b) <= SIGNIFICAND_END * (c * a)) by (nonlinear_arith)
        requires
            (SIGNIFICAND_END - 1) * b <= SIGNIFICAND_END * a,
    {
        assert(c * ((SIGNIFICAND_END - 1) * b) <= c * (SIGNIFICAND_END * a));
    }
}

/// The whole part of a number that is within one of `v / a`.
pub(crate) proof fn lemma_floor(p: nat, a: nat, v: nat)
    ensures
        v * span(0) < a * p + span(0) ==> v <= a * (p / span(0)) + a,
        a * p < v * span(0) + span(0) ==> a * (p / span(0)) <= v,
{
    let o = span(0);
    let w = p / o;
    lemma_span_order(0, 0);
    lemma_divides(p, o);
    if a * p < v * o + o {
        assert(a * w <= v) by (nonlinear_arith)
            requires
                w * o <= p,
                a * p < v * o + o,
                o > 0,
        {
            assert(a * (w * o) <= a * p);
            assert((a * w) * o < (v + 1) * o);
        }
    }
    if v * o < a * p + o {
        assert(v <= a * w + a) by (nonlinear_arith)
            requires
                p < w * o + o,
                v * o < a * p + o,
                o > 0,
        {
            assert(a * p <= a * (w * o + o));
            assert(a * (w * o + o) == (a * w + a) * o);
            assert(v * o < (a * w + a + 1) * o);
        }
    }
}

/// A loss below the last plateau leaves a plateau of seventeen twentieths of the window, rounded
/// down, or a byte less.
pub proof fn law_lowered_plateau_is_seventeen_twentieths(c: nat)
    requires
        c <= EXACT_WINDOW,
        c <= usize::MAX,
    ensures
        17 * c - 20 <= 20 * lowered_plateau(c) <= 17 * c,
{
    lemma2_to64();
    if c == 0 {
        lemma_cut_of_zero();
    } else {
        let (r, f, p, l) = lemma_lowered(c);
        let o = span(0);
        let b = rounded(7 * o, 10);
        lemma_many_units();
        lemma_span_order(-400, 0);
        lemma_rounded_exact(c, UNIT_DIGITS as nat, 1);
        assert(c * o * 1 == c * o);
        assert(7 * o >= SIGNIFICAND_TOP * 10);
        lemma_rounded_relative(7 * o, 10);
        lemma_rounded_relative(o + b, 1);
        lemma_rounded_relative(r * f, o);
        lemma_rounded_relative(p * o, 2 * o);
        let (y, z) = (c * f, c * o);
        assert(r * f == y * o) by (nonlinear_arith)
            requires
                r == c * o,
                y == c * f,
        ;
        lemma_product_near(y, o, p);
        assert(l * (2 * o) == (2 * l) * o) by (nonlinear_arith);
        lemma_product_near(p, o, 2 * l);
        assert(SIGNIFICAND_END * (10 * f) <= (SIGNIFICAND_END + 2) * (17 * o));
        assert((SIGNIFICAND_END - 2) * (17 * o) <= SIGNIFICAND_END * (10 * f));
        assert(SIGNIFICAND_END * (10 * y) <= (SIGNIFICAND_END + 2) * (17 * z)) by (nonlinear_arith)
            requires
                y == c * f,
                z == c * o,
                SIGNIFICAND_END * (10 * f) <= (SIGNIFICAND_END + 2) * (17 * o),
        {
            assert(c * (SIGNIFICAND_END * (10 * f)) <= c * ((SIGNIFICAND_END + 2) * (17 * o)));
        }
        assert((SIGNIFICAND_END - 2) * (17 * z) <= SIGNIFICAND_END * (10 * y)) by (nonlinear_arith)
            requires
                y == c * f,
                z == c * o,
                (SIGNIFICAND_END - 2) * (17 * o) <= SIGNIFICAND_END * (10 * f),
        {
            assert(c * ((SIGNIFICAND_END - 2) * (17 * o)) <= c * (SIGNIFICAND_END * (10 * f)));
        }
        assert(128 * z <= SIGNIFICAND_END * o && 17 * z == (17 * c) * o) by (nonlinear_arith)
            requires
                z == c * o,
                128 * c <= SIGNIFICAND_END,
        ;
        law_lowered_plateau_shrinks(c);
        lemma_floor(l, 20, 17 * c);
    }
}

/// The factors of a loss, digit by digit: `beta` is below seven tenths by four tenths of its last
/// digit, and `1 + beta` below seventeen tenths by two tenths of its last.
proof fn lemma_factors()
    ensures
        rounded(7 * span(0), 10) == 6305039478318694 * pow2(1021),
        rounded(span(0) + rounded(7 * span(0), 10), 1) == 7656119366529843 * pow2(1022),
        span(0) == SIGNIFICAND_END * pow2(1021),
        pow2(1022) == 2 * pow2(1021),
{
    let o = span(0);
    let p = pow2(1021);
    lemma2_to64_rest();
    lemma_pow2_pos(1021);
    lemma_pow2_adds(53, 1021);
    lemma_pow2_unfold(1022);
    assert(o == SIGNIFICAND_END * p);
    law_rounded_to_nearest(7 * o, 10, 1021, 6305039478318694);
    let sum = o + rounded(7 * o, 10);
    assert(sum == 7656119366529843 * pow2(1022) * 1);
    lemma_rounded_exact(7656119366529843, 1022, 1);
}

/// A loss below the last plateau leaves a plateau of seventeen twentieths of the window, rounded
/// down.
pub proof fn law_lowered_plateau_rounds_down(c: nat)
    requires
        c <= EXACT_WINDOW,
        c <= usize::MAX,
    ensures
        lowered_plateau(c) == (17 * c) / 20,
{
    law_lowered_plateau_is_seventeen_twentieths(c);
    if c % 20 == 0 && c > 0 {
        lemma2_to64();
        lemma_lowered_of_twenties(c / 20);
    }
}

proof fn lemma_lowered_of_twenties(j: nat)
    requires
        1 <= j,
        20 * j <= EXACT_WINDOW,
        20 * j <= usize::MAX,
    ensures
        lowered_plateau(20 * j) == 17 * j,
{
    let c = 20 * j;
    let o = span(0);
    let p = pow2(1021);
    lemma2_to64();
    lemma2_to64_rest();
    lemma_factors();
    lemma_pow2_pos(1021);
    lemma_span_order(0, 0);
    let (r, f, half, l) = lemma_lowered(c);
    lemma_rounded_exact(c, UNIT_DIGITS as nat, 1);
    assert(c * o * 1 == c * o);
    let n = c * f;
    assert(r * f == n * o) by (nonlinear_arith)
        requires
            r == c * o,
            n == c * f,
    ;
    lemma_rounded_ratio(n * o, o, n, 1);
    let jp = j * p;
    assert(n == 306244774661193720 * jp && (34 * j) * o == 306244774661193728 * jp)
        by (nonlinear_arith)
        requires
            n == (20 * j) * f,
            f == 7656119366529843 * (2 * p),
            o == 9007199254740992 * p,
            jp == j * p,
    ;
    // the last digit of the product
    let k = excess(n, 1);
    lemma_excess(n, 1);
    let g = pow2(k);
    assert(jp >= p && jp <= 4398046511104 * p) by (nonlinear_arith)
        requires
            1 <= j <= 4398046511104,
            jp == j * p,
    ;
    assert(1 * g == g);
    assert(k <= 1074) by {
        if k > 1074 {
            lemma_pow2_strictly_increases(1074, k);
            assert(g > 9007199254740992 * p);
        }
    }
    lemma_pow2_adds(k, (1074 - k) as nat);
    let h = pow2((1074 - k) as nat);
    let q = (34 * j) * h;
    assert(q * g == (34 * j) * o) by (nonlinear_arith)
        requires
            q == (34 * j) * h,
            o == g * h,
    ;
    law_rounded_to_nearest(n, 1, k, q);
    assert(half == (34 * j) * o);
    // half of it
    lemma_rounded_exact(17 * j, UNIT_DIGITS as nat, 2 * o);
    assert((17 * j) * o * (2 * o) == half * o) by (nonlinear_arith)
        requires
            half == (34 * j) * o,
    ;
    vstd::arithmetic::div_mod::lemma_div_by_multiple((17 * j) as int, o as int);
}

/// Seven divides no power of two.
proof fn lemma_seven(e: nat)
    ensures
        pow2(e) % 7 != 0,
    decreases e,
{
    lemma2_to64();
    if e > 0 {
        lemma_pow2_unfold(e);
        lemma_seven((e - 1) as nat);
    }
}

/// What a loss leaves of ten times `j` bytes, to the byte: seven times `j`, or a byte less where the
/// leading digits of that are beyond seven quarters, since `beta` is below seven tenths by a trace.
pub proof fn law_cut_of_tens(j: nat, e: nat)
    requires
        10 * j <= EXACT_WINDOW,
        10 * j <= usize::MAX,
        pow2(e) <= 7 * j < 2 * pow2(e),
    ensures
        4 * (7 * j) <= 7 * pow2(e) ==> cut(10 * j) == 7 * j,
        7 * pow2(e) < 4 * (7 * j) ==> cut(10 * j) == 7 * j - 1,
{
    let c = 10 * j;
    let v = 7 * j;
    let o = span(0);
    let p = pow2(1021);
    lemma2_to64();
    lemma2_to64_rest();
    lemma_factors();
    lemma_pow2_pos(1021);
    lemma_pow2_pos(e);
    lemma_span_order(0, 0);
    lemma_seven(e);
    let (r, b, x) = lemma_cut(c);
    lemma_rounded_exact(c, UNIT_DIGITS as nat, 1);
    assert(c * o * 1 == c * o);
    let n = c * b;
    assert(r * b == n * o) by (nonlinear_arith)
        requires
            r == c * o,
            n == c * b,
    ;
    lemma_rounded_ratio(n * o, o, n, 1);
    let jp = j * p;
    assert(n == 63050394783186940 * jp && v * o == 63050394783186944 * jp) by (nonlinear_arith)
        requires
            n == (10 * j) * b,
            b == 6305039478318694 * p,
            v == 7 * j,
            o == 9007199254740992 * p,
            jp == j * p,
    ;
    // the last digit of the product is that of `2^e`, fifty-two places on
    assert(e <= 46) by {
        if e > 46 {
            lemma_pow2_strictly_increases(46, e);
        }
    }
    let k = (e + 1022) as nat;
    let g = pow2(k);
    let a = pow2(e);
    lemma_pow2_adds(e, 1022);
    lemma_pow2_adds(k, (52 - e) as nat);
    let h = pow2((52 - e) as nat);
    let ap = a * p;
    assert(g == 2 * ap) by (nonlinear_arith)
        requires
            g == a * (2 * p),
            ap == a * p,
    ;
    assert(o == g * h);
    lemma_pow2_unfold((52 - e) as nat);
    let q = v * h;
    assert(q * g == v * o) by (nonlinear_arith)
        requires
            q == v * h,
            o == g * h,
    ;
    assert(q % 2 == 0) by {
        let s = v * pow2((52 - e - 1) as nat);
        assert(q == 2 * s) by (nonlinear_arith)
            requires
                q == v * h,
                h == 2 * pow2((52 - e - 1) as nat),
                s == v * pow2((52 - e - 1) as nat),
        ;
    }
    assert(a + 1 <= v);
    assert(7 * jp >= ap + p && 7 * jp + p <= 2 * ap && (4 * j <= a ==> 4 * jp <= ap) && (4 * j >= a
        + 1 ==> 4 * jp >= ap + p)) by (nonlinear_arith)
        requires
            a + 1 <= 7 * j,
            7 * j + 1 <= 2 * a,
            jp == j * p,
            ap == a * p,
            p > 0,
    {
        assert((7 * j) * p >= (a + 1) * p);
        assert((7 * j + 1) * p <= (2 * a) * p);
        if 4 * j <= a {
            assert((4 * j) * p <= a * p);
        }
        if 4 * j >= a + 1 {
            assert((4 * j) * p >= (a + 1) * p);
        }
    }
    assert(jp <= 7036874417767 * p) by (nonlinear_arith)
        requires
            j <= 7036874417767,
            jp == j * p,
    ;
    assert(1 * g == g);
    law_cut_shrinks(c);
    if 4 * j <= a {
        law_rounded_to_nearest(n, 1, k, q);
        vstd::arithmetic::div_mod::lemma_div_by_multiple(v as int, o as int);
    } else {
        lemma_pow2_pos((52 - e) as nat);
        assert(q > 0) by (nonlinear_arith)
            requires
                q == v * h,
                v > 0,
                h > 0,
        ;
        let m = (q - 1) as nat;
        assert(m * g == q * g - g) by (nonlinear_arith)
            requires
                m == q - 1,
        ;
        law_rounded_to_nearest(n, 1, k, m);
        lemma_divides(x, o);
        assert(x < v * o && v * o <= x + o);
        let y = x / o;
        assert(y == v - 1) by (nonlinear_arith)
            requires
                y * o <= x < y * o + o,
                x < v * o,
                v * o <= x + o,
                o > 0,
        ;
    }
}

} // verus!
