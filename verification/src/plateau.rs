//! When the window is back at the plateau, and where the curve starts.

use crate::bounds::{
    between, lemma_beta, lemma_one_minus_beta, lemma_over_between, lemma_pace_between,
    lemma_plateau_between, lemma_times_between, lemma_whole_between,
};
use crate::cube_root::{first_guess, newton, newton_step, REPEATS};
use crate::growth::{lemma_curve, rise, seconds};
use crate::loss::lemma_floor;
use crate::nearness::{
    lemma_off_back, lemma_off_cancel, lemma_off_rounded, lemma_off_scale, lemma_off_through,
    lemma_off_times, lemma_signed_near, off,
};
use crate::order::{
    bounded, lemma_finite, lemma_many_units, lemma_minus, lemma_over, lemma_ratio,
    lemma_rounded_again, lemma_span, lemma_span_order, lemma_times, lemma_whole, lemma_whole_exact,
    lemma_zero, span,
};
use crate::reach::law_cube_root_of_small;
use crate::root::{cubed, law_cube_root_accurate, lemma_fine, stretched};
use crate::rounding::{rounded, SIGNIFICAND_TOP};
use crate::state::{beta, curve, pace, pace_in_bytes, plateau_time};
use crate::value::Value;
use vstd::arithmetic::power2::{lemma2_to64, lemma2_to64_rest, pow2};
use vstd::prelude::*;

verus! {

/// A product of positive numbers, as nearness.
proof fn lemma_off_product(a: Value, b: Value, i: int, j: int, k: int, l: int)
    requires
        between(a, i, j),
        between(b, k, l),
        -200 <= i,
        -200 <= k,
        -200 <= i + k,
        -200 <= j <= 500,
        -200 <= l <= 400,
    ensures
        a.times(b) matches Value::Finite { negative: false, units } && off(
            units * span(0),
            a->Finite_units * b->Finite_units,
            1,
        ),
{
    let (m, n) = (a->Finite_units, b->Finite_units);
    lemma_times(a, b, j, l);
    lemma_many_units();
    lemma_span_order(-400, i + k);
    lemma_span_order(0, 0);
    crate::order::lemma_span_product(i, k);
    let o = span(0);
    assert(m * n >= SIGNIFICAND_TOP * o) by (nonlinear_arith)
        requires
            m >= span(i),
            n >= span(k),
            span(i) * span(k) == span(i + k) * o,
            span(i + k) >= SIGNIFICAND_TOP,
    {
        assert(m * n >= span(i) * span(k));
        assert(span(i + k) * o >= SIGNIFICAND_TOP * o);
    }
    lemma_off_rounded(m * n, o);
}

/// A whole number, as nearness.
pub(crate) proof fn lemma_off_whole(n: nat)
    requires
        1 <= n <= pow2(64),
    ensures
        Value::whole(n) matches Value::Finite { negative: false, units } && off(
            units,
            n * span(0),
            1,
        ),
{
    lemma_whole(n, 64);
    lemma_many_units();
    lemma_span_order(-400, 0);
    let o = span(0);
    assert(n * o >= SIGNIFICAND_TOP * 1) by (nonlinear_arith)
        requires
            n >= 1,
            o >= SIGNIFICAND_TOP,
    ;
    lemma_off_rounded(n * o, 1);
}

/// `1 - beta` is three tenths.
proof fn lemma_off_one_minus_beta()
    ensures
        Value::whole(1).minus(beta()) matches Value::Finite { negative: false, units } && off(
            10 * units,
            3 * span(0),
            5,
        ),
{
    let o = span(0);
    let one = Value::whole(1);
    let b = rounded(7 * o, 10);
    lemma_one_minus_beta();
    lemma_beta();
    lemma_whole_exact(1);
    lemma_many_units();
    lemma_span_order(-400, 0);
    lemma_off_rounded(7 * o, 10);
    assert(bounded(one, 0));
    lemma_minus(one, beta(), 0);
    let d = (o - b) as nat;
    lemma_off_rounded(d, 1);
    assert(off(10 * rounded(d, 1), 10 * d, 1));
    assert(off(10 * d, 3 * o, 3));
    lemma_off_through(10 * rounded(d, 1), 10 * d, 1, 3 * o, 3);
}

/// The pace is four tenths of a segment.
pub(crate) proof fn lemma_off_pace(min_cwnd: nat)
    requires
        1 <= min_cwnd <= pow2(64),
    ensures
        pace_in_bytes(min_cwnd) matches Value::Finite { negative: false, units } && off(
            10 * units,
            4 * (min_cwnd * span(0)),
            5,
        ),
{
    let o = span(0);
    let x = Value::whole(min_cwnd);
    lemma2_to64();
    lemma_many_units();
    lemma_span_order(-400, 0);
    lemma_span(-2, 2);
    lemma_span(-1, 1);
    lemma_ratio(4, 10, -1);
    crate::order::lemma_rounded_at_least(4 * o, 10, -2);
    lemma_off_rounded(4 * o, 10);
    lemma_whole_between(min_cwnd, 64);
    lemma_off_whole(min_cwnd);
    lemma_off_product(pace(), x, -2, -1, 0, 64);
    let p = rounded(4 * o, 10);
    let m = x->Finite_units;
    let c = pace_in_bytes(min_cwnd)->Finite_units;
    let mo = min_cwnd * o;
    lemma_off_times(p * 10, 4 * o, 1, m, mo, 1);
    assert((p * 10) * m == 10 * (p * m) && (4 * o) * mo == (4 * mo) * o) by (nonlinear_arith);
    assert(off(10 * (c * o), 10 * (p * m), 1));
    lemma_off_through(10 * (c * o), 10 * (p * m), 1, (4 * mo) * o, 3);
    assert(10 * (c * o) == (10 * c) * o) by (nonlinear_arith);
    lemma_off_cancel(10 * c, 4 * mo, o, 5);
}

/// The cube of the time of the plateau is three quarters of the plateau, in segments.
proof fn lemma_off_cube(w_max: nat, min_cwnd: nat)
    requires
        1 <= w_max <= pow2(64),
        1 <= min_cwnd <= pow2(64),
    ensures
        ({
            let a = Value::whole(w_max).times(Value::whole(1).minus(beta())).over(
                pace_in_bytes(min_cwnd),
            );
            a matches Value::Finite { negative: false, units } && off(
                4 * (min_cwnd * units),
                3 * (w_max * span(0)),
                18,
            )
        }),
{
    let o = span(0);
    let w = Value::whole(w_max);
    let f = Value::whole(1).minus(beta());
    let c = pace_in_bytes(min_cwnd);
    let a = w.times(f).over(c);
    lemma2_to64();
    lemma_many_units();
    lemma_span_order(0, 0);
    lemma_one_minus_beta();
    lemma_off_one_minus_beta();
    lemma_pace_between(min_cwnd);
    lemma_off_pace(min_cwnd);
    lemma_whole_between(w_max, 64);
    lemma_off_whole(w_max);
    lemma_off_product(w, f, 0, 64, -2, -1);
    lemma_times_between(w, f, 0, 64, -2, -1);
    lemma_over(w.times(f), c, 63, -2);
    let (wu, fu, cu, pu, au) = (
        w->Finite_units,
        f->Finite_units,
        c->Finite_units,
        w.times(f)->Finite_units,
        a->Finite_units,
    );
    let wo = w_max * o;
    let mo = min_cwnd * o;
    // ten times the numerator
    lemma_off_times(wu, wo, 1, 10 * fu, 3 * o, 5);
    assert(wu * (10 * fu) == 10 * (wu * fu) && wo * (3 * o) == (3 * wo) * o) by (nonlinear_arith);
    assert(off(10 * (pu * o), 10 * (wu * fu), 1));
    lemma_off_through(10 * (pu * o), 10 * (wu * fu), 1, (3 * wo) * o, 7);
    // the quotient
    crate::order::lemma_span_product(-65, 63);
    lemma_span_order(-400, -65);
    lemma_span_order(-2, 63);
    assert(pu * o >= SIGNIFICAND_TOP * cu) by (nonlinear_arith)
        requires
            pu >= span(-2),
            cu <= span(63),
            span(-65) * span(63) == span(-2) * o,
            span(-65) >= SIGNIFICAND_TOP,
    {
        assert(pu * o >= span(-2) * o);
        assert(span(-65) * span(63) >= SIGNIFICAND_TOP * span(63));
    }
    lemma_off_rounded(pu * o, cu);
    assert(off(10 * (au * cu), 10 * (pu * o), 1));
    lemma_off_through(10 * (au * cu), 10 * (pu * o), 1, (3 * wo) * o, 9);
    // its denominator
    lemma_off_back(10 * cu, 4 * mo, 5);
    lemma_off_scale(4 * mo, 10 * cu, au, 6);
    assert((10 * cu) * au == 10 * (au * cu)) by (nonlinear_arith);
    lemma_off_through((4 * mo) * au, 10 * (au * cu), 6, (3 * wo) * o, 11);
    assert((4 * mo) * au == (4 * (min_cwnd * au)) * o) by (nonlinear_arith)
        requires
            mo == min_cwnd * o,
    ;
    lemma_off_cancel(4 * (min_cwnd * au), 3 * wo, o, 18);
    assert(a == (Value::Finite { negative: false, units: au }));
}

/// The cube of the time of the plateau is a number that binary64 has.
proof fn lemma_cube_finite(w_max: nat, min_cwnd: nat)
    requires
        1 <= w_max <= pow2(64),
        1 <= min_cwnd <= pow2(64),
    ensures
        between(
            Value::whole(w_max).times(Value::whole(1).minus(beta())).over(pace_in_bytes(min_cwnd)),
            -65,
            65,
        ),
{
    let w = Value::whole(w_max);
    let f = Value::whole(1).minus(beta());
    lemma_one_minus_beta();
    lemma_pace_between(min_cwnd);
    lemma_whole_between(w_max, 64);
    lemma_times_between(w, f, 0, 64, -2, -1);
    lemma_over_between(w.times(f), pace_in_bytes(min_cwnd), -2, 63, -2, 63);
}

/// The time of the plateau is positive, and not too early by more than a trace: the cube of `K` is
/// not below `w_max * (1 - beta) / C` by more than one part in `2^39`. For a plateau of at least a
/// sixty-fourth of a segment it is right: within one part in `2^29`, and within one in `2^33` for a
/// plateau of at least three quarters of a segment.
pub proof fn law_plateau_time_accurate(w_max: nat, min_cwnd: nat)
    requires
        1 <= min_cwnd <= usize::MAX,
        1 <= w_max <= usize::MAX,
    ensures
        plateau_time(w_max, min_cwnd) matches Some(Value::Finite { negative: false, units }) && {
            let cube = 4 * (min_cwnd * cubed(units));
            let exact = 3 * (w_max * cubed(span(0)));
            &&& units > 0
            &&& 549755813887 * exact <= 549755813888 * cube
            &&& min_cwnd <= 64 * w_max ==> {
                &&& 536870912 * cube <= 536870913 * exact
                &&& 536870911 * exact <= 536870912 * cube
            }
            &&& 3 * min_cwnd <= 4 * w_max ==> {
                &&& 8589934592 * cube <= 8589934593 * exact
                &&& 8589934591 * exact <= 8589934592 * cube
            }
        },
{
    let o = span(0);
    let (w, m) = (w_max, min_cwnd);
    let v = Value::whole(w).times(Value::whole(1).minus(beta())).over(pace_in_bytes(m));
    let a = v->Finite_units;
    lemma2_to64();
    lemma_off_cube(w, m);
    lemma_cube_finite(w, m);
    lemma_span_order(-65, 65);
    lemma_finite(a, 65);
    lemma_span(-1, 1);
    lemma_span(-7, 7);
    lemma_span(0, 64);
    lemma_span_order(0, 0);
    let (ma, wo) = (m * a, w * o);
    assert((m <= 64 * w ==> m * o <= 64 * wo) && (3 * m <= 4 * w ==> 3 * (m * o) <= 4 * wo))
        by (nonlinear_arith)
        requires
            wo == w * o,
    {
        if m <= 64 * w {
            assert(m * o <= (64 * w) * o);
        }
        if 3 * m <= 4 * w {
            assert((3 * m) * o <= (4 * w) * o);
        }
    }
    if m <= 64 * w {
        assert(m * o <= 128 * ma);
        assert(o <= 128 * a) by (nonlinear_arith)
            requires
                m * o <= 128 * (m * a),
                m > 0,
        ;
    }
    if 3 * m <= 4 * w {
        assert(m * o <= 2 * ma);
        assert(o <= 2 * a) by (nonlinear_arith)
            requires
                m * o <= 2 * (m * a),
                m > 0,
        ;
    }
    assert(a <= span(64)) by {
        assert(ma <= wo);
        assert(a <= m * a) by (nonlinear_arith)
            requires
                m >= 1,
        ;
        assert(w * o <= o * pow2(64)) by (nonlinear_arith)
            requires
                w <= pow2(64),
        ;
    }
    law_cube_root_accurate(v);
    let k3 = cubed(plateau_time(w, m)->0->Finite_units);
    let oo = o * o;
    let (mk, mao, woo) = (m * k3, ma * oo, wo * oo);
    let st = stretched(a);
    assert(m * st == mao && w * cubed(o) == woo) by (nonlinear_arith)
        requires
            mao == (m * a) * (o * o),
            woo == (w * o) * (o * o),
            st == a * o * o,
            cubed(o) == o * o * o,
    ;
    lemma_fine(st, k3);
    assert(1099511627776 * mao <= 1099511627777 * mk) by (nonlinear_arith)
        requires
            1099511627776 * st <= 1099511627777 * k3,
            mk == m * k3,
            mao == m * st,
    {
        assert(m * (1099511627776 * st) <= m * (1099511627777 * k3));
    }
    if m <= 64 * w {
        lemma_near_scaled(st, k3, m, 1073741824);
    }
    if 3 * m <= 4 * w {
        lemma_near_scaled(st, k3, m, 17179869184);
    }
    lemma_off_scale(4 * ma, 3 * wo, oo, 18);
    assert((4 * ma) * oo == 4 * mao && (3 * wo) * oo == 3 * woo) by (nonlinear_arith)
        requires
            mao == ma * oo,
            woo == wo * oo,
    ;
}

/// Nearness of cubes, times a factor.
proof fn lemma_near_scaled(s: nat, v: nat, m: nat, parts: nat)
    requires
        parts * v <= (parts + 1) * s,
        (parts - 1) * s <= parts * v,
    ensures
        parts * (m * v) <= (parts + 1) * (m * s),
        (parts - 1) * (m * s) <= parts * (m * v),
{
    assert(parts * (m * v) <= (parts + 1) * (m * s)) by (nonlinear_arith)
        requires
            parts * v <= (parts + 1) * s,
    {
        assert(m * (parts * v) <= m * ((parts + 1) * s));
    }
    assert((parts - 1) * (m * s) <= parts * (m * v)) by (nonlinear_arith)
        requires
            (parts - 1) * s <= parts * v,
    {
        assert(m * ((parts - 1) * s) <= m * (parts * v));
    }
}

/// The time of a plateau of at most a segment is not late by more than `2^-8` seconds: it exceeds any
/// number whose cube is at least `w_max * (1 - beta) / C` by no more than that.
pub proof fn law_plateau_time_of_small(w_max: nat, min_cwnd: nat, z: nat)
    requires
        1 <= w_max <= min_cwnd <= usize::MAX,
        3 * (w_max * cubed(span(0))) <= 4 * (min_cwnd * cubed(z)),
    ensures
        plateau_time(w_max, min_cwnd) matches Some(Value::Finite { negative: false, units })
            && units <= z + span(-8),
{
    let o = span(0);
    let (w, m) = (w_max, min_cwnd);
    let v = Value::whole(w).times(Value::whole(1).minus(beta())).over(pace_in_bytes(m));
    let a = v->Finite_units;
    lemma2_to64();
    lemma2_to64_rest();
    lemma_off_cube(w, m);
    lemma_cube_finite(w, m);
    lemma_span_order(-65, 65);
    lemma_span_order(0, 0);
    let oo = o * o;
    let (ma, wo) = (m * a, w * o);
    let (st, z3) = (stretched(a), cubed(z));
    let (ms, mz, woo) = (m * st, m * z3, wo * oo);
    assert(wo <= m * o) by (nonlinear_arith)
        requires
            w <= m,
            wo == w * o,
    ;
    assert(ma <= m * o);
    assert(a <= o) by (nonlinear_arith)
        requires
            m * a <= m * o,
            m > 0,
    ;
    lemma_off_scale(4 * ma, 3 * wo, oo, 18);
    assert((4 * ma) * oo == 4 * ms && (3 * wo) * oo == 3 * woo && woo == w * cubed(o))
        by (nonlinear_arith)
        requires
            ma == m * a,
            ms == m * st,
            st == a * o * o,
            wo == w * o,
            woo == wo * oo,
            oo == o * o,
            cubed(o) == o * o * o,
    ;
    assert(281474976710656 * ms <= 281474976710657 * mz);
    assert(281474976710656 * st <= 281474976710657 * z3) by (nonlinear_arith)
        requires
            281474976710656 * ms <= 281474976710657 * mz,
            ms == m * st,
            mz == m * z3,
            m > 0,
    {
        assert(m * (281474976710656 * st) <= m * (281474976710657 * z3));
    }
    let d = span(-40);
    lemma_span(-40, 40);
    lemma_span(-40, 31);
    lemma_span(-40, 32);
    if z <= 2 * o {
        let y = z + d;
        assert(st <= y * y * y) by (nonlinear_arith)
            requires
                281474976710656 * st <= 281474976710657 * z3,
                z3 == z * z * z,
                z <= 281474976710656 * d,
                y == z + d,
                z >= 0,
                d >= 0,
        {
            let q = z * z;
            assert(q * z <= q * (281474976710656 * d));
            assert(y * y >= q);
            assert((y * y) * y >= q * y);
            assert(q * y == z3 + q * d);
            assert(281474976710656 * (y * y * y) >= 281474976710656 * z3 + z3);
        }
        law_cube_root_of_small(v, y);
    } else {
        assert(st <= z * z * z) by (nonlinear_arith)
            requires
                st == a * o * o,
                a <= o,
                o <= z,
        {
            assert(a * o <= z * z);
            assert((a * o) * o <= (z * z) * z);
        }
        law_cube_root_of_small(v, z);
    }
}

/// A finite quotient has no more digits than a binary64 number has.
proof fn lemma_over_rounded(a: Value, b: Value)
    ensures
        a.over(b) matches Value::Finite { units, .. } ==> rounded(units, 1) == units,
{
    lemma_zero(1);
    if let (Value::Finite { units: m, .. }, Value::Finite { units: n, .. }) = (a, b) {
        if n > 0 {
            lemma_rounded_again(m * span(0), n);
        }
    }
}

proof fn lemma_newton_rounded(a: Value, x: Value, tolerance: Value, n: nat)
    ensures
        newton(a, x, tolerance, n) matches Value::Finite { units, .. } ==> rounded(units, 1) == units,
    decreases n,
{
    let next = newton_step(a, x);
    lemma_over_rounded(Value::whole(2).times(x).plus(a.over(x.times(x))), Value::whole(3));
    if n == 0 || next.minus(x).magnitude().less(tolerance) {
    } else {
        lemma_newton_rounded(a, next, tolerance, (n - 1) as nat);
    }
}

/// The rise is four tenths of a segment times the cube of the time, but for rounding.
pub(crate) proof fn lemma_off_rise(m: nat, s: Value) -> (u: nat)
    requires
        1 <= m <= pow2(64),
        s matches Value::Finite { units, .. } && span(-60) <= units <= span(132),
    ensures
        rise(pace_in_bytes(m), s) == (Value::Finite { negative: s.negative(), units: u }),
        off((10 * u) * (span(0) * span(0)), 4 * (m * cubed(s->Finite_units)), 11),
{
    let o = span(0);
    let k = s->Finite_units;
    let c = pace_in_bytes(m);
    let x = Value::Finite { negative: false, units: k };
    lemma_pace_between(m);
    lemma_off_pace(m);
    lemma_span_order(0, 0);
    let square = x.times(x);
    let cube = square.times(x);
    let fall = c.times(cube);
    lemma_off_product(x, x, -60, 132, -60, 132);
    lemma_times_between(x, x, -60, 132, -60, 132);
    lemma_off_product(square, x, -120, 264, -60, 132);
    lemma_times_between(square, x, -120, 264, -60, 132);
    lemma_off_product(c, cube, -2, 63, -180, 396);
    let (q, b, cu, u) = (
        square->Finite_units,
        cube->Finite_units,
        c->Finite_units,
        fall->Finite_units,
    );
    assert(s.times(s) == square);
    if s.negative() {
        assert(square.times(s) == cube.negated());
        assert(c.times(cube.negated()) == fall.negated());
    }
    let k3 = cubed(k);
    let oo = o * o;
    let mo = m * o;
    // the cube
    lemma_off_scale(b * o, q * k, o, 1);
    lemma_off_scale(q * o, k * k, k, 1);
    assert((q * k) * o == (q * o) * k && (b * o) * o == b * oo) by (nonlinear_arith)
        requires
            oo == o * o,
    ;
    lemma_off_through(b * oo, (q * o) * k, 1, k3, 1);
    // times the pace
    lemma_off_scale(10 * cu, 4 * mo, b, 5);
    assert(off(10 * (u * o), 10 * (cu * b), 1));
    assert((10 * cu) * b == 10 * (cu * b) && 10 * (u * o) == (10 * u) * o) by (nonlinear_arith);
    lemma_off_through((10 * u) * o, 10 * (cu * b), 1, (4 * mo) * b, 5);
    assert((4 * mo) * b == (4 * (m * b)) * o) by (nonlinear_arith)
        requires
            mo == m * o,
    ;
    lemma_off_cancel(10 * u, 4 * (m * b), o, 7);
    // both
    lemma_off_scale(10 * u, 4 * (m * b), oo, 7);
    lemma_off_scale(b * oo, k3, 4 * m, 3);
    assert((b * oo) * (4 * m) == (4 * (m * b)) * oo && k3 * (4 * m) == 4 * (m * k3))
        by (nonlinear_arith);
    lemma_off_through((10 * u) * oo, (4 * (m * b)) * oo, 7, 4 * (m * k3), 3);
    u
}

/// How far below the plateau the curve starts: three tenths of it, or more if it is too small for
/// the time to be right.
proof fn lemma_fall(w: nat, m: nat, k: nat) -> (u: nat)
    requires
        1 <= m <= usize::MAX,
        1 <= w <= usize::MAX,
        plateau_time(w, m) == Some(Value::Finite { negative: false, units: k }),
    ensures
        rise(pace_in_bytes(m), Value::Finite { negative: true, units: k }) == (Value::Finite {
            negative: true,
            units: u,
        }),
        274877906943 * (3 * (w * span(0))) <= 274877906944 * (10 * u),
        m <= 64 * w ==> 268435456 * (10 * u) <= 268435457 * (3 * (w * span(0))),
        m <= 64 * w ==> 268435455 * (3 * (w * span(0))) <= 268435456 * (10 * u),
        3 * m <= 4 * w ==> 4294967296 * (10 * u) <= 4294967297 * (3 * (w * span(0))),
        3 * m <= 4 * w ==> 4294967295 * (3 * (w * span(0))) <= 4294967296 * (10 * u),
{
    let o = span(0);
    let s = Value::Finite { negative: true, units: k };
    lemma2_to64();
    lemma_plateau_between(w, m);
    law_plateau_time_accurate(w, m);
    lemma_span_order(0, 0);
    lemma_span_order(-60, -18);
    lemma_span_order(131, 132);
    let u = lemma_off_rise(m, s);
    let oo = o * o;
    let wo = w * o;
    assert(w * cubed(o) == wo * oo) by (nonlinear_arith)
        requires
            wo == w * o,
            oo == o * o,
            cubed(o) == o * o * o,
    ;
    let (ten, three) = ((10 * u) * oo, (3 * wo) * oo);
    assert(3 * (wo * oo) == three) by (nonlinear_arith)
        requires
            three == (3 * wo) * oo,
    ;
    assert(oo > 0) by (nonlinear_arith)
        requires
            oo == o * o,
            o > 0,
    ;
    assert(274877906943 * three <= 274877906944 * ten);
    lemma_parts_cancel(3 * wo, 10 * u, oo, 274877906943, 274877906944);
    if m <= 64 * w {
        assert(268435456 * ten <= 268435457 * three && 268435455 * three <= 268435456 * ten);
        lemma_parts_cancel(10 * u, 3 * wo, oo, 268435456, 268435457);
        lemma_parts_cancel(3 * wo, 10 * u, oo, 268435455, 268435456);
    }
    if 3 * m <= 4 * w {
        assert(4294967296 * ten <= 4294967297 * three && 4294967295 * three <= 4294967296 * ten);
        lemma_parts_cancel(10 * u, 3 * wo, oo, 4294967296, 4294967297);
        lemma_parts_cancel(3 * wo, 10 * u, oo, 4294967295, 4294967296);
    }
    u
}

proof fn lemma_parts_cancel(x: nat, y: nat, o: nat, i: nat, j: nat)
    requires
        o > 0,
        i * (x * o) <= j * (y * o),
    ensures
        i * x <= j * y,
{
    assert(i * x <= j * y) by (nonlinear_arith)
        requires
            o > 0,
            i * (x * o) <= j * (y * o),
    {
        assert((i * x) * o <= (j * y) * o);
    }
}

/// The curve starts at no more than the window that a loss leaves, which is `beta` times the
/// plateau, but for one part in `2^30` of it. For a plateau of at least a sixty-fourth of a segment
/// it starts there, within one part in `2^26`, and within one in `2^30` for a plateau of at least
/// three quarters of a segment. While that is less than a byte, it is `beta` times the plateau,
/// rounded down, or a byte less.
pub proof fn law_curve_starts_at_cut(w_max: nat, min_cwnd: nat, k: Value)
    requires
        1 <= min_cwnd <= usize::MAX,
        1 <= w_max <= usize::MAX,
        plateau_time(w_max, min_cwnd) == Some(k),
    ensures
        ({
            let start = curve(w_max, min_cwnd, k, 0);
            let units = start.signed_units();
            let plateau = w_max * span(0);
            &&& start is Finite
            &&& 1073741824 * (10 * units) <= 1073741824 * (7 * plateau) + plateau
            &&& min_cwnd <= 64 * w_max ==> 67108864 * (7 * plateau) <= 67108864 * (10 * units)
                + plateau
            &&& 3 * min_cwnd <= 4 * w_max ==> 1073741824 * (7 * plateau) <= 1073741824 * (10
                * units) + plateau
        }),
        w_max < 1073741824 ==> {
            let window = curve(w_max, min_cwnd, k, 0).truncated(usize::MAX as nat);
            10 * window <= 7 * w_max
        },
        w_max < 67108864 && min_cwnd <= 64 * w_max || w_max < 1073741824 && 3 * min_cwnd <= 4
            * w_max ==> {
            let window = curve(w_max, min_cwnd, k, 0).truncated(usize::MAX as nat);
            7 * w_max - 10 <= 10 * window
        },
{
    let o = span(0);
    let (w, m) = (w_max, min_cwnd);
    lemma2_to64();
    lemma_many_units();
    lemma_span_order(-400, 0);
    lemma_plateau_between(w, m);
    let n = k->Finite_units;
    let cubes = Value::whole(w).times(Value::whole(1).minus(beta())).over(pace_in_bytes(m));
    let (tolerance, guess) = first_guess(cubes);
    lemma_newton_rounded(cubes, guess, tolerance, REPEATS as nat);
    // no time has passed
    lemma_whole_exact(0);
    lemma_whole_exact(1000);
    lemma_zero(1000 * o);
    assert(0 * o == 0) by (nonlinear_arith);
    assert(seconds(0) == Value::zero(false));
    lemma_span_order(-18, 131);
    lemma_curve(w, m, k, 0);
    let s = Value::Finite { negative: true, units: n };
    assert(seconds(0).minus(k) == s);
    let u = lemma_fall(w, m, n);
    // the plateau less the fall
    lemma_off_whole(w);
    let wu = Value::whole(w)->Finite_units;
    let wo = w * o;
    assert(wo >= o) by (nonlinear_arith)
        requires
            w >= 1,
            wo == w * o,
    ;
    let x = curve(w, m, k, 0).signed_units();
    lemma_signed_near(wu - u);
    assert(1073741824 * (10 * x) <= 1073741824 * (7 * wo) + wo);
    assert(m <= 64 * w ==> 67108864 * (7 * wo) <= 67108864 * (10 * x) + wo);
    assert(3 * m <= 4 * w ==> 1073741824 * (7 * wo) <= 1073741824 * (10 * x) + wo);
    assert(7 * wo == (7 * w) * o) by (nonlinear_arith)
        requires
            wo == w * o,
    ;
    assert((w < 67108864 ==> wo < 67108864 * o) && (w < 1073741824 ==> wo < 1073741824 * o))
        by (nonlinear_arith)
        requires
            wo == w * o,
            o > 0,
    ;
    lemma_floor(curve(w, m, k, 0)->Finite_units, 10, 7 * w);
}

} // verus!
