//! That the curve is the cubic one: how near it comes to the plateau, and how fast it grows.

use crate::bounds::lemma_plateau_between;
use crate::growth::{lemma_curve, lemma_rise, lemma_seconds, rise, seconds};
use crate::nearness::{
    lemma_off_cancel, lemma_off_gap, lemma_off_rounded, lemma_off_scale, lemma_off_through,
    lemma_off_times, lemma_signed_near, off,
};
use crate::order::{
    bounded, lemma_many_units, lemma_over, lemma_span, lemma_span_order, lemma_span_product,
    lemma_times, lemma_whole, lemma_whole_exact, lemma_zero, rounded_signed, span,
};
use crate::plateau::{
    law_curve_starts_at_cut, law_plateau_time_accurate, lemma_off_rise, lemma_off_whole,
};
use crate::root::cubed;
use crate::rounding::{lemma_divides, SIGNIFICAND_END, SIGNIFICAND_TOP};
use crate::state::{curve, pace_in_bytes, plateau_time};
use crate::value::Value;
use vstd::arithmetic::power2::{lemma2_to64, lemma2_to64_rest, pow2};
use vstd::math::abs;
use vstd::prelude::*;

verus! {

/// How many units of time `millis` milliseconds are past the time `k`.
pub open spec fn past(k: Value, millis: nat) -> int {
    seconds(millis).signed_units() - k.signed_units()
}

/// Ten times `C * min_cwnd * d^3`, which is four times `min_cwnd * d^3`.
pub open spec fn tenfold_cubic(min_cwnd: nat, d: int) -> int {
    4 * (min_cwnd * (d * d * d))
}

/// What the curve may grow by in `millis` milliseconds before the time `k`, ten thousand times and
/// in parts of `2^-34`: `C * min_cwnd * 3 * K^2 * millis / 1000`, and less than one part in `2^43`
/// of `C * min_cwnd * K^3`.
pub open spec fn slope_bound(min_cwnd: nat, k: Value, millis: nat) -> int {
    let units = k.signed_units();
    17179869184 * (12 * ((min_cwnd * (units * units)) * (millis * span(0)))) + 4 * (min_cwnd
        * (units * units * units))
}

/// The cubes of two numbers, of which the greater is at most `k`, differ by at most `3 * k^2` times
/// their difference.
proof fn lemma_cubes_apart(m: nat, a: int, b: int, k: int)
    requires
        0 <= b <= a <= k,
    ensures
        0 <= m * (b * b * b) <= m * (a * a * a) <= m * (k * k * k),
        m * (a * a * a) - m * (b * b * b) <= 3 * ((m * (k * k)) * (a - b)),
{
    assert(0 <= b * b * b <= a * a * a && a * a * a <= k * k * k) by (nonlinear_arith)
        requires
            0 <= b <= a <= k,
    {
        assert(0 <= b * b <= a * a);
        assert(a * a <= k * k);
    }
    assert(a * a * a - b * b * b <= 3 * ((k * k) * (a - b))) by (nonlinear_arith)
        requires
            0 <= b <= a <= k,
    {
        assert(a * a <= k * k && a * b <= k * k && b * b <= k * k);
        assert(a * a * a - b * b * b == (a * a + a * b + b * b) * (a - b));
        assert((a * a + a * b + b * b) * (a - b) <= (3 * (k * k)) * (a - b));
    }
    let (a3, b3, k3, r) = (a * a * a, b * b * b, k * k * k, (k * k) * (a - b));
    assert(0 <= m * b3 <= m * a3 && m * a3 <= m * k3 && m * a3 - m * b3 <= 3 * (m * r))
        by (nonlinear_arith)
        requires
            0 <= b3 <= a3 <= k3,
            a3 - b3 <= 3 * r,
            m >= 0,
    {
        assert(m * (a3 - b3) <= m * (3 * r));
    }
    assert(m * r == (m * (k * k)) * (a - b)) by (nonlinear_arith)
        requires
            r == (k * k) * (a - b),
    ;
}

/// The rise is the cubic one, but for rounding.
proof fn lemma_rise_near(m: nat, s: Value, d: int)
    requires
        1 <= m <= pow2(64),
        bounded(s, 132),
        s.signed_units() == rounded_signed(d, 1),
    ensures
        ({
            let r = rise(pace_in_bytes(m), s).signed_units();
            let oo = span(0) * span(0);
            let exact = tenfold_cubic(m, d);
            SIGNIFICAND_END * abs(10 * (r * oo) - exact) <= 17 * abs(exact) + span(0) * oo
        }),
{
    let o = span(0);
    let oo = o * o;
    let n = s->Finite_units;
    let g = abs(d);
    let r = rise(pace_in_bytes(m), s).signed_units();
    let exact = tenfold_cubic(m, d);
    lemma_signed_near(d);
    assert(off(n, g, 1));
    let g3 = cubed(g);
    assert(d * d * d == if d < 0 {
        -(g3 as int)
    } else {
        g3 as int
    }) by {
        if d < 0 {
            assert(d * d * d == -((-d) * (-d) * (-d))) by (nonlinear_arith);
        }
    }
    let mg = m * g3;
    assert(m * -(g3 as int) == -(mg as int)) by (nonlinear_arith)
        requires
            mg == m * g3,
    ;
    assert(abs(exact) == 4 * mg);
    if n >= span(-60) {
        lemma_span_order(-60, -60);
        let u = lemma_off_rise(m, s);
        lemma_off_times(n, g, 1, n, g, 1);
        lemma_off_times(n * n, g * g, 3, n, g, 1);
        lemma_off_scale(cubed(n), g3, 4 * m, 5);
        assert(cubed(n) * (4 * m) == 4 * (m * cubed(n)) && g3 * (4 * m) == 4 * mg)
            by (nonlinear_arith)
            requires
                mg == m * g3,
        ;
        lemma_off_through((10 * u) * oo, 4 * (m * cubed(n)), 11, 4 * mg, 5);
        let uo = u * oo;
        assert((10 * u) * oo == 10 * uo && -(u as int) * oo == -(uo as int)) by (nonlinear_arith)
            requires
                uo == u * oo,
        ;
        assert(oo * o >= 0 && o * oo == oo * o) by (nonlinear_arith)
            requires
                oo >= 0,
                o >= 0,
        ;
        assert(s.negative() == (d < 0));
        assert(r == if d < 0 {
            -(u as int)
        } else {
            u as int
        });
        assert(abs(10 * (r * oo) - exact) == abs(10 * uo - 4 * mg));
        lemma_off_gap(10 * uo, 4 * mg, 17);
    } else {
        lemma_rise_tiny(m, s, g);
        let q = abs(r);
        let qo = q * oo;
        assert(abs(r * oo) == qo) by {
            assert(-(q as int) * oo == -(qo as int)) by (nonlinear_arith)
                requires
                    qo == q * oo,
            ;
        }
        let b = span(-100);
        assert(10 * qo + 4 * mg <= b * oo);
        lemma2_to64_rest();
        lemma_span(-100, 53);
        lemma_span_order(-47, 0);
        assert(SIGNIFICAND_END * (b * oo) <= o * oo) by (nonlinear_arith)
            requires
                b * SIGNIFICAND_END <= o,
        {
            assert((b * SIGNIFICAND_END) * oo <= o * oo);
        }
        assert(abs(10 * (r * oo) - exact) <= b * oo);
    }
}

/// A rise of a tiny time is tiny.
proof fn lemma_rise_tiny(m: nat, s: Value, g: nat)
    requires
        1 <= m <= pow2(64),
        bounded(s, -60),
        off(s->Finite_units, g, 1),
    ensures
        10 * (abs(rise(pace_in_bytes(m), s).signed_units()) * (span(0) * span(0))) + 4 * (m * cubed(
            g,
        )) <= span(-100) * (span(0) * span(0)),
{
    let o = span(0);
    let oo = o * o;
    let c = pace_in_bytes(m);
    lemma2_to64();
    crate::bounds::lemma_pace_between(m);
    lemma_times(s, s, -60, -60);
    lemma_times(s.times(s), s, -120, -60);
    lemma_times(c, s.times(s).times(s), 63, -180);
    let q = abs(rise(c, s).signed_units());
    assert(q <= span(-117));
    lemma_span(-60, 1);
    assert(g <= span(-59));
    lemma_span_product(-59, -59);
    lemma_span_product(-118, -59);
    lemma_span(-177, 64);
    let (b, b2, b3, e) = (span(-59), span(-118), span(-177), span(-113));
    assert(m * (g * g * g) <= e * oo) by (nonlinear_arith)
        requires
            g <= b,
            b * b == b2 * o,
            b2 * b == b3 * o,
            oo == o * o,
            m <= pow2(64),
            e == b3 * pow2(64),
    {
        assert(g * g <= b * b);
        assert((g * g) * g <= (b * b) * b);
        assert((b * b) * b == b3 * oo);
        assert(m * (g * g * g) <= pow2(64) * (b3 * oo));
    }
    lemma_span_order(-117, -113);
    lemma_span(-113, 13);
    assert(10 * (q * oo) + 4 * (e * oo) <= span(-100) * oo) by (nonlinear_arith)
        requires
            q <= e,
            14 * e <= span(-100),
    {
        assert(q * oo <= e * oo);
        assert((14 * e) * oo <= span(-100) * oo);
    }
}

/// The curve is `C * min_cwnd * (t - K)^3 + w_max`, within one part in `2^48` of either term.
pub proof fn law_curve_is_cubic(w_max: nat, min_cwnd: nat, k: Value, millis: nat)
    requires
        1 <= min_cwnd <= usize::MAX,
        w_max <= usize::MAX,
        plateau_time(w_max, min_cwnd) == Some(k),
        millis <= u64::MAX,
    ensures
        ({
            let found = curve(w_max, min_cwnd, k, millis).signed_units() - w_max * span(0);
            let exact = tenfold_cubic(min_cwnd, past(k, millis));
            &&& curve(w_max, min_cwnd, k, millis) is Finite
            &&& 281474976710656 * abs(10 * (found * (span(0) * span(0))) - exact) <= abs(exact) + 10
                * (w_max * cubed(span(0)))
        }),
{
    let o = span(0);
    let oo = o * o;
    let (w, m) = (w_max, min_cwnd);
    let d = past(k, millis);
    let s = seconds(millis).minus(k);
    lemma2_to64();
    lemma_plateau_between(w, m);
    lemma_curve(w, m, k, millis);
    lemma_rise_near(m, s, d);
    lemma_rise(pace_in_bytes(m), s);
    lemma_off_whole(w);
    let wu = Value::whole(w)->Finite_units;
    let r = rise(pace_in_bytes(m), s).signed_units();
    let z = curve(w, m, k, millis).signed_units();
    let exact = tenfold_cubic(m, d);
    let wo = w * o;
    lemma_signed_near(r + wu);
    let (zz, rr, ww, vv) = (z * oo, r * oo, wu * oo, wo * oo);
    let found = (z - wo) * oo;
    let size = abs(r + wu);
    assert(size * oo == abs(rr + ww)) by (nonlinear_arith)
        requires
            size == if r + wu < 0 {
                -(r + wu)
            } else {
                r + wu
            },
            rr == r * oo,
            ww == wu * oo,
            oo >= 0,
            abs(rr + ww) == if rr + ww < 0 {
                -(rr + ww)
            } else {
                rr + ww
            },
    {
        assert((r + wu) * oo == rr + ww);
    }
    let e = SIGNIFICAND_END as int;
    assert(e * (zz - (rr + ww)) <= abs(rr + ww) && -e * (zz - (rr + ww)) <= abs(rr + ww))
        by (nonlinear_arith)
        requires
            -size <= e * (z - (r + wu)) <= size,
            size * oo == abs(rr + ww),
            zz == z * oo,
            rr == r * oo,
            ww == wu * oo,
            oo >= 0,
    {
        assert((e * (z - (r + wu))) * oo <= size * oo);
        assert((-e * (z - (r + wu))) * oo <= size * oo);
    }
    lemma_off_scale(wu, wo, oo, 1);
    assert(found == zz - vv) by (nonlinear_arith)
        requires
            found == (z - wo) * oo,
            zz == z * oo,
            vv == wo * oo,
    ;
    assert(vv == w * cubed(o) && o * oo <= vv) by (nonlinear_arith)
        requires
            vv == wo * oo,
            wo == w * o,
            oo == o * o,
            cubed(o) == o * o * o,
            w >= 1,
    {
        assert(o * oo <= (w * o) * oo);
    }
}

/// Two whole parts differ by less than the numbers do, and one.
proof fn lemma_whole_parts(a: Value, b: Value, limit: nat)
    requires
        a is Finite,
        b is Finite,
        a.truncated(limit) < b.truncated(limit),
    ensures
        (b.truncated(limit) - a.truncated(limit) - 1) * span(0) <= b.signed_units()
            - a.signed_units(),
{
    let o = span(0);
    let (x, y) = (a.truncated(limit), b.truncated(limit));
    let (m, n) = (a->Finite_units, b->Finite_units);
    lemma_span_order(0, 0);
    lemma_divides(m, o);
    lemma_divides(n, o);
    let (p, q) = (m / o, n / o);
    assert(y * o <= n) by (nonlinear_arith)
        requires
            y <= q,
            q * o <= n,
    ;
    assert(a.signed_units() <= x * o + o) by (nonlinear_arith)
        requires
            a.signed_units() <= 0 || x == p && a.signed_units() == m,
            m <= p * o + o,
            x >= 0,
            o >= 0,
    ;
    assert((y - x - 1) * o == y * o - (x * o + o)) by (nonlinear_arith);
}

/// The whole part of a whole number.
proof fn lemma_whole_part_of_whole(w: nat, limit: nat)
    requires
        w <= limit,
    ensures
        (Value::Finite { negative: false, units: w * span(0) }).truncated(limit) == w,
{
    lemma_span_order(0, 0);
    vstd::arithmetic::div_mod::lemma_div_by_multiple(w as int, span(0) as int);
}

/// The curve approaches the plateau as the time approaches `K`: it is no further away than
/// `C * min_cwnd * |t - K|^3` and a byte, but for one part in `2^48` of that and of the plateau.
pub proof fn law_curve_approaches_plateau(w_max: nat, min_cwnd: nat, k: Value, millis: nat)
    requires
        1 <= min_cwnd <= usize::MAX,
        w_max <= usize::MAX,
        plateau_time(w_max, min_cwnd) == Some(k),
        millis <= u64::MAX,
    ensures
        ({
            let window = curve(w_max, min_cwnd, k, millis).truncated(usize::MAX as nat);
            let exact = abs(tenfold_cubic(min_cwnd, past(k, millis)));
            281474976710656 * (10 * ((abs(window - w_max) - 1) * cubed(span(0))))
                <= 281474976710657 * exact + 10 * (w_max * cubed(span(0)))
        }),
{
    let o = span(0);
    let oo = o * o;
    let w = w_max;
    let x = curve(w, min_cwnd, k, millis);
    let plateau = Value::Finite { negative: false, units: w * o };
    let window = x.truncated(usize::MAX as nat);
    let found = x.signed_units() - w * o;
    let gap = abs(window - w) - 1;
    law_curve_is_cubic(w, min_cwnd, k, millis);
    lemma_whole_part_of_whole(w, usize::MAX as nat);
    if window < w {
        lemma_whole_parts(x, plateau, usize::MAX as nat);
    } else if w < window {
        lemma_whole_parts(plateau, x, usize::MAX as nat);
    }
    let size = abs(found);
    assert(gap * o <= size) by {
        assert(-1 * o == -o);
    }
    let fo = found * oo;
    assert(gap * cubed(o) <= size * oo) by (nonlinear_arith)
        requires
            gap * o <= size,
            cubed(o) == o * o * o,
            oo == o * o,
    {
        assert((gap * o) * oo <= size * oo);
    }
    assert(size * oo == abs(fo)) by {
        assert(-found * oo == -fo) by (nonlinear_arith)
            requires
                fo == found * oo,
        ;
        assert(found >= 0 ==> fo >= 0) by (nonlinear_arith)
            requires
                fo == found * oo,
                oo >= 0,
        ;
        assert(found <= 0 ==> fo <= 0) by (nonlinear_arith)
            requires
                fo == found * oo,
                oo >= 0,
        ;
    }
}

/// Ten times `w_max + C * min_cwnd * d^3` bytes, in cubed units: where the curve is, `d` units past
/// the time `K`.
pub open spec fn tenfold_curve(w_max: nat, min_cwnd: nat, d: int) -> int {
    10 * (w_max * cubed(span(0))) + tenfold_cubic(min_cwnd, d)
}

/// The size of the two terms of `tenfold_curve`; one part in `2^48` of it is what rounding may
/// move the curve by.
pub open spec fn tenfold_size(w_max: nat, min_cwnd: nat, d: int) -> nat {
    10 * (w_max * cubed(span(0))) + abs(tenfold_cubic(min_cwnd, d))
}

/// The window that the curve gives is the whole part of `w_max + C * min_cwnd * (t - K)^3`, within
/// one part in `2^48` of either term, as far as a size can hold it.
pub proof fn law_curve_gives_whole_part(w_max: nat, min_cwnd: nat, k: Value, millis: nat)
    requires
        1 <= min_cwnd <= usize::MAX,
        w_max <= usize::MAX,
        plateau_time(w_max, min_cwnd) == Some(k),
        millis <= u64::MAX,
    ensures
        ({
            let window = curve(w_max, min_cwnd, k, millis).truncated(usize::MAX as nat);
            let exact = tenfold_curve(w_max, min_cwnd, past(k, millis));
            let size = tenfold_size(w_max, min_cwnd, past(k, millis));
            let bytes = 10 * cubed(span(0));
            &&& window > 0 ==> 281474976710656 * (window * bytes) <= 281474976710656 * exact + size
            &&& window < usize::MAX ==> 281474976710656 * exact < 281474976710656 * ((window + 1)
                * bytes) + size
        }),
{
    let o = span(0);
    let oo = o * o;
    let w = w_max;
    let x = curve(w, min_cwnd, k, millis);
    let window = x.truncated(usize::MAX as nat);
    let z = x.signed_units();
    let (wo, o3) = (w * o, cubed(o));
    let bytes = 10 * o3;
    law_curve_is_cubic(w, min_cwnd, k, millis);
    lemma_span_order(0, 0);
    lemma_divides(x->Finite_units, o);
    let found = (z - wo) * oo;
    assert(found == z * oo - w * o3 && oo > 0) by (nonlinear_arith)
        requires
            found == (z - wo) * oo,
            wo == w * o,
            oo == o * o,
            o3 == o * o * o,
            o > 0,
    ;
    if window > 0 {
        let q = x->Finite_units / o;
        assert(window * o <= z) by (nonlinear_arith)
            requires
                window <= q,
                q * o <= z,
                o > 0,
        ;
        assert(window * bytes <= 10 * (z * oo)) by (nonlinear_arith)
            requires
                window * o <= z,
                oo == o * o,
                o3 == o * o * o,
                bytes == 10 * o3,
        {
            assert((window * o) * oo <= z * oo);
        }
    }
    if window < usize::MAX {
        let next = window + 1;
        assert(next * o == window * o + o) by (nonlinear_arith)
            requires
                next == window + 1,
        ;
        assert(window * o >= 0) by (nonlinear_arith)
            requires
                window >= 0,
                o > 0,
        ;
        assert(z < next * o);
        assert(10 * (z * oo) < next * bytes) by (nonlinear_arith)
            requires
                z < next * o,
                oo == o * o,
                oo > 0,
                o3 == o * o * o,
                bytes == 10 * o3,
        {
            assert(z * oo < (next * o) * oo);
        }
    }
}

/// The seconds in a number of milliseconds are a thousandth of it, but for rounding.
proof fn lemma_seconds_near(millis: nat)
    requires
        millis <= pow2(64),
    ensures
        seconds(millis) matches Value::Finite { negative: false, units } && off(
            1000 * units,
            millis * span(0),
            3,
        ),
{
    let o = span(0);
    let x = Value::whole(millis);
    lemma2_to64();
    lemma_many_units();
    lemma_span_order(-400, 0);
    lemma_seconds(millis, millis);
    lemma_whole_exact(1000);
    lemma_span(0, 9);
    lemma_whole(millis, 64);
    lemma_over(x, Value::whole(1000), 64, 9);
    let wu = x->Finite_units;
    if millis == 0 {
        assert(0 * o == 0) by (nonlinear_arith);
        lemma_zero(1);
        lemma_zero(1000 * o);
    } else {
        lemma_off_whole(millis);
        assert(millis * o >= o) by (nonlinear_arith)
            requires
                millis >= 1,
        ;
        assert(wu * o >= SIGNIFICAND_TOP * (1000 * o)) by (nonlinear_arith)
            requires
                wu >= SIGNIFICAND_TOP * 1000,
        ;
        lemma_off_rounded(wu * o, 1000 * o);
        let t = seconds(millis)->Finite_units;
        assert(t * (1000 * o) == (1000 * t) * o) by (nonlinear_arith);
        lemma_off_cancel(1000 * t, wu, o, 1);
        lemma_off_through(1000 * t, wu, 1, millis * o, 1);
    }
}

/// Before the time `K` the curve grows no faster than at the loss: from `m1` to `m2` milliseconds
/// by at most `C * min_cwnd * 3 * K^2 * (m2 - m1) / 1000` and a byte, but for one part in `2^43` of
/// `C * min_cwnd * K^3`, which is what it rises by from the loss to the plateau.
pub proof fn law_curve_grows_slowly(w_max: nat, min_cwnd: nat, k: Value, m1: nat, m2: nat)
    requires
        1 <= min_cwnd <= usize::MAX,
        w_max <= usize::MAX,
        plateau_time(w_max, min_cwnd) == Some(k),
        m1 <= m2 <= u64::MAX,
        seconds(m2).at_most(k),
    ensures
        ({
            let before = curve(w_max, min_cwnd, k, m1).truncated(usize::MAX as nat);
            let after = curve(w_max, min_cwnd, k, m2).truncated(usize::MAX as nat);
            17179869184 * (10000 * ((after - before - 1) * cubed(span(0)))) <= slope_bound(
                min_cwnd,
                k,
                (m2 - m1) as nat,
            )
        }),
{
    let o = span(0);
    let oo = o * o;
    let (w, m) = (w_max, min_cwnd);
    let kk = k.signed_units();
    let (v1, v2) = (curve(w, m, k, m1), curve(w, m, k, m2));
    let (x1, x2) = (v1.truncated(usize::MAX as nat), v2.truncated(usize::MAX as nat));
    lemma2_to64();
    lemma_plateau_between(w, m);
    lemma_seconds(m1, m2);
    lemma_seconds_near(m1);
    lemma_seconds_near(m2);
    law_curve_is_cubic(w, m, k, m1);
    law_curve_is_cubic(w, m, k, m2);
    law_plateau_time_accurate(w, m);
    let (t1, t2) = (seconds(m1).signed_units(), seconds(m2).signed_units());
    let (d1, d2) = (past(k, m1), past(k, m2));
    let (c1, c2) = (m * (d1 * d1 * d1), m * (d2 * d2 * d2));
    let k2 = m * (kk * kk);
    let k3 = m * (kk * kk * kk);
    let p = k2 * (t2 - t1);
    let wo3 = w * cubed(o);
    let (mo1, mo2) = (m1 * o, m2 * o);
    let step = (m2 - m1) * o;
    assert(step == mo2 - mo1) by (nonlinear_arith)
        requires
            step == (m2 - m1) * o,
            mo1 == m1 * o,
            mo2 == m2 * o,
    ;
    assert(1099511627776 * (1000 * (t2 - t1)) <= 1099511627776 * step + kk);
    lemma_cubes_apart(m, -d1, -d2, kk);
    assert(d1 * d1 * d1 == -((-d1) * (-d1) * (-d1)) && d2 * d2 * d2 == -((-d2) * (-d2) * (-d2)))
        by (nonlinear_arith);
    let (e1, e2) = ((-d1) * (-d1) * (-d1), (-d2) * (-d2) * (-d2));
    assert(m * -e1 == -(m * e1) && m * -e2 == -(m * e2)) by (nonlinear_arith);
    assert(0 <= -c2 <= -c1 <= k3);
    assert(c2 - c1 <= 3 * p);
    let b = k2 * step;
    assert(1099511627776 * (1000 * p) <= 1099511627776 * b + k3) by (nonlinear_arith)
        requires
            1099511627776 * (1000 * (t2 - t1)) <= 1099511627776 * step + kk,
            p == k2 * (t2 - t1),
            b == k2 * step,
            k2 == m * (kk * kk),
            k3 == m * (kk * kk * kk),
            m >= 0,
    {
        assert(kk * kk >= 0);
        assert(k2 >= 0);
        assert(k2 * (1099511627776 * (1000 * (t2 - t1))) <= k2 * (1099511627776 * step + kk));
        assert(k2 * kk == k3);
    }
    let (z1, z2) = (v1.signed_units(), v2.signed_units());
    let wo = w * o;
    let (f1, f2) = ((z1 - wo) * oo, (z2 - wo) * oo);
    let gap = x2 - x1 - 1;
    assert(f2 - f1 == (z2 - z1) * oo) by (nonlinear_arith)
        requires
            f1 == (z1 - wo) * oo,
            f2 == (z2 - wo) * oo,
    ;
    if x1 < x2 {
        lemma_whole_parts(v1, v2, usize::MAX as nat);
        assert(gap * cubed(o) <= f2 - f1) by (nonlinear_arith)
            requires
                gap * o <= z2 - z1,
                f2 - f1 == (z2 - z1) * oo,
                cubed(o) == o * o * o,
                oo == o * o,
        {
            assert((gap * o) * oo <= (z2 - z1) * oo);
        }
    } else {
        assert(gap * cubed(o) <= 0) by (nonlinear_arith)
            requires
                gap <= 0,
                cubed(o) >= 0,
        ;
    }
}

/// Whether `C * min_cwnd * K^2 * millis / 1000` is at least a byte and a trace of
/// `C * min_cwnd * K^3`, the same one as in `slope_bound`.
pub open spec fn grown_a_byte(min_cwnd: nat, k: Value, millis: nat) -> bool {
    let units = k.signed_units();
    17179869184 * (10000 * cubed(span(0))) + 4 * (min_cwnd * (units * units * units)) <= 17179869184
        * (4 * ((min_cwnd * (units * units)) * (millis * span(0))))
}

/// Before the time `K` the curve grows by at least `C * min_cwnd * K^2 * millis / 1000` in the
/// first `millis` milliseconds, but for a trace: once that is a byte, the window is a byte above its
/// start.
pub proof fn law_curve_leaves_start(w_max: nat, min_cwnd: nat, k: Value, millis: nat)
    requires
        1 <= min_cwnd <= usize::MAX,
        w_max <= usize::MAX,
        min_cwnd <= 64 * w_max,
        plateau_time(w_max, min_cwnd) == Some(k),
        millis <= u64::MAX,
        seconds(millis).at_most(k),
        grown_a_byte(min_cwnd, k, millis),
    ensures
        curve(w_max, min_cwnd, k, 0).truncated(usize::MAX as nat) < curve(
            w_max,
            min_cwnd,
            k,
            millis,
        ).truncated(usize::MAX as nat),
{
    let o = span(0);
    let oo = o * o;
    let (w, m) = (w_max, min_cwnd);
    let kk = k.signed_units();
    let (v1, v2) = (curve(w, m, k, 0), curve(w, m, k, millis));
    lemma2_to64();
    lemma_span_order(0, 0);
    lemma_plateau_between(w, m);
    lemma_seconds(0, millis);
    lemma_seconds_near(0);
    lemma_seconds_near(millis);
    law_curve_is_cubic(w, m, k, 0);
    law_curve_is_cubic(w, m, k, millis);
    law_plateau_time_accurate(w, m);
    law_curve_starts_at_cut(w, m, k);
    let t = seconds(millis).signed_units();
    assert(0 * o == 0) by (nonlinear_arith);
    assert(past(k, 0) == -kk);
    let d = kk - t;
    let (e1, e2) = (kk * kk * kk, d * d * d);
    assert((-kk) * (-kk) * (-kk) == -e1 && (-d) * (-d) * (-d) == -e2) by (nonlinear_arith)
        requires
            e1 == kk * kk * kk,
            e2 == d * d * d,
    ;
    assert(m * -e1 == -(m * e1) && m * -e2 == -(m * e2)) by (nonlinear_arith);
    lemma_cubes_apart(m, kk, d, kk);
    let k2 = m * (kk * kk);
    let (k3, c2) = (m * e1, m * e2);
    let p = k2 * t;
    assert(p <= k3 - c2) by (nonlinear_arith)
        requires
            p == k2 * t,
            k2 == m * (kk * kk),
            k3 == m * e1,
            c2 == m * e2,
            e1 == kk * kk * kk,
            e2 == d * d * d,
            d == kk - t,
            0 <= t <= kk,
            m >= 0,
    {
        assert(e1 - e2 == t * (kk * kk + kk * d + d * d));
        assert(kk * d >= 0 && d * d >= 0);
        assert(t * (kk * kk + kk * d + d * d) >= t * (kk * kk));
        assert(m * (e1 - e2) >= m * (t * (kk * kk)));
    }
    let mo = millis * o;
    assert(1099511627776 * mo <= 1099511627776 * (1000 * t) + kk);
    let b = k2 * mo;
    assert(1099511627776 * b <= 1099511627776 * (1000 * p) + k3) by (nonlinear_arith)
        requires
            1099511627776 * mo <= 1099511627776 * (1000 * t) + kk,
            p == k2 * t,
            b == k2 * mo,
            k2 == m * (kk * kk),
            k3 == m * e1,
            e1 == kk * kk * kk,
            m >= 0,
    {
        assert(kk * kk >= 0);
        assert(k2 >= 0);
        assert(k2 * (1099511627776 * mo) <= k2 * (1099511627776 * (1000 * t) + kk));
        assert(k2 * kk == k3);
    }
    let (z1, z2) = (v1.signed_units(), v2.signed_units());
    let wo = w * o;
    let (f1, f2) = ((z1 - wo) * oo, (z2 - wo) * oo);
    assert(f2 - f1 == (z2 - z1) * oo) by (nonlinear_arith)
        requires
            f1 == (z1 - wo) * oo,
            f2 == (z2 - wo) * oo,
    ;
    assert(cubed(o) <= f2 - f1);
    assert(z1 + o <= z2) by (nonlinear_arith)
        requires
            cubed(o) <= (z2 - z1) * oo,
            cubed(o) == o * o * o,
            oo == o * o,
            o > 0,
    {
        assert(oo > 0);
        assert(o * oo <= (z2 - z1) * oo);
    }
    // a byte more in units is one more in bytes
    assert(wo >= o) by (nonlinear_arith)
        requires
            w >= 1,
            wo == w * o,
    ;
    let (n1, n2) = (v1->Finite_units, v2->Finite_units);
    let (q1, q2) = (n1 / o, n2 / o);
    lemma_divides(n1, o);
    lemma_divides(n2, o);
    assert(q1 + 1 <= q2) by (nonlinear_arith)
        requires
            q1 * o <= n1,
            n2 < q2 * o + o,
            n1 + o <= n2,
            o > 0,
    {
        assert((q1 + 1) * o < (q2 + 1) * o);
    }
    assert(n1 < wo);
    assert(q1 < w) by (nonlinear_arith)
        requires
            q1 * o <= n1,
            n1 < wo,
            wo == w * o,
            o > 0,
    ;
}

} // verus!
