//! How the cubic curve runs: it never falls, and it meets the plateau where it should.

use crate::bounds::{between, lemma_one_minus_beta, lemma_pace_between, lemma_plateau_between};
use crate::order::{
    bounded, lemma_minus, lemma_over, lemma_plus, lemma_ratio, lemma_rounded_again,
    lemma_signed_monotone, lemma_span, lemma_span_order, lemma_times, lemma_whole,
    lemma_whole_exact, lemma_zero, rounded_signed, span,
};
use crate::reach::law_cube_root_of_special;
use crate::rounding::SIGNIFICAND_END;
use crate::state::{beta, curve, pace, pace_in_bytes, plateau_time};
use crate::value::Value;
use vstd::arithmetic::power2::{lemma2_to64, pow2};
use vstd::prelude::*;

verus! {

/// The seconds in a number of milliseconds, rounded.
pub open spec fn seconds(millis: nat) -> Value {
    Value::whole(millis).over(Value::whole(1000))
}

/// What the curve adds to the plateau, `s` seconds after it.
pub open spec fn rise(c: Value, s: Value) -> Value {
    c.times(s.times(s).times(s))
}

/// Seconds are finite, and more milliseconds are not fewer seconds.
pub(crate) proof fn lemma_seconds(m1: nat, m2: nat)
    requires
        m1 <= m2 <= pow2(64),
    ensures
        bounded(seconds(m1), 55),
        bounded(seconds(m2), 55),
        0 <= seconds(m1).signed_units() <= seconds(m2).signed_units(),
{
    lemma2_to64();
    let thousand = Value::whole(1000);
    lemma_whole_exact(1000);
    lemma_span(0, 9);
    lemma_span(0, 0);
    lemma_whole(m1, 64);
    lemma_whole(m2, 64);
    lemma_over(Value::whole(m1), thousand, 64, 9);
    lemma_over(Value::whole(m2), thousand, 64, 9);
    let (a, b) = (Value::whole(m1).signed_units(), Value::whole(m2).signed_units());
    let o = span(0) as int;
    assert(m1 * o <= m2 * o) by (nonlinear_arith)
        requires
            m1 <= m2,
            o >= 0,
    ;
    lemma_signed_monotone(m1 * o, m2 * o, 1);
    assert(a <= b);
    assert(0 <= a * o <= b * o) by (nonlinear_arith)
        requires
            0 <= a <= b,
            o >= 0,
    ;
    lemma_signed_monotone(a * o, b * o, thousand->Finite_units);
}

/// The rise is finite, and its sign is that of the time.
pub(crate) proof fn lemma_rise(c: Value, s: Value)
    requires
        between(c, -2, 63),
        bounded(s, 132),
    ensures
        bounded(s.times(s), 264),
        bounded(s.times(s).times(s), 396),
        bounded(rise(c, s), 459),
        s.times(s).signed_units() == rounded_signed(s.signed_units() * s.signed_units(), span(0)),
        s.times(s).times(s).signed_units() == rounded_signed(
            s.times(s).signed_units() * s.signed_units(),
            span(0),
        ),
        rise(c, s).signed_units() == rounded_signed(
            c.signed_units() * s.times(s).times(s).signed_units(),
            span(0),
        ),
        s.times(s).signed_units() >= 0,
        s.signed_units() >= 0 ==> rise(c, s).signed_units() >= 0,
        s.signed_units() <= 0 ==> rise(c, s).signed_units() <= 0,
        s.signed_units() >= 0 ==> s.times(s).times(s).signed_units() >= 0,
        s.signed_units() <= 0 ==> s.times(s).times(s).signed_units() <= 0,
{
    lemma_times(s, s, 132, 132);
    lemma_times(s.times(s), s, 264, 132);
    lemma_times(c, s.times(s).times(s), 63, 396);
    lemma_span_order(0, 0);
    lemma_zero(span(0));
    let x = s.signed_units();
    let q = s.times(s).signed_units();
    let r = s.times(s).times(s).signed_units();
    let p = c.signed_units();
    assert(x * x >= 0) by (nonlinear_arith);
    lemma_signed_monotone(0, x * x, span(0));
    assert(x >= 0 ==> q * x >= 0) by (nonlinear_arith)
        requires
            q >= 0,
    ;
    assert(x <= 0 ==> q * x <= 0) by (nonlinear_arith)
        requires
            q >= 0,
    ;
    if x >= 0 {
        lemma_signed_monotone(0, q * x, span(0));
    }
    if x <= 0 {
        lemma_signed_monotone(q * x, 0, span(0));
    }
    assert(r >= 0 ==> p * r >= 0) by (nonlinear_arith)
        requires
            p >= 0,
    ;
    assert(r <= 0 ==> p * r <= 0) by (nonlinear_arith)
        requires
            p >= 0,
    ;
    if r >= 0 {
        lemma_signed_monotone(0, p * r, span(0));
    }
    if r <= 0 {
        lemma_signed_monotone(p * r, 0, span(0));
    }
}

/// A later time is not a smaller rise.
pub(crate) proof fn lemma_rise_monotone(c: Value, s1: Value, s2: Value)
    requires
        between(c, -2, 63),
        bounded(s1, 132),
        bounded(s2, 132),
        s1.signed_units() <= s2.signed_units(),
    ensures
        rise(c, s1).signed_units() <= rise(c, s2).signed_units(),
{
    lemma_rise(c, s1);
    lemma_rise(c, s2);
    lemma_span_order(0, 0);
    let (x1, x2) = (s1.signed_units(), s2.signed_units());
    let (q1, q2) = (s1.times(s1).signed_units(), s2.times(s2).signed_units());
    let (r1, r2) = (s1.times(s1).times(s1).signed_units(), s2.times(s2).times(s2).signed_units());
    let p = c.signed_units();
    if x1 <= 0 <= x2 {
        assert(r1 <= r2);
    } else if x1 > 0 {
        assert(x1 * x1 <= x2 * x2) by (nonlinear_arith)
            requires
                0 < x1 <= x2,
        ;
        lemma_signed_monotone(x1 * x1, x2 * x2, span(0));
        assert(q1 * x1 <= q2 * x2) by (nonlinear_arith)
            requires
                0 < x1 <= x2,
                0 <= q1 <= q2,
        ;
        lemma_signed_monotone(q1 * x1, q2 * x2, span(0));
    } else {
        assert(x2 * x2 <= x1 * x1) by (nonlinear_arith)
            requires
                x1 <= x2 < 0,
        ;
        lemma_signed_monotone(x2 * x2, x1 * x1, span(0));
        assert(q1 * x1 <= q2 * x2) by (nonlinear_arith)
            requires
                x1 <= x2 < 0,
                0 <= q2 <= q1,
        ;
        lemma_signed_monotone(q1 * x1, q2 * x2, span(0));
    }
    assert(p * r1 <= p * r2) by (nonlinear_arith)
        requires
            p >= 0,
            r1 <= r2,
    ;
    lemma_signed_monotone(p * r1, p * r2, span(0));
}

/// The curve is finite.
pub(crate) proof fn lemma_curve(w_max: nat, min_cwnd: nat, k: Value, millis: nat)
    requires
        w_max <= pow2(64),
        1 <= min_cwnd <= pow2(64),
        bounded(k, 131),
        millis <= pow2(64),
    ensures
        ({
            let s = seconds(millis).minus(k);
            let c = pace_in_bytes(min_cwnd);
            &&& between(c, -2, 63)
            &&& bounded(s, 132)
            &&& s.signed_units() == rounded_signed(
                seconds(millis).signed_units() - k.signed_units(),
                1,
            )
            &&& bounded(curve(w_max, min_cwnd, k, millis), 460)
            &&& curve(w_max, min_cwnd, k, millis).signed_units() == rounded_signed(
                rise(c, s).signed_units() + Value::whole(w_max).signed_units(),
                1,
            )
        }),
{
    let c = pace_in_bytes(min_cwnd);
    let t = seconds(millis);
    lemma_pace_between(min_cwnd);
    lemma_seconds(millis, millis);
    lemma_span_order(55, 131);
    lemma_minus(t, k, 131);
    lemma_rise(c, t.minus(k));
    lemma_whole(w_max, 64);
    lemma_span_order(64, 459);
    lemma_plus(rise(c, t.minus(k)), Value::whole(w_max), 459);
}

/// A greater number has no smaller whole part.
pub(crate) proof fn lemma_truncated_monotone(a: Value, b: Value, i: int, limit: nat)
    requires
        bounded(a, i),
        bounded(b, i),
        a.signed_units() <= b.signed_units(),
    ensures
        a.truncated(limit) <= b.truncated(limit),
{
    let (m, n) = (a->Finite_units, b->Finite_units);
    lemma_span_order(0, 0);
    if a.signed_units() <= 0 {
        vstd::arithmetic::div_mod::lemma_div_of0(span(0) as int);
    } else {
        vstd::arithmetic::div_mod::lemma_div_is_ordered(m as int, n as int, span(0) as int);
    }
}

/// Empty segments have no time at which the window is back at the plateau, and no curve: both are
/// a NaN.
pub(crate) proof fn lemma_empty_segments(w_max: nat, millis: nat)
    requires
        w_max <= pow2(64),
        millis <= pow2(64),
    ensures
        plateau_time(w_max, 0) == Some(Value::NaN),
        curve(w_max, 0, Value::NaN, millis) is NaN,
{
    let c = pace_in_bytes(0);
    let w = Value::whole(w_max);
    let f = Value::whole(1).minus(beta());
    let o = span(0);
    lemma2_to64();
    lemma_whole_exact(0);
    lemma_span_order(0, 0);
    lemma_zero(o);
    assert(0 * o == 0) by (nonlinear_arith);
    // the pace is zero
    lemma_pace();
    lemma_times(pace(), Value::whole(0), 0, 0);
    assert(pace()->Finite_units * 0 == 0) by (nonlinear_arith);
    assert(c == Value::zero(false));
    // so the cube of the time is infinite, or a NaN
    lemma_one_minus_beta();
    lemma_span_order(-2, -1);
    lemma_span_order(-1, 0);
    lemma_whole(w_max, 64);
    lemma_times(w, f, 64, 0);
    let a = w.times(f).over(c);
    assert(a is NaN || a == (Value::Infinite { negative: false }));
    law_cube_root_of_special(a);
}

proof fn lemma_pace()
    ensures
        bounded(pace(), 0),
{
    lemma_span_order(0, 0);
    lemma_ratio(4, 10, 0);
}

/// The cubic curve never falls: a later time does not give a smaller window.
pub proof fn law_curve_never_falls(w_max: nat, min_cwnd: nat, k: Value, m1: nat, m2: nat)
    requires
        w_max <= usize::MAX,
        min_cwnd <= usize::MAX,
        plateau_time(w_max, min_cwnd) == Some(k),
        m1 <= m2 <= u64::MAX,
    ensures
        curve(w_max, min_cwnd, k, m1).truncated(usize::MAX as nat) <= curve(
            w_max,
            min_cwnd,
            k,
            m2,
        ).truncated(usize::MAX as nat),
{
    lemma2_to64();
    if min_cwnd == 0 {
        lemma_empty_segments(w_max, m1);
        lemma_empty_segments(w_max, m2);
    } else {
        lemma_plateau_between(w_max, min_cwnd);
        lemma_curve(w_max, min_cwnd, k, m1);
        lemma_curve(w_max, min_cwnd, k, m2);
        lemma_seconds(m1, m2);
        let c = pace_in_bytes(min_cwnd);
        let (s1, s2) = (seconds(m1).minus(k), seconds(m2).minus(k));
        lemma_signed_monotone(
            seconds(m1).signed_units() - k.signed_units(),
            seconds(m2).signed_units() - k.signed_units(),
            1,
        );
        lemma_rise_monotone(c, s1, s2);
        let w = Value::whole(w_max).signed_units();
        lemma_signed_monotone(rise(c, s1).signed_units() + w, rise(c, s2).signed_units() + w, 1);
        lemma_truncated_monotone(
            curve(w_max, min_cwnd, k, m1),
            curve(w_max, min_cwnd, k, m2),
            460,
            usize::MAX as nat,
        );
    }
}

/// The cubic curve is at or above the plateau from the time `k` on, and at or below it until
/// then.
pub proof fn law_curve_meets_plateau(w_max: nat, min_cwnd: nat, k: Value, millis: nat)
    requires
        w_max <= usize::MAX,
        min_cwnd <= usize::MAX,
        plateau_time(w_max, min_cwnd) == Some(k),
        millis <= u64::MAX,
    ensures
        k.at_most(seconds(millis)) ==> curve(w_max, min_cwnd, k, millis).truncated(
            usize::MAX as nat,
        ) >= Value::whole(w_max).truncated(usize::MAX as nat),
        seconds(millis).at_most(k) ==> curve(w_max, min_cwnd, k, millis).truncated(
            usize::MAX as nat,
        ) <= Value::whole(w_max).truncated(usize::MAX as nat),
        w_max <= SIGNIFICAND_END ==> Value::whole(w_max).truncated(usize::MAX as nat) == w_max,
{
    lemma2_to64();
    if min_cwnd == 0 {
        lemma_empty_segments(w_max, millis);
    } else {
        lemma_plateau_between(w_max, min_cwnd);
        lemma_curve(w_max, min_cwnd, k, millis);
        lemma_seconds(millis, millis);
        lemma_whole(w_max, 64);
        lemma_span_order(64, 460);
        let c = pace_in_bytes(min_cwnd);
        let s = seconds(millis).minus(k);
        let w = Value::whole(w_max);
        let x = curve(w_max, min_cwnd, k, millis);
        let ahead = seconds(millis).signed_units() - k.signed_units();
        lemma_rise(c, s);
        lemma_zero(1);
        lemma_rounded_again(w_max * span(0), 1);
        if k.at_most(seconds(millis)) {
            lemma_signed_monotone(0, ahead, 1);
            lemma_signed_monotone(w.signed_units(), rise(c, s).signed_units() + w.signed_units(), 1);
            lemma_truncated_monotone(w, x, 460, usize::MAX as nat);
        }
        if seconds(millis).at_most(k) {
            lemma_signed_monotone(ahead, 0, 1);
            lemma_signed_monotone(rise(c, s).signed_units() + w.signed_units(), w.signed_units(), 1);
            lemma_truncated_monotone(x, w, 460, usize::MAX as nat);
        }
    }
    if w_max <= SIGNIFICAND_END {
        lemma_whole_exact(w_max);
        lemma_span_order(0, 0);
        vstd::arithmetic::div_mod::lemma_div_by_multiple(w_max as int, span(0) as int);
    }
}

} // verus!
