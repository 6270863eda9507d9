//! How near the cube root comes to the true one.

use crate::rounding::SIGNIFICAND_END;
use vstd::prelude::*;

verus! {

/// Two to the power of forty.
pub const FINE: u64 = 1099511627776;

/// Two to the power of fifty.
pub const FINER: u64 = 1125899906842624;

/// Whether `y` is one step of Newton's method from `x` toward the cube root of `a`, up to one
/// part in `2^50`.
pub open spec fn near_step(a: nat, x: nat, y: nat) -> bool {
    let exact = 2 * (x * x * x) + a;
    let taken = 3 * (x * x) * y;
    &&& FINER * taken <= (FINER + 1) * exact
    &&& (FINER - 1) * exact <= FINER * taken
}

/// What a step leaves of the error.
pub(crate) proof fn lemma_step_error(a: nat, x: nat, y: nat)
    ensures
        y * y * y - a == (x - y) * (x - y) * (2 * x + y) + (3 * (x * x) * y - (2 * (x * x * x) + a)),
{
    assert((x - y) * (x - y) * (2 * x + y) == 2 * (x * x * x) - 3 * (x * x) * y + y * y * y)
        by (nonlinear_arith);
}

/// A step falls to no less than half.
pub(crate) proof fn lemma_step_half(a: nat, x: nat, y: nat)
    requires
        near_step(a, x, y),
        x > 0,
    ensures
        x <= 2 * y,
{
    let q = x * x;
    assert(x * x * x == q * x);
    assert(3 * (x * x) * y == 3 * (q * y)) by (nonlinear_arith)
        requires
            q == x * x,
    ;
    assert(q * x <= 2 * (q * y));
    assert(x <= 2 * y) by (nonlinear_arith)
        requires
            q * x <= 2 * (q * y),
            q == x * x,
            x > 0,
    {
        assert(q > 0);
        assert(q * x <= q * (2 * y));
    }
}

/// A step does not fall below the root by more than a trace.
pub(crate) proof fn lemma_step_above(a: nat, x: nat, y: nat)
    requires
        near_step(a, x, y),
        x > 0,
    ensures
        FINE * a <= (FINE + 1) * (y * y * y),
{
    lemma_step_error(a, x, y);
    lemma_step_half(a, x, y);
    let (x3, y3) = (x * x * x, y * y * y);
    let gap = (x - y) * (x - y) * (2 * x + y);
    assert(gap >= 0) by (nonlinear_arith)
        requires
            gap == (x - y) * (x - y) * (2 * x + y),
            x >= 0,
            y >= 0,
    {
        assert((x - y) * (x - y) >= 0);
    }
    assert(x3 <= 8 * y3) by (nonlinear_arith)
        requires
            x <= 2 * y,
            x3 == x * x * x,
            y3 == y * y * y,
    {
        assert(x * x <= (2 * y) * (2 * y));
        assert(x * x * x <= (2 * y) * (2 * y) * (2 * y));
    }
}

/// A step from above the root leaves two thirds of the distance to it, but for a trace; `z` is any
/// number that is not below the root.
pub(crate) proof fn lemma_step_toward(a: nat, x: nat, y: nat, z: nat)
    requires
        near_step(a, x, y),
        x > 0,
        FINE * a <= (FINE + 1) * (x * x * x),
        a <= z * z * z,
    ensures
        FINE * y <= FINE * x + x,
        z <= x ==> FINE * (3 * y) <= FINE * (2 * x + z) + x,
{
    let q = x * x;
    let x3 = x * x * x;
    let qy = q * y;
    assert(3 * (x * x) * y == 3 * qy && x3 == q * x) by (nonlinear_arith)
        requires
            q == x * x,
            qy == q * y,
            x3 == x * x * x,
    ;
    assert(q > 0) by (nonlinear_arith)
        requires
            x > 0,
            q == x * x,
    ;
    assert(1099511627776 * a <= 1099511627777 * x3) by (nonlinear_arith)
        requires
            FINE * a <= (FINE + 1) * x3,
            FINE == 1099511627776,
    ;
    assert(1125899906842624 * (3 * qy) <= 1125899906842625 * (2 * x3 + a)) by (nonlinear_arith)
        requires
            FINER * (3 * qy) <= (FINER + 1) * (2 * x3 + a),
            FINER == 1125899906842624,
    ;
    assert(1099511627776 * qy <= 1099511627777 * x3);
    assert(1099511627776 * y <= 1099511627777 * x) by (nonlinear_arith)
        requires
            1099511627776 * qy <= 1099511627777 * x3,
            qy == q * y,
            x3 == q * x,
            q > 0,
    {
        assert(q * (1099511627776 * y) <= q * (1099511627777 * x));
    }
    if z <= x {
        let qz = q * z;
        assert(a <= qz && qz <= x3) by (nonlinear_arith)
            requires
                a <= z * z * z,
                z <= x,
                q == x * x,
                qz == q * z,
                x3 == q * x,
        {
            assert(z * z <= x * x);
            assert((z * z) * z <= (x * x) * z);
        }
        assert(1099511627776 * (3 * qy) <= 1099511627776 * (2 * x3 + qz) + x3);
        assert(1099511627776 * (3 * y) <= 1099511627776 * (2 * x + z) + x) by (nonlinear_arith)
            requires
                1099511627776 * (3 * qy) <= 1099511627776 * (2 * x3 + qz) + x3,
                qy == q * y,
                qz == q * z,
                x3 == q * x,
                q > 0,
        {
            assert(q * (1099511627776 * (3 * y)) <= q * (1099511627776 * (2 * x + z) + x));
        }
    }
}

/// What a step leaves of a distance, in any parts.
pub open spec fn narrowed(e: nat, n: nat) -> nat
    decreases n,
{
    if n == 0 {
        e
    } else {
        narrowed((2 * e + 1) / 3 + 1, (n - 1) as nat)
    }
}

/// Twenty-one steps leave less than one part in four thousand.
pub(crate) proof fn lemma_narrowed()
    ensures
        narrowed(618475290624, 21) <= 134217728,
{
    assert(narrowed(618475290624, 21) == narrowed(412316860417, 20));
    assert(narrowed(412316860417, 20) == narrowed(274877906946, 19));
    assert(narrowed(274877906946, 19) == narrowed(183251937965, 18));
    assert(narrowed(183251937965, 18) == narrowed(122167958644, 17));
    assert(narrowed(122167958644, 17) == narrowed(81445305764, 16));
    assert(narrowed(81445305764, 16) == narrowed(54296870510, 15));
    assert(narrowed(54296870510, 15) == narrowed(36197913674, 14));
    assert(narrowed(36197913674, 14) == narrowed(24131942450, 13));
    assert(narrowed(24131942450, 13) == narrowed(16087961634, 12));
    assert(narrowed(16087961634, 12) == narrowed(10725307757, 11));
    assert(narrowed(10725307757, 11) == narrowed(7150205172, 10));
    assert(narrowed(7150205172, 10) == narrowed(4766803449, 9));
    assert(narrowed(4766803449, 9) == narrowed(3177868967, 8));
    assert(narrowed(3177868967, 8) == narrowed(2118579312, 7));
    assert(narrowed(2118579312, 7) == narrowed(1412386209, 6));
    assert(narrowed(1412386209, 6) == narrowed(941590807, 5));
    assert(narrowed(941590807, 5) == narrowed(627727206, 4));
    assert(narrowed(627727206, 4) == narrowed(418484805, 3));
    assert(narrowed(418484805, 3) == narrowed(278989871, 2));
    assert(narrowed(278989871, 2) == narrowed(185993248, 1));
    assert(narrowed(185993248, 1) == narrowed(123995500, 0));
}

/// Twenty steps leave less than one part in two thousand.
pub(crate) proof fn lemma_narrowed_large()
    ensures
        narrowed(549755813889, 20) <= 268435456,
{
    assert(narrowed(549755813889, 20) == narrowed(366503875927, 19));
    assert(narrowed(366503875927, 19) == narrowed(244335917286, 18));
    assert(narrowed(244335917286, 18) == narrowed(162890611525, 17));
    assert(narrowed(162890611525, 17) == narrowed(108593741018, 16));
    assert(narrowed(108593741018, 16) == narrowed(72395827346, 15));
    assert(narrowed(72395827346, 15) == narrowed(48263884898, 14));
    assert(narrowed(48263884898, 14) == narrowed(32175923266, 13));
    assert(narrowed(32175923266, 13) == narrowed(21450615512, 12));
    assert(narrowed(21450615512, 12) == narrowed(14300410342, 11));
    assert(narrowed(14300410342, 11) == narrowed(9533606896, 10));
    assert(narrowed(9533606896, 10) == narrowed(6355737932, 9));
    assert(narrowed(6355737932, 9) == narrowed(4237158622, 8));
    assert(narrowed(4237158622, 8) == narrowed(2824772416, 7));
    assert(narrowed(2824772416, 7) == narrowed(1883181612, 6));
    assert(narrowed(1883181612, 6) == narrowed(1255454409, 5));
    assert(narrowed(1255454409, 5) == narrowed(836969607, 4));
    assert(narrowed(836969607, 4) == narrowed(557979739, 3));
    assert(narrowed(557979739, 3) == narrowed(371986494, 2));
    assert(narrowed(371986494, 2) == narrowed(247990997, 1));
    assert(narrowed(247990997, 1) == narrowed(165327332, 0));
}

/// A short step ends near the root, the nearer the shorter it is.
pub(crate) proof fn lemma_short_step(a: nat, x: nat, y: nat, t: nat)
    requires
        near_step(a, x, y),
        x > 0,
        x - y <= t,
        y - x <= t,
        131072 * t <= y,
    ensures
        2147483648 * (y * y * y) <= 2147483648 * a + y * y * y,
        524288 * t <= y ==> 34359738368 * (y * y * y) <= 34359738368 * a + y * y * y,
{
    lemma_step_error(a, x, y);
    lemma_step_half(a, x, y);
    let (x3, y3) = (x * x * x, y * y * y);
    let gap = (x - y) * (x - y) * (2 * x + y);
    assert(x3 <= 8 * y3) by (nonlinear_arith)
        requires
            x <= 2 * y,
            x3 == x * x * x,
            y3 == y * y * y,
    {
        assert(x * x <= (2 * y) * (2 * y));
        assert(x * x * x <= (2 * y) * (2 * y) * (2 * y));
    }
    assert(gap <= 5 * (t * t * y)) by (nonlinear_arith)
        requires
            gap == (x - y) * (x - y) * (2 * x + y),
            x - y <= t,
            y - x <= t,
            x <= 2 * y,
            x >= 0,
            y >= 0,
    {
        assert((x - y) * (x - y) <= t * t);
        assert(2 * x + y <= 5 * y);
        assert((x - y) * (x - y) * (2 * x + y) <= (t * t) * (5 * y));
    }
    assert(17179869184 * (t * t * y) <= y3) by (nonlinear_arith)
        requires
            131072 * t <= y,
            y3 == y * y * y,
    {
        assert((131072 * t) * (131072 * t) <= y * y);
        assert((131072 * t) * (131072 * t) * y <= y * y * y);
    }
    if 524288 * t <= y {
        assert(274877906944 * (t * t * y) <= y3) by (nonlinear_arith)
            requires
                524288 * t <= y,
                y3 == y * y * y,
        {
            assert((524288 * t) * (524288 * t) <= y * y);
            assert((524288 * t) * (524288 * t) * y <= y * y * y);
        }
    }
}

/// Two to the power of forty-eight.
pub const FINISH: u64 = 281474976710656;

/// A bound on the cube of a step.
pub(crate) proof fn lemma_step_cubed(a: nat, x: nat, y: nat)
    requires
        near_step(a, x, y),
        x > 0,
    ensures
        ({
            let (x3, y3) = (x * x * x, y * y * y);
            let s = 2 * x3 + a;
            FINISH * (27 * (x3 * x3 * y3)) <= (FINISH + 1) * (s * s * s)
        }),
{
    let f = FINER as nat;
    let (x3, y3) = (x * x * x, y * y * y);
    let s = 2 * x3 + a;
    let l = f * (3 * (x3 * y));
    let r = (f + 1) * (s * x);
    assert(l <= r) by (nonlinear_arith)
        requires
            f * (3 * (x * x) * y) <= (f + 1) * s,
            x3 == x * x * x,
            l == f * (3 * (x3 * y)),
            r == (f + 1) * (s * x),
    {
        assert(f * (3 * (x * x) * y) * x <= (f + 1) * s * x);
        assert(f * (3 * (x * x) * y) * x == f * (3 * (x3 * y)));
    }
    lemma_cube_order(l, r);
    let g = f * f * f;
    let h = (f + 1) * (f + 1) * (f + 1);
    let m = 27 * (x3 * x3 * y3);
    let n = s * s * s;
    assert(l * l * l == (g * m) * x3) by (nonlinear_arith)
        requires
            l == f * (3 * (x3 * y)),
            g == f * f * f,
            y3 == y * y * y,
            m == 27 * (x3 * x3 * y3),
    {
        let u = x3 * y;
        assert(u * u * u == x3 * x3 * x3 * y3);
        assert(l == (3 * f) * u);
        assert(l * l * l == (3 * f) * (3 * f) * (3 * f) * (u * u * u));
        assert((3 * f) * (3 * f) * (3 * f) == 27 * g);
        assert((27 * g) * (x3 * x3 * x3 * y3) == (g * m) * x3);
    }
    assert(r * r * r == (h * n) * x3) by (nonlinear_arith)
        requires
            r == (f + 1) * (s * x),
            h == (f + 1) * (f + 1) * (f + 1),
            x3 == x * x * x,
            n == s * s * s,
    {
        let u = s * x;
        assert(u * u * u == n * x3);
        assert(r * r * r == h * (u * u * u));
        assert(h * (n * x3) == (h * n) * x3);
    }
    assert(x3 > 0) by (nonlinear_arith)
        requires
            x > 0,
            x3 == x * x * x,
    ;
    assert(g * m <= h * n) by (nonlinear_arith)
        requires
            (g * m) * x3 <= (h * n) * x3,
            x3 > 0,
    ;
    assert(FINISH * h <= (FINISH + 1) * g && g > 0) by (nonlinear_arith)
        requires
            g == f * f * f,
            h == (f + 1) * (f + 1) * (f + 1),
            f == 1125899906842624,
    ;
    assert(FINISH * m <= (FINISH + 1) * n) by (nonlinear_arith)
        requires
            g * m <= h * n,
            FINISH * h <= (FINISH + 1) * g,
            g > 0,
    {
        assert(FINISH * (g * m) <= FINISH * (h * n));
        assert(FINISH * (h * n) == (FINISH * h) * n);
        assert((FINISH * h) * n <= ((FINISH + 1) * g) * n);
        assert(((FINISH + 1) * g) * n == g * ((FINISH + 1) * n));
        assert(FINISH * (g * m) == g * (FINISH * m));
    }
}

/// A greater number has a greater cube.
pub(crate) proof fn lemma_cube_order(l: nat, r: nat)
    requires
        l <= r,
    ensures
        l * l * l <= r * r * r,
{
    assert(l * l * l <= r * r * r) by (nonlinear_arith)
        requires
            l <= r,
    {
        assert(l * l <= r * r);
    }
}

/// How far the cube may be above, in parts of `FINE`, after one more step.
pub open spec fn contracted(q: nat) -> nat {
    if q >= FINE {
        (5 * q) / 12
    } else {
        (q * q) / (2 * FINE as nat) + 1
    }
}

proof fn lemma_contracted(q: nat)
    requires
        q >= 1,
    ensures
        11 * (q * q + 1) + (FINE + q) <= 27 * (contracted(q) * (FINE + q)),
        contracted(q) >= 1,
{
    let p = contracted(q);
    if q >= FINE {
        assert(11 * (q * q + 1) + (FINE + q) <= 27 * (p * (FINE + q))) by (nonlinear_arith)
            requires
                q >= FINE,
                12 * p + 11 >= 5 * q,
                FINE == 1099511627776,
        {
            assert((12 * p + 11) * (FINE + q) >= (5 * q) * (FINE + q));
            assert((12 * p + 11) * (FINE + q) == 12 * (p * (FINE + q)) + 11 * (FINE + q));
            assert((5 * q) * (FINE + q) == 5 * (q * q) + 5 * (q * FINE));
            assert(q * FINE >= 1099511627776 * q);
        }
    } else {
        let d = 2 * FINE as nat;
        crate::rounding::lemma_divides(q * q, d);
        assert(11 * (q * q + 1) + (FINE + q) <= 27 * (p * (FINE + q))) by (nonlinear_arith)
            requires
                q < FINE,
                d == 2 * FINE,
                q * q <= p * d,
                p >= 1,
        {
            assert(p * (FINE + q) == p * FINE + p * q);
            assert(13 * (q * q) <= 26 * (p * FINE));
            assert(p * FINE >= FINE);
            assert(p * q >= q);
        }
    }
}

/// A step brings the cube nearer.
pub(crate) proof fn lemma_step_contracts(a: nat, x: nat, y: nat, q: nat)
    requires
        near_step(a, x, y),
        a > 0,
        x > 0,
        q >= 1,
        FINE * a <= (FINE + 1) * (x * x * x),
        FINE * (x * x * x) <= (FINE + q) * a,
    ensures
        FINE * (y * y * y) <= (FINE + contracted(q)) * a,
{
    let (v, w) = (x * x * x, y * y * y);
    let s = 2 * v + a;
    let d = v - a;
    let m = (FINE + q) as nat;
    let p = contracted(q);
    lemma_step_cubed(a, x, y);
    lemma_contracted(q);
    assert(v > 0) by (nonlinear_arith)
        requires
            x > 0,
            v == x * x * x,
    ;
    assert(a + 2 * d >= 0) by (nonlinear_arith)
        requires
            FINE * a <= (FINE + 1) * v,
            d == v - a,
            FINE == 1099511627776,
    ;
    assert(s * s * s <= 27 * (v * v * a) + 10 * (d * d * v)) by (nonlinear_arith)
        requires
            s == 2 * v + a,
            v == a + d,
            a + 2 * d >= 0,
    {
        assert(s == 3 * a + 2 * d);
        assert(s * s * s == 27 * (a * a * a) + 54 * (a * a * d) + 36 * (a * d * d) + 8 * (d * d * d));
        assert(v * v * a == a * a * a + 2 * (a * a * d) + a * d * d);
        assert(d * d * v == a * d * d + d * d * d);
        assert((d * d) * (a + 2 * d) >= 0);
        assert((d * d) * (a + 2 * d) == a * d * d + 2 * (d * d * d));
    }
    assert(d * d >= 0) by (nonlinear_arith);
    let dd = (d * d) as nat;
    assert(FINISH * (27 * (v * w)) <= (FINISH + 1) * (27 * (v * a) + 10 * dd)) by (nonlinear_arith)
        requires
            FINISH * (27 * (v * v * w)) <= (FINISH + 1) * (s * s * s),
            s * s * s <= 27 * (v * v * a) + 10 * (d * d * v),
            dd == d * d,
            v > 0,
    {
        assert(FINISH * (27 * (v * v * w)) == (FINISH * (27 * (v * w))) * v);
        assert((FINISH + 1) * (27 * (v * v * a) + 10 * (d * d * v)) == ((FINISH + 1) * (27 * (v * a)
            + 10 * dd)) * v);
    }
    assert(FINE * (dd * m) <= (q * q + 1) * (a * v)) by {
        if d >= 0 {
            assert(FINE * (dd * m) <= (q * q) * (a * v)) by (nonlinear_arith)
                requires
                    d >= 0,
                    v == a + d,
                    m == FINE + q,
                    FINE * v <= m * a,
                    dd == d * d,
            {
                assert(FINE * d <= q * a);
                assert(m * d <= q * v);
                assert((FINE * d) * (m * d) <= (q * a) * (q * v));
            }
            assert((q * q + 1) * (a * v) == (q * q) * (a * v) + a * v) by (nonlinear_arith);
            assert(a * v >= 0) by (nonlinear_arith);
        } else {
            assert(FINE * (dd * m) <= (q * q + 1) * (a * v)) by (nonlinear_arith)
                requires
                    d < 0,
                    v == a + d,
                    m == FINE + q,
                    FINE * a <= (FINE + 1) * v,
                    dd == d * d,
                    q >= 1,
            {
                let n = -d;
                assert(FINE * n <= v);
                assert(FINE * n <= a);
                assert((FINE * n) * (FINE * n) <= v * a);
                assert(FINE * (dd * FINE) <= a * v);
                assert(n * n <= a * v);
                assert(FINE * (dd * q) <= (q * q) * (a * v)) by {
                    assert(FINE * dd <= a * v);
                    assert(q * (FINE * dd) <= q * (a * v));
                    assert(q * (a * v) <= (q * q) * (a * v));
                }
            }
        }
    }
    lemma_gather(a, v, w, dd, q, m, p);
}

/// The last lines of the step, over the squared error `dd`.
proof fn lemma_gather(a: nat, v: nat, w: nat, dd: nat, q: nat, m: nat, p: nat)
    requires
        FINISH * (27 * (v * w)) <= (FINISH + 1) * (27 * (v * a) + 10 * dd),
        FINE * (dd * m) <= (q * q + 1) * (a * v),
        11 * (q * q + 1) + m <= 27 * (p * m),
        v > 0,
        m > 0,
    ensures
        FINE * w <= (FINE + p) * a,
{
    let z = a * v;
    let k = FINE as nat * m;
    let t = (q * q + 1) * z;
    let left = FINISH * (27 * (k * (v * w)));
    let (kz, kd, mz, pz) = (k * z, k * dd, m * z, (p * m) * z);
    assert(left <= (FINISH + 1) * (27 * kz + 10 * kd)) by (nonlinear_arith)
        requires
            FINISH * (27 * (v * w)) <= (FINISH + 1) * (27 * (v * a) + 10 * dd),
            z == a * v,
            left == FINISH * (27 * (k * (v * w))),
            kz == k * z,
            kd == k * dd,
    {
        let l = FINISH * (27 * (v * w));
        let r = (FINISH + 1) * (27 * (v * a) + 10 * dd);
        assert(k * l <= k * r);
        assert(v * a == z);
        assert(k * l == left);
        assert(k * (27 * z + 10 * dd) == 27 * kz + 10 * kd);
        assert(k * r == (FINISH + 1) * (k * (27 * z + 10 * dd)));
    }
    assert(kd <= t) by (nonlinear_arith)
        requires
            FINE * (dd * m) <= (q * q + 1) * (a * v),
            k == FINE * m,
            kd == k * dd,
            z == a * v,
            t == (q * q + 1) * z,
    ;
    assert(11 * t + mz <= 27 * pz) by (nonlinear_arith)
        requires
            11 * (q * q + 1) + m <= 27 * (p * m),
            t == (q * q + 1) * z,
            mz == m * z,
            pz == (p * m) * z,
    {
        assert((11 * (q * q + 1) + m) * z <= (27 * (p * m)) * z);
        assert((11 * (q * q + 1) + m) * z == 11 * t + mz);
    }
    assert(kz == FINE * mz) by (nonlinear_arith)
        requires
            k == FINE * m,
            kz == k * z,
            mz == m * z,
    ;
    let right = FINISH * (27 * kz) + FINISH * (27 * pz);
    assert(left <= right) by (nonlinear_arith)
        requires
            left <= (FINISH + 1) * (27 * kz + 10 * kd),
            right == FINISH * (27 * kz) + FINISH * (27 * pz),
            kd <= t,
            11 * t + mz <= 27 * pz,
            kz == FINE * mz,
            FINE == 1099511627776,
            FINISH == 281474976710656,
            kd >= 0,
            mz >= 0,
    {
        assert(left <= 281474976710657 * (27 * kz + 10 * kd));
        assert(right == 281474976710656 * (27 * kz) + 281474976710656 * (27 * pz));
        assert(kz == 1099511627776 * mz);
    }
    let c = 27 * FINISH as nat * m * v;
    assert(left == c * (FINE * w)) by (nonlinear_arith)
        requires
            left == FINISH * (27 * (k * (v * w))),
            k == FINE * m,
            c == 27 * FINISH * m * v,
    {
        assert(k * (v * w) == (m * v) * (FINE * w));
        assert(c * (FINE * w) == 27 * FINISH * ((m * v) * (FINE * w)));
    }
    assert(right == c * ((FINE + p) * a)) by (nonlinear_arith)
        requires
            right == FINISH * (27 * kz) + FINISH * (27 * pz),
            kz == FINE * mz,
            mz == m * z,
            pz == (p * m) * z,
            z == a * v,
            c == 27 * FINISH * m * v,
    {
        assert(kz + pz == (FINE + p) * (m * z));
        assert((FINE + p) * (m * z) == (m * v) * ((FINE + p) * a));
        assert(c * ((FINE + p) * a) == 27 * FINISH * ((m * v) * ((FINE + p) * a)));
    }
    assert(c > 0) by (nonlinear_arith)
        requires
            c == 27 * FINISH * m * v,
            m > 0,
            v > 0,
            FINISH > 0,
    ;
    assert(FINE * w <= (FINE + p) * a) by (nonlinear_arith)
        requires
            c * (FINE * w) <= c * ((FINE + p) * a),
            c > 0,
    ;
}

/// How far the cube may be above after `n` more steps.
pub open spec fn after(q: nat, n: nat) -> nat
    decreases n,
{
    if n == 0 {
        q
    } else {
        after(contracted(q), (n - 1) as nat)
    }
}

/// Twenty steps bring a cube that is a hundred thousand times too great to within a trace.
pub(crate) proof fn lemma_after_twenty()
    ensures
        after(144115188075855872, 20) == 1,
{
    assert(contracted(144115188075855872) == 60047995031606613);
    assert(contracted(60047995031606613) == 25019997929836088);
    assert(contracted(25019997929836088) == 10424999137431703);
    assert(contracted(10424999137431703) == 4343749640596542);
    assert(contracted(4343749640596542) == 1809895683581892);
    assert(contracted(1809895683581892) == 754123201492455);
    assert(contracted(754123201492455) == 314218000621856);
    assert(contracted(314218000621856) == 130924166925773);
    assert(contracted(130924166925773) == 54551736219072);
    assert(contracted(54551736219072) == 22729890091280);
    assert(contracted(22729890091280) == 9470787538033);
    assert(contracted(9470787538033) == 3946161474180);
    assert(contracted(3946161474180) == 1644233947575);
    assert(contracted(1644233947575) == 685097478156);
    assert(contracted(685097478156) == 213439559310) by (nonlinear_arith);
    assert(contracted(213439559310) == 20716672898) by (nonlinear_arith);
    assert(contracted(20716672898) == 195168712) by (nonlinear_arith);
    assert(contracted(195168712) == 17322) by (nonlinear_arith);
    assert(contracted(17322) == 1) by (nonlinear_arith);
    assert(contracted(1) == 1) by (nonlinear_arith);
    reveal_with_fuel(after, 21);
}

/// Where the first step leads to, from a guess whose cube is not too far off.
pub(crate) proof fn lemma_first_step(a: nat, x: nat, y: nat)
    requires
        near_step(a, x, y),
        a > 0,
        x > 0,
        a <= 64 * (x * x * x),
        x * x * x <= 131072 * a,
    ensures
        y * y * y <= 131072 * a,
{
    let (v, w) = (x * x * x, y * y * y);
    let s = 2 * v + a;
    lemma_step_cubed(a, x, y);
    assert(v > 0) by (nonlinear_arith)
        requires
            x > 0,
            v == x * x * x,
    ;
    let b: nat = if v <= a {
        13068
    } else {
        2359305
    };
    assert(s * s * s <= (b * a) * (v * v)) by {
        if v <= a {
            assert(s * s * s <= (13068 * a) * (v * v)) by (nonlinear_arith)
                requires
                    s == 2 * v + a,
                    v <= a,
                    a <= 64 * v,
            {
                assert(s <= 66 * v);
                assert(s * s <= (66 * v) * (66 * v));
                assert(s * s * s <= ((66 * v) * (66 * v)) * (3 * a));
            }
        } else {
            assert(s * s * s <= (2359305 * a) * (v * v)) by (nonlinear_arith)
                requires
                    s == 2 * v + a,
                    a < v,
                    v <= 131072 * a,
            {
                assert(s <= 3 * v);
                assert(s * s <= (3 * v) * (3 * v));
                assert(s * s * s <= ((3 * v) * (3 * v)) * (262145 * a));
            }
        }
    }
    assert(FINISH * (27 * w) <= (FINISH + 1) * (b * a)) by (nonlinear_arith)
        requires
            FINISH * (27 * (v * v * w)) <= (FINISH + 1) * (s * s * s),
            s * s * s <= (b * a) * (v * v),
            v > 0,
    {
        assert((FINISH * (27 * w)) * (v * v) <= ((FINISH + 1) * (b * a)) * (v * v));
        assert(v * v > 0);
    }
    assert(w <= 131072 * a) by (nonlinear_arith)
        requires
            FINISH * (27 * w) <= (FINISH + 1) * (b * a),
            b <= 2359305,
            FINISH == 281474976710656,
    {
        assert(b * a <= 2359305 * a);
    }
}

/// The rounding of the operations of a step is within one part in `2^50`.
pub(crate) proof fn lemma_rounding_near(
    a: nat,
    x: nat,
    y: nat,
    t: nat,
    q: nat,
    h: nat,
    u: nat,
    o: nat,
)
    requires
        SIGNIFICAND_END * t <= (SIGNIFICAND_END + 1) * (2 * x),
        (SIGNIFICAND_END - 1) * (2 * x) <= SIGNIFICAND_END * t,
        SIGNIFICAND_END * (q * o) <= (SIGNIFICAND_END + 1) * (x * x),
        (SIGNIFICAND_END - 1) * (x * x) <= SIGNIFICAND_END * (q * o),
        SIGNIFICAND_END * (h * q) <= (SIGNIFICAND_END + 1) * (a * o),
        (SIGNIFICAND_END - 1) * (a * o) <= SIGNIFICAND_END * (h * q),
        SIGNIFICAND_END * u <= (SIGNIFICAND_END + 1) * (t + h),
        (SIGNIFICAND_END - 1) * (t + h) <= SIGNIFICAND_END * u,
        SIGNIFICAND_END * (3 * y) <= (SIGNIFICAND_END + 1) * u,
        (SIGNIFICAND_END - 1) * u <= SIGNIFICAND_END * (3 * y),
    ensures
        near_step(a * o * o, x, y),
{
    let e = SIGNIFICAND_END as nat;
    let f = (e - 1) as nat;
    let g = e + 1;
    let x2 = x * x;
    let (c, d) = (2 * (x * x * x), a * o * o);
    let taken = 3 * (x * x) * y;
    let (tt, hh, uu) = (t * x2, h * x2, u * x2);
    let m = h * (q * o);
    // Each line times the square of x.
    assert(e * tt <= g * c && f * c <= e * tt) by (nonlinear_arith)
        requires
            e * t <= g * (2 * x),
            f * (2 * x) <= e * t,
            tt == t * x2,
            x2 == x * x,
            c == 2 * (x * x * x),
    {
        assert((e * t) * x2 <= (g * (2 * x)) * x2);
        assert((f * (2 * x)) * x2 <= (e * t) * x2);
        assert((2 * x) * x2 == c);
    }
    assert(e * m <= g * hh && f * hh <= e * m) by (nonlinear_arith)
        requires
            e * (q * o) <= g * x2,
            f * x2 <= e * (q * o),
            hh == h * x2,
            m == h * (q * o),
    {
        assert(h * (e * (q * o)) <= h * (g * x2));
        assert(h * (f * x2) <= h * (e * (q * o)));
    }
    assert(e * m <= g * d && f * d <= e * m) by (nonlinear_arith)
        requires
            e * (h * q) <= g * (a * o),
            f * (a * o) <= e * (h * q),
            m == h * (q * o),
            d == a * o * o,
    {
        assert((e * (h * q)) * o <= (g * (a * o)) * o);
        assert((f * (a * o)) * o <= (e * (h * q)) * o);
    }
    assert(e * uu <= g * (tt + hh) && f * (tt + hh) <= e * uu) by (nonlinear_arith)
        requires
            e * u <= g * (t + h),
            f * (t + h) <= e * u,
            uu == u * x2,
            tt == t * x2,
            hh == h * x2,
    {
        assert((e * u) * x2 <= (g * (t + h)) * x2);
        assert((f * (t + h)) * x2 <= (e * u) * x2);
        assert((t + h) * x2 == tt + hh);
    }
    assert(e * taken <= g * uu && f * uu <= e * taken) by (nonlinear_arith)
        requires
            e * (3 * y) <= g * u,
            f * u <= e * (3 * y),
            uu == u * x2,
            taken == 3 * x2 * y,
    {
        assert((e * (3 * y)) * x2 <= (g * u) * x2);
        assert((f * u) * x2 <= (e * (3 * y)) * x2);
    }
    // With the numbers in place, what is left is linear.
    assert(f * hh <= g * d && f * d <= g * hh);
    let exact = c + d;
    let z = tt + hh;
    assert(e * e * taken <= g * g * z && f * f * z <= e * e * taken) by (nonlinear_arith)
        requires
            e * taken <= g * uu,
            f * uu <= e * taken,
            e * uu <= g * z,
            f * z <= e * uu,
            e >= 0,
            f >= 0,
            g >= 0,
    {
        assert(e * (e * taken) <= e * (g * uu));
        assert(g * (e * uu) <= g * (g * z));
        assert(f * (f * z) <= f * (e * uu));
        assert(e * (f * uu) <= e * (e * taken));
    }
    assert(9007199254740991 * (tt + hh) <= 9007199254740993 * exact);
    assert(9007199254740991 * exact <= 9007199254740993 * (tt + hh));
    assert(FINER * taken <= (FINER + 1) * exact);
    assert((FINER - 1) * exact <= FINER * taken);
}

} // verus!
