//! How near rounded results are to exact ones, and how errors add up.

use crate::order::{lemma_rounded_relative, rounded_signed};
use crate::rounding::{lemma_rounded_exact, rounded, SIGNIFICAND_END, SIGNIFICAND_TOP};
use vstd::arithmetic::power2::{lemma2_to64, pow2};
use vstd::math::abs;
use vstd::prelude::*;

verus! {

/// Whether `x` is within `k` parts in `2^53` of `y`.
pub open spec fn off(x: nat, y: nat, k: nat) -> bool {
    &&& SIGNIFICAND_END * x <= (SIGNIFICAND_END + k) * y
    &&& (SIGNIFICAND_END - k) * y <= SIGNIFICAND_END * x
}

pub(crate) proof fn lemma_off_times(x: nat, y: nat, j: nat, u: nat, v: nat, k: nat)
    requires
        off(x, y, j),
        off(u, v, k),
        j <= 1000,
        k <= 1000,
    ensures
        off(x * u, y * v, j + k + 1),
{
    let d = SIGNIFICAND_END as nat;
    let (p, q) = (x * u, y * v);
    let c = j * k;
    assert(0 <= c <= 1000000) by (nonlinear_arith)
        requires
            c == j * k,
            0 <= j <= 1000,
            0 <= k <= 1000,
    ;
    assert(d * (d * p) <= (d * d + (j + k) * d + c) * q) by (nonlinear_arith)
        requires
            d * x <= (d + j) * y,
            d * u <= (d + k) * v,
            p == x * u,
            q == y * v,
            c == j * k,
    {
        assert((d * x) * (d * u) <= ((d + j) * y) * ((d + k) * v));
        assert((d * x) * (d * u) == d * (d * p));
        assert(((d + j) * y) * ((d + k) * v) == ((d + j) * (d + k)) * q);
        assert((d + j) * (d + k) == d * d + (j + k) * d + c);
    }
    let (dj, dk) = ((d - j) as nat, (d - k) as nat);
    assert((d * d - (j + k) * d + c) * q <= d * (d * p)) by (nonlinear_arith)
        requires
            dj * y <= d * x,
            dk * v <= d * u,
            dj == d - j,
            dk == d - k,
            p == x * u,
            q == y * v,
            c == j * k,
    {
        assert((dj * y) * (dk * v) <= (d * x) * (d * u));
        assert((d * x) * (d * u) == d * (d * p));
        assert((dj * y) * (dk * v) == (dj * dk) * q);
        assert((d - j) * (d - k) == d * d - (j + k) * d + c);
    }
    let e = j + k + 1;
    assert(d * p <= (d + e) * q && (d - e) * q <= d * p) by (nonlinear_arith)
        requires
            d * (d * p) <= (d * d + (j + k) * d + c) * q,
            (d * d - (j + k) * d + c) * q <= d * (d * p),
            0 <= c <= d,
            e == j + k + 1,
            d > 0,
    {
        assert(d * d + (j + k) * d + c <= d * (d + e));
        assert((d * d + (j + k) * d + c) * q <= (d * (d + e)) * q);
        assert(d * (d * p) <= d * ((d + e) * q));
        assert(d * d - (j + k) * d + c >= d * (d - e));
        assert((d * (d - e)) * q <= (d * d - (j + k) * d + c) * q);
        assert(d * ((d - e) * q) <= d * (d * p));
    }
}

pub(crate) proof fn lemma_off_through(x: nat, y: nat, j: nat, z: nat, k: nat)
    requires
        off(x, y, j),
        off(y, z, k),
        j <= 1000,
        k <= 1000,
    ensures
        off(x, z, j + k + 1),
{
    lemma_off_times(x, y, j, y, z, k);
    if y == 0 {
        assert(z == 0) by (nonlinear_arith)
            requires
                (SIGNIFICAND_END - k) * z <= SIGNIFICAND_END * y,
                y == 0,
                k <= 1000,
                SIGNIFICAND_END == 9007199254740992,
        ;
        assert(x == 0) by (nonlinear_arith)
            requires
                SIGNIFICAND_END * x <= (SIGNIFICAND_END + j) * y,
                y == 0,
                SIGNIFICAND_END == 9007199254740992,
        ;
        assert((SIGNIFICAND_END + (j + k + 1)) * 0 == 0 && (SIGNIFICAND_END - (j + k + 1)) * 0 == 0)
            by (nonlinear_arith);
    } else {
        assert(y * z == z * y) by (nonlinear_arith);
        lemma_off_cancel(x, z, y, j + k + 1);
    }
}

pub(crate) proof fn lemma_off_cancel(x: nat, y: nat, o: nat, k: nat)
    requires
        o > 0,
        off(x * o, y * o, k),
    ensures
        off(x, y, k),
{
    let d = SIGNIFICAND_END as int;
    let (s, t) = (d + k, d - k);
    assert(d * x <= s * y) by (nonlinear_arith)
        requires
            o > 0,
            d * (x * o) <= s * (y * o),
    {
        assert((d * x) * o <= (s * y) * o);
    }
    assert(t * y <= d * x) by (nonlinear_arith)
        requires
            o > 0,
            t * (y * o) <= d * (x * o),
    {
        assert((t * y) * o <= (d * x) * o);
    }
}

pub(crate) proof fn lemma_off_scale(x: nat, y: nat, o: nat, k: nat)
    requires
        off(x, y, k),
    ensures
        off(x * o, y * o, k),
{
    let d = SIGNIFICAND_END as int;
    let (s, t) = (d + k, d - k);
    assert(d * (x * o) <= s * (y * o)) by (nonlinear_arith)
        requires
            d * x <= s * y,
            o >= 0,
    {
        assert((d * x) * o <= (s * y) * o);
    }
    assert(t * (y * o) <= d * (x * o)) by (nonlinear_arith)
        requires
            t * y <= d * x,
            o >= 0,
    {
        assert((t * y) * o <= (d * x) * o);
    }
}

/// Nearness, as a distance.
pub(crate) proof fn lemma_off_gap(x: nat, y: nat, k: nat)
    requires
        off(x, y, k),
    ensures
        SIGNIFICAND_END * abs(x - y) <= k * y,
{
    let d = SIGNIFICAND_END as int;
    let ky = k * y;
    assert((d + k) * y == d * y + ky && (d - k) * y == d * y - ky) by (nonlinear_arith)
        requires
            ky == k * y,
    ;
}

/// Nearness the other way.
pub(crate) proof fn lemma_off_back(x: nat, y: nat, k: nat)
    requires
        off(x, y, k),
        k <= 1000,
    ensures
        off(y, x, k + 1),
{
    let d = SIGNIFICAND_END as int;
    assert(d * y <= (d + (k + 1)) * x) by (nonlinear_arith)
        requires
            (d - k) * y <= d * x,
            0 <= k <= 1000,
            d == 9007199254740992,
            x >= 0,
            y >= 0,
    {
        let e = d + (k + 1);
        assert(e * ((d - k) * y) <= e * (d * x));
        assert(e * (d - k) >= d * d) by {
            assert(e * (d - k) == d * d + d - k * (k + 1));
            assert(k * (k + 1) <= 1001000);
        }
        assert((d * d) * y <= (e * (d - k)) * y);
        assert(d * (d * y) <= d * (e * x));
    }
    assert((d - (k + 1)) * x <= d * y) by (nonlinear_arith)
        requires
            d * x <= (d + k) * y,
            0 <= k <= 1000,
            d == 9007199254740992,
            x >= 0,
            y >= 0,
    {
        let e = d - (k + 1);
        assert(e * (d * x) <= e * ((d + k) * y));
        assert(e * (d + k) <= d * d) by {
            assert(e * (d + k) == d * d - d - k * (k + 1));
        }
        assert((e * (d + k)) * y <= (d * d) * y);
        assert(d * (e * x) <= d * (d * y));
    }
}

/// Rounding, as nearness.
pub(crate) proof fn lemma_off_rounded(n: nat, d: nat)
    requires
        d > 0,
        n >= SIGNIFICAND_TOP * d,
    ensures
        off(rounded(n, d) * d, n, 1),
{
    lemma_rounded_relative(n, d);
}

/// Rounding of a number of units, whatever its sign and size.
pub(crate) proof fn lemma_signed_near(v: int)
    ensures
        ({
            let moved = rounded_signed(v, 1) - v;
            let size = if v < 0 {
                -v
            } else {
                v
            };
            -size <= SIGNIFICAND_END * moved <= size
        }),
{
    let n = if v < 0 {
        (-v) as nat
    } else {
        v as nat
    };
    if n >= SIGNIFICAND_TOP {
        lemma_rounded_relative(n, 1);
    } else {
        lemma2_to64();
        lemma_rounded_exact(n, 0, 1);
        assert(n * pow2(0) * 1 == n);
    }
    assert(rounded(n, 1) * 1 == rounded(n, 1));
}

} // verus!
