//! Rounding of an exact quotient to fifty-three significant binary digits.

use vstd::arithmetic::power2::{lemma_pow2_adds, lemma_pow2_pos, lemma_pow2_unfold, pow2};
use vstd::prelude::*;

verus! {

/// The least natural number with more than fifty-three binary digits.
pub const SIGNIFICAND_END: u64 = 9007199254740992;

/// The least natural number with fifty-three binary digits.
pub const SIGNIFICAND_TOP: u64 = 4503599627370496;

/// The natural number nearest to `n / d`; of two that are equally near, the even one.
pub open spec fn nearest(n: nat, d: nat) -> nat
    recommends
        d > 0,
{
    let below = n / d;
    let rest = n % d;
    if 2 * rest < d || (2 * rest == d && below % 2 == 0) {
        below
    } else {
        below + 1
    }
}

/// How many low-order binary digits of the whole part of `n / d` stand beyond its fifty-three
/// leading ones.
pub open spec fn excess(n: nat, d: nat) -> nat
    decreases n - d,
{
    if d == 0 || n < SIGNIFICAND_END * d {
        0
    } else {
        1 + excess(n, 2 * d)
    }
}

/// `n / d` rounded to the nearest natural number that has at most fifty-three significant
/// binary digits; of two that are equally near, the one whose last digit is even.
pub open spec fn rounded(n: nat, d: nat) -> nat
    recommends
        d > 0,
{
    let k = excess(n, d);
    nearest(n, d * pow2(k)) * pow2(k)
}

pub(crate) proof fn lemma_divides(n: nat, d: nat)
    requires
        d > 0,
    ensures
        n == (n / d) * d + n % d,
        n % d < d,
{
    vstd::arithmetic::div_mod::lemma_fundamental_div_mod(n as int, d as int);
    assert(d * (n / d) == (n / d) * d) by (nonlinear_arith);
}

/// Rounding to a whole number keeps the order of quotients.
pub(crate) proof fn lemma_nearest_monotone(n1: nat, d1: nat, n2: nat, d2: nat)
    requires
        d1 > 0,
        d2 > 0,
        n1 * d2 <= n2 * d1,
    ensures
        nearest(n1, d1) <= nearest(n2, d2),
{
    lemma_divides(n1, d1);
    lemma_divides(n2, d2);
    let (f1, r1) = (n1 / d1, n1 % d1);
    let (f2, r2) = (n2 / d2, n2 % d2);
    assert(f1 <= f2) by (nonlinear_arith)
        requires
            n1 == f1 * d1 + r1,
            n2 == f2 * d2 + r2,
            r2 < d2,
            d1 > 0,
            d2 > 0,
            n1 * d2 <= n2 * d1,
    {
        if f1 > f2 {
            assert(f1 >= f2 + 1);
            assert(n1 >= (f2 + 1) * d1);
            assert(n1 * d2 >= (f2 + 1) * d1 * d2);
            assert(n2 < (f2 + 1) * d2);
            assert(n2 * d1 < (f2 + 1) * d2 * d1);
            assert((f2 + 1) * d1 * d2 == (f2 + 1) * d2 * d1);
        }
    }
    if f1 == f2 {
        assert(r1 * d2 <= r2 * d1) by (nonlinear_arith)
            requires
                n1 == f1 * d1 + r1,
                n2 == f1 * d2 + r2,
                n1 * d2 <= n2 * d1,
        ;
        assert(2 * r2 < d2 ==> 2 * r1 < d1) by (nonlinear_arith)
            requires
                r1 * d2 <= r2 * d1,
                d1 > 0,
                d2 > 0,
        ;
        assert(2 * r2 == d2 ==> 2 * r1 <= d1) by (nonlinear_arith)
            requires
                r1 * d2 <= r2 * d1,
                d1 > 0,
                d2 > 0,
        ;
    }
}

/// Rounding to a whole number depends on the quotient alone.
pub(crate) proof fn lemma_nearest_ratio(n1: nat, d1: nat, n2: nat, d2: nat)
    requires
        d1 > 0,
        d2 > 0,
        n1 * d2 == n2 * d1,
    ensures
        nearest(n1, d1) == nearest(n2, d2),
{
    lemma_nearest_monotone(n1, d1, n2, d2);
    lemma_nearest_monotone(n2, d2, n1, d1);
}

/// A whole quotient rounds to itself.
pub(crate) proof fn lemma_nearest_exact(m: nat, d: nat)
    requires
        d > 0,
    ensures
        nearest(m * d, d) == m,
{
    vstd::arithmetic::div_mod::lemma_div_by_multiple(m as int, d as int);
    vstd::arithmetic::div_mod::lemma_mod_multiples_basic(m as int, d as int);
}

/// What `excess` is.
pub(crate) proof fn lemma_excess(n: nat, d: nat)
    requires
        d > 0,
    ensures
        n < SIGNIFICAND_END * (d * pow2(excess(n, d))),
        excess(n, d) > 0 ==> SIGNIFICAND_TOP * (d * pow2(excess(n, d))) <= n,
    decreases n - d,
{
    vstd::arithmetic::power2::lemma2_to64();
    assert(d * 1 == d && (2 * d) * 1 == 2 * d);
    if n >= SIGNIFICAND_END * d {
        lemma_excess(n, 2 * d);
        let k = excess(n, 2 * d);
        assert(excess(n, d) == k + 1);
        lemma_pow2_unfold(k + 1);
        assert(d * pow2(k + 1) == (2 * d) * pow2(k)) by (nonlinear_arith)
            requires
                pow2(k + 1) == 2 * pow2(k),
        ;
        if k == 0 {
            assert((2 * d) * pow2(k) == 2 * d);
        }
    } else {
        assert(excess(n, d) == 0);
        assert(d * pow2(0) == d);
    }
}

/// No other number is what `excess` is.
pub(crate) proof fn lemma_excess_unique(n: nat, d: nat, k: nat)
    requires
        d > 0,
        n < SIGNIFICAND_END * (d * pow2(k)),
        k > 0 ==> SIGNIFICAND_TOP * (d * pow2(k)) <= n,
    ensures
        excess(n, d) == k,
{
    lemma_excess(n, d);
    let j = excess(n, d);
    if j < k {
        lemma_pow2_gap(d, j, k);
    } else if k < j {
        lemma_pow2_gap(d, k, j);
    }
}

proof fn lemma_pow2_gap(d: nat, j: nat, k: nat)
    requires
        j < k,
    ensures
        2 * (d * pow2(j)) <= d * pow2(k),
{
    lemma_pow2_adds(j, (k - j) as nat);
    lemma_pow2_unfold((k - j) as nat);
    lemma_pow2_pos((k - j - 1) as nat);
    let p = pow2((k - j - 1) as nat);
    assert(2 * (d * pow2(j)) <= d * pow2(k)) by (nonlinear_arith)
        requires
            pow2(k) == pow2(j) * (2 * p),
            p >= 1,
    ;
}

/// The significand that a quotient rounds to.
pub(crate) proof fn lemma_rounded_significand(n: nat, d: nat)
    requires
        d > 0,
    ensures
        d * pow2(excess(n, d)) > 0,
        nearest(n, d * pow2(excess(n, d))) <= SIGNIFICAND_END,
        excess(n, d) > 0 ==> nearest(n, d * pow2(excess(n, d))) >= SIGNIFICAND_TOP,
{
    let k = excess(n, d);
    lemma_excess(n, d);
    lemma_pow2_pos(k);
    let e = d * pow2(k);
    assert(e > 0) by (nonlinear_arith)
        requires
            d > 0,
            pow2(k) > 0,
            e == d * pow2(k),
    ;
    lemma_nearest_exact(SIGNIFICAND_END as nat, e);
    assert(n * e <= (SIGNIFICAND_END as nat * e) * e) by (nonlinear_arith)
        requires
            n < SIGNIFICAND_END * e,
    ;
    lemma_nearest_monotone(n, e, SIGNIFICAND_END as nat * e, e);
    if k > 0 {
        lemma_nearest_exact(SIGNIFICAND_TOP as nat, e);
        assert((SIGNIFICAND_TOP as nat * e) * e <= n * e) by (nonlinear_arith)
            requires
                SIGNIFICAND_TOP * e <= n,
        ;
        lemma_nearest_monotone(SIGNIFICAND_TOP as nat * e, e, n, e);
    }
}

/// Rounding keeps the order of quotients.
pub(crate) proof fn lemma_rounded_monotone(n1: nat, d1: nat, n2: nat, d2: nat)
    requires
        d1 > 0,
        d2 > 0,
        n1 * d2 <= n2 * d1,
    ensures
        rounded(n1, d1) <= rounded(n2, d2),
{
    let (k1, k2) = (excess(n1, d1), excess(n2, d2));
    let (p1, p2) = (pow2(k1), pow2(k2));
    let (e1, e2) = (d1 * p1, d2 * p2);
    lemma_excess(n1, d1);
    lemma_excess(n2, d2);
    lemma_rounded_significand(n1, d1);
    lemma_rounded_significand(n2, d2);
    if k2 < k1 {
        lemma_pow2_gap(d1, k2, k1);
        assert(false) by (nonlinear_arith)
            requires
                n1 * d2 <= n2 * d1,
                n2 < SIGNIFICAND_END * (d2 * p2),
                SIGNIFICAND_TOP * (d1 * p1) <= n1,
                2 * (d1 * p2) <= d1 * p1,
                d1 > 0,
                d2 > 0,
        {
            assert(SIGNIFICAND_END * (d1 * p2) <= n1);
            assert(SIGNIFICAND_END * (d1 * p2) * d2 <= n1 * d2);
            assert(n2 * d1 < SIGNIFICAND_END * (d2 * p2) * d1);
            assert(SIGNIFICAND_END * (d2 * p2) * d1 == SIGNIFICAND_END * (d1 * p2) * d2);
        }
    }
    let (m1, m2) = (nearest(n1, e1), nearest(n2, e2));
    if k1 == k2 {
        assert(n1 * e2 <= n2 * e1) by (nonlinear_arith)
            requires
                n1 * d2 <= n2 * d1,
                e1 == d1 * p1,
                e2 == d2 * p1,
        {
            assert(n1 * d2 * p1 <= n2 * d1 * p1);
            assert(n1 * e2 == n1 * d2 * p1);
            assert(n2 * e1 == n2 * d1 * p1);
        }
        lemma_nearest_monotone(n1, e1, n2, e2);
        assert(m1 * p1 <= m2 * p2) by (nonlinear_arith)
            requires
                m1 <= m2,
                p1 == p2,
        ;
    } else {
        lemma_pow2_gap(1, k1, k2);
        assert(m1 * p1 <= m2 * p2) by (nonlinear_arith)
            requires
                m1 <= SIGNIFICAND_END,
                m2 >= SIGNIFICAND_TOP,
                2 * (1 * p1) <= 1 * p2,
        ;
    }
}

/// Rounding depends on the quotient alone.
pub(crate) proof fn lemma_rounded_ratio(n1: nat, d1: nat, n2: nat, d2: nat)
    requires
        d1 > 0,
        d2 > 0,
        n1 * d2 == n2 * d1,
    ensures
        rounded(n1, d1) == rounded(n2, d2),
{
    lemma_rounded_monotone(n1, d1, n2, d2);
    lemma_rounded_monotone(n2, d2, n1, d1);
}

/// A number of at most fifty-three significant digits rounds to itself.
pub(crate) proof fn lemma_rounded_exact(m: nat, j: nat, d: nat)
    requires
        d > 0,
        m <= SIGNIFICAND_END,
    ensures
        rounded(m * pow2(j) * d, d) == m * pow2(j),
{
    let v = m * pow2(j);
    let n = v * d;
    let k = excess(n, d);
    let p = pow2(k);
    lemma_excess(n, d);
    lemma_rounded_significand(n, d);
    lemma_pow2_pos(j);
    lemma_pow2_pos(k);
    if k <= j {
        lemma_pow2_adds(k, (j - k) as nat);
        let w = m * pow2((j - k) as nat);
        assert(n == w * (d * p) && v == w * p) by (nonlinear_arith)
            requires
                v == m * pow2(j),
                n == v * d,
                pow2(j) == p * pow2((j - k) as nat),
                w == m * pow2((j - k) as nat),
        ;
        lemma_nearest_exact(w, d * p);
    } else {
        lemma_pow2_gap(1, j, k);
        assert(SIGNIFICAND_TOP * p <= v) by (nonlinear_arith)
            requires
                SIGNIFICAND_TOP * (d * p) <= n,
                n == v * d,
                d > 0,
        ;
        assert(v <= SIGNIFICAND_END * pow2(j)) by (nonlinear_arith)
            requires
                v == m * pow2(j),
                m <= SIGNIFICAND_END,
        ;
        assert(v == SIGNIFICAND_TOP * p);
        assert(n == (SIGNIFICAND_TOP as nat) * (d * p)) by (nonlinear_arith)
            requires
                v == SIGNIFICAND_TOP * p,
                n == v * d,
        ;
        lemma_nearest_exact(SIGNIFICAND_TOP as nat, d * p);
    }
}

/// A quotient that rounds to `m` lies within one half of it.
pub(crate) proof fn lemma_nearest_error(n: nat, d: nat)
    requires
        d > 0,
    ensures
        2 * n <= 2 * (nearest(n, d) * d) + d,
        2 * (nearest(n, d) * d) <= 2 * n + d,
{
    lemma_divides(n, d);
    let f = n / d;
    assert((f + 1) * d == f * d + d) by (nonlinear_arith);
}

/// Rounding is to the nearest number of fifty-three digits, ties to even: a quotient with `k` digits
/// beyond its fifty-three leading ones rounds to `q * 2^k` if it is within half of `2^k` of that,
/// and also at half of `2^k` if `q` is even.
pub proof fn law_rounded_to_nearest(n: nat, d: nat, k: nat, q: nat)
    requires
        d > 0,
        n < SIGNIFICAND_END * (d * pow2(k)),
        k > 0 ==> SIGNIFICAND_TOP * (d * pow2(k)) <= n,
        ({
            let (e, m) = (d * pow2(k), q * (d * pow2(k)));
            ||| 2 * n < 2 * m + e && 2 * m < 2 * n + e
            ||| q % 2 == 0 && 2 * n <= 2 * m + e && 2 * m <= 2 * n + e
        }),
    ensures
        rounded(n, d) == q * pow2(k),
{
    lemma_excess_unique(n, d, k);
    lemma_pow2_pos(k);
    let e = d * pow2(k);
    assert(e > 0) by (nonlinear_arith)
        requires
            d > 0,
            pow2(k) > 0,
            e == d * pow2(k),
    ;
    lemma_divides(n, e);
    let (f, r) = (n / e, n % e);
    if q <= f {
        assert(q + 1 <= f ==> q * e + e <= f * e) by (nonlinear_arith);
        assert(q + 2 <= f ==> q * e + 2 * e <= f * e) by (nonlinear_arith);
    } else {
        assert(q == f + 1 ==> q * e == f * e + e) by (nonlinear_arith);
        assert(q >= f + 2 ==> q * e >= f * e + 2 * e) by (nonlinear_arith);
    }
}

} // verus!
