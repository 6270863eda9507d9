//! IEEE 754 binary64 arithmetic on integers, exact to the last bit.

use crate::order::lemma_zero;
use crate::rounding::{
    excess, lemma_excess_unique, lemma_nearest_error, lemma_nearest_ratio, lemma_rounded_ratio,
    lemma_rounded_significand, nearest, rounded, SIGNIFICAND_END, SIGNIFICAND_TOP,
};
use crate::value::{Value, END_DIGITS, SIGN_BIT, UNIT_DIGITS};
use vstd::arithmetic::power2::{
    lemma2_to64, lemma2_to64_rest, lemma_pow2_adds, lemma_pow2_pos, lemma_pow2_unfold, pow2,
};
use vstd::prelude::*;

verus! {

/// The greatest exponent, counted from that of one unit.
const EXPONENT_MAX: u32 = 2045;

#[derive(Clone, Copy, Debug)]
enum Kind {
    NaN,
    Infinite,
    Finite,
}

/// A binary64 number.
///
/// A finite number is `significand * 2^exponent` units. The significand has fifty-three binary
/// digits, or fewer if the exponent is zero.
#[derive(Clone, Copy, Debug)]
pub struct Binary64 {
    kind: Kind,
    negative: bool,
    significand: u64,
    exponent: u32,
}

impl View for Binary64 {
    type V = Value;

    closed spec fn view(&self) -> Value {
        match self.kind {
            Kind::NaN => Value::NaN,
            Kind::Infinite => Value::Infinite { negative: self.negative },
            Kind::Finite => Value::Finite { negative: self.negative, units: self.units() },
        }
    }
}

/// Two to the power of `s`.
fn power(s: u32) -> (p: u128)
    requires
        s < 128,
    ensures
        p == pow2(s as nat),
{
    let mut p: u128 = 1;
    let mut i: u32 = 0;
    proof {
        lemma2_to64();
    }
    while i < s
        invariant
            i <= s < 128,
            p == pow2(i as nat),
        decreases s - i,
    {
        proof {
            lemma_pow2_unfold((i + 1) as nat);
            lemma_below(i as nat + 1, 127);
        }
        p = p * 2;
        i = i + 1;
    }
    p
}

proof fn lemma_below(a: nat, b: nat)
    requires
        a <= b <= 127,
    ensures
        pow2(a) <= pow2(b) <= 0x8000_0000_0000_0000_0000_0000_0000_0000,
{
    lemma2_to64();
    lemma2_to64_rest();
    lemma_pow2_adds(63, 64);
    if a < b {
        vstd::arithmetic::power2::lemma_pow2_strictly_increases(a, b);
    }
    if b < 127 {
        vstd::arithmetic::power2::lemma_pow2_strictly_increases(b, 127);
    }
}

/// The number of binary digits of `n`.
fn digits(n: u128) -> (count: u32)
    ensures
        count <= 128,
        n < pow2(count as nat),
        count > 0 ==> pow2((count - 1) as nat) <= n,
{
    let mut rest: u128 = n;
    let mut count: u32 = 0;
    proof {
        lemma2_to64();
    }
    while rest > 0
        invariant
            count <= 128,
            rest * pow2(count as nat) <= n < (rest + 1) * pow2(count as nat),
            count > 0 ==> pow2((count - 1) as nat) <= n,
        decreases rest,
    {
        let ghost p = pow2(count as nat);
        let ghost before = rest;
        proof {
            lemma_pow2_unfold((count + 1) as nat);
            assert(p <= before * p) by (nonlinear_arith)
                requires
                    before >= 1,
            ;
            if count >= 128 {
                lemma_pow2_adds(64, 64);
                lemma2_to64();
                assert(pow2(128) == 0x1_0000_0000_0000_0000_0000_0000_0000_0000);
            }
        }
        rest = rest / 2;
        count = count + 1;
        proof {
            let half = rest;
            assert(half * (2 * p) <= before * p && (before + 1) * p <= (half + 1) * (2 * p))
                by (nonlinear_arith)
                requires
                    2 * half <= before,
                    before <= 2 * half + 1,
            ;
        }
    }
    assert((rest + 1) * pow2(count as nat) == pow2(count as nat)) by (nonlinear_arith)
        requires
            rest == 0,
    ;
    count
}

/// `2^e` as a multiple of `2^-4000`.
spec fn scale(e: int) -> nat {
    pow2((e + 4000) as nat)
}

proof fn lemma_scale(e: int, k: nat)
    requires
        e >= -4000,
    ensures
        scale(e + k) == scale(e) * pow2(k),
        scale(e) > 0,
        pow2(k) > 0,
{
    lemma_pow2_adds((e + 4000) as nat, k);
    lemma_pow2_pos((e + 4000) as nat);
    lemma_pow2_pos(k);
}

/// The exponent of the greatest power of two that is at most `n / d`.
fn quotient_exponent(n: u128, d: u128) -> (l: i32)
    requires
        0 < n < 0x0100_0000_0000_0000_0000_0000_0000_0000,
        0 < d < 0x1_0000_0000_0000_0000,
    ensures
        -64 <= l < 120,
        d * scale(l as int) <= n * scale(0),
        n * scale(0) < d * scale(l + 1),
{
    let a = digits(n);
    let b = digits(d);
    proof {
        lemma2_to64();
        lemma2_to64_rest();
        lemma_pow2_adds(64, 56);
        if a > 120 {
            lemma_below(120, (a - 1) as nat);
        }
        if b > 64 {
            lemma_below(64, (b - 1) as nat);
        }
    }
    let l: i32 = a as i32 - b as i32;
    let ghost (z, t) = (scale(0), scale(l as int));
    let ghost (p, q) = (pow2(a as nat), pow2(b as nat));
    proof {
        lemma_pow2_unfold(a as nat);
        lemma_pow2_unfold(b as nat);
        lemma_scale(0, a as nat);
        lemma_scale(l as int, b as nat);
        lemma_scale(l as int, 1);
        lemma_scale(l - 1, 1);
        // p / q is two to the power of l
        assert(p * z == q * t) by (nonlinear_arith)
            requires
                scale(a as int) == z * p,
                scale(a as int) == t * q,
        ;
        assert(n * z < d * (2 * t)) by (nonlinear_arith)
            requires
                n < p,
                q <= 2 * d,
                p * z == q * t,
                z > 0,
                t > 0,
        {
            assert(n * z < p * z);
            assert(q * t <= (2 * d) * t);
            assert((2 * d) * t == d * (2 * t));
        }
        assert(d * t < n * (2 * z)) by (nonlinear_arith)
            requires
                p <= 2 * n,
                d < q,
                p * z == q * t,
                z > 0,
                t > 0,
        {
            assert(d * t < q * t);
            assert(p * z <= (2 * n) * z);
            assert((2 * n) * z == n * (2 * z));
        }
    }
    let fits = if l >= 0 {
        let p = power(l as u32);
        proof {
            lemma_scale(0, l as nat);
            lemma_pow2_adds(b as nat, l as nat);
            lemma_below(a as nat, 120);
            assert(d * p <= q * p) by (nonlinear_arith)
                requires
                    d < q,
            ;
            assert(d * t == (d * p) * z) by (nonlinear_arith)
                requires
                    t == z * p,
            ;
            assert(n * z >= (d * p) * z <==> n >= d * p) by (nonlinear_arith)
                requires
                    z > 0,
            ;
        }
        n >= d * p
    } else {
        let p = power((0 - l) as u32);
        proof {
            lemma_scale(l as int, (-l) as nat);
            lemma_pow2_adds(a as nat, (-l) as nat);
            lemma_below(b as nat, 64);
            assert(n * p <= pow2(a as nat) * p) by (nonlinear_arith)
                requires
                    n < pow2(a as nat),
            ;
            assert(n * z == (n * p) * t) by (nonlinear_arith)
                requires
                    z == t * p,
            ;
            assert((n * p) * t >= d * t <==> n * p >= d) by (nonlinear_arith)
                requires
                    t > 0,
            ;
        }
        n * p >= d
    };
    if fits {
        l
    } else {
        proof {
            let h = scale(l - 1);
            assert(d * h <= n * z) by (nonlinear_arith)
                requires
                    d * t < n * (2 * z),
                    t == h * 2,
            {
                assert(d * t == 2 * (d * h));
                assert(n * (2 * z) == 2 * (n * z));
            }
        }
        l - 1
    }
}

impl Binary64 {
    #[verifier::type_invariant]
    closed spec fn well_formed(self) -> bool {
        &&& self.significand < SIGNIFICAND_END
        &&& self.exponent <= EXPONENT_MAX
        &&& self.exponent > 0 ==> self.significand >= SIGNIFICAND_TOP
    }

    /// The size of a finite number, in units.
    closed spec fn units(self) -> nat {
        self.significand as nat * pow2(self.exponent as nat)
    }

    /// Whether the number is a NaN.
    pub fn is_nan(self) -> (yes: bool)
        ensures
            yes == self@ is NaN,
    {
        match self.kind {
            Kind::NaN => true,
            _ => false,
        }
    }

    fn nan() -> (x: Binary64)
        ensures
            x@ == Value::NaN,
    {
        Binary64 { kind: Kind::NaN, negative: false, significand: 0, exponent: 0 }
    }

    fn infinite(negative: bool) -> (x: Binary64)
        ensures
            x@ == (Value::Infinite { negative }),
    {
        Binary64 { kind: Kind::Infinite, negative, significand: 0, exponent: 0 }
    }

    /// Zero.
    pub fn zero(negative: bool) -> (x: Binary64)
        ensures
            x@ == Value::zero(negative),
    {
        Binary64 { kind: Kind::Finite, negative, significand: 0, exponent: 0 }
    }

    /// The number of `significand * 2^exponent` units, which may be infinite.
    fn packed(negative: bool, significand: u64, exponent: u32) -> (x: Binary64)
        requires
            significand <= SIGNIFICAND_END,
            exponent <= 4000,
            exponent > 0 ==> significand >= SIGNIFICAND_TOP,
        ensures
            ({
                let units = significand as nat * pow2(exponent as nat);
                x@ == if units < pow2(END_DIGITS as nat) {
                    (Value::Finite { negative, units })
                } else {
                    (Value::Infinite { negative })
                }
            }),
    {
        let ghost units = significand as nat * pow2(exponent as nat);
        let m: u64 = if significand == SIGNIFICAND_END { SIGNIFICAND_TOP } else { significand };
        let k: u32 = if significand == SIGNIFICAND_END { exponent + 1 } else { exponent };
        proof {
            lemma_pow2_unfold((exponent + 1) as nat);
            assert(units == m * pow2(k as nat)) by (nonlinear_arith)
                requires
                    units == significand as nat * pow2(exponent as nat),
                    pow2((exponent + 1) as nat) == 2 * pow2(exponent as nat),
                    (m == significand && k == exponent) || (2 * m == significand && k == exponent
                        + 1),
            ;
            lemma_finite_end(m as nat, k as nat);
        }
        if k > EXPONENT_MAX {
            Binary64::infinite(negative)
        } else {
            Binary64 { kind: Kind::Finite, negative, significand: m, exponent: k }
        }
    }

    /// The number nearest to a size of `n / d * 2^e` units.
    fn rounded_quotient(negative: bool, n: u128, d: u128, e: i32) -> (x: Binary64)
        requires
            0 < n < 0x0100_0000_0000_0000_0000_0000_0000_0000,
            0 < d < 0x1_0000_0000_0000_0000,
            -3500 <= e <= 3500,
        ensures
            x@ == Value::sized(negative, n as nat * scale(e as int), d as nat * scale(0)),
    {
        let l = quotient_exponent(n, d);
        let k: i32 = if e + l > 52 { e + l - 52 } else { 0 };
        let s: i32 = k - e;
        let ghost (top, bottom) = (n as nat * scale(e as int), d as nat * scale(0));
        proof {
            lemma_quotient_excess(n as nat, d as nat, e as int, l as int, k as nat);
            lemma_rounded_significand(top, bottom);
            lemma_pow2_pos(k as nat);
        }
        if s >= l + 2 {
            proof {
                lemma_quotient_vanishes(n as nat, d as nat, e as int, l as int);
                lemma_pow2_pos(END_DIGITS as nat);
            }
            return Binary64::zero(negative);
        }
        let (num, den) = if s >= 0 {
            let p = power(s as u32);
            proof {
                lemma_quotient_shrunk(n as nat, d as nat, e as int, l as int, k as nat, p as nat);
            }
            (n, d * p)
        } else {
            let p = power((0 - s) as u32);
            proof {
                lemma_quotient_grown(n as nat, d as nat, e as int, l as int, k as nat, p as nat);
            }
            (n * p, d)
        };
        let below = num / den;
        let rest = num % den;
        let m = if rest < den - rest || (rest == den - rest && below % 2 == 0) {
            below
        } else {
            below + 1
        };
        assert(m == nearest(num as nat, den as nat));
        Binary64::packed(negative, m as u64, k as u32)
    }

    /// The number that an interchange format encodes.
    pub fn from_bits(bits: u64) -> (x: Binary64)
        ensures
            x@ == Value::encoded(bits),
    {
        let negative = bits >= SIGN_BIT;
        let field: u64 = (bits / SIGNIFICAND_TOP) % 2048;
        let fraction: u64 = bits % SIGNIFICAND_TOP;
        if field == 2047 {
            if fraction == 0 {
                Binary64::infinite(negative)
            } else {
                Binary64::nan()
            }
        } else if field == 0 {
            proof {
                lemma2_to64();
            }
            assert(fraction * pow2(0) == fraction);
            Binary64 { kind: Kind::Finite, negative, significand: fraction, exponent: 0 }
        } else {
            Binary64 {
                kind: Kind::Finite,
                negative,
                significand: SIGNIFICAND_TOP + fraction,
                exponent: (field - 1) as u32,
            }
        }
    }

    /// The interchange format of the number; that of a NaN is the quiet one without a payload.
    pub fn to_bits(self) -> (bits: u64)
        ensures
            Value::encoded(bits) == self@,
            self@ is NaN ==> bits == 0x7ff8_0000_0000_0000,
    {
        proof {
            use_type_invariant(&self);
        }
        let sign: u64 = if self.negative { SIGN_BIT } else { 0 };
        match self.kind {
            Kind::NaN => 0x7ff8_0000_0000_0000,
            Kind::Infinite => sign + 0x7ff0_0000_0000_0000,
            Kind::Finite => if self.significand < SIGNIFICAND_TOP {
                proof {
                    lemma2_to64();
                }
                assert(self.significand * pow2(0) == self.significand);
                sign + self.significand
            } else {
                let field: u64 = self.exponent as u64 + 1;
                let fraction: u64 = self.significand - SIGNIFICAND_TOP;
                sign + field * SIGNIFICAND_TOP + fraction
            },
        }
    }

    /// The number nearest to `n / d`.
    pub fn ratio(n: u64, d: u64) -> (x: Binary64)
        requires
            d > 0,
        ensures
            x@ == Value::ratio(n as nat, d as nat),
    {
        let ghost one = pow2(UNIT_DIGITS as nat);
        if n == 0 {
            proof {
                lemma_zero(d as nat);
                lemma_pow2_pos(END_DIGITS as nat);
                assert(0 * one == 0) by (nonlinear_arith);
            }
            return Binary64::zero(false);
        }
        proof {
            lemma_scale(0, UNIT_DIGITS as nat);
            assert((n * scale(UNIT_DIGITS as int)) * d == (n * one) * (d * scale(0)))
                by (nonlinear_arith)
                requires
                    scale(UNIT_DIGITS as int) == scale(0) * one,
            {
                assert((n * (scale(0) * one)) * d == (n * one) * (d * scale(0)));
            }
            lemma_scaled(n as nat, d as nat, n as nat * one, d as nat, UNIT_DIGITS as int);
        }
        Binary64::rounded_quotient(false, n as u128, d as u128, UNIT_DIGITS as i32)
    }

    /// The number nearest to `n`.
    pub fn whole(n: u64) -> (x: Binary64)
        ensures
            x@ == Value::whole(n as nat),
    {
        Binary64::ratio(n, 1)
    }

    /// The number with the other sign.
    pub fn negated(self) -> (x: Binary64)
        ensures
            x@ == self@.negated(),
    {
        proof {
            use_type_invariant(&self);
        }
        Binary64 {
            kind: self.kind,
            negative: !self.negative,
            significand: self.significand,
            exponent: self.exponent,
        }
    }

    /// The product.
    pub fn times(self, other: Binary64) -> (x: Binary64)
        ensures
            x@ == self@.times(other@),
    {
        proof {
            use_type_invariant(&self);
            use_type_invariant(&other);
            lemma_units_zero(self.significand as nat, self.exponent as nat);
            lemma_units_zero(other.significand as nat, other.exponent as nat);
        }
        let negative = self.negative != other.negative;
        match (self.kind, other.kind) {
            (Kind::NaN, _) => Binary64::nan(),
            (_, Kind::NaN) => Binary64::nan(),
            (Kind::Finite, Kind::Finite) => {
                let (a, b) = (self.significand, other.significand);
                let ghost (p, q) = (pow2(self.exponent as nat), pow2(other.exponent as nat));
                let ghost one = pow2(UNIT_DIGITS as nat);
                proof {
                    lemma_pow2_pos(UNIT_DIGITS as nat);
                    lemma_zero(one);
                    lemma_pow2_pos(END_DIGITS as nat);
                }
                if a == 0 || b == 0 {
                    assert(self.units() * other.units() == 0) by (nonlinear_arith)
                        requires
                            self.units() == 0 || other.units() == 0,
                    ;
                    return Binary64::zero(negative);
                }
                assert(0 < a * b < SIGNIFICAND_END * SIGNIFICAND_END) by (nonlinear_arith)
                    requires
                        0 < a < SIGNIFICAND_END,
                        0 < b < SIGNIFICAND_END,
                ;
                let n: u128 = a as u128 * b as u128;
                let e: i32 = self.exponent as i32 + other.exponent as i32 - UNIT_DIGITS as i32;
                proof {
                    let z = scale(0);
                    lemma_scale(0, self.exponent as nat);
                    lemma_scale(self.exponent as int, other.exponent as nat);
                    lemma_scale(e as int, UNIT_DIGITS as nat);
                    assert((a * b * scale(e as int)) * one == ((a * p) * (b * q)) * (1 * z))
                        by (nonlinear_arith)
                        requires
                            scale(e as int) * one == (z * p) * q,
                    {
                        assert((a * b * scale(e as int)) * one == (a * b) * (scale(e as int) * one));
                        assert(((a * p) * (b * q)) * (1 * z) == (a * b) * ((z * p) * q));
                    }
                    lemma_scaled(n as nat, 1, (a * p) as nat * (b * q) as nat, one, e as int);
                }
                Binary64::rounded_quotient(negative, n, 1, e)
            },
            (Kind::Finite, _) => if self.significand == 0 {
                Binary64::nan()
            } else {
                Binary64::infinite(negative)
            },
            (_, Kind::Finite) => if other.significand == 0 {
                Binary64::nan()
            } else {
                Binary64::infinite(negative)
            },
            _ => Binary64::infinite(negative),
        }
    }

    /// The quotient.
    pub fn over(self, other: Binary64) -> (x: Binary64)
        ensures
            x@ == self@.over(other@),
    {
        proof {
            use_type_invariant(&self);
            use_type_invariant(&other);
            lemma_units_zero(self.significand as nat, self.exponent as nat);
            lemma_units_zero(other.significand as nat, other.exponent as nat);
        }
        let negative = self.negative != other.negative;
        match (self.kind, other.kind) {
            (Kind::NaN, _) => Binary64::nan(),
            (_, Kind::NaN) => Binary64::nan(),
            (Kind::Infinite, Kind::Infinite) => Binary64::nan(),
            (Kind::Infinite, _) => Binary64::infinite(negative),
            (_, Kind::Infinite) => Binary64::zero(negative),
            (Kind::Finite, Kind::Finite) => {
                let (a, b) = (self.significand, other.significand);
                if b == 0 {
                    return if a == 0 { Binary64::nan() } else { Binary64::infinite(negative) };
                }
                let ghost (p, q) = (pow2(self.exponent as nat), pow2(other.exponent as nat));
                let ghost one = pow2(UNIT_DIGITS as nat);
                if a == 0 {
                    proof {
                        lemma_zero(other.units());
                        lemma_pow2_pos(END_DIGITS as nat);
                        assert(0 * one == 0) by (nonlinear_arith);
                    }
                    return Binary64::zero(negative);
                }
                let e: i32 = self.exponent as i32 - other.exponent as i32 + UNIT_DIGITS as i32;
                proof {
                    let z = scale(0);
                    lemma_scale(0, self.exponent as nat);
                    lemma_scale(self.exponent as int, UNIT_DIGITS as nat);
                    lemma_scale(e as int, other.exponent as nat);
                    assert((a * scale(e as int)) * (b * q) == ((a * p) * one) * (b * z))
                        by (nonlinear_arith)
                        requires
                            scale(e as int) * q == (z * p) * one,
                    {
                        assert((a * scale(e as int)) * (b * q) == (a * b) * (scale(e as int) * q));
                        assert(((a * p) * one) * (b * z) == (a * b) * ((z * p) * one));
                    }
                    lemma_scaled(a as nat, b as nat, (a * p) as nat * one, other.units(), e as int);
                }
                Binary64::rounded_quotient(negative, a as u128, b as u128, e)
            },
        }
    }

    /// The sum of two finite numbers, the first of which has the greater exponent.
    fn sum(big: Binary64, small: Binary64) -> (x: Binary64)
        requires
            big@ is Finite,
            small@ is Finite,
            big.exponent >= small.exponent,
        ensures
            x@ == big@.plus(small@),
            x@ == small@.plus(big@),
    {
        proof {
            use_type_invariant(&big);
            use_type_invariant(&small);
        }
        let ghost total = big@.signed_units() + small@.signed_units();
        let distance: u32 = big.exponent - small.exponent;
        if distance > 64 {
            proof {
                lemma_far(
                    big.significand as nat,
                    big.exponent as nat,
                    small.significand as nat,
                    small.exponent as nat,
                );
                lemma_finite_end(big.significand as nat, big.exponent as nat);
            }
            return big;
        }
        let p = power(distance);
        let ghost q = pow2(small.exponent as nat);
        let (m, b) = (big.significand, small.significand as u128);
        proof {
            lemma_below(distance as nat, 64);
            lemma_pow2_pos(distance as nat);
            lemma2_to64();
            lemma_pow2_adds(small.exponent as nat, distance as nat);
            assert(0 <= m * p < SIGNIFICAND_END * 0x1_0000_0000_0000_0000) by (nonlinear_arith)
                requires
                    0 <= m < SIGNIFICAND_END,
                    0 < p <= 0x1_0000_0000_0000_0000,
            ;
            assert(big.units() == (m * p) * q) by (nonlinear_arith)
                requires
                    big.units() == m * (q * p),
            ;
        }
        let a: u128 = m as u128 * p;
        let (negative, n): (bool, u128) = if big.negative == small.negative {
            (big.negative, a + b)
        } else if a > b {
            (big.negative, a - b)
        } else {
            (small.negative, b - a)
        };
        proof {
            lemma_pow2_pos(small.exponent as nat);
            assert(total == if negative {
                -(n * q)
            } else {
                n * q
            }) by {
                assert((a + b) * q == a * q + b * q) by (nonlinear_arith);
                assert((a - b) * q == a * q - b * q) by (nonlinear_arith);
                assert((b - a) * q == b * q - a * q) by (nonlinear_arith);
            }
            lemma_units_zero(n as nat, small.exponent as nat);
        }
        if n == 0 {
            return Binary64::zero(big.negative && small.negative);
        }
        proof {
            lemma_scale(0, small.exponent as nat);
            assert((n * scale(small.exponent as int)) * 1 == (n * q) * (1 * scale(0)))
                by (nonlinear_arith)
                requires
                    scale(small.exponent as int) == scale(0) * q,
            ;
            lemma_scaled(n as nat, 1, n as nat * q, 1, small.exponent as int);
            assert(n * q > 0) by (nonlinear_arith)
                requires
                    n > 0,
                    q > 0,
            ;
        }
        Binary64::rounded_quotient(negative, n, 1, small.exponent as i32)
    }

    /// The sum.
    pub fn plus(self, other: Binary64) -> (x: Binary64)
        ensures
            x@ == self@.plus(other@),
    {
        match (self.kind, other.kind) {
            (Kind::NaN, _) => Binary64::nan(),
            (_, Kind::NaN) => Binary64::nan(),
            (Kind::Infinite, Kind::Infinite) => if self.negative == other.negative {
                self
            } else {
                Binary64::nan()
            },
            (Kind::Infinite, _) => self,
            (_, Kind::Infinite) => other,
            (Kind::Finite, Kind::Finite) => if self.exponent >= other.exponent {
                Binary64::sum(self, other)
            } else {
                Binary64::sum(other, self)
            },
        }
    }

    /// The difference.
    pub fn minus(self, other: Binary64) -> (x: Binary64)
        ensures
            x@ == self@.minus(other@),
    {
        self.plus(other.negated())
    }

    /// Whether the number is less than the other.
    pub fn less(self, other: Binary64) -> (yes: bool)
        ensures
            yes == self@.less(other@),
    {
        proof {
            use_type_invariant(&self);
            use_type_invariant(&other);
        }
        match (self.kind, other.kind) {
            (Kind::NaN, _) => false,
            (_, Kind::NaN) => false,
            (Kind::Infinite, Kind::Infinite) => self.negative && !other.negative,
            (Kind::Infinite, _) => self.negative,
            (_, Kind::Infinite) => !other.negative,
            (Kind::Finite, Kind::Finite) => {
                let (a, b) = (self.significand, other.significand);
                let (j, k) = (self.exponent, other.exponent);
                proof {
                    lemma_size_order(a as nat, j as nat, b as nat, k as nat);
                    lemma_size_order(b as nat, k as nat, a as nat, j as nat);
                    lemma_units_zero(a as nat, j as nat);
                    lemma_units_zero(b as nat, k as nat);
                }
                if self.negative && other.negative {
                    k < j || (k == j && b < a)
                } else if self.negative {
                    a > 0 || b > 0
                } else if other.negative {
                    false
                } else {
                    j < k || (j == k && a < b)
                }
            },
        }
    }

    /// Whether the number is less than the other or equal to it.
    pub fn at_most(self, other: Binary64) -> (yes: bool)
        ensures
            yes == self@.at_most(other@),
    {
        !self.is_nan() && !other.is_nan() && !other.less(self)
    }

    /// The number without its minus.
    pub fn magnitude(self) -> (x: Binary64)
        ensures
            x@ == self@.magnitude(),
    {
        if self.less(Binary64::zero(false)) {
            self.negated()
        } else {
            self
        }
    }

    /// The whole part, as near to it as a `usize` can be; zero for a NaN.
    pub fn truncated(self) -> (n: usize)
        ensures
            n == self@.truncated(usize::MAX as nat),
    {
        proof {
            use_type_invariant(&self);
        }
        match self.kind {
            Kind::NaN => 0,
            Kind::Infinite => if self.negative { 0 } else { usize::MAX },
            Kind::Finite => {
                if self.negative {
                    return 0;
                }
                let (m, k) = (self.significand, self.exponent);
                if k >= UNIT_DIGITS {
                    proof {
                        lemma_whole_grown(m as nat, k as nat);
                    }
                    if k >= UNIT_DIGITS + 12 {
                        return usize::MAX;
                    }
                    let whole: u128 = m as u128 * power(k - UNIT_DIGITS);
                    if whole < usize::MAX as u128 { whole as usize } else { usize::MAX }
                } else {
                    proof {
                        lemma_whole_shrunk(m as nat, k as nat);
                    }
                    if UNIT_DIGITS - k >= 53 {
                        return 0;
                    }
                    let whole: u128 = m as u128 / power(UNIT_DIGITS - k);
                    if whole < usize::MAX as u128 { whole as usize } else { usize::MAX }
                }
            },
        }
    }
}

/// The order of sizes is that of their exponents, then of their significands.
proof fn lemma_size_order(a: nat, j: nat, b: nat, k: nat)
    requires
        a < SIGNIFICAND_END,
        b < SIGNIFICAND_END,
        k > 0 ==> b >= SIGNIFICAND_TOP,
    ensures
        j < k ==> a * pow2(j) < b * pow2(k),
        j == k ==> (a * pow2(j) < b * pow2(k) <==> a < b),
{
    lemma_pow2_pos(j);
    let (p, q) = (pow2(j), pow2(k));
    if j < k {
        lemma_pow2_adds(j, (k - j) as nat);
        lemma_pow2_unfold((k - j) as nat);
        lemma_pow2_pos((k - j - 1) as nat);
        let h = pow2((k - j - 1) as nat);
        assert(a * p < b * q) by (nonlinear_arith)
            requires
                a < SIGNIFICAND_END,
                b >= SIGNIFICAND_TOP,
                q == p * (2 * h),
                h >= 1,
                p > 0,
        {
            assert(a * p < SIGNIFICAND_END * p);
            assert(SIGNIFICAND_TOP * q <= b * q);
            assert(SIGNIFICAND_TOP * (p * (2 * h)) == (SIGNIFICAND_END * p) * h);
            assert(SIGNIFICAND_END * p <= (SIGNIFICAND_END * p) * h);
        }
    } else if j == k {
        assert(a * p < b * p <==> a < b) by (nonlinear_arith)
            requires
                p > 0,
        ;
    }
}

/// The whole part of a number that is whole.
proof fn lemma_whole_grown(m: nat, k: nat)
    requires
        m < SIGNIFICAND_END,
        m >= SIGNIFICAND_TOP,
        k >= UNIT_DIGITS,
    ensures
        (m * pow2(k)) / pow2(UNIT_DIGITS as nat) == m * pow2((k - UNIT_DIGITS) as nat),
        k >= UNIT_DIGITS + 12 ==> m * pow2((k - UNIT_DIGITS) as nat) >= 0x1_0000_0000_0000_0000,
        k < UNIT_DIGITS + 12 ==> m * pow2((k - UNIT_DIGITS) as nat) <= 0x1_0000_0000_0000_0000,
{
    let t = (k - UNIT_DIGITS) as nat;
    let one = pow2(UNIT_DIGITS as nat);
    lemma_pow2_pos(UNIT_DIGITS as nat);
    lemma_pow2_adds(t, UNIT_DIGITS as nat);
    lemma2_to64();
    lemma2_to64_rest();
    let p = pow2(t);
    assert(m * pow2(k) == (m * p) * one) by (nonlinear_arith)
        requires
            pow2(k) == p * one,
    ;
    vstd::arithmetic::div_mod::lemma_div_by_multiple((m * p) as int, one as int);
    if t > 12 {
        vstd::arithmetic::power2::lemma_pow2_strictly_increases(12, t);
    } else if t < 11 {
        vstd::arithmetic::power2::lemma_pow2_strictly_increases(t, 11);
    }
    assert(t >= 12 ==> m * p >= 0x1_0000_0000_0000_0000) by (nonlinear_arith)
        requires
            m >= SIGNIFICAND_TOP,
            t >= 12 ==> p >= 4096,
    ;
    assert(t < 12 ==> m * p <= 0x1_0000_0000_0000_0000) by (nonlinear_arith)
        requires
            m < SIGNIFICAND_END,
            t < 12 ==> p <= 2048,
    ;
}

/// The whole part of a number with digits behind the point.
proof fn lemma_whole_shrunk(m: nat, k: nat)
    requires
        m < SIGNIFICAND_END,
        k < UNIT_DIGITS,
    ensures
        (m * pow2(k)) / pow2(UNIT_DIGITS as nat) == m / pow2((UNIT_DIGITS - k) as nat),
        UNIT_DIGITS - k >= 53 ==> m / pow2((UNIT_DIGITS - k) as nat) == 0,
        pow2((UNIT_DIGITS - k) as nat) > 0,
{
    let t = (UNIT_DIGITS - k) as nat;
    lemma_pow2_pos(t);
    lemma_pow2_pos(k);
    lemma_pow2_adds(t, k);
    lemma2_to64_rest();
    let (p, q) = (pow2(k), pow2(t));
    assert(m * p == p * m && q * p == p * q) by (nonlinear_arith);
    vstd::arithmetic::div_mod::lemma_truncate_middle(m as int, p as int, q as int);
    vstd::arithmetic::div_mod::lemma_div_denominator((p * m) as int, p as int, q as int);
    vstd::arithmetic::div_mod::lemma_div_multiples_vanish(m as int, p as int);
    if t >= 53 {
        if t > 53 {
            vstd::arithmetic::power2::lemma_pow2_strictly_increases(53, t);
        }
        vstd::arithmetic::div_mod::lemma_basic_div(m as int, q as int);
    }
}

/// A number that is more than sixty-four binary places smaller is lost in the sum.
proof fn lemma_far(m: nat, k: nat, b: nat, j: nat)
    requires
        SIGNIFICAND_TOP <= m < SIGNIFICAND_END,
        b < SIGNIFICAND_END,
        j + 64 < k,
    ensures
        b * pow2(j) < m * pow2(k),
        rounded((m * pow2(k) + b * pow2(j)) as nat, 1) == m * pow2(k),
        rounded((m * pow2(k) - b * pow2(j)) as nat, 1) == m * pow2(k),
{
    let p = pow2(k);
    let h = pow2((k - 1) as nat);
    let small = b * pow2(j);
    let big = m * p;
    lemma_pow2_unfold(k);
    lemma_pow2_pos(k);
    lemma_pow2_pos((k - 1) as nat);
    lemma_pow2_adds(j, (k - j) as nat);
    lemma_pow2_pos(j);
    lemma2_to64();
    lemma2_to64_rest();
    vstd::arithmetic::power2::lemma_pow2_strictly_increases(64, (k - j) as nat);
    assert(1024 * small < p) by (nonlinear_arith)
        requires
            small == b * pow2(j),
            b < SIGNIFICAND_END,
            p == pow2(j) * pow2((k - j) as nat),
            pow2((k - j) as nat) > 0x1_0000_0000_0000_0000,
            pow2(j) > 0,
    {
        assert(pow2(j) * 0x1_0000_0000_0000_0000 <= p);
        assert(small <= SIGNIFICAND_END * pow2(j));
    }
    assert(SIGNIFICAND_TOP * p <= big <= (SIGNIFICAND_END - 1) * p) by (nonlinear_arith)
        requires
            big == m * p,
            SIGNIFICAND_TOP <= m <= SIGNIFICAND_END - 1,
    ;
    assert(1 * p == p && 1 * h == h);
    lemma_excess_unique((big + small) as nat, 1, k);
    lemma_near((big + small) as nat, p, m);
    if m > SIGNIFICAND_TOP {
        assert((SIGNIFICAND_TOP + 1) * p <= big) by (nonlinear_arith)
            requires
                big == m * p,
                SIGNIFICAND_TOP + 1 <= m,
        ;
        lemma_excess_unique((big - small) as nat, 1, k);
        lemma_near((big - small) as nat, p, m);
    } else {
        assert(big == SIGNIFICAND_END * h) by (nonlinear_arith)
            requires
                big == SIGNIFICAND_TOP * p,
                p == 2 * h,
        ;
        if small > 0 {
            lemma_excess_unique((big - small) as nat, 1, (k - 1) as nat);
            lemma_near((big - small) as nat, h, SIGNIFICAND_END as nat);
        }
    }
}

/// A quotient that is less than one half away from a whole number rounds to it.
proof fn lemma_near(n: nat, d: nat, m: nat)
    requires
        d > 0,
        2 * n < 2 * (m * d) + d,
        2 * (m * d) < 2 * n + d,
    ensures
        nearest(n, d) == m,
{
    lemma_nearest_error(n, d);
    let a = nearest(n, d);
    assert(a == m) by (nonlinear_arith)
        requires
            2 * n < 2 * (m * d) + d,
            2 * (m * d) < 2 * n + d,
            2 * n <= 2 * (a * d) + d,
            2 * (a * d) <= 2 * n + d,
            d > 0,
    {
        assert(m * d < a * d + d);
        assert(a * d < m * d + d);
        assert((a + 1) * d == a * d + d);
        assert((m + 1) * d == m * d + d);
    }
}

proof fn lemma_units_zero(m: nat, k: nat)
    ensures
        m * pow2(k) == 0 <==> m == 0,
{
    lemma_pow2_pos(k);
    assert(m * pow2(k) == 0 <==> m == 0) by (nonlinear_arith)
        requires
            pow2(k) > 0,
    ;
}

/// `n / d * 2^e` rounds as `top / bottom` does, if they are equal.
proof fn lemma_scaled(n: nat, d: nat, top: nat, bottom: nat, e: int)
    requires
        d > 0,
        bottom > 0,
        (n * scale(e)) * bottom == top * (d * scale(0)),
    ensures
        rounded(n * scale(e), d * scale(0)) == rounded(top, bottom),
{
    lemma_scale(0, 0);
    assert(d * scale(0) > 0) by (nonlinear_arith)
        requires
            d > 0,
            scale(0) > 0,
    ;
    lemma_rounded_ratio(n * scale(e), d * scale(0), top, bottom);
}

/// A number is finite if its exponent is not beyond the greatest one.
proof fn lemma_finite_end(m: nat, k: nat)
    requires
        m < SIGNIFICAND_END,
        k > 0 ==> m >= SIGNIFICAND_TOP,
    ensures
        m * pow2(k) < pow2(END_DIGITS as nat) <==> k <= EXPONENT_MAX,
{
    lemma2_to64();
    lemma2_to64_rest();
    lemma_pow2_pos(k);
    let p = pow2(k);
    if k <= EXPONENT_MAX {
        lemma_pow2_adds(53, EXPONENT_MAX as nat);
        if k < EXPONENT_MAX {
            vstd::arithmetic::power2::lemma_pow2_strictly_increases(k, EXPONENT_MAX as nat);
        }
        assert(m * p < SIGNIFICAND_END * pow2(EXPONENT_MAX as nat)) by (nonlinear_arith)
            requires
                m < SIGNIFICAND_END,
                0 < p <= pow2(EXPONENT_MAX as nat),
        ;
    } else {
        lemma_pow2_adds(52, 2046);
        if k > 2046 {
            vstd::arithmetic::power2::lemma_pow2_strictly_increases(2046, k);
        }
        assert(m * p >= SIGNIFICAND_TOP * pow2(2046)) by (nonlinear_arith)
            requires
                m >= SIGNIFICAND_TOP,
                p >= pow2(2046),
        ;
    }
}

/// The number of digits to round away, from the leading exponent `l` of `n / d`.
proof fn lemma_quotient_excess(n: nat, d: nat, e: int, l: int, k: nat)
    requires
        0 < n,
        0 < d,
        -3500 <= e <= 3500,
        -64 <= l < 120,
        d * scale(l) <= n * scale(0),
        n * scale(0) < d * scale(l + 1),
        k == if e + l > 52 {
            e + l - 52
        } else {
            0
        },
    ensures
        excess(n * scale(e), d * scale(0)) == k,
        d * scale(0) > 0,
{
    let z = scale(0);
    let top = n * scale(e);
    let bottom = d * z;
    lemma2_to64();
    lemma2_to64_rest();
    lemma_scale(0, k);
    lemma_scale_product(l, e);
    lemma_scale_product(l + 1, e);
    lemma_scale_order(e + l + 1, k as int + 53);
    lemma_scale(k as int, 53);
    lemma_scale(k as int, 52);
    lemma_scale(e, 0);
    assert(bottom > 0) by (nonlinear_arith)
        requires
            d > 0,
            z > 0,
            bottom == d * z,
    ;
    let q = bottom * pow2(k);
    assert(q == d * scale(k as int)) by (nonlinear_arith)
        requires
            q == (d * z) * pow2(k),
            scale(k as int) == z * pow2(k),
    ;
    assert(top < SIGNIFICAND_END * q) by (nonlinear_arith)
        requires
            top == n * scale(e),
            n * z < d * scale(l + 1),
            scale(l + 1) * scale(e) == scale(e + l + 1) * z,
            scale(e + l + 1) <= scale(k as int + 53),
            scale(k as int + 53) == scale(k as int) * SIGNIFICAND_END,
            q == d * scale(k as int),
            z > 0,
            scale(e) > 0,
    {
        assert(n * z * scale(e) < d * scale(l + 1) * scale(e));
        assert(d * scale(l + 1) * scale(e) == d * (scale(e + l + 1) * z));
        assert(d * scale(e + l + 1) <= d * scale(k as int + 53));
        assert(top * z < d * scale(k as int + 53) * z);
        assert(top < d * scale(k as int + 53));
    }
    if k > 0 {
        assert(SIGNIFICAND_TOP * q <= top) by (nonlinear_arith)
            requires
                top == n * scale(e),
                d * scale(l) <= n * z,
                scale(l) * scale(e) == scale(e + l) * z,
                scale(e + l) == scale(k as int) * SIGNIFICAND_TOP,
                q == d * scale(k as int),
                z > 0,
                scale(e) > 0,
        {
            assert(d * scale(l) * scale(e) <= n * z * scale(e));
            assert(d * scale(l) * scale(e) == d * (scale(e + l) * z));
            assert(d * scale(e + l) * z <= top * z);
            assert(d * scale(e + l) <= top);
        }
    }
    lemma_excess_unique(top, bottom, k);
}

proof fn lemma_scale_product(a: int, b: int)
    requires
        a >= -4000,
        b >= -4000,
        a + b >= -4000,
    ensures
        scale(a) * scale(b) == scale(a + b) * scale(0),
{
    lemma_pow2_adds((a + 4000) as nat, (b + 4000) as nat);
    lemma_pow2_adds((a + b + 4000) as nat, 4000);
}

/// A quotient below one half of a unit rounds to zero.
proof fn lemma_quotient_vanishes(n: nat, d: nat, e: int, l: int)
    requires
        0 < d,
        -3500 <= e <= 3500,
        -64 <= l < 120,
        n * scale(0) < d * scale(l + 1),
        e + l + 2 <= 0,
        excess(n * scale(e), d * scale(0)) == 0,
    ensures
        rounded(n * scale(e), d * scale(0)) == 0,
{
    let z = scale(0);
    let top = n * scale(e);
    let bottom = d * z;
    lemma_scale_product(l + 1, e);
    lemma_scale_order(e + l + 1, -1);
    lemma_scale(-1, 1);
    lemma_scale(e, 0);
    lemma2_to64();
    assert(2 * top < bottom) by (nonlinear_arith)
        requires
            top == n * scale(e),
            bottom == d * z,
            n * z < d * scale(l + 1),
            scale(l + 1) * scale(e) == scale(e + l + 1) * z,
            scale(e + l + 1) <= scale(-1),
            z == scale(-1) * 2,
            z > 0,
            scale(e) > 0,
    {
        assert(n * z * scale(e) < d * scale(l + 1) * scale(e));
        assert(d * scale(l + 1) * scale(e) == d * (scale(e + l + 1) * z));
        assert(d * scale(e + l + 1) <= d * scale(-1));
        assert(top * z < d * scale(-1) * z);
        assert(top < d * scale(-1));
    }
    vstd::arithmetic::div_mod::lemma_basic_div(top as int, bottom as int);
    vstd::arithmetic::div_mod::lemma_small_mod(top, bottom);
    assert(bottom * pow2(0) == bottom);
    assert(nearest(top, bottom) == 0);
    assert(0 * pow2(0) == 0);
}

/// Digits are rounded away by a greater denominator.
proof fn lemma_quotient_shrunk(n: nat, d: nat, e: int, l: int, k: nat, p: nat)
    requires
        0 < d,
        -3500 <= e <= 3500,
        -64 <= l < 120,
        d * scale(l) <= n * scale(0),
        0 <= k - e <= l + 1,
        p == pow2((k - e) as nat),
    ensures
        0 < d * p <= 2 * n,
        nearest(n, d * p) == nearest(n * scale(e), (d * scale(0)) * pow2(k)),
{
    let z = scale(0);
    let s = (k - e) as nat;
    lemma_scale(0, s);
    lemma_scale(0, k);
    lemma_scale(e, s);
    lemma_scale(l, 1);
    lemma_scale_order(s as int, l + 1);
    lemma2_to64();
    assert(d * p <= 2 * n) by (nonlinear_arith)
        requires
            scale(s as int) == z * p,
            scale(s as int) <= scale(l + 1),
            scale(l + 1) == scale(l) * 2,
            d * scale(l) <= n * z,
            z > 0,
    {
        assert(d * scale(s as int) <= d * scale(l + 1));
        assert(d * scale(s as int) == (d * p) * z);
        assert(d * scale(l + 1) == 2 * (d * scale(l)));
        assert((d * p) * z <= (2 * n) * z);
    }
    assert(d * p > 0 && (d * z) * pow2(k) > 0) by (nonlinear_arith)
        requires
            d > 0,
            p > 0,
            z > 0,
            pow2(k) > 0,
    ;
    assert(n * ((d * z) * pow2(k)) == (n * scale(e)) * (d * p)) by (nonlinear_arith)
        requires
            scale(k as int) == z * pow2(k),
            scale(k as int) == scale(e) * p,
    {
        assert(n * ((d * z) * pow2(k)) == (n * d) * (z * pow2(k)));
        assert((n * scale(e)) * (d * p) == (n * d) * (scale(e) * p));
    }
    lemma_nearest_ratio(n, d * p, n * scale(e), (d * z) * pow2(k));
}

/// Digits are brought in front of the point by a greater numerator.
proof fn lemma_quotient_grown(n: nat, d: nat, e: int, l: int, k: nat, p: nat)
    requires
        0 < d,
        -3500 <= e <= 3500,
        -64 <= l < 120,
        n * scale(0) < d * scale(l + 1),
        k < e,
        e - k <= 52 - l,
        p == pow2((e - k) as nat),
    ensures
        n * p < SIGNIFICAND_END * d,
        nearest(n * p, d) == nearest(n * scale(e), (d * scale(0)) * pow2(k)),
{
    let z = scale(0);
    let t = (e - k) as nat;
    lemma_scale(0, k);
    lemma_scale(k as int, t);
    lemma_scale(l + 1, t);
    lemma_scale_order(l + 1 + t, 53);
    lemma_scale(0, 53);
    lemma2_to64();
    lemma2_to64_rest();
    assert(n * p < SIGNIFICAND_END * d) by (nonlinear_arith)
        requires
            scale(l + 1 + t) == scale(l + 1) * p,
            scale(l + 1 + t) <= scale(53),
            scale(53) == z * SIGNIFICAND_END,
            n * z < d * scale(l + 1),
            z > 0,
            p > 0,
    {
        assert((n * z) * p < (d * scale(l + 1)) * p);
        assert((d * scale(l + 1)) * p == d * scale(l + 1 + t));
        assert(d * scale(l + 1 + t) <= d * scale(53));
        assert(d * scale(53) == (SIGNIFICAND_END * d) * z);
        assert((n * p) * z < (SIGNIFICAND_END * d) * z);
    }
    assert((d * z) * pow2(k) > 0) by (nonlinear_arith)
        requires
            d > 0,
            z > 0,
            pow2(k) > 0,
    ;
    assert((n * p) * ((d * z) * pow2(k)) == (n * scale(e)) * d) by (nonlinear_arith)
        requires
            scale(k as int) == z * pow2(k),
            scale(e) == scale(k as int) * p,
    {
        assert((n * p) * ((d * z) * pow2(k)) == (n * d) * ((z * pow2(k)) * p));
        assert((n * scale(e)) * d == (n * d) * scale(e));
    }
    lemma_nearest_ratio(n * p, d, n * scale(e), (d * z) * pow2(k));
}

proof fn lemma_scale_order(a: int, b: int)
    requires
        -4000 <= a <= b,
    ensures
        scale(a) <= scale(b),
{
    if a < b {
        vstd::arithmetic::power2::lemma_pow2_strictly_increases((a + 4000) as nat, (b + 4000) as nat);
    }
}

} // verus!
