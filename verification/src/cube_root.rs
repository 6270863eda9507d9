//! The cube root of a binary64 number, by Newton's method.

use crate::binary64::Binary64;
use crate::value::Value;
use vstd::prelude::*;

verus! {

/// How often the first step may be repeated.
pub const REPEATS: u32 = 20;

/// One step toward the cube root of `a`: `(2x + a / x^2) / 3`.
pub open spec fn newton_step(a: Value, x: Value) -> Value {
    Value::whole(2).times(x).plus(a.over(x.times(x))).over(Value::whole(3))
}

/// What the steps from `x` lead to: the first step that moves by less than the tolerance, or the
/// one after `n` that did not.
pub open spec fn newton(a: Value, x: Value, tolerance: Value, n: nat) -> Value
    decreases n,
{
    let next = newton_step(a, x);
    if n == 0 || next.minus(x).magnitude().less(tolerance) {
        next
    } else {
        newton(a, next, tolerance, (n - 1) as nat)
    }
}

/// The tolerance and the first guess for the cube root of `a`. The guess is the cube root of
/// seven tenths of a power of a thousand: that which is next above `a`, as far as the list goes.
/// The tolerance settles the root to nine digits for `a` between `2^-7` and `2^64`, and to ten for
/// `a` of at least one half among them. Below that range the root may be too great, by `2^-9` at
/// most; above it, it may be too great as well.
pub open spec fn first_guess(a: Value) -> (Value, Value) {
    if a.less(Value::whole(1_000)) {
        (Value::ratio(1, 1_000_000), Value::ratio(8_879_040_017_426_005, 1_000_000_000_000_000))
    } else if a.less(Value::whole(1_000_000)) {
        (Value::ratio(5, 1_000_000), Value::ratio(8_879_040_017_426_004, 100_000_000_000_000))
    } else if a.less(Value::whole(1_000_000_000)) {
        (Value::ratio(50, 1_000_000), Value::ratio(8_879_040_017_426_004, 10_000_000_000_000))
    } else if a.less(Value::whole(1_000_000_000_000)) {
        (Value::ratio(500, 1_000_000), Value::ratio(8_879_040_017_426_003, 1_000_000_000_000))
    } else if a.less(Value::whole(1_000_000_000_000_000)) {
        (Value::ratio(5_000, 1_000_000), Value::ratio(8_879_040_017_426_001, 100_000_000_000))
    } else {
        (Value::ratio(50_000, 1_000_000), Value::ratio(8_879_040_017_426, 10_000_000))
    }
}

/// The approximation of the cube root of `a`, which a number that is zero or less has not.
pub open spec fn cube_root_value(a: Value) -> Option<Value> {
    if a.at_most(Value::zero(false)) {
        None
    } else {
        let (tolerance, guess) = first_guess(a);
        Some(newton(a, guess, tolerance, REPEATS as nat))
    }
}

fn first_guess_for(a: Binary64) -> (start: (Binary64, Binary64))
    ensures
        (start.0@, start.1@) == first_guess(a@),
{
    if a.less(Binary64::whole(1_000)) {
        (Binary64::ratio(1, 1_000_000), Binary64::ratio(8_879_040_017_426_005, 1_000_000_000_000_000))
    } else if a.less(Binary64::whole(1_000_000)) {
        (Binary64::ratio(5, 1_000_000), Binary64::ratio(8_879_040_017_426_004, 100_000_000_000_000))
    } else if a.less(Binary64::whole(1_000_000_000)) {
        (Binary64::ratio(50, 1_000_000), Binary64::ratio(8_879_040_017_426_004, 10_000_000_000_000))
    } else if a.less(Binary64::whole(1_000_000_000_000)) {
        (Binary64::ratio(500, 1_000_000), Binary64::ratio(8_879_040_017_426_003, 1_000_000_000_000))
    } else if a.less(Binary64::whole(1_000_000_000_000_000)) {
        (Binary64::ratio(5_000, 1_000_000), Binary64::ratio(8_879_040_017_426_001, 100_000_000_000))
    } else {
        (Binary64::ratio(50_000, 1_000_000), Binary64::ratio(8_879_040_017_426, 10_000_000))
    }
}

/// The approximation of the cube root of `a`; `None` if `a` is zero or less.
pub fn cube_root(a: Binary64) -> (root: Option<Binary64>)
    ensures
        match root {
            Some(x) => cube_root_value(a@) == Some(x@),
            None => cube_root_value(a@) is None,
        },
        root is None <==> a@.at_most(Value::zero(false)),
{
    if a.at_most(Binary64::zero(false)) {
        return None;
    }
    let (tolerance, guess) = first_guess_for(a);
    let mut x: Binary64 = guess;
    let mut n: u32 = REPEATS;
    loop
        invariant
            newton(a@, guess@, tolerance@, REPEATS as nat) == newton(a@, x@, tolerance@, n as nat),
            cube_root_value(a@) == Some(newton(a@, guess@, tolerance@, REPEATS as nat)),
        decreases n,
    {
        let next = Binary64::whole(2).times(x).plus(a.over(x.times(x))).over(Binary64::whole(3));
        if next.minus(x).magnitude().less(tolerance) {
            return Some(next);
        }
        x = next;
        if n == 0 {
            return Some(next);
        }
        n = n - 1;
    }
}

} // verus!
