use cubic::binary64::Binary64;

/// A fixed sequence of bit patterns that look random.
fn patterns(count: usize, seed: u64) -> Vec<u64> {
    let mut state = seed;
    let mut list = Vec::new();
    for _ in 0..count {
        state ^= state << 13;
        state ^= state >> 7;
        state ^= state << 17;
        list.push(state);
    }
    list
}

fn soft(x: f64) -> Binary64 {
    Binary64::from_bits(x.to_bits())
}

fn assert_same(soft: Binary64, hard: f64, what: &str, a: f64, b: f64) {
    let bits = soft.to_bits();
    if hard.is_nan() {
        assert!(f64::from_bits(bits).is_nan(), "{what} {a:e} {b:e}");
    } else {
        assert_eq!(bits, hard.to_bits(), "{what} {a:e} {b:e}");
    }
}

fn compare(a: f64, b: f64) {
    let (x, y) = (soft(a), soft(b));
    assert_same(x, a, "same", a, b);
    assert_same(x.plus(y), a + b, "sum", a, b);
    assert_same(x.minus(y), a - b, "difference", a, b);
    assert_same(x.times(y), a * b, "product", a, b);
    assert_same(x.over(y), a / b, "quotient", a, b);
    assert_same(x.negated(), -a, "negated", a, b);
    assert_eq!(x.less(y), a < b, "less {a:e} {b:e}");
    assert_eq!(x.at_most(y), a <= b, "at most {a:e} {b:e}");
    assert_eq!(x.is_nan(), a.is_nan(), "nan {a:e}");
    assert_eq!(x.truncated(), a as usize, "truncated {a:e}");
}

#[test]
fn special_numbers_match_hardware() {
    let list = [
        0.0,
        -0.0,
        1.0,
        -1.0,
        0.5,
        -0.5,
        0.7,
        1.0 / 3.0,
        2.0,
        3.0,
        9007199254740991.0,
        9007199254740992.0,
        9007199254740994.0,
        18446744073709549568.0,
        18446744073709551616.0,
        f64::MIN_POSITIVE,
        f64::MIN_POSITIVE / 2.0,
        f64::from_bits(1),
        f64::from_bits(2),
        f64::from_bits(3),
        f64::MAX,
        f64::MIN,
        f64::INFINITY,
        f64::NEG_INFINITY,
        f64::NAN,
        f64::EPSILON,
        1.0 + f64::EPSILON,
        1.0 - f64::EPSILON / 2.0,
    ];
    for &a in list.iter() {
        for &b in list.iter() {
            compare(a, b);
        }
    }
}

#[test]
fn any_bit_patterns_match_hardware() {
    let list = patterns(4000, 0x9e37_79b9_7f4a_7c15);
    for pair in list.chunks(2) {
        compare(f64::from_bits(pair[0]), f64::from_bits(pair[1]));
    }
}

#[test]
fn numbers_of_like_size_match_hardware() {
    let list = patterns(8000, 0x2545_f491_4f6c_dd1d);
    for pair in list.chunks(2) {
        // Exponents that differ by no more than sixty-three.
        let a = (pair[0] & 0x800f_ffff_ffff_ffff) | (1000 + (pair[0] >> 52) % 64) << 52;
        let b = (pair[1] & 0x800f_ffff_ffff_ffff) | (1000 + (pair[1] >> 52) % 64) << 52;
        compare(f64::from_bits(a), f64::from_bits(b));
        // Few significant digits, so that ties are common.
        let a = f64::from_bits(a & 0xffff_f000_0000_0000);
        let b = f64::from_bits(b & 0xffff_f000_0000_0000);
        compare(a, b);
        compare(a * 4503599627370497.0, b);
    }
}

#[test]
fn whole_numbers_match_hardware() {
    for n in patterns(4000, 0xd1b5_4a32_d192_ed03) {
        for shift in [0, 5, 9, 10, 11, 12, 40] {
            let n = n >> shift;
            assert_eq!(Binary64::whole(n).to_bits(), (n as f64).to_bits());
        }
    }
    for n in [0, 1, 2, (1 << 53) - 1, 1 << 53, (1 << 53) + 1, (1 << 53) + 3, u64::MAX] {
        assert_eq!(Binary64::whole(n).to_bits(), (n as f64).to_bits());
    }
}

#[test]
fn ratios_match_literals() {
    assert_eq!(Binary64::ratio(7, 10).to_bits(), 0.7f64.to_bits());
    assert_eq!(Binary64::ratio(4, 10).to_bits(), 0.4f64.to_bits());
    assert_eq!(Binary64::ratio(1, 3).to_bits(), (1.0f64 / 3.0).to_bits());
    assert_eq!(Binary64::ratio(0, 3).to_bits(), 0.0f64.to_bits());
    assert_eq!(
        Binary64::ratio(8_879_040_017_426_005, 1_000_000_000_000_000).to_bits(),
        8.879040017426005f64.to_bits()
    );
    assert_eq!(Binary64::ratio(8_879_040_017_426, 10_000_000).to_bits(), 887904.0017426f64.to_bits());
}

#[test]
fn interchange_format_is_kept() {
    for bits in patterns(4000, 0xa076_1d64_78bd_642f) {
        let x = Binary64::from_bits(bits);
        if x.is_nan() {
            assert_eq!(x.to_bits(), 0x7ff8_0000_0000_0000);
        } else {
            assert_eq!(x.to_bits(), bits);
        }
    }
}
