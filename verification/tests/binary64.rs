//! Holds the integer arithmetic of `Binary64` to the floats of the machine.

use congestion::cube_root;
use congestion::cube_root::abs;
use congestion::Binary64;

fn of_float(x: f64) -> Binary64 {
    let bits = x.to_bits();
    let negative = bits >> 63 == 1;
    let field = ((bits >> 52) & 0x7ff) as i32;
    let fraction = bits & ((1 << 52) - 1);
    if field == 0x7ff {
        if fraction != 0 {
            Binary64::Nan
        } else {
            Binary64::Infinity { negative }
        }
    } else if field == 0 {
        Binary64::Finite { negative, significand: fraction, exponent: -1074 }
    } else {
        Binary64::Finite { negative, significand: fraction | (1 << 52), exponent: field - 1075 }
    }
}

fn fields(x: Binary64) -> (u8, bool, u64, i32) {
    match x {
        Binary64::Nan => (0, false, 0, 0),
        Binary64::Infinity { negative } => (1, negative, 0, 0),
        Binary64::Finite { negative, significand, exponent } => {
            (2, negative, significand, exponent)
        }
    }
}

fn same(a: Binary64, x: f64) -> bool {
    fields(a) == fields(of_float(x))
}

/// A stream of numbers by xorshift.
fn next(state: &mut u64) -> u64 {
    let mut x = *state;
    x ^= x << 13;
    x ^= x >> 7;
    x ^= x << 17;
    *state = x;
    x
}

fn special_values() -> Vec<f64> {
    let mut values = vec![
        0.0,
        1.0,
        2.0,
        3.0,
        0.7,
        0.4,
        1.5,
        0.1,
        1.0e6,
        1.0e15,
        1.0e16,
        9007199254740991.0,
        9007199254740992.0,
        9007199254740994.0,
        18446744073709551615.0,
        f64::MAX,
        f64::MIN_POSITIVE,
        f64::EPSILON,
        f64::INFINITY,
        f64::NAN,
    ];
    values.push(f64::from_bits(1));
    values.push(f64::from_bits(0x000f_ffff_ffff_ffff));
    values.push(f64::from_bits(0x7fef_ffff_ffff_fffe));
    values.push(f64::from_bits(0x3ff0_0000_0000_0001));
    values.push(f64::from_bits(0x3fef_ffff_ffff_ffff));
    let n = values.len();
    for i in 0..n {
        values.push(-values[i]);
    }
    values
}

fn check_pair(x: f64, y: f64) {
    let a = of_float(x);
    let b = of_float(y);
    assert!(same(a.add(b), x + y), "{} + {}", x, y);
    assert!(same(a.sub(b), x - y), "{} - {}", x, y);
    assert!(same(a.mul(b), x * y), "{} * {}", x, y);
    assert!(same(a.div(b), x / y), "{} / {}", x, y);
    assert_eq!(a.lt(b), x < y, "{} < {}", x, y);
    assert_eq!(a.le(b), x <= y, "{} <= {}", x, y);
    if x != y {
        assert!(same(a.min(b), x.min(y)), "min {} {}", x, y);
    }
}

#[test]
fn operations_on_special_values() {
    let values = special_values();
    for x in values.iter() {
        for y in values.iter() {
            check_pair(*x, *y);
        }
    }
}

#[test]
fn operations_on_arbitrary_bits() {
    let mut state = 0x9e37_79b9_7f4a_7c15;
    for _ in 0..40_000 {
        let x = f64::from_bits(next(&mut state));
        let y = f64::from_bits(next(&mut state));
        check_pair(x, y);
    }
}

#[test]
fn operations_on_neighbouring_magnitudes() {
    let mut state = 0x1234_5678_9abc_def1;
    for _ in 0..40_000 {
        let r = next(&mut state);
        let x = f64::from_bits(next(&mut state));
        let shift = (r % 140) as i64 - 70;
        let field = ((x.to_bits() >> 52) & 0x7ff) as i64;
        let moved = (field + shift).clamp(0, 0x7fe) as u64;
        let fraction = next(&mut state) & ((1 << 52) - 1);
        let sign = r & (1 << 63);
        check_pair(x, f64::from_bits(sign | (moved << 52) | fraction));
    }
}

#[test]
fn integers_and_back() {
    let mut state = 0x0dd0_feed_0dd0_feed;
    for shift in 0..64 {
        for _ in 0..200 {
            let n = next(&mut state) >> shift;
            assert!(same(Binary64::from_u64(n), n as f64), "{}", n);
        }
    }
    assert!(same(Binary64::from_u64(u64::MAX), u64::MAX as f64));
    assert!(same(Binary64::from_u64(0), 0.0));
    for x in special_values().iter() {
        assert_eq!(of_float(*x).to_usize(), *x as usize, "{}", x);
    }
    for _ in 0..20_000 {
        let exponent = 1000 + next(&mut state) % 100;
        let x = f64::from_bits((exponent << 52) | (next(&mut state) & ((1 << 52) - 1)));
        assert_eq!(of_float(x).to_usize(), x as usize, "{}", x);
        assert_eq!(of_float(-x).to_usize(), 0);
    }
}

#[test]
fn ties_go_to_the_even_significand() {
    // 2^53 + 1 lies between 2^53 and 2^53 + 2, 2^53 + 3 between 2^53 + 2 and 2^53 + 4.
    assert_eq!(Binary64::from_u64(9007199254740993).to_usize(), 9007199254740992);
    assert_eq!(Binary64::from_u64(9007199254740995).to_usize(), 9007199254740996);
}

#[test]
fn sums_and_products_commute() {
    let values = special_values();
    for x in values.iter() {
        for y in values.iter() {
            let (a, b) = (of_float(*x), of_float(*y));
            assert_eq!(fields(a.add(b)), fields(b.add(a)));
            assert_eq!(fields(a.mul(b)), fields(b.mul(a)));
        }
    }
}

#[test]
fn negation_and_absolute_value() {
    for x in special_values().iter() {
        if !x.is_nan() {
            assert!(same(of_float(*x).neg(), -*x));
        }
        if *x != 0.0 {
            assert!(same(abs(of_float(*x)), x.abs()));
        }
    }
}

#[test]
fn zero_and_positive() {
    assert!(same(Binary64::zero(false), 0.0));
    assert!(same(Binary64::zero(true), -0.0));
    assert!(same(Binary64::positive(0x18_0000_0000_0000, -52), 1.5));
}

/// The Newton-Raphson method in machine floats.
fn float_cube_root(a: f64) -> Option<f64> {
    if a <= 0.0 {
        return None;
    }
    let (tolerance, init) = if a < 1.0e3 {
        (1.0, 8.879040017426005)
    } else if a < 1.0e6 {
        (5.0, 88.79040017426004)
    } else if a < 1.0e9 {
        (50.0, 887.9040017426004)
    } else if a < 1.0e12 {
        (500.0, 8879.040017426003)
    } else if a < 1.0e15 {
        (5000.0, 88790.40017426001)
    } else {
        (50000.0, 887904.0017426)
    };
    let mut x: f64 = init;
    for _ in 0..21 {
        let previous = x;
        x = (2.0 * x + a / (x * x)) / 3.0;
        if (x - previous).abs() < tolerance {
            break;
        }
    }
    Some(x)
}

#[test]
fn test_cube_root() {
    for n in (1..1000000).step_by(99) {
        let a = Binary64::from_u64(n);
        let a = a.mul(a).mul(a);
        let result = cube_root(a);
        println!("cube_root({:?}) = {:?}", a, result.unwrap());
        let x = n as f64;
        assert!(same(result.unwrap(), float_cube_root(x * x * x).unwrap()));
    }
}

#[test]
#[should_panic]
fn cube_root_zero() {
    cube_root(Binary64::from_u64(0)).unwrap();
}

#[test]
fn cube_root_of_what_is_not_positive() {
    assert!(cube_root(of_float(-8.0)).is_none());
    assert!(cube_root(of_float(-0.0)).is_none());
    assert!(cube_root(of_float(f64::NEG_INFINITY)).is_none());
    assert!(matches!(cube_root(Binary64::Nan), Some(Binary64::Nan)));
    assert!(matches!(cube_root(of_float(f64::INFINITY)), Some(Binary64::Nan)));
}

fn to_float(x: Binary64) -> f64 {
    match x {
        Binary64::Finite { negative: false, significand, exponent } => {
            significand as f64 * 2f64.powi(exponent)
        }
        _ => f64::NAN,
    }
}

#[test]
fn the_cube_root_is_near_the_real_one() {
    let mut state = 0x1234_5678_9abc_def1;
    for (low, high, tolerance) in [
        (1.0e-12, 1.0e3, 1.0),
        (1.0e3, 1.0e6, 5.0),
        (1.0e6, 1.0e9, 50.0),
        (1.0e9, 1.0e12, 500.0),
        (1.0e12, 1.0e15, 5000.0),
        (1.0e15, 1.0e18, 50000.0),
    ] {
        for _ in 0..300 {
            let share = (next(&mut state) % 1_000_000) as f64 / 1.0e6;
            let a: f64 = low * (high / low as f64).powf(share);
            let x = to_float(cube_root(of_float(a)).unwrap());
            assert!(x >= a.cbrt() * (1.0 - 1.0e-14), "{}", a);
            assert!(x < a.cbrt() + 2.0 * tolerance, "{}", a);
        }
    }
    // The least number there is ends below 2, twice the tolerance.
    let least = Binary64::Finite { negative: false, significand: 1, exponent: -1074 };
    let x = to_float(cube_root(least).unwrap());
    assert!(1.75 < x && x < 1.76);
}

#[test]
fn cube_root_of_small_and_large_numbers() {
    for x in [0.75, 1.0, 700.0, 999.9, 1.0e3, 7.0e5, 1.0e9, 1.0e12, 1.0e15, 1.0e18, 1.0e-300] {
        assert!(same(cube_root(of_float(x)).unwrap(), float_cube_root(x).unwrap()), "{}", x);
    }
    assert!(same(cube_root(of_float(700.0)).unwrap(), 8.879040017426007));
}
