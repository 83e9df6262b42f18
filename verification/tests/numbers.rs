use fan_controllerd::bignat::BigNat;
use fan_controllerd::binary32::Binary32;
use fan_controllerd::numeral::{parse, parse_integer, write_decimal, write_hex, IntegerFault};

fn b(x: f32) -> Binary32 {
    Binary32::from_bits(x.to_bits())
}

fn same(x: Binary32, y: f32) -> bool {
    let z = f32::from_bits(x.to_bits());
    z.to_bits() == y.to_bits() || (z.is_nan() && y.is_nan())
}

struct Numbers(u64);

impl Numbers {
    fn next(&mut self) -> u32 {
        self.0 = self.0.wrapping_mul(6364136223846793005).wrapping_add(1442695040888963407);
        (self.0 >> 32) as u32
    }
}

fn edge_cases() -> Vec<f32> {
    vec![
        0.0,
        -0.0,
        1.0,
        -1.0,
        0.5,
        100.0,
        27.85,
        f32::MAX,
        f32::MIN,
        f32::MIN_POSITIVE,
        f32::from_bits(1),
        f32::from_bits(0x8000_0001),
        f32::from_bits(0x007f_ffff),
        f32::INFINITY,
        f32::NEG_INFINITY,
        f32::NAN,
        16777216.0,
        16777217.0,
    ]
}

fn check_pair(x: f32, y: f32) {
    assert!(same(b(x).plus(b(y)), x + y), "{} + {}", x, y);
    assert!(same(b(x).minus(b(y)), x - y), "{} - {}", x, y);
    assert!(same(b(x).times(b(y)), x * y), "{} * {}", x, y);
    assert!(same(b(x).over(b(y)), x / y), "{} / {}", x, y);
    assert_eq!(b(x).at_most(b(y)), x <= y);
    assert_eq!(b(x).below(b(y)), x < y);
}

#[test]
fn arithmetic_agrees_with_native_on_edge_cases() {
    for x in edge_cases() {
        for y in edge_cases() {
            check_pair(x, y);
        }
    }
}

#[test]
fn arithmetic_agrees_with_native_on_any_bits() {
    let mut n = Numbers(1);
    for _ in 0..300 {
        check_pair(f32::from_bits(n.next()), f32::from_bits(n.next()));
    }
}

#[test]
fn arithmetic_agrees_with_native_on_temperatures() {
    let mut n = Numbers(2);
    for _ in 0..300 {
        let x = (n.next() % 200_000) as f32 / 1000.0 - 50.0;
        let y = (n.next() % 200_000) as f32 / 1000.0 - 50.0;
        check_pair(x, y);
    }
}

#[test]
fn integers_are_converted_as_native_ones_are() {
    let mut n = Numbers(3);
    let mut cases = vec![0, 1, -1, 1000, 27850, 16777217, -16777219, i64::MAX, i64::MIN];
    for _ in 0..300 {
        cases.push((((n.next() as u64) << 32) | n.next() as u64) as i64 >> (n.next() % 64));
    }
    for x in cases {
        assert!(same(Binary32::from_i64(x), x as f32), "{}", x);
    }
}

#[test]
fn whole_numbers_are_rounded_as_native_ones_are() {
    let mut n = Numbers(4);
    let mut cases = edge_cases();
    cases.extend([0.49999997, 0.5, 1.5, 2.5, 99.5, 100.5, 255.4, 255.5, 300.0, -0.5, -3.0]);
    for _ in 0..200 {
        cases.push((n.next() % 130_000) as f32 / 1000.0 - 10.0);
    }
    for x in cases {
        assert_eq!(b(x).to_whole(100), x.round().clamp(0.0, 100.0) as u8, "{}", x);
        assert_eq!(b(x).to_whole(255), x.round().clamp(0.0, 255.0) as u8, "{}", x);
        assert_eq!(b(x).to_whole(0), 0);
    }
}

#[test]
fn big_numbers_add_up() {
    let a = BigNat::from_u64(u64::MAX);
    let c = a.times(&a).plus(&a);
    // (2^64 - 1)^2 + (2^64 - 1) == (2^64 - 1) * 2^64
    let d = a.shift_left(64);
    assert!(c.at_most(&d) && d.at_most(&c));
    let e = c.minus(&d);
    assert!(e.at_most(&BigNat::from_u32(0)));
    assert!(!d.plus(&BigNat::from_u32(1)).at_most(&c));
    let f = BigNat::from_u32(7).scale_by_ten(3);
    assert!(f.at_most(&BigNat::from_u64(7000)) && BigNat::from_u32(7000).at_most(&f));
}

#[test]
fn numerals_are_read_as_native_ones_are() {
    let cases = [
        "0", "-0", "+0", "1", "20", "23.5", ".5", "5.", "-.5e1", "1e10", "1E10", "1e+2", "1e-2",
        "3.4028235e38", "3.4028236e38", "3.5e38", "1e39", "-1e39", "1e400", "1e-45", "7e-46",
        "7.1e-46", "1e-400", "0e999999999999999999999999999999999999", "1e-99999999999999999999999",
        "1e99999999999999999999999999999999999999", "0.000000000000000000000000000000000001",
        "16777217", "16777219", "16777217.0000000000000000000000000000001", "inf", "+INF", "-Inf",
        "infinity", "-Infinity", "nan", "-NaN", "NAN", "123456789012345678901234567890",
        "", "+", "-", ".", "e5", "1e", "1e+", "1e-", "1.2.3", "1,5", "abc", "na", "disabled", "No",
        "0x10", " 1", "1 ", "1_000", "++1", "-+1", "1e5e5", "1e5.0", "infinit", "in", "1f", "\u{663}",
    ];
    for s in cases {
        match (s.parse::<f32>(), parse(s)) {
            (Ok(x), Some(y)) => assert!(same(y, x), "{}", s),
            (Err(_), None) => {}
            (x, y) => panic!("{:?}: {:?} but {:?}", s, x, y),
        }
    }
}

#[test]
fn random_numerals_are_read_as_native_ones_are() {
    let mut n = Numbers(5);
    for _ in 0..200 {
        let s = format!(
            "{}.{}e{}",
            n.next() % 100_000,
            n.next(),
            (n.next() % 100) as i32 - 50
        );
        let x: f32 = s.parse().unwrap();
        assert!(same(parse(&s).unwrap(), x), "{}", s);
    }
}

#[test]
fn integers_are_read_as_native_ones_are() {
    let cases = [
        "0", "-0", "+5", "38000", "-1", "9223372036854775807", "9223372036854775808",
        "-9223372036854775808", "-9223372036854775809", "99999999999999999999x", "x", "", "+", "-",
        "12a", "1.5", "--1", "000000000000000000000000000012", " 1", "\u{663}",
    ];
    for s in cases {
        match (s.parse::<i64>(), parse_integer(s)) {
            (Ok(x), Ok(y)) => assert_eq!(x, y),
            (Err(x), Err(y)) => assert_eq!(x.to_string(), y.text(), "{}", s),
            (x, y) => panic!("{:?}: {:?} but {:?}", s, x, y),
        }
    }
    assert_eq!(parse_integer(""), Err(IntegerFault::Empty));
    assert_eq!(parse_integer("4o"), Err(IntegerFault::InvalidDigit));
    assert_eq!(parse_integer("9223372036854775808"), Err(IntegerFault::TooLarge));
    assert_eq!(parse_integer("-9223372036854775809"), Err(IntegerFault::TooSmall));
}

#[test]
fn numbers_are_written_as_native_ones_are() {
    for x in [0, 9, 10, 99, 100, 12345, u64::MAX] {
        assert_eq!(write_decimal(x), format!("{}", x));
    }
    for x in 0..=255u8 {
        assert_eq!(write_hex(x), format!("{:02x}", x));
    }
}
