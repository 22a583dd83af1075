use brutal::binary64::Binary64;
use brutal::time::Duration;

/// A sequence of words that looks random and is the same in every run.
struct Words {
    state: u64,
}

impl Words {
    fn next(&mut self) -> u64 {
        self.state = self.state.wrapping_add(0x9E37_79B9_7F4A_7C15);
        let mut z = self.state;
        z = (z ^ (z >> 30)).wrapping_mul(0xBF58_476D_1CE4_E5B9);
        z = (z ^ (z >> 27)).wrapping_mul(0x94D0_49BB_1331_11EB);
        z ^ (z >> 31)
    }
}

fn number(x: f64) -> Binary64 {
    Binary64 { bits: x.to_bits() }
}

fn assert_same(got: Binary64, want: f64) {
    if want.is_nan() {
        assert!(f64::from_bits(got.bits).is_nan());
    } else {
        assert_eq!(got.bits, want.to_bits());
    }
}

/// Values at the edges of the format.
fn edges() -> Vec<f64> {
    vec![
        0.0,
        -0.0,
        1.0,
        -1.0,
        0.1,
        0.8,
        2.0,
        8.0,
        1e-9,
        1e9,
        f64::MIN_POSITIVE,
        f64::from_bits(1),
        f64::from_bits(2),
        f64::from_bits(3),
        f64::from_bits(0x000F_FFFF_FFFF_FFFF),
        f64::from_bits(0x0010_0000_0000_0001),
        f64::MAX,
        f64::MIN,
        f64::INFINITY,
        f64::NEG_INFINITY,
        f64::NAN,
        f64::EPSILON,
        9007199254740991.0,
        9007199254740992.0,
        18446744073709551615.0,
        18446744073709549568.0,
        1e300,
        1e-300,
    ]
}

fn check_pair(x: f64, y: f64) {
    assert_same(number(x).times(number(y)), x * y);
    assert_same(number(x).over(number(y)), x / y);
    assert_eq!(number(x).less(number(y)), x < y);
    if !x.is_sign_negative() && !y.is_sign_negative() {
        assert_same(number(x).plus(number(y)), x + y);
        assert_same(number(x).max(number(y)), x.max(y));
    }
}

#[test]
fn arithmetic_agrees_at_the_edges() {
    for x in edges() {
        for y in edges() {
            check_pair(x, y);
        }
        assert_eq!(number(x).to_int(), x as u64);
        assert_same(number(x).clamp(number(0.1), number(1.0)), x.clamp(0.1, 1.0));
    }
}

#[test]
fn arithmetic_agrees_on_any_bits() {
    let mut words = Words { state: 1 };
    for _ in 0..100_000 {
        let x = f64::from_bits(words.next());
        let y = f64::from_bits(words.next());
        check_pair(x, y);
        assert_eq!(number(x).to_int(), x as u64);
    }
}

#[test]
fn arithmetic_agrees_on_close_exponents() {
    let mut words = Words { state: 2 };
    for _ in 0..100_000 {
        let exponent = words.next() % 200 + 923;
        let x = f64::from_bits(exponent << 52 | words.next() >> 12);
        let nearby = exponent + words.next() % 140 - 70;
        let y = f64::from_bits(nearby << 52 | words.next() >> 12);
        check_pair(x, y);
        assert_eq!(number(x).to_int(), x as u64);
        assert_same(number(x).clamp(number(0.1), number(1.0)), x.clamp(0.1, 1.0));
    }
}

#[test]
fn arithmetic_agrees_on_subnormal_results() {
    let mut words = Words { state: 3 };
    for _ in 0..100_000 {
        let low = words.next() % 600;
        let x = f64::from_bits((450 + low) << 52 | words.next() >> 12);
        let y = f64::from_bits((500 + words.next() % 60 - low.min(499)) << 52 | words.next() >> 12);
        check_pair(x, y);
        let tiny = f64::from_bits(words.next() >> (12 + words.next() % 50));
        check_pair(x, tiny);
        check_pair(tiny, x);
        let other = f64::from_bits(words.next() >> (12 + words.next() % 50));
        check_pair(tiny, other);
    }
}

#[test]
fn integers_are_rounded_to_nearest_even() {
    let mut words = Words { state: 4 };
    let mut cases: Vec<u64> = vec![0, 1, 2, 3, 50, 1_000_000_000, u64::MAX, u64::MAX - 1];
    for shift in 0..64 {
        cases.push(1 << shift);
        cases.push((1 << shift) - 1);
        cases.push(words.next() >> shift);
    }
    cases.push(9007199254740993);
    cases.push(9007199254740995);
    for n in cases {
        assert_eq!(Binary64::from_int(n).bits, (n as f64).to_bits());
        assert_eq!(Binary64::from_int(n).to_int(), n as f64 as u64);
    }
    // Two ties: one goes down to the even significand, the other up.
    assert_eq!(Binary64::from_int(9007199254740993).to_int(), 9007199254740992);
    assert_eq!(Binary64::from_int(9007199254740995).to_int(), 9007199254740996);
}

#[test]
fn seconds_agree_with_the_standard_duration() {
    let mut words = Words { state: 5 };
    for _ in 0..100_000 {
        let secs = words.next() >> (words.next() % 64);
        let nanos = (words.next() % 1_000_000_000) as u32;
        let want = std::time::Duration::new(secs, nanos);
        assert_eq!(Duration::new(secs, nanos).as_secs_f64().bits, want.as_secs_f64().to_bits());
        assert_eq!(Duration::new(secs, nanos).as_secs(), secs);
        let want = std::time::Duration::from_millis(secs);
        assert_eq!(Duration::from_millis(secs).as_secs_f64().bits, want.as_secs_f64().to_bits());
    }
}
