use dbd_auto_skillcheck::binary32::Binary32;
use dbd_auto_skillcheck::binary64::Binary64;

fn soft(x: f32) -> Binary32 {
    Binary32::from_bits(x.to_bits())
}

/// The same number: any two NaNs are.
fn same(soft: Binary32, hard: f32) -> bool {
    if hard.is_nan() {
        soft.is_nan()
    } else {
        soft.to_bits() == hard.to_bits()
    }
}

/// A reproducible stream of bit patterns.
struct Bits(u64);

impl Bits {
    fn next(&mut self) -> u64 {
        self.0 = self.0.wrapping_mul(6364136223846793005).wrapping_add(1442695040888963407);
        let x = self.0 ^ (self.0 >> 29);
        x.wrapping_mul(0x9e37_79b9_7f4a_7c15) >> 3
    }

    /// Any number, or one of everyday size.
    fn float(&mut self) -> f32 {
        let bits = self.next() as u32;
        if self.next() % 2 == 0 {
            f32::from_bits(bits)
        } else {
            (bits as i32 as f32) / 1_000_000.0
        }
    }
}

fn edge_cases() -> Vec<f32> {
    let mut cases = vec![
        0.0,
        1.0,
        1.5,
        2.0,
        3.0,
        0.1,
        0.35,
        60.0,
        180.0,
        255.0,
        360.0,
        16_777_215.0,
        16_777_216.0,
        16_777_217.0,
        4_294_967_296.0,
        f32::MAX,
        f32::MIN_POSITIVE,
        f32::EPSILON,
        f32::INFINITY,
        f32::NAN,
        f32::from_bits(1),
        f32::from_bits(2),
        f32::from_bits(3),
        f32::from_bits(0x007f_ffff),
        f32::from_bits(0x0080_0001),
        f32::from_bits(0x3f7f_ffff),
        f32::from_bits(0x3f80_0001),
        f32::from_bits(0x7f7f_fffe),
    ];
    for i in 0..cases.len() {
        cases.push(-cases[i]);
    }
    cases
}

fn check_pair(x: f32, y: f32) {
    let (a, b) = (soft(x), soft(y));
    assert!(same(a.plus(b), x + y), "{x:e} + {y:e}");
    assert!(same(a.minus(b), x - y), "{x:e} - {y:e}");
    assert!(same(a.times(b), x * y), "{x:e} * {y:e}");
    assert!(same(a.over(b), x / y), "{x:e} / {y:e}");
    assert_eq!(a.lt(b), x < y);
    assert_eq!(a.le(b), x <= y);
    assert_eq!(a.gt(b), x > y);
    assert_eq!(a.ge(b), x >= y);
    assert_eq!(a.equals(b), x == y);
}

#[test]
fn arithmetic_matches_the_machine_on_edge_cases() {
    for &x in &edge_cases() {
        for &y in &edge_cases() {
            check_pair(x, y);
        }
    }
}

#[test]
fn arithmetic_matches_the_machine_on_many_numbers() {
    let mut bits = Bits(1);
    for _ in 0..100_000 {
        let (x, y) = (bits.float(), bits.float());
        check_pair(x, y);
    }
}

#[test]
fn arithmetic_matches_the_machine_on_close_numbers() {
    let mut bits = Bits(2);
    for _ in 0..50_000 {
        let x = bits.float();
        let y = f32::from_bits(x.to_bits().wrapping_add((bits.next() % 16) as u32));
        check_pair(x, y);
        check_pair(x, -y);
    }
}

#[test]
fn signs_match_the_machine() {
    for &x in &edge_cases() {
        assert!(same(soft(x).negate(), -x));
        assert!(same(soft(x).absolute(), x.abs()));
        assert_eq!(soft(x).is_nan(), x.is_nan());
    }
}

#[test]
fn integer_parts_match_the_machine() {
    let mut bits = Bits(3);
    for &x in &edge_cases() {
        assert_eq!(soft(x).truncate(), x as i32);
    }
    for _ in 0..50_000 {
        let x = bits.float();
        assert_eq!(soft(x).truncate(), x as i32, "{x:e}");
    }
}

#[test]
fn integers_match_the_machine() {
    let mut bits = Bits(4);
    for n in [0u64, 1, 255, 360, 16_777_217, u64::MAX, u64::MAX - 1, 1 << 63] {
        assert_eq!(Binary32::from_u64(n).to_bits(), (n as f32).to_bits());
    }
    for _ in 0..50_000 {
        let n = bits.next() >> (bits.next() % 60);
        assert_eq!(Binary32::from_u64(n).to_bits(), (n as f32).to_bits());
        let m = bits.next() as i32;
        assert_eq!(Binary32::from_i32(m).to_bits(), (m as f32).to_bits());
    }
    assert_eq!(Binary32::from_i32(-2).to_bits(), (-2.0f32).to_bits());
    assert_eq!(Binary32::from_i32(i32::MIN).to_bits(), (i32::MIN as f32).to_bits());
}

#[test]
fn decimal_fractions_match_the_literals() {
    assert_eq!(Binary32::from_ratio(35, 100).to_bits(), 0.35f32.to_bits());
    assert_eq!(Binary32::from_ratio(46, 100).to_bits(), 0.46f32.to_bits());
    assert_eq!(Binary32::from_ratio(1, 1000).to_bits(), 0.001f32.to_bits());
    assert_eq!(Binary64::from_ratio(15, 100).to_bits(), 0.15f64.to_bits());
    assert_eq!(Binary64::from_ratio(345, 1).to_bits(), 345.0f64.to_bits());
}

#[test]
fn narrowing_matches_the_machine() {
    let mut bits = Bits(5);
    let mut cases = vec![
        0.0f64,
        -0.0,
        0.15,
        0.85,
        20.0,
        -100.0,
        1e-45,
        7e-46,
        1e-40,
        3.5e38,
        f64::MAX,
        f64::MIN_POSITIVE,
        f64::from_bits(1),
        f64::INFINITY,
        f64::NEG_INFINITY,
    ];
    for _ in 0..50_000 {
        cases.push(f64::from_bits(bits.next() << 3 ^ bits.next()));
        cases.push(bits.float() as f64 * (1.0 + (bits.next() % 1000) as f64 * 1e-10));
    }
    for x in cases {
        assert!(same(Binary64::from_bits(x.to_bits()).narrow(), x as f32), "{x:e}");
    }
    assert!(Binary64::from_bits(f64::NAN.to_bits()).narrow().is_nan());
}

#[test]
fn addition_keeps_the_order() {
    let mut bits = Bits(6);
    for _ in 0..20_000 {
        let (x, y, z) = (bits.float(), bits.float(), bits.float());
        if x.is_finite() && y.is_finite() && z.is_finite() && x <= y {
            assert!(soft(x).plus(soft(z)).le(soft(y).plus(soft(z))));
        }
    }
}
