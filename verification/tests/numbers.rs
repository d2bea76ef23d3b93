use sim_core::binary32::decimal::number;
use sim_core::binary32::{fl, F32};

fn same(a: F32, b: f32) -> bool {
    if b.is_nan() {
        a.is_nan()
    } else {
        a.bits == b.to_bits()
    }
}

fn patterns() -> Vec<u32> {
    let mut v: Vec<u32> = vec![
        0, 1, 2, 3, 0x7f_ffff, 0x80_0000, 0x80_0001, 0xff_ffff, 0x100_0000, 0x3f80_0000, 0x3f80_0001,
        0x3f7f_ffff, 0x3f00_0000, 0x4000_0000, 0x4b00_0000, 0x4b80_0000, 0x4b7f_ffff, 0x5f00_0000,
        0x5eff_ffff, 0x7f7f_ffff, 0x7f80_0000, 0x7fc0_0000, 0x3fc0_0000, 0x4020_0000,
    ];
    let mut s: u32 = 12345;
    for _ in 0..150 {
        s = s.wrapping_mul(1664525).wrapping_add(1013904223);
        v.push(s & 0x7fff_ffff);
        // Exponents close together, where alignment and cancellation matter.
        v.push(0x3e80_0000 + (s % 0x0200_0000));
    }
    let n = v.len();
    for i in 0..n {
        v.push(v[i] | 0x8000_0000);
    }
    v
}

#[test]
fn arithmetic_matches_the_hardware_bit_for_bit() {
    let ps = patterns();
    for &p in &ps {
        for &q in &ps {
            let (a, b) = (f32::from_bits(p), f32::from_bits(q));
            assert!(same(fl(p).plus(fl(q)), a + b), "{:x} + {:x}", p, q);
            assert!(same(fl(p).minus(fl(q)), a - b), "{:x} - {:x}", p, q);
            assert!(same(fl(p).times(fl(q)), a * b), "{:x} * {:x}", p, q);
            assert!(same(fl(p).over(fl(q)), a / b), "{:x} / {:x}", p, q);
            assert_eq!(fl(p).lt(fl(q)), a < b);
            assert_eq!(fl(p).le(fl(q)), a <= b);
            assert_eq!(fl(p).same(fl(q)), a == b);
        }
    }
}

#[test]
fn rounding_and_roots_match_the_hardware_bit_for_bit() {
    let mut s: u32 = 7;
    let mut ps = patterns();
    for _ in 0..3000 {
        s = s.wrapping_mul(1664525).wrapping_add(1013904223);
        ps.push(s);
        ps.push(0x4300_0000 + s % 0x0800_0000);
    }
    for p in ps {
        let a = f32::from_bits(p);
        assert!(same(fl(p).sqrt(), a.sqrt()), "sqrt {:x}", p);
        assert!(same(fl(p).floor(), a.floor()), "floor {:x}", p);
        assert!(same(fl(p).ceil(), a.ceil()), "ceil {:x}", p);
        assert!(same(fl(p).round(), a.round()), "round {:x}", p);
        assert_eq!(fl(p).to_i64(), a as i64, "i64 {:x}", p);
        assert_eq!(fl(p).to_usize(), a as usize, "usize {:x}", p);
        assert_eq!(fl(p).to_u32(), a as u32, "u32 {:x}", p);
        assert!(same(fl(p).abs(), a.abs()));
        assert!(same(fl(p).negate(), -a));
    }
}

#[test]
fn integers_convert_to_the_nearest_number() {
    for i in [0i64, 1, -1, 16777216, 16777217, 16777219, -16777217, i64::MAX, i64::MIN, 123456789012345] {
        assert_eq!(F32::of_i64(i).bits, (i as f32).to_bits());
    }
}

#[test]
fn minimum_maximum_and_clamp_treat_nan_as_missing() {
    let nan = fl(0x7fc0_0000);
    let one = fl(0x3f80_0000);
    let two = fl(0x4000_0000);
    assert_eq!(nan.min(one), one);
    assert_eq!(one.max(nan), one);
    assert_eq!(one.min(two), one);
    assert_eq!(one.max(two), two);
    assert!(nan.clamp(one, two).is_nan());
    assert_eq!(fl(0).clamp(one, two), one);
    assert_eq!(fl(0x4040_0000).clamp(one, two), two);
}

fn chars(s: &str) -> Vec<char> {
    s.chars().collect()
}

#[test]
fn decimal_text_reads_as_the_standard_parser_reads_it() {
    let cases = [
        "0", "-0", "1", "+1", "1.", ".5", "-.5e1", "3.14159265358979", "1e10", "1E-10", "1e+5", "0.1",
        "16777217", "16777216.99999999", "340282346638528859811704183484516925440",
        "340282356779733661637539395458142568447", "340282356779733661637539395458142568448",
        "1e39", "1e-46", "7.006492321624085e-46", "7.0064923216240853e-46", "7.1e-46", "1.4e-45",
        "1.1754943508222875e-38", "0.000000000000000000000000000000000000000000001",
        "100000000000000000000000000000000000000000000000000000e-50", "inf", "-Infinity", "NaN",
        "1e99999999999999999999999999999999999", "1e-99999999999999999999999999999999999", "0e999",
        "00000000000000000000000000000000000000000000000000000000000000000000012.5",
        "0.3000000119209289550781250000000000000000000000000000000000000001",
        "8388608.5", "8388609.5", "60", "1.62", "2.85", "123456.789e-3",
        "", "+", "-", ".", "e5", "1e", "1e+", "1.2.3", " 1", "1 ", "0x10", "infin", "1_000", "--1", "1e5.0",
    ];
    for c in cases {
        match (number(&chars(c)), c.parse::<f32>()) {
            (Some(a), Ok(b)) => assert!(same(a, b), "{}: {:x} vs {:x}", c, a.bits, b.to_bits()),
            (None, Err(_)) => {}
            (a, b) => panic!("{}: {:?} vs {:?}", c, a, b),
        }
    }
}

#[test]
fn random_decimal_text_reads_as_the_standard_parser_reads_it() {
    let mut s: u32 = 99;
    for _ in 0..400 {
        s = s.wrapping_mul(1664525).wrapping_add(1013904223);
        let v = f32::from_bits(s);
        if v.is_finite() {
            let t = format!("{:e}", v);
            assert!(same(number(&chars(&t)).unwrap(), v), "{}", t);
            let u = format!("{}.{}e{}", s >> 12, s % 99991, (s % 70) as i32 - 40);
            assert!(same(number(&chars(&u)).unwrap(), u.parse::<f32>().unwrap()), "{}", u);
        }
    }
}
