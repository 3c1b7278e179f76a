use macmon::format::{bar, fmt_freq, fmt_gb, fmt_temp, fmt_watts, log_fmt_freq, log_fmt_watts};
use macmon::ieee::{Double, Single};

fn d(x: f64) -> Double {
    Double { bits: x.to_bits() }
}

fn s(x: f32) -> Single {
    Single { bits: x.to_bits() }
}

fn same(a: Double, b: f64) -> bool {
    a.bits == b.to_bits() || (b.is_nan() && f64::from_bits(a.bits).is_nan())
}

fn same_single(a: Single, b: f32) -> bool {
    a.bits == b.to_bits() || (b.is_nan() && f32::from_bits(a.bits).is_nan())
}

/// A fixed stream of bit patterns.
fn stream(state: &mut u64) -> u64 {
    *state ^= *state << 13;
    *state ^= *state >> 7;
    *state ^= *state << 17;
    *state
}

fn doubles() -> Vec<f64> {
    let mut v = vec![
        0.0,
        -0.0,
        1.0,
        -1.0,
        0.1,
        0.8,
        2.5,
        3.5,
        100.0,
        1000.0,
        f64::MAX,
        f64::MIN_POSITIVE,
        f64::INFINITY,
        f64::NEG_INFINITY,
        f64::NAN,
        f64::EPSILON,
        f64::from_bits(1),
        f64::from_bits(0x000f_ffff_ffff_ffff),
        f64::from_bits(0x0010_0000_0000_0001),
        9007199254740993.0,
        1e-310,
        5e-324,
    ];
    let mut state: u64 = 0x9e37_79b9_7f4a_7c15;
    for i in 0..120 {
        let r = stream(&mut state);
        // half of them near one, half anywhere
        if i % 2 == 0 {
            v.push(f64::from_bits((r & 0x800f_ffff_ffff_ffff) | ((0x3f0 + (r >> 52 & 0x1f)) << 52)));
        } else {
            v.push(f64::from_bits(r));
        }
    }
    v
}

fn singles() -> Vec<f32> {
    let mut v = vec![
        0.0,
        -0.0,
        1.0,
        -1.5,
        0.1,
        0.8,
        0.2,
        100.0,
        f32::MAX,
        f32::MIN_POSITIVE,
        f32::INFINITY,
        f32::NEG_INFINITY,
        f32::NAN,
        f32::from_bits(1),
        f32::from_bits(0x007f_ffff),
        f32::from_bits(0x0080_0001),
        1e-40,
    ];
    let mut state: u64 = 0x1234_5678_9abc_def1;
    for i in 0..120 {
        let r = stream(&mut state) as u32;
        if i % 2 == 0 {
            v.push(f32::from_bits((r & 0x807f_ffff) | ((0x70 + (r >> 23 & 0x1f)) << 23)));
        } else {
            v.push(f32::from_bits(r));
        }
    }
    v
}

#[test]
fn double_arithmetic_agrees_with_the_machine() {
    let v = doubles();
    for &a in &v {
        for &b in &v {
            assert!(same(d(a).plus(d(b)), a + b), "{a:e} + {b:e}");
            assert!(same(d(a).times(d(b)), a * b), "{a:e} * {b:e}");
            assert!(same(d(a).over(d(b)), a / b), "{a:e} / {b:e}");
            assert_eq!(d(a).exceeds(d(b)), a > b, "{a:e} > {b:e}");
        }
    }
}

#[test]
fn single_arithmetic_agrees_with_the_machine() {
    let v = singles();
    for &a in &v {
        for &b in &v {
            assert!(same_single(s(a).plus(s(b)), a + b), "{a:e} + {b:e}");
            assert!(same_single(s(a).plus(s(b).negated()), a - b), "{a:e} - {b:e}");
            assert!(same_single(s(a).times(s(b)), a * b), "{a:e} * {b:e}");
            assert_eq!(s(a).exceeds(s(b)), a > b, "{a:e} > {b:e}");
        }
    }
}

#[test]
fn conversions_agree_with_the_machine() {
    for x in doubles() {
        assert!(same_single(Single::from_double(d(x)), x as f32), "{x:e}");
        assert_eq!(d(x).truncate(), x as u64, "{x:e}");
        assert_eq!(d(x).round(), x.round() as u64, "{x:e}");
        assert_eq!(d(x).is_zero(), x == 0.0);
    }
    for x in singles() {
        assert!(same(Double::from_single(s(x)), x as f64), "{x:e}");
        assert_eq!(s(x).is_zero(), x == 0.0);
    }
    let mut state: u64 = 77;
    for i in 0..200u32 {
        let n = stream(&mut state) >> (i % 64);
        assert!(same(Double::from_u64(n), n as f64), "{n}");
    }
    for x in [0.5, 1.5, 2.5, 0.49999999999999994, 4503599627370495.5, 19.5, 18446744073709551615.0, 1e19] {
        assert_eq!(d(x).round(), x.round() as u64, "{x:e}");
        assert_eq!(d(x).truncate(), x as u64, "{x:e}");
    }
    for n in [0u16, 1, 100, 65535] {
        assert!(same_single(Single::from_u16(n), n as f32));
    }
}

#[test]
fn decimals_agree_with_the_machine() {
    for x in doubles() {
        assert_eq!(d(x).fixed(0), format!("{x:.0}"));
        assert_eq!(d(x).fixed(1), format!("{x:.1}"));
        assert_eq!(d(x).fixed(2), format!("{x:.2}"));
    }
    for x in singles() {
        assert_eq!(s(x).fixed(0), format!("{x:.0}"));
        assert_eq!(s(x).fixed(1), format!("{x:.1}"));
        assert_eq!(s(x).fixed(2), format!("{x:.2}"));
    }
    for x in [0.5, 1.5, 2.5, 0.25, 0.75, 0.125, 0.375, 0.005, 1.005, 9.995, 99.95, 0.05] {
        assert_eq!(d(x).fixed(0), format!("{x:.0}"));
        assert_eq!(d(x).fixed(1), format!("{x:.1}"));
        assert_eq!(d(x).fixed(2), format!("{x:.2}"));
    }
}

#[test]
fn frequencies() {
    assert_eq!(fmt_freq(0), "    N/A  ");
    assert_eq!(fmt_freq(999), " 999 MHz  ");
    assert_eq!(fmt_freq(7), "   7 MHz  ");
    assert_eq!(fmt_freq(1000), "  1.00 GHz");
    assert_eq!(fmt_freq(1015), "  1.01 GHz");
    assert_eq!(fmt_freq(4512), "  4.51 GHz");
    for mhz in 1000u32..6000 {
        assert_eq!(fmt_freq(mhz), format!("{:6.2} GHz", mhz as f64 / 1000.0));
    }
    assert_eq!(fmt_freq(u32::MAX), format!("{:6.2} GHz", u32::MAX as f64 / 1000.0));
    assert_eq!(log_fmt_freq(0), "    0 MHz");
    assert_eq!(log_fmt_freq(4512), " 4512 MHz");
    assert_eq!(log_fmt_freq(123456), "123456 MHz");
}

#[test]
fn watts_temperatures_and_gigabytes() {
    assert_eq!(fmt_watts(s(0.0)), "   N/A");
    assert_eq!(fmt_watts(s(-0.0)), "   N/A");
    assert_eq!(fmt_watts(s(0.001)), "  0.00 W");
    assert_eq!(fmt_watts(s(12.345)), " 12.35 W");
    assert_eq!(log_fmt_watts(s(0.0)), "  0.00 W");
    assert_eq!(log_fmt_watts(s(1234.5)), "1234.50 W");
    assert_eq!(fmt_temp(s(0.0)), "  N/A");
    assert_eq!(fmt_temp(s(45.25)), " 45.2°C");
    assert_eq!(fmt_temp(s(-3.0)), " -3.0°C");
    assert_eq!(fmt_gb(0), "0.00 GB");
    assert_eq!(fmt_gb(17_179_869_184), "16.00 GB");
    assert_eq!(fmt_gb(5_368_709_120 / 4), "1.25 GB");
    for b in [1u64, 10_737_418, 5_368_709, 1 << 40, u64::MAX, (1 << 53) + 1] {
        assert_eq!(fmt_gb(b), format!("{:.2} GB", b as f64 / 1073741824.0));
    }
}

#[test]
fn bars() {
    assert_eq!(bar(d(0.0), d(100.0), 4), "[░░░░]");
    assert_eq!(bar(d(50.0), d(100.0), 4), "[██░░]");
    assert_eq!(bar(d(100.0), d(100.0), 4), "[████]");
    assert_eq!(bar(d(250.0), d(100.0), 4), "[████]");
    assert_eq!(bar(d(-3.0), d(100.0), 4), "[░░░░]");
    assert_eq!(bar(d(1.0), d(0.0), 4), "[░░░░]");
    assert_eq!(bar(d(1.0), d(-2.0), 4), "[░░░░]");
    assert_eq!(bar(d(f64::NAN), d(100.0), 4), "[░░░░]");
    assert_eq!(bar(d(5.0), d(8.0), 4), "[███░]");
    assert_eq!(bar(d(5.0), d(8.0), 0), "[]");
    for v in 0..=200u32 {
        let (value, max, width) = (v as f64 * 0.51, 97.0, 20usize);
        let pct = (value / max).clamp(0.0, 1.0);
        let filled = (pct * width as f64).round() as usize;
        let want = format!("[{}{}]", "█".repeat(filled), "░".repeat(width - filled));
        assert_eq!(bar(d(value), d(max), width), want);
        assert_eq!(want.chars().count(), width + 2);
    }
}

fn cells(value: f64, max: f64, width: usize) -> usize {
    bar(d(value), d(max), width).chars().filter(|c| *c == '█').count()
}

#[test]
fn bars_grow_with_their_value() {
    for max in [1.0, 3.0, 100.0, 4512.0, 1e-300] {
        for width in [1, 16, 20, 1000] {
            let mut last = 0;
            for i in 0..=300 {
                let value = max * (i as f64 - 50.0) / 200.0;
                let k = cells(value, max, width);
                assert!(k >= last);
                if (50..=250).contains(&i) {
                    assert!((k as f64 - width as f64 * (value / max)).abs() <= 0.5 + 1e-9);
                }
                last = k;
            }
            assert_eq!(last, width);
        }
    }
}

#[test]
fn gigabytes_grow_with_their_bytes() {
    let shown = |bytes: u64| {
        let text = fmt_gb(bytes);
        let number = text.strip_suffix(" GB").unwrap();
        let (whole, rest) = number.split_once('.').unwrap();
        assert_eq!(rest.len(), 2);
        whole.parse::<u128>().unwrap() * 100 + rest.parse::<u128>().unwrap()
    };
    let gb: i128 = 1 << 30;
    let mut last = 0;
    let mut bytes: u64 = 0;
    loop {
        let h = shown(bytes);
        assert!(h >= last);
        let slack = if bytes < 1 << 53 { 0 } else { 1024 };
        assert!(2 * (h as i128 * gb - 100 * bytes as i128).abs() <= gb + 200 * slack);
        last = h;
        match bytes.checked_add(bytes / 7 + 5_368_709) {
            Some(next) => bytes = next,
            None => break,
        }
    }
    assert_eq!(shown(u64::MAX), 1_717_986_918_400);
}
