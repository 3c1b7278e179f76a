use macmon::clock::{fmt_duration, Stamp, UnixTime};

fn at(year: i32, month: u32, day: u32, hour: u32, minute: u32, second: u32, nano: u32) -> Stamp {
    Stamp::new(year, month, day, hour, minute, second, nano).unwrap()
}

#[test]
fn moments_are_written_in_every_form() {
    let s = at(2026, 4, 11, 14, 23, 7, 250_999_999);
    assert_eq!(s.line(), "2026-04-11 14:23:07");
    assert_eq!(s.file(), "2026-04-11_14-23-07");
    assert_eq!(s.sample(), "2026-04-11 14:23:07.250");
    assert_eq!(s.rfc3339(), "2026-04-11T14:23:07.250999999+00:00");
}

#[test]
fn fractions_come_in_threes() {
    assert_eq!(at(2026, 1, 2, 3, 4, 5, 0).rfc3339(), "2026-01-02T03:04:05+00:00");
    assert_eq!(at(2026, 1, 2, 3, 4, 5, 7_000_000).rfc3339(), "2026-01-02T03:04:05.007+00:00");
    assert_eq!(at(2026, 1, 2, 3, 4, 5, 7_000).rfc3339(), "2026-01-02T03:04:05.000007+00:00");
    assert_eq!(at(2026, 1, 2, 3, 4, 5, 7).rfc3339(), "2026-01-02T03:04:05.000000007+00:00");
    assert_eq!(at(2026, 1, 2, 3, 4, 5, 999_999).sample(), "2026-01-02 03:04:05.000");
}

#[test]
fn years_beyond_four_digits_carry_a_sign() {
    assert_eq!(at(7, 1, 1, 0, 0, 0, 0).line(), "0007-01-01 00:00:00");
    assert_eq!(at(0, 12, 31, 23, 59, 59, 0).line(), "0000-12-31 23:59:59");
    assert_eq!(at(9999, 1, 1, 0, 0, 0, 0).file(), "9999-01-01_00-00-00");
    assert_eq!(at(10_000, 1, 1, 0, 0, 0, 0).line(), "+10000-01-01 00:00:00");
    assert_eq!(at(-1, 1, 1, 0, 0, 0, 0).line(), "-0001-01-01 00:00:00");
    assert_eq!(at(-12_345, 1, 1, 0, 0, 0, 0).sample(), "-12345-01-01 00:00:00.000");
    assert_eq!(at(262_142, 12, 31, 23, 59, 59, 0).rfc3339(), "+262142-12-31T23:59:59+00:00");
    assert_eq!(at(-262_143, 1, 1, 0, 0, 0, 0).rfc3339(), "-262143-01-01T00:00:00+00:00");
}

#[test]
fn leap_seconds_are_second_sixty() {
    let s = at(2016, 12, 31, 23, 59, 59, 1_250_000_000);
    assert_eq!(s.line(), "2016-12-31 23:59:60");
    assert_eq!(s.file(), "2016-12-31_23-59-60");
    assert_eq!(s.sample(), "2016-12-31 23:59:60.250");
    assert_eq!(s.rfc3339(), "2016-12-31T23:59:60.250+00:00");
}

#[test]
fn fields_that_name_no_moment_are_refused() {
    let refused = [
        Stamp::new(262_143, 1, 1, 0, 0, 0, 0),
        Stamp::new(-262_144, 1, 1, 0, 0, 0, 0),
        Stamp::new(2026, 0, 1, 0, 0, 0, 0),
        Stamp::new(2026, 13, 1, 0, 0, 0, 0),
        Stamp::new(2026, 1, 0, 0, 0, 0, 0),
        Stamp::new(2026, 1, 32, 0, 0, 0, 0),
        Stamp::new(2026, 4, 31, 0, 0, 0, 0),
        Stamp::new(2026, 2, 29, 0, 0, 0, 0),
        Stamp::new(1900, 2, 29, 0, 0, 0, 0),
        Stamp::new(-1, 2, 29, 0, 0, 0, 0),
        Stamp::new(2026, 1, 1, 24, 0, 0, 0),
        Stamp::new(2026, 1, 1, 0, 60, 0, 0),
        Stamp::new(2026, 1, 1, 0, 0, 60, 0),
        Stamp::new(2026, 1, 1, 0, 0, 59, 2_000_000_000),
        Stamp::new(2026, 1, 1, 0, 0, 58, 1_000_000_000),
    ];
    for (i, r) in refused.iter().enumerate() {
        assert!(r.is_none(), "{}", i);
    }
    assert!(Stamp::new(2024, 2, 29, 0, 0, 0, 0).is_some());
    assert!(Stamp::new(2000, 2, 29, 0, 0, 0, 0).is_some());
    assert!(Stamp::new(-4, 2, 29, 0, 0, 0, 0).is_some());
    assert!(Stamp::new(0, 2, 29, 0, 0, 0, 0).is_some());
}

#[test]
fn every_day_of_the_calendar_is_a_moment() {
    for year in [-262_143, -401, -400, -100, -4, -1, 0, 1, 4, 1900, 2000, 2023, 2024, 262_142] {
        for month in 1..=12 {
            for day in 1..=31 {
                let known = chrono::NaiveDate::from_ymd_opt(year, month, day).is_some();
                let here = Stamp::new(year, month, day, 0, 0, 0, 0).is_some();
                assert_eq!(here, known, "{} {} {}", year, month, day);
            }
        }
    }
}

#[test]
fn milliseconds_tell_samples_apart() {
    let a = at(2026, 4, 11, 14, 23, 7, 250_000_000);
    let b = at(2026, 4, 11, 14, 23, 7, 500_000_000);
    let c = at(2026, 4, 11, 14, 23, 8, 250_000_000);
    assert_ne!(a.sample(), b.sample());
    assert_ne!(a.sample(), c.sample());
    assert_eq!(a.line(), b.line());
}

#[test]
fn years_tell_samples_apart() {
    let years = [-262_143, -10_000, -9999, -1, 0, 1, 999, 9999, 10_000, 99_999, 100_000, 262_142];
    let texts: Vec<String> = years.iter().map(|y| at(*y, 1, 2, 3, 4, 5, 0).sample()).collect();
    for i in 0..texts.len() {
        for j in 0..i {
            assert_ne!(texts[i], texts[j]);
        }
    }
}

#[test]
fn elapsed_seconds_are_cut_off() {
    let t = |secs: i64, nanos: u32| UnixTime::new(secs, nanos).unwrap();
    assert_eq!(t(100, 0).seconds_since(&t(40, 0)), 60);
    assert_eq!(t(100, 0).seconds_since(&t(40, 1)), 59);
    assert_eq!(t(100, 999_999_999).seconds_since(&t(100, 0)), 0);
    assert_eq!(t(40, 0).seconds_since(&t(100, 0)), -60);
    assert_eq!(t(40, 1).seconds_since(&t(100, 0)), -59);
    assert_eq!(t(100, 0).seconds_since(&t(100, 999_999_999)), 0);
    assert_eq!(t(5, 5).seconds_since(&t(5, 5)), 0);
}

#[test]
fn clock_bounds() {
    assert!(UnixTime::new(8_210_266_876_799, 999_999_999).is_some());
    assert!(UnixTime::new(8_210_266_876_800, 0).is_none());
    assert!(UnixTime::new(-8_334_601_228_800, 0).is_some());
    assert!(UnixTime::new(-8_334_601_228_801, 0).is_none());
    assert!(UnixTime::new(0, 1_000_000_000).is_none());
    let first = UnixTime::new(-8_334_601_228_800, 0).unwrap();
    let last = UnixTime::new(8_210_266_876_799, 999_999_999).unwrap();
    assert_eq!(last.seconds_since(&first), 16_544_868_105_599);
    assert_eq!(first.seconds_since(&last), -16_544_868_105_599);
}

#[test]
fn durations() {
    assert_eq!(fmt_duration(0), "0s");
    assert_eq!(fmt_duration(9), "9s");
    assert_eq!(fmt_duration(59), "59s");
    assert_eq!(fmt_duration(60), "1m 00s");
    assert_eq!(fmt_duration(3599), "59m 59s");
    assert_eq!(fmt_duration(3600), "1h 00m 00s");
    assert_eq!(fmt_duration(3661), "1h 01m 01s");
    assert_eq!(fmt_duration(360_000), "100h 00m 00s");
    assert_eq!(fmt_duration(-1), "-1s");
    assert_eq!(fmt_duration(-60), "0s");
    assert_eq!(fmt_duration(-3_725), "-5s");
    assert_eq!(fmt_duration(i64::MAX), "2562047788015215h 30m 07s");
    assert_eq!(fmt_duration(i64::MIN), "-8s");
}
