use cc_stats::time::{
    bad_tz_field, date_key, date_within, fmt_dt, hour_of, is_day_between, is_tz_readable, now, offset_label,
    parse_date, parse_tz, read_rfc3339, resolve_tz, scan_start, seconds_between, stamp, today,
    try_parse_tz, weekday_of, within_range, Instant, TzError, TzOffset, EPOCH_DAY, MAX_DAY,
    MAX_SECS, MAX_SPAN_DAYS, MIN_DAY, MIN_SECS,
};

fn at(secs: i64, nanos: u32) -> Instant {
    Instant::new(secs, nanos).unwrap()
}

fn tz(secs: i32) -> TzOffset {
    TzOffset::new(secs).unwrap()
}

#[test]
fn instants_have_limits() {
    assert!(Instant::new(MIN_SECS, 0).is_some());
    assert!(Instant::new(MIN_SECS - 1, 0).is_none());
    assert!(Instant::new(MAX_SECS, 999_999_999).is_some());
    assert!(Instant::new(MAX_SECS + 1, 0).is_none());
    assert!(Instant::new(59, 1_999_999_999).is_some());
    assert!(Instant::new(58, 1_000_000_000).is_none());
    assert!(Instant::new(-1, 1_000_000_000).is_some());
    assert!(Instant::new(59, 2_000_000_000).is_none());
    assert_eq!(at(59, 5).get_secs(), 59);
    assert_eq!(at(59, 5).get_nanos(), 5);
}

#[test]
fn rank_orders_instants() {
    assert!(at(1, 5).not_after(&at(1, 5)));
    assert!(at(1, 5).not_after(&at(2, 0)));
    assert!(!at(2, 0).not_after(&at(1, 999_999_999)));
    assert!(at(-1, 0).not_after(&at(0, 0)));
}

#[test]
fn offsets_are_less_than_a_day() {
    assert!(TzOffset::new(86400).is_none());
    assert!(TzOffset::new(-86400).is_none());
    assert_eq!(tz(-86399).get_secs(), -86399);
    assert_eq!(tz(86399).get_secs(), 86399);
}

#[test]
fn elapsed_seconds_go_toward_zero() {
    assert_eq!(seconds_between(&at(0, 0), &at(90, 0)), 90);
    assert_eq!(seconds_between(&at(0, 500_000_000), &at(2, 0)), 1);
    assert_eq!(seconds_between(&at(2, 0), &at(0, 500_000_000)), -1);
    assert_eq!(seconds_between(&at(MIN_SECS, 0), &at(MAX_SECS, 0)), MAX_SECS - MIN_SECS);
}

#[test]
fn elapsed_seconds_count_a_leap_second_on_the_same_clock() {
    // from within the leap second to later on the day's clock
    assert_eq!(seconds_between(&at(59, 1_500_000_000), &at(61, 500_000_000)), 2);
    assert_eq!(seconds_between(&at(59, 1_500_000_000), &at(60, 0)), 0);
    // to within the leap second from earlier
    assert_eq!(seconds_between(&at(0, 0), &at(59, 1_500_000_000)), 60);
    // backwards out of it
    assert_eq!(seconds_between(&at(61, 0), &at(59, 1_000_000_000)), -2);
    // across midnight the clock starts anew
    assert_eq!(seconds_between(&at(86399, 1_500_000_000), &at(86401, 0)), 0);
}

#[test]
fn rfc3339_is_read() {
    assert_eq!(read_rfc3339("1970-01-01T00:00:00Z"), Some(at(0, 0)));
    assert_eq!(read_rfc3339("1970-01-01T08:00:00.250+08:00"), Some(at(0, 250_000_000)));
    assert_eq!(read_rfc3339("2025-03-01T12:00:00Z"), Some(at(1740830400, 0)));
    assert_eq!(read_rfc3339("1970-01-01T00:00:60Z"), Some(at(59, 1_000_000_000)));
    assert_eq!(read_rfc3339("1970-01-01"), None);
    assert_eq!(read_rfc3339(""), None);
    assert_eq!(read_rfc3339("1970-13-01T00:00:00Z"), None);
}

#[test]
fn rfc3339_reads_back_what_it_writes_in_utc() {
    let utc = tz(0);
    for (s, n) in [
        (0i64, 0u32),
        (1740830400, 123_456_789),
        (-62167219200, 0),
        (253402300799, 999_999_999),
        (253402300799, 1_999_999_999),
        (59, 1_000_000_000),
        (59, 1_999_999_999),
        (-1, 1),
    ] {
        let x = at(s, n);
        assert_eq!(read_rfc3339(&fmt_dt(&x, &utc)), Some(x));
    }
    // a year that RFC 3339 cannot write is not read back
    assert_eq!(read_rfc3339(&fmt_dt(&at(253402300800, 0), &utc)), None);
}

#[test]
fn rfc3339_reads_back_what_it_writes_in_a_zone() {
    for ahead in [0, 60, -60, 28800, -19800, 86340, -86340] {
        let z = tz(ahead);
        let first = -62167219200 - ahead as i64;
        let last = 253402300799 - ahead as i64;
        for (s, n) in [
            (first, 0u32),
            (1735747200, 0),
            (1735747200, 120_000_000),
            (1735747200, 123_456_000),
            (1735747200, 7),
            (1735747199, 1_500_000_000),
            (last, 999_999_999),
            (last, 1_999_999_999),
        ] {
            let x = at(s, n);
            let text = fmt_dt(&x, &z);
            assert_eq!(read_rfc3339(&text), Some(x));
            assert!(text.ends_with(&offset_label(&z)));
        }
    }
    assert_eq!(fmt_dt(&at(1735747200, 0), &tz(28800)), "2025-01-02T00:00:00+08:00");
}

#[test]
fn instants_are_written_to_the_nanosecond() {
    let z = tz(0);
    assert_eq!(fmt_dt(&at(0, 120_000_000), &z), "1970-01-01T00:00:00.120+00:00");
    assert_eq!(fmt_dt(&at(0, 123_456_000), &z), "1970-01-01T00:00:00.123456+00:00");
    assert_eq!(fmt_dt(&at(0, 7), &z), "1970-01-01T00:00:00.000000007+00:00");
    assert_eq!(fmt_dt(&at(59, 1_500_000_000), &z), "1970-01-01T00:00:60.500+00:00");
    // a leap second in a zone with seconds is not the last of its minute
    assert_eq!(fmt_dt(&at(59, 1_000_000_000), &tz(30)), "1970-01-01T00:01:30+00:01");
    assert_eq!(stamp(&at(59, 1_000_000_000), &tz(30)), "1970-01-01 00:01:30");
    assert_eq!(stamp(&at(59, 1_999_999_999), &z), "1970-01-01 00:00:60");
    // the zone goes to the nearest minute
    assert_eq!(fmt_dt(&at(0, 0), &tz(29)), "1970-01-01T00:00:29+00:00");
    assert_eq!(fmt_dt(&at(0, 0), &tz(-29)), "1969-12-31T23:59:31-00:00");
    assert_eq!(fmt_dt(&at(0, 0), &tz(86399)), "1970-01-01T23:59:59+24:00");
}

#[test]
fn every_day_has_a_date_of_its_own() {
    let leap = |y: i64| y % 4 == 0 && (y % 100 != 0 || y % 400 == 0);
    let (mut y, mut m, mut d) = (1895i64, 1i64, 1i64);
    // 1895-01-01 is 27393 days before 1970-01-01
    for day in -27393i64..60000 {
        let key = date_key(&at(day * 86400, 0), &tz(0));
        assert_eq!(key, format!("{:04}-{:02}-{:02}", y, m, d));
        let len = match m {
            2 => 28 + leap(y) as i64,
            4 | 6 | 9 | 11 => 30,
            _ => 31,
        };
        d += 1;
        if d > len {
            d = 1;
            m += 1;
        }
        if m > 12 {
            m = 1;
            y += 1;
        }
    }
    assert_eq!(date_key(&at(-62167219200, 0), &tz(0)), "0000-01-01");
    assert_eq!(date_key(&at(-62167219201, 0), &tz(0)), "-0001-12-31");
    assert_eq!(date_key(&at(253402300800, 0), &tz(0)), "+10000-01-01");
    assert_eq!(date_key(&at(MIN_SECS, 0), &tz(-1)), "-262144-12-31");
    assert_eq!(date_key(&at(MAX_SECS, 0), &tz(1)), "+262143-01-01");
}

#[test]
fn zones_in_all_forms() {
    let machine = tz(1);
    for sign in ['+', '-'] {
        for h in 0..24i32 {
            for m in [0, 1, 30, 59i32] {
                let k = if sign == '+' { 1 } else { -1 };
                let both = Ok(tz(k * (h * 3600 + m * 60)));
                assert_eq!(resolve_tz(&format!("{}{:02}:{:02}", sign, h, m), &machine), both);
                assert_eq!(resolve_tz(&format!("{}{:02}{:02}", sign, h, m), &machine), both);
                let around = format!(" \t{}{:02}{:02}\n ", sign, h, m);
                assert_eq!(resolve_tz(&around, &machine), both);
                let alone = Ok(tz(k * h * 3600));
                assert_eq!(resolve_tz(&format!("{}{}", sign, h), &machine), alone);
                assert_eq!(resolve_tz(&format!("{}{:02}", sign, h), &machine), alone);
            }
        }
    }
}

#[test]
fn instants_are_written_in_a_zone() {
    assert_eq!(fmt_dt(&at(0, 0), &tz(0)), "1970-01-01T00:00:00+00:00");
    assert_eq!(fmt_dt(&at(0, 500_000_000), &tz(28800)), "1970-01-01T08:00:00.500+08:00");
    assert_eq!(stamp(&at(0, 0), &tz(-18000)), "1969-12-31 19:00:00");
}

#[test]
fn dates_go_by_the_zone() {
    assert_eq!(date_key(&at(0, 0), &tz(0)), "1970-01-01");
    assert_eq!(date_key(&at(0, 0), &tz(-1)), "1969-12-31");
    assert_eq!(date_key(&at(86399, 0), &tz(1)), "1970-01-02");
    assert_eq!(date_key(&at(1740830400, 0), &tz(28800)), "2025-03-01");
}

#[test]
fn hours_and_weekdays_go_by_the_zone() {
    assert_eq!(hour_of(&at(0, 0), &tz(0)), 0);
    assert_eq!(hour_of(&at(0, 0), &tz(-1)), 23);
    assert_eq!(hour_of(&at(3600 * 5 + 1, 0), &tz(3600)), 6);
    // 1970-01-01 was a Thursday
    assert_eq!(weekday_of(&at(0, 0), &tz(0)), 3);
    assert_eq!(weekday_of(&at(0, 0), &tz(-1)), 2);
    assert_eq!(weekday_of(&at(4 * 86400, 0), &tz(0)), 0);
    // 2025-03-01 was a Saturday
    assert_eq!(weekday_of(&at(1740830400, 0), &tz(0)), 5);
}

#[test]
fn the_ends_of_time_can_be_written() {
    for secs in [MIN_SECS, MAX_SECS] {
        for ahead in [-86399, 0, 86399] {
            let x = at(secs, 0);
            let z = tz(ahead);
            let local = secs + ahead as i64;
            assert_eq!(hour_of(&x, &z) as i64, local.rem_euclid(86400) / 3600);
            assert_eq!(weekday_of(&x, &z) as i64, (local.div_euclid(86400) + 3).rem_euclid(7));
            assert!(date_key(&x, &z).len() >= 10);
            assert!(fmt_dt(&x, &z).contains('T'));
            assert!(stamp(&x, &z).contains(' '));
            assert_eq!(
                today(&x, &z) as i64,
                local.div_euclid(86400) + EPOCH_DAY as i64
            );
        }
    }
}

#[test]
fn dates_read_back_what_is_written() {
    for secs in [-62167219200i64, 0, 951782400, 1740830400, 253402300799] {
        let key = date_key(&at(secs, 0), &tz(0));
        let day = (secs.div_euclid(86400) + EPOCH_DAY as i64) as i32;
        assert_eq!(parse_date(&key), Some(day));
    }
}

#[test]
fn zones_are_labelled() {
    assert_eq!(offset_label(&tz(0)), "+00:00");
    assert_eq!(offset_label(&tz(28800)), "+08:00");
    assert_eq!(offset_label(&tz(-18000)), "-05:00");
    assert_eq!(offset_label(&tz(-19800)), "-05:30");
    assert_eq!(offset_label(&tz(-1)), "-00:00:01");
    assert_eq!(offset_label(&tz(86399)), "+23:59:59");
}

#[test]
fn zones_read_back_what_is_labelled() {
    let machine = tz(7);
    for secs in [0, 60, -60, 28800, -18000, 86340, -86340] {
        assert_eq!(resolve_tz(&offset_label(&tz(secs)), &machine), Ok(tz(secs)));
    }
}

#[test]
fn dates_are_days() {
    assert_eq!(parse_date("1970-01-01"), Some(EPOCH_DAY));
    assert_eq!(parse_date("0001-01-01"), Some(1));
    assert_eq!(parse_date("2024-02-29"), Some(738945));
    assert_eq!(parse_date("2025-02-29"), None);
    assert_eq!(parse_date("yesterday"), None);
    assert_eq!(parse_date("1970-01-01T00:00:00Z"), None);
}

#[test]
fn a_range_holds_both_of_its_ends() {
    let from = parse_date("2025-01-10");
    let to = parse_date("2025-01-20");
    assert!(within_range("2025-01-10", &from, &to));
    assert!(within_range("2025-01-20", &from, &to));
    assert!(!within_range("2025-01-09", &from, &to));
    assert!(!within_range("2025-01-21", &from, &to));
    assert!(within_range("1900-01-01", &None, &to));
    assert!(within_range("2999-01-01", &from, &None));
    // what is no date is not filtered out
    assert!(within_range("n/a", &from, &to));
    assert!(is_day_between(None, &from, &to));
    assert!(!is_day_between(Some(1), &from, &to));
}

#[test]
fn a_range_goes_by_the_local_date() {
    let from = Some(EPOCH_DAY);
    let to = Some(EPOCH_DAY);
    assert!(date_within(&at(0, 0), &tz(0), &from, &to));
    assert!(!date_within(&at(0, 0), &tz(-1), &from, &to));
    assert!(!date_within(&at(86399, 0), &tz(1), &from, &to));
    assert!(date_within(&at(86399, 0), &tz(0), &from, &to));
}

#[test]
fn a_scan_starts_where_it_is_asked_to() {
    assert_eq!(scan_start(Some(5), false, EPOCH_DAY, 365), Some(5));
    assert_eq!(scan_start(Some(5), true, EPOCH_DAY, 365), Some(5));
    assert_eq!(scan_start(None, true, EPOCH_DAY, 365), None);
    assert_eq!(scan_start(None, false, EPOCH_DAY, 365), Some(EPOCH_DAY - 365));
    assert_eq!(scan_start(None, false, EPOCH_DAY, -1), Some(EPOCH_DAY + 1));
    assert_eq!(scan_start(None, false, EPOCH_DAY, 0), Some(EPOCH_DAY));
    assert_eq!(scan_start(None, false, MIN_DAY, 1), None);
    assert_eq!(scan_start(None, false, MAX_DAY, -1), None);
    assert_eq!(scan_start(None, false, MAX_DAY, MAX_DAY as i64 - MIN_DAY as i64), Some(MIN_DAY));
    assert_eq!(scan_start(None, false, EPOCH_DAY, MAX_SPAN_DAYS), None);
    assert_eq!(scan_start(None, false, EPOCH_DAY, -MAX_SPAN_DAYS), None);
}

#[test]
fn the_present_is_after_this_was_written() {
    let t = now();
    assert!(at(1735689600, 0).not_after(&t));
    assert!(t.get_nanos() < 2_000_000_000);
}

#[test]
fn zones_by_name() {
    let machine = tz(3600);
    assert_eq!(resolve_tz("local", &machine), Ok(machine));
    assert_eq!(resolve_tz(" LOCAL ", &machine), Ok(machine));
    assert_eq!(resolve_tz("", &machine), Ok(machine));
    assert_eq!(resolve_tz("   ", &machine), Ok(machine));
    assert_eq!(resolve_tz("UTC", &machine), Ok(tz(0)));
    assert_eq!(resolve_tz("utc", &machine), Ok(tz(0)));
    assert_eq!(resolve_tz("Z", &machine), Ok(tz(0)));
    assert_eq!(resolve_tz("z", &machine), Err(TzError::BadSign));
}

#[test]
fn zones_by_hours_and_minutes() {
    let machine = tz(0);
    assert_eq!(resolve_tz("+08:00", &machine), Ok(tz(28800)));
    assert_eq!(resolve_tz("-05:00", &machine), Ok(tz(-18000)));
    assert_eq!(resolve_tz("-0530", &machine), Ok(tz(-19800)));
    assert_eq!(resolve_tz("+8", &machine), Ok(tz(28800)));
    assert_eq!(resolve_tz("-12", &machine), Ok(tz(-43200)));
    assert_eq!(resolve_tz("+1:-30", &machine), Ok(tz(1800)));
}

#[test]
fn zones_that_cannot_be() {
    let machine = tz(0);
    assert_eq!(resolve_tz("08:00", &machine), Err(TzError::BadSign));
    assert_eq!(resolve_tz("+", &machine), Err(TzError::BadNumber));
    assert_eq!(resolve_tz("+a:00", &machine), Err(TzError::BadNumber));
    assert_eq!(resolve_tz("+08:", &machine), Err(TzError::BadNumber));
    assert_eq!(resolve_tz("+éé", &machine), Err(TzError::BadNumber));
    assert_eq!(resolve_tz("+24:00", &machine), Err(TzError::OutOfRange));
    assert_eq!(resolve_tz("-24", &machine), Err(TzError::OutOfRange));
    assert_eq!(resolve_tz("+123", &machine), Err(TzError::OutOfRange));
}

#[test]
fn zones_that_cannot_be_computed_are_told() {
    assert!(!is_tz_readable("+2147483647:00"));
    assert!(!is_tz_readable("+0:2147483647"));
    assert!(!is_tz_readable("+a→"));
    assert!(is_tz_readable("+596523"));
    assert!(!is_tz_readable("+596524"));
    assert!(try_parse_tz("+2147483647:00").is_none());
    assert_eq!(try_parse_tz("+08:00"), Some(Ok(tz(28800))));
    assert_eq!(try_parse_tz("x"), Some(Err(TzError::BadSign)));
    assert_eq!(parse_tz("-05:00"), Ok(tz(-18000)));
    let local = parse_tz("local").unwrap();
    assert!(local.get_secs() > -86400 && local.get_secs() < 86400);
}

#[test]
fn the_part_that_is_no_number_is_told() {
    assert_eq!(bad_tz_field("+a:00").as_deref(), Some("a"));
    assert_eq!(bad_tz_field(" +08:x ").as_deref(), Some("x"));
    assert_eq!(bad_tz_field("+a:b").as_deref(), Some("a"));
    assert_eq!(bad_tz_field("+08").as_deref(), None);
    assert_eq!(bad_tz_field("+").as_deref(), Some(""));
    assert_eq!(bad_tz_field("-05x0").as_deref(), Some("x0"));
    assert_eq!(bad_tz_field("+éé").as_deref(), Some("éé"));
    assert_eq!(bad_tz_field("+24:00"), None);
    assert_eq!(bad_tz_field("08:00"), None);
    assert_eq!(bad_tz_field("local"), None);
}
