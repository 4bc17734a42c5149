use twill::datetime::{
    civil_from_days, date_trunc, day_of_week, day_of_year, days_from_civil, format_date, format_time, format_timestamp,
    now_epoch, parse_epoch_secs, parts, read_clock,
};

#[test]
fn roundtrips_epoch_zero() {
    assert_eq!(format_timestamp(0), "1970-01-01 00:00:00");
    assert_eq!(parse_epoch_secs("1970-01-01 00:00:00"), Some(0));
    assert_eq!(parse_epoch_secs("1970-01-01"), Some(0));
}

#[test]
fn parses_iso_with_tz_and_fraction() {
    let e = parse_epoch_secs("2021-07-04T12:30:45.123Z").unwrap();
    assert_eq!(format_timestamp(e), "2021-07-04 12:30:45");
    assert_eq!(parse_epoch_secs("2021-07-04 12:30:45+02:00"), Some(e));
}

#[test]
fn dow_and_trunc() {
    // 2021-07-04 is a Sunday.
    let e = parse_epoch_secs("2021-07-04 09:00:00").unwrap();
    assert_eq!(day_of_week(e), 0);
    assert_eq!(format_date(date_trunc("month", e).unwrap()), "2021-07-01");
    assert_eq!(
        format_timestamp(date_trunc("day", e).unwrap()),
        "2021-07-04 00:00:00"
    );
}

#[test]
fn civil_days_are_inverse() {
    let mut z: i64 = -800_000;
    while z < 800_000 {
        let (y, m, d) = civil_from_days(z);
        assert_eq!(days_from_civil(y, m, d), z);
        z += 997;
    }
    assert_eq!(civil_from_days(0), (1970, 1, 1));
    assert_eq!(civil_from_days(11016), (2000, 2, 29));
    assert_eq!(days_from_civil(2000, 3, 1), 11017);
    assert_eq!(civil_from_days(-719468), (0, 3, 1));
}

#[test]
fn parts_before_the_epoch() {
    assert_eq!(parts(-1), (1969, 12, 31, 23, 59, 59));
    assert_eq!(format_time(-1), "23:59:59");
    assert_eq!(format_date(-62_198_755_200), "-001-01-01");
}

#[test]
fn malformed_dates_are_refused() {
    assert_eq!(parse_epoch_secs("2021-13-01"), None);
    assert_eq!(parse_epoch_secs("2021-00-01"), None);
    assert_eq!(parse_epoch_secs("2021-01-32"), None);
    assert_eq!(parse_epoch_secs("2021-01"), None);
    assert_eq!(parse_epoch_secs("soon"), None);
    assert_eq!(parse_epoch_secs("2021-01-01 xx:00"), None);
    assert_eq!(parse_epoch_secs("9999999999999999-01-01"), None);
    assert_eq!(parse_epoch_secs("2021-01-01 7"), Some(1_609_484_400));
}

#[test]
fn truncation_to_every_unit() {
    let e = parse_epoch_secs("2021-08-19 13:14:15").unwrap();
    let at = |u: &str| format_timestamp(date_trunc(u, e).unwrap());
    assert_eq!(at("YEAR"), "2021-01-01 00:00:00");
    assert_eq!(at("quarter"), "2021-07-01 00:00:00");
    assert_eq!(at("month"), "2021-08-01 00:00:00");
    assert_eq!(at("week"), "2021-08-16 00:00:00");
    assert_eq!(at("day"), "2021-08-19 00:00:00");
    assert_eq!(at("hour"), "2021-08-19 13:00:00");
    assert_eq!(at("minute"), "2021-08-19 13:14:00");
    assert_eq!(at("second"), "2021-08-19 13:14:15");
    assert_eq!(date_trunc("fortnight", e), None);
    assert_eq!(day_of_year(e), 231);
    assert_eq!(date_trunc("year", i64::MIN), None);
    assert!(now_epoch() > 1_600_000_000);
    assert_eq!(read_clock(Some(86_400)), 86_400);
    assert_eq!(read_clock(None), 0);
}

#[test]
fn written_times_read_back() {
    for e in [0, -1, 951_782_400, 1_625_401_845, -62_167_219_200, 253_402_300_799, 4_102_444_800_001] {
        assert_eq!(parse_epoch_secs(&format_timestamp(e)), Some(e));
        assert_eq!(parse_epoch_secs(&format_date(e)), Some(e - e.rem_euclid(86_400)));
    }
    // A year with a sign is not read.
    assert_eq!(parse_epoch_secs(&format_timestamp(-62_198_755_200)), None);
}
