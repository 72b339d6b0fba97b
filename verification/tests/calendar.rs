use todo::calendar::{
    civil_from_days, current_day, current_iso8601, days_from_civil, extract_leading_iso_date,
    parse_iso8601_secs,
};

#[test]
fn known_days() {
    assert_eq!(days_from_civil(1970, 1, 1), 0);
    assert_eq!(days_from_civil(2000, 2, 29), 11_016);
    assert_eq!(days_from_civil(2000, 3, 1), 11_017);
    assert_eq!(days_from_civil(2026, 7, 2), 20_636);
    assert_eq!(days_from_civil(1969, 12, 31), -1);
    assert_eq!(days_from_civil(0, 3, 1), -719_468);
    assert_eq!(days_from_civil(-1, 12, 31), -719_529);
    assert_eq!(civil_from_days(0), (1970, 1, 1));
    assert_eq!(civil_from_days(11_016), (2000, 2, 29));
    assert_eq!(civil_from_days(-1), (1969, 12, 31));
    assert_eq!(civil_from_days(-719_529), (-1, 12, 31));
    assert_eq!(civil_from_days(2_932_896), (9999, 12, 31));
}

#[test]
fn conversions_undo_one_another() {
    let mut z: i64 = -1_500_000;
    while z < 1_500_000 {
        let (y, m, d) = civil_from_days(z);
        assert_eq!(days_from_civil(y, m as i64, d as i64), z);
        z += 97;
    }
}

#[test]
fn days_out_of_range_count_on() {
    assert_eq!(days_from_civil(2026, 1, 32), days_from_civil(2026, 2, 1));
    assert_eq!(days_from_civil(2026, 13, 1), days_from_civil(2027, 1, 1));
    assert_eq!(days_from_civil(2026, 0, 1), days_from_civil(2025, 12, 1));
}

#[test]
fn timestamps_are_exact() {
    assert_eq!(current_iso8601(0), "1970-01-01T00:00:00Z");
    assert_eq!(current_iso8601(1_782_950_461), "2026-07-02T00:01:01Z");
    assert_eq!(current_iso8601(253_402_300_799), "9999-12-31T23:59:59Z");
    assert_eq!(current_iso8601(253_402_300_800), "10000-01-01T00:00:00Z");
    assert_eq!(current_day(1_782_950_461), "2026-07-02");
    assert_eq!(current_day(253_402_300_800), "10000-01-0");
}

#[test]
fn timestamps_read_back() {
    for secs in [0, 1, 59, 86_399, 86_400, 951_782_400, 1_782_950_461, 253_402_300_799] {
        assert_eq!(parse_iso8601_secs(&current_iso8601(secs)), Some(secs));
    }
}

#[test]
fn timestamps_sort_by_time() {
    let secs = [0u64, 1, 86_399, 86_400, 951_782_400, 1_782_950_461, 253_402_300_799];
    for a in secs {
        for b in secs {
            assert_eq!(current_iso8601(a) < current_iso8601(b), a < b);
        }
    }
}

#[test]
fn malformed_timestamps_are_none() {
    for bad in [
        "",
        "2026-07-02T00:01:0",
        "2026-07-02T00:01:01",
        "2026-07-02T00:01:01+05:00",
        "2026-07-02T00:01:01ZZ",
        "2026-07-02T00:01:01z",
        "2026-07-02t00:01:01Z",
        "2026-07-02T00:01:xxZ",
        "2026-07-02T-1:00:00Z",
        "2026-07-02T+1:00:00Z",
        "+026-07-02T00:01:01Z",
        "-026-07-02T00:01:01Z",
        "2026-+7-02T00:01:01Z",
        "2026/06/28 00:00:00",
        "2026/06/28T00:00:00Z",
        "2026-06-28 00:00:00Z",
        "2026-06-28T00.00.00Z",
        "2026–07–02T00:01:01Z",
        "202é-06-28T00:00:00Z",
        "２０２６-07-02T00:01:01Z",
        "10000-01-01T00:00:00Z",
    ] {
        assert_eq!(parse_iso8601_secs(bad), None, "{}", bad);
    }
}

#[test]
fn times_before_1970_are_none() {
    assert_eq!(parse_iso8601_secs("1969-12-31T23:59:59Z"), None);
    assert_eq!(parse_iso8601_secs("0000-00-00T00:00:00Z"), None);
    assert_eq!(parse_iso8601_secs("1970-01-01T00:00:00Z"), Some(0));
    assert_eq!(parse_iso8601_secs("2026-06-28T00:00:00Z"), Some(1_782_604_800));
}

#[test]
fn older_item_weighs_more_than_younger() {
    fn w(age_hours: f64, importance: f64) -> f64 {
        importance * (age_hours + 1.0).ln()
    }

    let w_1h = w(1.0, 2.0);
    let w_24h = w(24.0, 2.0);
    assert!(
        w_24h > w_1h,
        "older item (24h) must weigh more than younger (1h): {} vs {}",
        w_24h,
        w_1h
    );

    let secs = todo::ops::parse_iso8601_secs("2026-06-28T00:00:00Z");
    assert!(secs.is_some(), "parse_iso8601_secs must parse valid ISO8601");
    let secs = secs.unwrap();
    assert!(secs > 20_000 * 86400, "parsed secs seems too small: {}", secs);
    assert!(secs < 25_000 * 86400, "parsed secs seems too large: {}", secs);
    assert_eq!(secs, 20_632 * 86400);
}

#[test]
fn leading_dates() {
    assert_eq!(extract_leading_iso_date("2026-06-01").as_deref(), Some("2026-06-01"));
    assert_eq!(extract_leading_iso_date(" [2026-06-01] x").as_deref(), Some("2026-06-01"));
    assert_eq!(extract_leading_iso_date("9999-99-99é").as_deref(), Some("9999-99-99"));
    assert_eq!(extract_leading_iso_date("[[2026-06-01"), None);
    assert_eq!(extract_leading_iso_date("2026-06-0"), None);
    assert_eq!(extract_leading_iso_date("2026-06-012"), None);
    assert_eq!(extract_leading_iso_date("2026/06/01"), None);
    assert_eq!(extract_leading_iso_date("x 2026-06-01"), None);
}
