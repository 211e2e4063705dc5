use seam_core::datetime::{validate_date, validate_datetime};
use seam_core::Code;

#[test]
fn ordinary_dates_pass() {
    assert!(validate_date("2026-08-29").is_ok());
    assert!(validate_date("2000-02-29").is_ok());
    assert!(validate_date("2024-02-29").is_ok());
}

#[test]
fn dates_that_do_not_exist_fail() {
    assert_eq!(validate_date("2023-02-29"), Err(Code::InvalidDate));
    assert_eq!(validate_date("1900-02-29"), Err(Code::InvalidDate));
    assert_eq!(validate_date("2026-13-01"), Err(Code::InvalidDate));
    assert_eq!(validate_date("2026-04-31"), Err(Code::InvalidDate));
    assert_eq!(validate_date("2026-00-10"), Err(Code::InvalidDate));
}

#[test]
fn lenient_date_spellings_are_rejected() {
    assert_eq!(validate_date("2026-8-29"), Err(Code::InvalidDate));
    assert_eq!(validate_date("2026/08/29"), Err(Code::InvalidDate));
    assert_eq!(validate_date("2026-08-29T00:00:00Z"), Err(Code::InvalidDate));
    assert_eq!(validate_date(""), Err(Code::InvalidDate));
}

#[test]
fn datetimes_with_an_offset_pass() {
    assert!(validate_datetime("2026-08-29T14:30:00Z").is_ok());
    assert!(validate_datetime("2026-08-29T14:30:00+02:00").is_ok());
    assert!(validate_datetime("2026-08-29T14:30:00-05:00").is_ok());
    assert!(validate_datetime("2026-08-29T14:30:00.123456Z").is_ok());
}

#[test]
fn a_naive_datetime_is_an_error_not_an_assumption() {
    assert_eq!(validate_datetime("2026-08-29T14:30:00"), Err(Code::MissingTimezone));
    assert_eq!(validate_datetime("2026-08-29T14:30:00.500"), Err(Code::MissingTimezone));
}

#[test]
fn malformed_datetimes_fail_as_malformed() {
    assert_eq!(validate_datetime("2026-08-29"), Err(Code::InvalidDateTime));
    assert_eq!(validate_datetime("2026-08-29 14:30:00Z"), Err(Code::InvalidDateTime));
    assert_eq!(validate_datetime("2026-08-29T25:00:00Z"), Err(Code::InvalidDateTime));
    assert_eq!(validate_datetime("2026-08-29T14:30:00+2:00"), Err(Code::InvalidDateTime));
}

#[test]
fn month_lengths_follow_the_calendar() {
    assert!(validate_date("2026-01-31").is_ok());
    assert!(validate_date("2026-04-30").is_ok());
    assert!(validate_date("2026-12-31").is_ok());
    assert_eq!(validate_date("2026-06-31"), Err(Code::InvalidDate));
    assert_eq!(validate_date("2026-01-32"), Err(Code::InvalidDate));
    assert_eq!(validate_date("2026-01-00"), Err(Code::InvalidDate));
    assert!(validate_date("2026-02-28").is_ok());
    assert_eq!(validate_date("2100-02-29"), Err(Code::InvalidDate));
    assert!(validate_date("1600-02-29").is_ok());
    assert!(validate_date("0000-01-01").is_ok());
    assert!(validate_date("9999-12-31").is_ok());
}

#[test]
fn a_date_has_exactly_ten_bytes() {
    assert_eq!(validate_date("2026-08-290"), Err(Code::InvalidDate));
    assert_eq!(validate_date("2026-08-2"), Err(Code::InvalidDate));
    assert_eq!(validate_date("20260-08-29"), Err(Code::InvalidDate));
    assert_eq!(validate_date("2026-08-2a"), Err(Code::InvalidDate));
}

#[test]
fn datetime_edges() {
    // Lower-case separators are RFC 3339 too.
    assert!(validate_datetime("2026-08-29t14:30:00z").is_ok());
    assert!(validate_datetime("2026-08-29T23:59:60Z").is_ok());
    assert!(validate_datetime("2026-08-29T14:30:00+23:59").is_ok());
    assert_eq!(validate_datetime("2026-08-29T14:30:00+24:00"), Err(Code::InvalidDateTime));
    assert_eq!(validate_datetime("2026-08-29T14:60:00Z"), Err(Code::InvalidDateTime));
    assert_eq!(validate_datetime("2026-08-29T14:30:61Z"), Err(Code::InvalidDateTime));
    assert_eq!(validate_datetime("2026-08-29T14:30:00.Z"), Err(Code::InvalidDateTime));
    assert_eq!(validate_datetime("2026-08-29T14:30:00Z "), Err(Code::InvalidDateTime));
    assert_eq!(validate_datetime("2026-02-30T14:30:00Z"), Err(Code::InvalidDateTime));
    assert_eq!(validate_datetime(""), Err(Code::InvalidDateTime));
    assert_eq!(validate_datetime("2026-08-29T14:30"), Err(Code::InvalidDateTime));
    assert_eq!(validate_datetime("2026-08-29T14:30:00.5"), Err(Code::MissingTimezone));
}

#[test]
fn an_unzoned_instant_lacks_only_its_offset() {
    for naive in ["2026-08-29T14:30:00", "2026-08-29T14:30:00.500", "2026-08-29t23:59:60.1"] {
        assert_eq!(validate_datetime(naive), Err(Code::MissingTimezone));
        assert!(validate_datetime(&format!("{naive}Z")).is_ok());
    }
    assert_eq!(validate_date("2026-08-29T14:30:00Z"), Err(Code::InvalidDate));
}

#[test]
fn missing_timezone_means_a_z_would_make_it_valid() {
    for s in ["2024-01-01T00:00:00", "2024-01-01T00:00:00.250", "2024-02-29t23:59:60"] {
        assert_eq!(validate_datetime(s), Err(Code::MissingTimezone));
        assert_eq!(validate_datetime(&format!("{s}Z")), Ok(()));
    }
    for s in [
        "2024-01-01T00:00:00+01:00",
        "2024-01-01T00:00:00Z",
        "2024-01-01T00:00:0",
        "2024-01-01T00:00:00.",
        "2024-13-01T00:00:00",
        "2024-01-01T00:00:00+01:0",
    ] {
        assert_ne!(validate_datetime(s), Err(Code::MissingTimezone));
        assert_ne!(validate_datetime(&format!("{s}Z")), Ok(()));
    }
}

#[test]
fn a_valid_instant_starts_with_a_valid_date() {
    for s in ["2024-02-29T12:00:00Z", "1999-12-31t23:59:59.9-08:00"] {
        assert_eq!(validate_datetime(s), Ok(()));
        assert_eq!(validate_date(&s[..10]), Ok(()));
    }
    assert_eq!(validate_datetime("2023-02-29T12:00:00Z"), Err(Code::InvalidDateTime));
}
