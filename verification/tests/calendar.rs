use chrono::{Datelike, Timelike};

#[test]
fn naivedate_from_ymd() {
    let iso = iso8601::date("2023-02-08").unwrap();
    let naive = iso.into_naive().unwrap();
    assert_eq!(naive.year(), 2023);
    assert_eq!(naive.month(), 2);
    assert_eq!(naive.day(), 8);
}

#[test]
fn naivedate_from_ywd() {
    let iso = iso8601::date("2023-W06-2").unwrap();
    let naive = iso.into_naive().unwrap();
    assert_eq!(naive.year(), 2023);
    assert_eq!(naive.month(), 2);
    assert_eq!(naive.day(), 8);
}

#[test]
fn naivedate_from_ordinal() {
    let iso = iso8601::date("2023-039").unwrap();
    let naive = iso.into_naive().unwrap();
    assert_eq!(naive.year(), 2023);
    assert_eq!(naive.month(), 2);
    assert_eq!(naive.day(), 8);
}

#[test]
fn naivedate_rejects_invalid() {
    // The parser is calendar-naive; chrono is not.
    let iso = iso8601::date("2015-02-29").unwrap();
    assert!(iso.into_naive().is_none());
}

#[test]
fn naivetime_from_time() {
    let iso = iso8601::time("23:40:00").unwrap();
    let naive = iso.into_naive().unwrap();
    assert_eq!(naive.hour(), 23);
    assert_eq!(naive.minute(), 40);
    assert_eq!(naive.second(), 0);
}

#[test]
fn datetime_from_iso_ymd_offset() {
    let iso = iso8601::datetime("2023-02-08T23:40:00+01:23").unwrap();
    assert_eq!(iso.offset_seconds(), Some(3623));
    let datetime = iso.into_naive().unwrap();

    assert_eq!(datetime.year(), 2023);
    assert_eq!(datetime.month(), 2);
    assert_eq!(datetime.day(), 8);
    assert_eq!(datetime.hour(), 23);
    assert_eq!(datetime.minute(), 40);
    assert_eq!(datetime.second(), 00);
}

#[test]
fn datetime_from_iso_ymd_utc() {
    let iso = iso8601::datetime("2023-02-08T23:40:00Z").unwrap();
    assert_eq!(iso.offset_seconds(), Some(0));
    let datetime = iso.into_naive().unwrap();

    assert_eq!(datetime.year(), 2023);
    assert_eq!(datetime.month(), 2);
    assert_eq!(datetime.day(), 8);
    assert_eq!(datetime.hour(), 23);
    assert_eq!(datetime.minute(), 40);
    assert_eq!(datetime.second(), 00);
}

#[test]
fn datetime_from_iso_ymd_no_offset() {
    let iso = iso8601::datetime("2023-02-08T23:40:00").unwrap();
    assert_eq!(iso.offset_seconds(), Some(0));
    let datetime = iso.into_naive().unwrap();

    assert_eq!(datetime.year(), 2023);
    assert_eq!(datetime.month(), 2);
    assert_eq!(datetime.day(), 8);
    assert_eq!(datetime.hour(), 23);
    assert_eq!(datetime.minute(), 40);
    assert_eq!(datetime.second(), 00);
}

#[test]
fn datetime_from_iso_ywd() {
    let iso = iso8601::datetime("2023-W06-2T23:40:00+01:23").unwrap();
    assert_eq!(iso.offset_seconds(), Some(3623));
    let datetime = iso.into_naive().unwrap();

    assert_eq!(datetime.year(), 2023);
    assert_eq!(datetime.month(), 2);
    assert_eq!(datetime.day(), 8);
    assert_eq!(datetime.hour(), 23);
    assert_eq!(datetime.minute(), 40);
    assert_eq!(datetime.second(), 00);
}
