use iso8601::parsers::{parse_date, parse_duration, parse_time};
use iso8601::ParseError;
use iso8601::{date, datetime, duration, time, timezone, Date, DateTime, Duration, Time, Timezone};

fn tz(oh: i32, om: i32) -> Timezone {
    Timezone {
        offset_hours: oh,
        offset_minutes: om,
    }
}

#[test]
fn render_date_forms() {
    let ymd = Date::YMD {
        year: 2015,
        month: 6,
        day: 26,
    };
    assert_eq!(ymd.render(), "2015-06-26");
    let negative = Date::YMD {
        year: -333,
        month: 7,
        day: 11,
    };
    assert_eq!(negative.render(), "-0333-07-11");
    let week = Date::Week {
        year: 2015,
        ww: 5,
        d: 7,
    };
    assert_eq!(week.render(), "2015-W05-7");
    let ordinal = Date::Ordinal {
        year: 2015,
        ddd: 57,
    };
    assert_eq!(ordinal.render(), "2015-057");
}

#[test]
fn render_time_and_timezone() {
    let t = Time {
        hour: 16,
        minute: 43,
        second: 16,
        millisecond: 123,
        timezone: tz(5, 0),
    };
    assert_eq!(t.render(), "16:43:16.123+05:00");
    let padded = Time {
        hour: 4,
        minute: 5,
        second: 6,
        millisecond: 12,
        timezone: tz(0, 0),
    };
    assert_eq!(padded.render(), "04:05:06.012+00:00");
    assert_eq!(tz(-5, -30).render(), "-05:30");
    assert_eq!(tz(2, 30).render(), "+02:30");
}

#[test]
fn render_datetime() {
    let dt = DateTime {
        date: Date::YMD {
            year: 2015,
            month: 6,
            day: 26,
        },
        time: Time {
            hour: 16,
            minute: 43,
            second: 16,
            millisecond: 0,
            timezone: tz(0, 0),
        },
    };
    assert_eq!(dt.render(), "2015-06-26T16:43:16.000+00:00");
}

#[test]
fn render_duration_forms() {
    let full = Duration::YMDHMS {
        year: 1,
        month: 2,
        day: 3,
        hour: 4,
        minute: 5,
        second: 6,
        millisecond: 0,
    };
    assert_eq!(full.render(), "P1Y2M3DT4H5M6S");
    let fractional = Duration::YMDHMS {
        year: 0,
        month: 0,
        day: 0,
        hour: 0,
        minute: 0,
        second: 6,
        millisecond: 700,
    };
    assert_eq!(fractional.render(), "PT6.700S");
    let zero = Duration::YMDHMS {
        year: 0,
        month: 0,
        day: 0,
        hour: 0,
        minute: 0,
        second: 0,
        millisecond: 0,
    };
    assert_eq!(zero.render(), "P0D");
    assert_eq!(Duration::Weeks(26).render(), "P26W");
}

#[test]
fn round_trip_date_forms() {
    for text in ["2015-06-26", "-0333-07-11", "2015-W05-7", "2015-366"] {
        let parsed = date(text).unwrap();
        assert_eq!(date(&parsed.render()), Ok(parsed));
    }
}

#[test]
fn round_trip_time_forms() {
    for text in ["16:43:16.123+05:00", "164800.1Z", "16:43", "24:00"] {
        let parsed = time(text).unwrap();
        assert_eq!(time(&parsed.render()), Ok(parsed));
    }
}

#[test]
fn round_trip_datetime_forms() {
    for text in [
        "2001-02-03T04:05:06+07:00",
        "2015-W43-6T16:30:48Z",
        "2015-297T16:30:48-05:30",
        "20070831T1648",
    ] {
        let parsed = datetime(text).unwrap();
        assert_eq!(datetime(&parsed.render()), Ok(parsed));
    }
}

#[test]
fn round_trip_duration_forms() {
    for text in [
        "P1Y2M3DT4H5M6S",
        "P2021Y11M16DT23H26M59.123S",
        "PT0.471S",
        "P0D",
        "PT0S",
        "P0W",
        "P26W",
        "P36500D",
    ] {
        let parsed = duration(text).unwrap();
        assert_eq!(duration(&parsed.render()), Ok(parsed));
    }
}

#[test]
fn round_trip_timezone_forms() {
    for text in ["Z", "+05:00", "-05:30", "+0000", "-00:00", "+24"] {
        let parsed = timezone(text).unwrap();
        assert_eq!(timezone(&parsed.render()), Ok(parsed));
    }
}

#[test]
fn utc_offset_equivalence() {
    // An explicit zero offset and the literal Z denote the same value.
    assert_eq!(timezone("Z"), timezone("+00:00"));
    assert_eq!(timezone("Z"), timezone("+0000"));
    assert_eq!(timezone("Z"), timezone("-00:00"));
    assert_eq!(
        datetime("20010203T040506+0000"),
        datetime("2001-02-03T04:05:06Z")
    );
}

#[test]
fn range_rejection() {
    assert!(date("2015-13-01").is_err());
    assert!(date("2015-00-01").is_err());
    assert!(time("30:90:90").is_err());
    // Hour 24 is accepted unconditionally, whatever the minute.
    assert_eq!(
        time("24:01"),
        Ok(Time {
            hour: 24,
            minute: 1,
            second: 0,
            millisecond: 0,
            timezone: tz(0, 0),
        })
    );
}

#[test]
fn duration_emptiness() {
    assert!(duration("P").is_err());
    assert!(duration("PT").is_err());
    let zero = duration("P0D").unwrap();
    assert!(zero.is_zero());
    assert!(duration("P0W").unwrap().is_zero());
    assert!(!duration("P1D").unwrap().is_zero());
}

#[test]
fn calendar_naive_acceptance() {
    assert_eq!(
        date("2015-02-29"),
        Ok(Date::YMD {
            year: 2015,
            month: 2,
            day: 29,
        })
    );
}

#[test]
fn error_kinds() {
    assert_eq!(parse_date(b"pppp"), Err(ParseError::MalformedInput));
    assert_eq!(parse_time(b"30:90"), Err(ParseError::OutOfRange));
    assert_eq!(parse_duration(b"PT"), Err(ParseError::EmptyDuration));
    assert_eq!(parse_duration(b"P"), Err(ParseError::EmptyDuration));
    assert_eq!(parse_duration(b"pppp"), Err(ParseError::MalformedInput));
}

#[test]
fn leftover_input() {
    // A low-level parse hands back how much it consumed.
    let (parsed, consumed) = parse_date(b"2015-06-26T16:43").unwrap();
    assert_eq!(
        parsed,
        Date::YMD {
            year: 2015,
            month: 6,
            day: 26,
        }
    );
    assert_eq!(consumed, 10);
}

#[test]
fn buf_to_u32_reads_digits() {
    assert_eq!(iso8601::helper::buf_to_u32(b"0042"), 42);
    assert_eq!(iso8601::helper::buf_to_u32(b"4294967295"), 4294967295);
}

#[test]
fn default_values() {
    assert_eq!(
        Date::default(),
        Date::YMD {
            year: 0,
            month: 0,
            day: 0,
        }
    );
    assert!(Duration::default().is_zero());
    assert_eq!(Timezone::default(), tz(0, 0));
}
