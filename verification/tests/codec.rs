//! Tests of the timestamp codec: known calendar anchors, fractional
//! precision, truncation, the round trip, and each failure mode.

use photoslibrary::{decode, encode, DecodeError, Instant, EPOCH_OFFSET_SECS};

#[test]
fn zero_decodes_to_reference_epoch() {
    let i = decode("0").unwrap();
    assert_eq!(i.secs, 978307200);
    assert_eq!(i.nanos, 0);
    let dt = chrono::DateTime::from_timestamp(i.secs, i.nanos).unwrap();
    assert_eq!(dt.to_rfc3339(), "2001-01-01T00:00:00+00:00");
}

#[test]
fn one_day_decodes_to_next_calendar_day() {
    let i = decode("86400").unwrap();
    assert_eq!(i.secs, 978393600);
    assert_eq!(i.nanos, 0);
    let dt = chrono::DateTime::from_timestamp(i.secs, i.nanos).unwrap();
    assert_eq!(dt.to_rfc3339(), "2001-01-02T00:00:00+00:00");
}

#[test]
fn epoch_offset_constant_matches_unix_epochs() {
    assert_eq!(EPOCH_OFFSET_SECS, 978307200);
}

#[test]
fn fractional_seconds_decode_to_nanos() {
    let i = decode("1.5").unwrap();
    assert_eq!(i.secs, 978307201);
    assert_eq!(i.nanos, 500_000_000);
}

#[test]
fn fraction_beyond_nine_digits_is_truncated() {
    let i = decode("0.1234567891").unwrap();
    assert_eq!(i.secs, 978307200);
    assert_eq!(i.nanos, 123_456_789);
}

#[test]
fn short_fraction_is_right_padded() {
    let i = decode("2.25").unwrap();
    assert_eq!(i.secs, 978307202);
    assert_eq!(i.nanos, 250_000_000);
}

#[test]
fn negative_offset_decodes_before_reference_epoch() {
    let i = decode("-1.5").unwrap();
    assert_eq!(i.secs, 978307198);
    assert_eq!(i.nanos, 500_000_000);
    let whole = decode("-86400").unwrap();
    assert_eq!(whole.secs, 978220800);
    assert_eq!(whole.nanos, 0);
    let dt = chrono::DateTime::from_timestamp(whole.secs, whole.nanos).unwrap();
    assert_eq!(dt.to_rfc3339(), "2000-12-31T00:00:00+00:00");
}

#[test]
fn non_numeric_raw_fails_as_not_decimal() {
    assert_eq!(decode("not-a-number"), Err(DecodeError::NotDecimal));
    assert_eq!(decode(""), Err(DecodeError::NotDecimal));
    assert_eq!(decode("-"), Err(DecodeError::NotDecimal));
    assert_eq!(decode(".5"), Err(DecodeError::NotDecimal));
    assert_eq!(decode("1.2.3"), Err(DecodeError::NotDecimal));
    assert_eq!(decode("1e3"), Err(DecodeError::NotDecimal));
    assert_eq!(decode("12 "), Err(DecodeError::NotDecimal));
}

#[test]
fn out_of_range_raw_is_rejected() {
    assert_eq!(
        decode("99999999999999999999999999999999"),
        Err(DecodeError::OutOfRange)
    );
    assert_eq!(
        decode("-99999999999999999999999999999999"),
        Err(DecodeError::OutOfRange)
    );
}

#[test]
fn leading_zeros_are_accepted() {
    let i = decode("0086400.000").unwrap();
    assert_eq!(i.secs, 978393600);
    assert_eq!(i.nanos, 0);
}

#[test]
fn round_trip_preserves_known_instants() {
    let samples = [
        Instant { secs: 978307200, nanos: 0 },
        Instant { secs: 978393600, nanos: 250_000_000 },
        Instant { secs: 0, nanos: 1 },
        Instant { secs: -5, nanos: 999_999_999 },
        Instant { secs: 1_700_000_000, nanos: 123_456_789 },
        Instant { secs: i64::MAX, nanos: 7 },
        Instant { secs: i64::MIN, nanos: 0 },
    ];
    for s in samples {
        let raw = encode(s);
        assert_eq!(decode(&raw), Ok(s), "round trip through {raw}");
    }
}

#[test]
fn encode_renders_the_raw_decimal() {
    assert_eq!(encode(Instant { secs: 978307200, nanos: 0 }), "0");
    assert_eq!(
        encode(Instant { secs: 978307201, nanos: 500_000_000 }),
        "1.500000000"
    );
    assert_eq!(
        encode(Instant { secs: 978307198, nanos: 500_000_000 }),
        "-1.500000000"
    );
}
