use wire_as::timestamp::{decode_timestamp, Timestamp};
use wire_as::wire::{DecodeError, Wire};

fn text(s: &str) -> Wire {
    Wire::Text(s.as_bytes().to_vec())
}

#[test]
fn integer_float_and_string_agree() {
    let from_int = decode_timestamp(&Wire::Int(1478563200)).unwrap();
    let from_uint = decode_timestamp(&Wire::UInt(1478563200)).unwrap();
    let from_str = decode_timestamp(&text("1478563200")).unwrap();
    let from_float = decode_timestamp(&Wire::Real { whole: 1478563200, frac_nanos: 0 }).unwrap();
    let expected = Timestamp { secs: 1478563200, nanos: 0 };
    assert_eq!(from_int, expected);
    assert_eq!(from_uint, expected);
    assert_eq!(from_str, expected);
    assert_eq!(from_float, expected);
}

#[test]
fn string_fraction_is_padded_to_nanoseconds() {
    let base = decode_timestamp(&text("1478563200")).unwrap();
    let with_frac = decode_timestamp(&text("1478563200.123")).unwrap();
    assert_eq!(with_frac.secs, base.secs);
    assert_eq!(with_frac.nanos, 123_000_000);
}

#[test]
fn nine_fraction_digits_are_exact_nanoseconds() {
    let ts = decode_timestamp(&text("1.999999999")).unwrap();
    assert_eq!(ts, Timestamp { secs: 1, nanos: 999_999_999 });
}

#[test]
fn ten_fraction_digits_fail_with_precision_error() {
    let r = decode_timestamp(&text("1478563200.1234567890"));
    assert_eq!(
        r,
        Err(DecodeError::Precision(b"1478563200.1234567890".to_vec()))
    );
}

#[test]
fn malformed_strings_fail_with_invalid_value() {
    assert_eq!(
        decode_timestamp(&text("abc")),
        Err(DecodeError::InvalidValue(b"abc".to_vec()))
    );
    assert_eq!(
        decode_timestamp(&text("1.2.3")),
        Err(DecodeError::InvalidValue(b"1.2.3".to_vec()))
    );
    assert_eq!(
        decode_timestamp(&text("")),
        Err(DecodeError::InvalidValue(b"".to_vec()))
    );
    assert_eq!(
        decode_timestamp(&text("1.")),
        Err(DecodeError::InvalidValue(b"1.".to_vec()))
    );
}

#[test]
fn boolean_token_fails_with_invalid_shape() {
    assert_eq!(decode_timestamp(&Wire::Flag(true)), Err(DecodeError::InvalidShape));
    assert_eq!(decode_timestamp(&Wire::Absent), Err(DecodeError::InvalidShape));
}

#[test]
fn shape_and_value_errors_differ_from_out_of_range() {
    let invalid = decode_timestamp(&text("abc")).unwrap_err();
    let shape = decode_timestamp(&Wire::Flag(false)).unwrap_err();
    let range = decode_timestamp(&Wire::Int(i64::MAX)).unwrap_err();
    assert!(matches!(invalid, DecodeError::InvalidValue(_)));
    assert!(matches!(shape, DecodeError::InvalidShape));
    assert!(matches!(range, DecodeError::OutOfRange(_)));
}

#[test]
fn range_boundaries_follow_chrono() {
    // The last and first representable seconds, and the ones just beyond.
    assert!(decode_timestamp(&Wire::Int(8210266876799)).is_ok());
    assert_eq!(
        decode_timestamp(&Wire::Int(8210266876800)),
        Err(DecodeError::OutOfRange(b"8210266876800".to_vec()))
    );
    assert!(decode_timestamp(&Wire::Int(-8334601228800)).is_ok());
    assert_eq!(
        decode_timestamp(&Wire::Int(-8334601228801)),
        Err(DecodeError::OutOfRange(b"-8334601228801".to_vec()))
    );
}

#[test]
fn oversized_unsigned_tokens_are_out_of_range() {
    // An unsigned count beyond the signed 64-bit range names the literal
    // and fails like any other unrepresentable second count.
    assert_eq!(
        decode_timestamp(&Wire::UInt(u64::MAX)),
        Err(DecodeError::OutOfRange(b"18446744073709551615".to_vec()))
    );
    // So does one that fits the signed range but lies past the last
    // representable date.
    assert_eq!(
        decode_timestamp(&Wire::UInt(9000000000000)),
        Err(DecodeError::OutOfRange(b"9000000000000".to_vec()))
    );
}

#[test]
fn signed_string_with_fraction_keeps_forward_offset() {
    // The fraction is an offset forward in time, also for negative seconds.
    let ts = decode_timestamp(&text("-5.5")).unwrap();
    assert_eq!(ts, Timestamp { secs: -5, nanos: 500_000_000 });
}

#[test]
fn plus_signs_are_accepted_as_in_integer_parsing() {
    let ts = decode_timestamp(&text("+12.+34")).unwrap();
    // The fraction "+34" has three characters, so it is padded by ten to
    // the sixth: 34 followed by six zeros.
    assert_eq!(ts, Timestamp { secs: 12, nanos: 34_000_000 });
}

#[test]
fn float_fraction_reaches_the_nanosecond_field() {
    let ts = decode_timestamp(&Wire::Real { whole: 1478563200, frac_nanos: 123_000_000 }).unwrap();
    assert_eq!(ts, Timestamp { secs: 1478563200, nanos: 123_000_000 });
}
