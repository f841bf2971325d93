use wire_as::duration::{
    decode_duration, encode_duration_secs, encode_duration_secs_float, encode_duration_secs_text,
    DurationValue, NumShape,
};
use wire_as::wire::{DecodeError, Wire};

fn dur(secs: u64, nanos: u32) -> DurationValue {
    DurationValue { secs, nanos }
}

#[test]
fn integer_encoding_rounds_half_up() {
    assert_eq!(encode_duration_secs(&dur(1, 400_000_000)), 1);
    assert_eq!(encode_duration_secs(&dur(1, 500_000_000)), 2);
    assert_eq!(encode_duration_secs(&dur(1, 999_999_999)), 2);
    assert_eq!(encode_duration_secs(&dur(1, 499_999_999)), 1);
    assert_eq!(encode_duration_secs(&dur(0, 0)), 0);
}

#[test]
fn integer_round_trip_yields_the_rounded_duration() {
    // decode(encode_as_integer(d)) is d rounded to the nearest second,
    // a tie rounding up.
    for (d, rounded) in [
        (dur(1, 400_000_000), 1),
        (dur(1, 500_000_000), 2),
        (dur(1, 999_999_999), 2),
    ] {
        let secs = encode_duration_secs(&d);
        let back = decode_duration(&Wire::UInt(secs), NumShape::AsInt, true).unwrap();
        assert_eq!(back, dur(rounded, 0));
    }
}

#[test]
fn float_encoding_rounds_ties_away_from_zero() {
    // 2.5 seconds round to 3, matching the float convention.
    assert_eq!(encode_duration_secs_float(&dur(2, 500_000_000)), 3);
    assert_eq!(encode_duration_secs_float(&dur(2, 499_999_999)), 2);
    // The convention itself, on the floats the host engine would emit.
    assert_eq!((2.5f64).round(), 3.0);
    assert_eq!((-2.5f64).round(), -3.0);
}

#[test]
fn text_encoding_is_the_decimal_of_the_rounded_count() {
    assert_eq!(encode_duration_secs_text(&dur(1, 500_000_000)), b"2".to_vec());
    assert_eq!(encode_duration_secs_text(&dur(12345, 0)), b"12345".to_vec());
    let back = decode_duration(&Wire::Text(b"12345".to_vec()), NumShape::AsText, true).unwrap();
    assert_eq!(back, dur(12345, 0));
}

#[test]
fn strict_decoding_rejects_other_shapes() {
    let txt = Wire::Text(b"7".to_vec());
    assert_eq!(
        decode_duration(&txt, NumShape::AsInt, true),
        Err(DecodeError::InvalidShape)
    );
    assert_eq!(decode_duration(&txt, NumShape::AsText, true), Ok(dur(7, 0)));
}

#[test]
fn lenient_decoding_accepts_all_three_shapes() {
    assert_eq!(decode_duration(&Wire::UInt(7), NumShape::AsText, false), Ok(dur(7, 0)));
    assert_eq!(
        decode_duration(&Wire::Text(b"7".to_vec()), NumShape::AsInt, false),
        Ok(dur(7, 0))
    );
    assert_eq!(
        decode_duration(&Wire::Real { whole: 7, frac_nanos: 250_000_000 }, NumShape::AsInt, false),
        Ok(dur(7, 250_000_000))
    );
}

#[test]
fn negative_counts_are_out_of_range() {
    assert_eq!(
        decode_duration(&Wire::Int(-3), NumShape::AsInt, true),
        Err(DecodeError::OutOfRange(b"-3".to_vec()))
    );
    assert_eq!(
        decode_duration(&Wire::Real { whole: -1, frac_nanos: 0 }, NumShape::AsFloat, true),
        Err(DecodeError::OutOfRange(b"-1".to_vec()))
    );
}

#[test]
fn unparsable_duration_text_is_invalid_value() {
    assert_eq!(
        decode_duration(&Wire::Text(b"7.5".to_vec()), NumShape::AsText, true),
        Err(DecodeError::InvalidValue(b"7.5".to_vec()))
    );
}
