use wire_as::adapt::{decode_as, encode_as, SerializeAsWrap, Strategy, Value};
use wire_as::duration::{DurationValue, NumShape};
use wire_as::wire::{EncodeError, Wire};

fn uint(n: u64) -> Value {
    Value::UInt(n)
}

#[test]
fn same_strategy_writes_the_natural_token() {
    assert_eq!(encode_as(&Strategy::Same, &uint(5)), Ok(Wire::UInt(5)));
    assert_eq!(
        encode_as(&Strategy::SameAs, &Value::Text(b"hi".to_vec())),
        Ok(Wire::Text(b"hi".to_vec()))
    );
}

#[test]
fn optional_propagates_the_element_strategy() {
    let s = Strategy::Optional(Box::new(Strategy::DurationSeconds(NumShape::AsInt, true)));
    let present = Value::Opt(Some(Box::new(Value::Dur(DurationValue {
        secs: 1,
        nanos: 600_000_000,
    }))));
    assert_eq!(
        encode_as(&s, &present),
        Ok(Wire::Present(Box::new(Wire::UInt(2))))
    );
    assert_eq!(encode_as(&s, &Value::Opt(None)), Ok(Wire::Absent));
    let back = decode_as(&s, &Wire::Absent).unwrap();
    assert_eq!(back, Value::Opt(None));
}

#[test]
fn sequences_keep_order_and_round_trip() {
    let s = Strategy::Sequence(Box::new(Strategy::Optional(Box::new(Strategy::Same))));
    let v = Value::List(vec![
        Value::Opt(Some(Box::new(uint(1)))),
        Value::Opt(None),
        Value::Opt(Some(Box::new(uint(3)))),
    ]);
    let w = encode_as(&s, &v).unwrap();
    assert_eq!(
        w,
        Wire::List(vec![
            Wire::Present(Box::new(Wire::UInt(1))),
            Wire::Absent,
            Wire::Present(Box::new(Wire::UInt(3))),
        ])
    );
    assert_eq!(decode_as(&s, &w).unwrap(), v);
}

#[test]
fn tables_round_trip_entry_for_entry() {
    let s = Strategy::Entries(Box::new(Strategy::Same), Box::new(Strategy::Same));
    let v = Value::Table(vec![
        (Value::Text(b"a".to_vec()), uint(1)),
        (Value::Text(b"b".to_vec()), uint(2)),
    ]);
    let w = encode_as(&s, &v).unwrap();
    assert_eq!(decode_as(&s, &w).unwrap(), v);
}

#[test]
fn a_map_can_be_written_as_a_list_of_pairs_and_back() {
    let s = Strategy::MapAsList(Box::new(Strategy::Same), Box::new(Strategy::Same));
    let v = Value::Table(vec![(uint(1), uint(10)), (uint(2), uint(20))]);
    let w = encode_as(&s, &v).unwrap();
    assert_eq!(
        w,
        Wire::List(vec![
            Wire::Fixed(vec![Wire::UInt(1), Wire::UInt(10)]),
            Wire::Fixed(vec![Wire::UInt(2), Wire::UInt(20)]),
        ])
    );
    assert_eq!(decode_as(&s, &w).unwrap(), v);
}

#[test]
fn a_list_of_pairs_can_be_written_as_a_map_and_back() {
    let s = Strategy::ListAsMap(Box::new(Strategy::Same), Box::new(Strategy::Same));
    let v = Value::List(vec![
        Value::Tuple(vec![uint(1), uint(10)]),
        Value::Tuple(vec![uint(2), uint(20)]),
    ]);
    let w = encode_as(&s, &v).unwrap();
    assert_eq!(
        w,
        Wire::Table(vec![
            (Wire::UInt(1), Wire::UInt(10)),
            (Wire::UInt(2), Wire::UInt(20)),
        ])
    );
    assert_eq!(decode_as(&s, &w).unwrap(), v);
}

#[test]
fn fixed_shapes_apply_one_strategy_per_position() {
    let s = Strategy::Fixed(vec![
        Strategy::Same,
        Strategy::DurationSeconds(NumShape::AsInt, true),
    ]);
    let v = Value::Tuple(vec![
        Value::Flag(true),
        Value::Dur(DurationValue { secs: 9, nanos: 0 }),
    ]);
    let w = encode_as(&s, &v).unwrap();
    assert_eq!(w, Wire::Fixed(vec![Wire::Flag(true), Wire::UInt(9)]));
    assert_eq!(decode_as(&s, &w).unwrap(), v);
}

#[test]
fn zero_length_fixed_shapes_round_trip_to_the_empty_value() {
    let s = Strategy::Fixed(Vec::new());
    let v = Value::Tuple(Vec::new());
    let w = encode_as(&s, &v).unwrap();
    assert_eq!(w, Wire::Fixed(Vec::new()));
    assert_eq!(decode_as(&s, &w).unwrap(), v);
}

#[test]
fn nested_containers_compose() {
    // A map from numbers to optional lists of durations, encoded with the
    // strategy mirroring the nesting.
    let s = Strategy::Entries(
        Box::new(Strategy::Same),
        Box::new(Strategy::Optional(Box::new(Strategy::Sequence(Box::new(
            Strategy::DurationSeconds(NumShape::AsInt, true),
        ))))),
    );
    let inner = Value::List(vec![
        Value::Dur(DurationValue { secs: 1, nanos: 500_000_000 }),
        Value::Dur(DurationValue { secs: 2, nanos: 0 }),
    ]);
    let v = Value::Table(vec![(uint(1), Value::Opt(Some(Box::new(inner))))]);
    let w = encode_as(&s, &v).unwrap();
    let inner_w = Wire::List(vec![Wire::UInt(2), Wire::UInt(2)]);
    let expected = Wire::Table(vec![(Wire::UInt(1), Wire::Present(Box::new(inner_w)))]);
    assert_eq!(w, expected);
}

#[test]
fn timestamp_strategy_has_no_encode_direction() {
    assert_eq!(
        encode_as(&Strategy::TimestampFromAny, &uint(5)),
        Err(EncodeError::Unsupported)
    );
}

#[test]
fn mismatched_shapes_are_encode_errors() {
    let s = Strategy::Sequence(Box::new(Strategy::Same));
    assert_eq!(encode_as(&s, &uint(5)), Err(EncodeError::ShapeMismatch));
    let s = Strategy::Fixed(vec![Strategy::Same]);
    assert_eq!(
        encode_as(&s, &Value::Tuple(vec![uint(1), uint(2)])),
        Err(EncodeError::ShapeMismatch)
    );
}

#[test]
fn an_overflowing_rounded_count_is_an_encode_error() {
    // The one duration whose half-up-rounded second count does not fit its
    // counter cannot be encoded.
    let top = Value::Dur(DurationValue { secs: u64::MAX, nanos: 500_000_000 });
    let s = Strategy::DurationSeconds(NumShape::AsInt, true);
    assert_eq!(encode_as(&s, &top), Err(EncodeError::OutOfRange));
    let s = Strategy::DurationSeconds(NumShape::AsText, true);
    assert_eq!(encode_as(&s, &top), Err(EncodeError::OutOfRange));
    // The float token's integral part is signed, so its counter tops out
    // sooner.
    let big = Value::Dur(DurationValue { secs: i64::MAX as u64, nanos: 0 });
    let s = Strategy::DurationSeconds(NumShape::AsFloat, true);
    assert_eq!(encode_as(&s, &big), Ok(Wire::Real { whole: i64::MAX, frac_nanos: 0 }));
    let past = Value::Dur(DurationValue { secs: i64::MAX as u64, nanos: 600_000_000 });
    assert_eq!(encode_as(&s, &past), Err(EncodeError::OutOfRange));
}

#[test]
fn default_on_error_is_transparent_on_encode() {
    let s = Strategy::DefaultOnError(Box::new(Strategy::DurationSeconds(NumShape::AsInt, true)));
    let v = Value::Dur(DurationValue { secs: 4, nanos: 0 });
    assert_eq!(encode_as(&s, &v), Ok(Wire::UInt(4)));
}

#[test]
fn default_on_error_substitutes_a_shape_default_on_decode() {
    let s = Strategy::DefaultOnError(Box::new(Strategy::DurationSeconds(NumShape::AsInt, true)));
    let bad = Wire::Flag(true);
    assert_eq!(
        decode_as(&s, &bad).unwrap(),
        Value::Dur(DurationValue { secs: 0, nanos: 0 })
    );
    // The identity strategies describe no shape, so the error propagates.
    let s = Strategy::DefaultOnError(Box::new(Strategy::Same));
    assert!(decode_as(&s, &Wire::Real { whole: 0, frac_nanos: 0 }).is_err());
}

#[test]
fn wrap_adaptor_routes_through_the_strategy() {
    let wrap = SerializeAsWrap::new(
        Value::Dur(DurationValue { secs: 1, nanos: 700_000_000 }),
        Strategy::DurationSeconds(NumShape::AsInt, true),
    );
    assert_eq!(wrap.serialize(), Ok(Wire::UInt(2)));
}

#[test]
fn timestamp_strategy_decodes_any_numeric_token() {
    let s = Strategy::TimestampFromAny;
    let v = decode_as(&s, &Wire::Text(b"1478563200.123".to_vec())).unwrap();
    match v {
        Value::Stamp(ts) => {
            assert_eq!(ts.secs, 1478563200);
            assert_eq!(ts.nanos, 123_000_000);
        },
        other => panic!("expected a timestamp, got {:?}", other),
    }
}
