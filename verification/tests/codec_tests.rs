use fizzbee_mbt::codec::{proto_value_to_rust_value, rust_value_to_proto_value};
use fizzbee_mbt::{MbtError, Sentinel, Value, WireEntry, WireValue};

fn num(i: i64) -> Value {
    Value::Int(i)
}

fn s(t: &str) -> Value {
    Value::Str(t.to_string())
}

fn sample_map() -> Value {
    Value::from_map(vec![
        (s("b"), num(2)),
        (s("a"), Value::from_list(vec![num(1), Value::Bool(true)])),
    ])
}

#[test]
fn round_trip_int() {
    let w = rust_value_to_proto_value(num(-5));
    assert_eq!(w, WireValue::IntValue(-5));
    assert_eq!(proto_value_to_rust_value(w), Ok(num(-5)));
}

#[test]
fn round_trip_str() {
    let w = rust_value_to_proto_value(s("hello"));
    assert_eq!(w, WireValue::StrValue("hello".to_string()));
    assert_eq!(proto_value_to_rust_value(w), Ok(s("hello")));
}

#[test]
fn round_trip_bool() {
    let w = rust_value_to_proto_value(Value::Bool(true));
    assert_eq!(proto_value_to_rust_value(w), Ok(Value::Bool(true)));
}

#[test]
fn round_trip_sentinel() {
    let w = rust_value_to_proto_value(Value::Sentinel(Sentinel::Ignore));
    assert_eq!(proto_value_to_rust_value(w), Ok(Value::Sentinel(Sentinel::Ignore)));
}

#[test]
fn round_trip_none_via_absent() {
    let w = rust_value_to_proto_value(Value::NoneVal);
    assert_eq!(w, WireValue::Absent);
    assert_eq!(proto_value_to_rust_value(w), Ok(Value::NoneVal));
}

#[test]
fn absence_decodes_to_none_never_an_error() {
    assert_eq!(proto_value_to_rust_value(WireValue::Absent), Ok(Value::NoneVal));
}

#[test]
fn round_trip_nested_map_and_list() {
    let v = sample_map();
    let expected = sample_map();
    let w = rust_value_to_proto_value(v);
    assert_eq!(proto_value_to_rust_value(w), Ok(expected));
}

#[test]
fn map_encoding_is_deterministic_across_insertion_orders() {
    let m1 = Value::from_map(vec![(s("x"), num(1)), (s("y"), num(2)), (s("z"), num(3))]);
    let m2 = Value::from_map(vec![(s("z"), num(3)), (s("x"), num(1)), (s("y"), num(2))]);
    let w1 = rust_value_to_proto_value(m1);
    let w2 = rust_value_to_proto_value(m2);
    assert_eq!(w1, w2);
    match w1 {
        WireValue::MapValue(entries) => {
            assert_eq!(entries.len(), 3);
            // Entries come out in key order, each field present.
            assert_eq!(entries[0].key, Some(WireValue::StrValue("x".to_string())));
            assert_eq!(entries[1].key, Some(WireValue::StrValue("y".to_string())));
            assert_eq!(entries[2].key, Some(WireValue::StrValue("z".to_string())));
        }
        other => panic!("expected a map encoding, got {:?}", other),
    }
}

#[test]
fn set_encoding_is_order_insensitive_and_decodes_as_a_list() {
    let s1 = Value::from_set(vec![num(1), num(2), num(3)]);
    let s2 = Value::from_set(vec![num(3), num(1), num(2)]);
    let w1 = rust_value_to_proto_value(s1);
    let w2 = rust_value_to_proto_value(s2);
    assert_eq!(w1, w2);
    match &w1 {
        WireValue::ListValue(items) => {
            let mut got: Vec<i64> = items
                .iter()
                .map(|w| match w {
                    WireValue::IntValue(i) => *i,
                    other => panic!("expected an int element, got {:?}", other),
                })
                .collect();
            got.sort();
            assert_eq!(got, vec![1, 2, 3]);
        }
        other => panic!("expected a list encoding, got {:?}", other),
    }
    let decoded = proto_value_to_rust_value(w1).unwrap();
    match decoded {
        Value::ListVal(items) => assert_eq!(items, vec![num(1), num(2), num(3)]),
        other => panic!("a set must come back as a list, got {:?}", other),
    }
}

#[test]
fn set_kind_on_the_wire_is_refused_as_not_implemented() {
    let w = WireValue::SetValue(vec![WireValue::IntValue(1)]);
    match proto_value_to_rust_value(w) {
        Err(MbtError::NotImplemented(_)) => {}
        other => panic!("expected the deliberate-refusal error, got {:?}", other),
    }
}

#[test]
fn map_entry_without_key_is_an_error() {
    let w = WireValue::MapValue(vec![WireEntry {
        key: None,
        value: Some(WireValue::IntValue(1)),
    }]);
    match proto_value_to_rust_value(w) {
        Err(MbtError::Other(m)) => assert_eq!(m, "MapEntry key is missing."),
        other => panic!("expected an ordinary error, got {:?}", other),
    }
}

#[test]
fn map_entry_without_value_is_an_error() {
    let w = WireValue::MapValue(vec![WireEntry {
        key: Some(WireValue::IntValue(1)),
        value: None,
    }]);
    match proto_value_to_rust_value(w) {
        Err(MbtError::Other(m)) => assert_eq!(m, "MapEntry value is missing."),
        other => panic!("expected an ordinary error, got {:?}", other),
    }
}

#[test]
fn decoded_maps_are_canonical_with_the_last_entry_winning() {
    let w = WireValue::MapValue(vec![
        WireEntry {
            key: Some(WireValue::IntValue(1)),
            value: Some(WireValue::StrValue("old".to_string())),
        },
        WireEntry {
            key: Some(WireValue::IntValue(1)),
            value: Some(WireValue::StrValue("new".to_string())),
        },
    ]);
    let v = proto_value_to_rust_value(w).unwrap();
    assert_eq!(v, Value::from_map(vec![(num(1), s("new"))]));
}
