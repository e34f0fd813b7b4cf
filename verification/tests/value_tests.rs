use fizzbee_mbt::order::{cmp_value, tag_value};
use fizzbee_mbt::value::sorted_map_entries;
use fizzbee_mbt::{Sentinel, Value};

fn num(i: i64) -> Value {
    Value::Int(i)
}

fn s(t: &str) -> Value {
    Value::Str(t.to_string())
}

#[test]
fn as_int_returns_the_integer() {
    assert_eq!(num(42).as_int(), Some(42));
    assert_eq!(s("x").as_int(), None);
    assert_eq!(Value::Bool(true).as_int(), None);
}

#[test]
fn as_str_returns_the_text() {
    assert_eq!(s("hello").as_str(), Some("hello"));
    assert_eq!(num(1).as_str(), None);
}

#[test]
fn as_bool_returns_the_flag() {
    assert_eq!(Value::Bool(true).as_bool(), Some(true));
    assert_eq!(Value::Bool(false).as_bool(), Some(false));
    assert_eq!(Value::NoneVal.as_bool(), None);
}

#[test]
fn from_map_sorts_entries_by_key() {
    let m = Value::from_map(vec![(num(2), s("b")), (num(1), s("a"))]);
    match m {
        Value::MapVal(entries) => {
            assert_eq!(entries.len(), 2);
            assert_eq!(entries[0].0, num(1));
            assert_eq!(entries[0].1, s("a"));
            assert_eq!(entries[1].0, num(2));
            assert_eq!(entries[1].1, s("b"));
        }
        other => panic!("expected a map, got {:?}", other),
    }
}

#[test]
fn from_map_keeps_the_later_entry_for_a_repeated_key() {
    let m = Value::from_map(vec![(num(1), s("old")), (num(1), s("new"))]);
    match m {
        Value::MapVal(entries) => {
            assert_eq!(entries.len(), 1);
            assert_eq!(entries[0].1, s("new"));
        }
        other => panic!("expected a map, got {:?}", other),
    }
}

#[test]
fn from_set_sorts_and_drops_duplicates() {
    let v = Value::from_set(vec![num(3), num(1), num(3), num(2)]);
    match v {
        Value::SetVal(items) => {
            assert_eq!(items, vec![num(1), num(2), num(3)]);
        }
        other => panic!("expected a set, got {:?}", other),
    }
}

#[test]
fn from_list_keeps_order_and_duplicates() {
    let v = Value::from_list(vec![num(3), num(1), num(3)]);
    match v {
        Value::ListVal(items) => {
            assert_eq!(items, vec![num(3), num(1), num(3)]);
        }
        other => panic!("expected a list, got {:?}", other),
    }
}

#[test]
fn sorted_map_entries_orders_by_key() {
    let entries = sorted_map_entries(vec![(s("b"), num(2)), (s("a"), num(1))]);
    assert_eq!(entries.len(), 2);
    assert_eq!(entries[0].0, s("a"));
    assert_eq!(entries[1].0, s("b"));
}

#[test]
fn cmp_value_orders_within_and_across_variants() {
    assert_eq!(cmp_value(&num(1), &num(2)), -1);
    assert_eq!(cmp_value(&num(2), &num(1)), 1);
    assert_eq!(cmp_value(&num(7), &num(7)), 0);
    assert_eq!(cmp_value(&s("ab"), &s("b")), -1);
    assert_eq!(cmp_value(&s("ab"), &s("abc")), -1);
    assert_eq!(cmp_value(&s("abc"), &s("abc")), 0);
    // Different variants order by rank: Int < Str < Bool < ... < NoneVal.
    assert_eq!(cmp_value(&num(99), &s("")), -1);
    assert_eq!(cmp_value(&Value::NoneVal, &Value::Sentinel(Sentinel::Ignore)), 1);
    assert_eq!(tag_value(&num(0)) < tag_value(&Value::NoneVal), true);
}

#[test]
fn structurally_equal_maps_are_equal_values() {
    let m1 = Value::from_map(vec![(num(1), s("a")), (num(2), s("b"))]);
    let m2 = Value::from_map(vec![(num(2), s("b")), (num(1), s("a"))]);
    assert_eq!(m1, m2);
    assert_eq!(cmp_value(&m1, &m2), 0);
}

#[test]
fn duplicate_makes_an_equal_independent_copy() {
    let v = Value::from_map(vec![
        (s("k"), Value::from_list(vec![num(1), Value::Bool(false)])),
        (num(9), Value::from_set(vec![s("a"), s("b")])),
    ]);
    let copy = v.duplicate();
    assert_eq!(copy, v);
    drop(v);
    assert_eq!(copy.as_int(), None);
}
