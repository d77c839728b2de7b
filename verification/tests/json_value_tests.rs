use buffdb::json_value::{JsonMap, JsonNumber, JsonValue};

#[test]
fn map_keeps_keys_in_order() {
    let mut m = JsonMap::new();
    assert!(m.insert("b".to_string(), JsonValue::Bool(true)).is_none());
    assert!(m.insert("a".to_string(), JsonValue::Null).is_none());
    assert!(m.insert("ab".to_string(), JsonValue::Bool(false)).is_none());
    assert!(m.insert("B".to_string(), JsonValue::Null).is_none());
    assert_eq!(m.len(), 4);
    let keys: Vec<&str> = (0..m.len()).map(|i| m.key_at(i).as_str()).collect();
    assert_eq!(keys, vec!["B", "a", "ab", "b"]);
}

#[test]
fn map_insert_replaces_and_returns_previous() {
    let mut m = JsonMap::new();
    m.insert("k".to_string(), JsonValue::Number(JsonNumber::PosInt(1)));
    let prev = m.insert("k".to_string(), JsonValue::Number(JsonNumber::NegInt(-2)));
    assert_eq!(prev, Some(JsonValue::Number(JsonNumber::PosInt(1))));
    assert_eq!(m.len(), 1);
    assert_eq!(m.get("k"), Some(&JsonValue::Number(JsonNumber::NegInt(-2))));
    assert_eq!(m.get("missing"), None);
    assert_eq!(m.find("k"), Some(0));
}

#[test]
fn map_orders_non_ascii_keys_by_code_point() {
    let mut m = JsonMap::new();
    m.insert("é".to_string(), JsonValue::Null);
    m.insert("z".to_string(), JsonValue::Null);
    m.insert("".to_string(), JsonValue::Null);
    let keys: Vec<&str> = (0..m.len()).map(|i| m.key_at(i).as_str()).collect();
    assert_eq!(keys, vec!["", "z", "é"]);
}

#[test]
fn take_value_leaves_null() {
    let mut m = JsonMap::new();
    m.insert("x".to_string(), JsonValue::String("v".to_string()));
    let v = m.take_value(0);
    assert_eq!(v, JsonValue::String("v".to_string()));
    assert_eq!(m.get("x"), Some(&JsonValue::Null));
}

#[test]
fn value_accessors() {
    let arr = JsonValue::Array(vec![JsonValue::Bool(true)]);
    assert_eq!(arr.get_index(0), Some(&JsonValue::Bool(true)));
    assert_eq!(arr.get_index(1), None);
    assert_eq!(arr.get("a"), None);
    let f = JsonValue::Number(JsonNumber::FloatBits(1.5f64.to_bits()));
    assert_eq!(f.get_index(0), None);
}

#[test]
fn numbers_compare_by_representation_and_value() {
    let zero = JsonNumber::FloatBits(0.0f64.to_bits());
    let minus_zero = JsonNumber::FloatBits((-0.0f64).to_bits());
    assert_eq!(zero, minus_zero);
    assert_eq!(JsonValue::Number(zero), JsonValue::Number(minus_zero));
    assert_eq!(JsonNumber::FloatBits(1.5f64.to_bits()), JsonNumber::FloatBits(1.5f64.to_bits()));
    assert_ne!(JsonNumber::FloatBits(1.5f64.to_bits()), JsonNumber::FloatBits(2.5f64.to_bits()));
    let nan = JsonNumber::FloatBits(f64::NAN.to_bits());
    assert_ne!(nan, nan);
    assert_ne!(JsonNumber::PosInt(0), zero);
    assert_ne!(JsonNumber::PosInt(1), JsonNumber::NegInt(1));
    assert_eq!(JsonNumber::NegInt(-7), JsonNumber::NegInt(-7));
}

#[test]
fn clone_gives_an_equal_value() {
    let mut inner = JsonMap::new();
    inner.insert("b".to_string(), JsonValue::Array(vec![JsonValue::Null, JsonValue::Bool(false)]));
    inner.insert("a".to_string(), JsonValue::String("x".to_string()));
    let v = JsonValue::Array(vec![JsonValue::Object(inner), JsonValue::Number(JsonNumber::NegInt(-3))]);
    let c = v.clone();
    assert_eq!(c, v);
    assert_eq!(c.get_index(0).unwrap().get("b"), v.get_index(0).unwrap().get("b"));
}
