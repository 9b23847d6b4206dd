use ccjson::double::Double;
use ccjson::{JsonObject, JsonValue};

#[test]
fn objects_hold_one_value_under_each_key() {
    let mut object = JsonObject::new();
    assert_eq!(object.len(), 0);
    assert!(object.get("a").is_none());
    assert!(object.insert("a".to_string(), JsonValue::Integer(1)).is_none());
    assert!(object.insert("é".to_string(), JsonValue::Null).is_none());
    assert_eq!(object.len(), 2);
    assert_eq!(
        object.insert("a".to_string(), JsonValue::Boolean(true)),
        Some(JsonValue::Integer(1))
    );
    assert_eq!(object.len(), 2);
    assert_eq!(object.get("a"), Some(&JsonValue::Boolean(true)));
    assert_eq!(object.get("é"), Some(&JsonValue::Null));
    assert!(object.get("").is_none());
    let mut keys: Vec<String> = object.into_entries().into_iter().map(|(key, _)| key).collect();
    keys.sort();
    assert_eq!(keys, vec!["a".to_string(), "é".to_string()]);
}

#[test]
fn values_are_equal_if_they_hold_the_same() {
    let mut ab = JsonObject::new();
    ab.insert("a".to_string(), JsonValue::Integer(1));
    ab.insert("b".to_string(), JsonValue::Array(vec![JsonValue::Null]));
    let mut ba = JsonObject::new();
    ba.insert("b".to_string(), JsonValue::Array(vec![JsonValue::Null]));
    ba.insert("a".to_string(), JsonValue::Integer(1));
    assert_eq!(ab, ba);
    ba.insert("c".to_string(), JsonValue::Null);
    assert_ne!(ab, ba);
    assert_ne!(ba, ab);
    ab.insert("d".to_string(), JsonValue::Null);
    assert_ne!(ab, ba);
    assert_ne!(JsonValue::Integer(1), JsonValue::Integer(2));
    assert_ne!(JsonValue::Integer(1), JsonValue::Float(Double { bits: 1 }));
    assert_ne!(
        JsonValue::Array(vec![JsonValue::Null]),
        JsonValue::Array(vec![JsonValue::Null, JsonValue::Null])
    );
    assert_ne!(
        JsonValue::String("a".to_string()),
        JsonValue::String("b".to_string())
    );
    assert_eq!(JsonValue::Boolean(false), JsonValue::Boolean(false));
}
