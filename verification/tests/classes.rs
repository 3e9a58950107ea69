use portal::classes::{class_table_from_entries, classes_from_json, parse_i32};
use portal::commons::ModelError;

#[test]
fn parse_i32_accepts_what_std_accepts() {
    for s in [
        "0", "7", "+7", "-7", "007", "-0", "2147483647", "-2147483648", "", "+", "-", "+-1",
        "1a", " 1", "1 ", "2147483648", "-2147483649", "99999999999999999999", "١", "12.0",
    ] {
        assert_eq!(parse_i32(s), s.parse::<i32>().ok(), "input {:?}", s);
    }
}

#[test]
fn parse_i32_values() {
    assert_eq!(parse_i32("-12"), Some(-12));
    assert_eq!(parse_i32("+42"), Some(42));
    assert_eq!(parse_i32("x"), None);
}

#[test]
fn classes_table() {
    let m = classes_from_json(r#"{"0": "person", "1": "bicycle", "x": "skip", "-3": "neg"}"#).unwrap();
    assert_eq!(m.len(), 3);
    assert_eq!(m.get(&0).map(String::as_str), Some("person"));
    assert_eq!(m.get(&1).map(String::as_str), Some("bicycle"));
    assert_eq!(m.get(&-3).map(String::as_str), Some("neg"));
}

#[test]
fn classes_duplicate_numbers() {
    let m = classes_from_json(r#"{"1": "a", "01": "b"}"#).unwrap();
    assert_eq!(m.len(), 1);
    let v = m.get(&1).unwrap();
    assert!(v == "a" || v == "b");
}

#[test]
fn classes_later_duplicate_key_wins() {
    let m = classes_from_json(r#"{"2": "first", "2": "second"}"#).unwrap();
    assert_eq!(m.get(&2).map(String::as_str), Some("second"));
}

#[test]
fn classes_invalid_json() {
    assert_eq!(classes_from_json("not json").err(), Some(ModelError::InvalidClassesJson));
    assert_eq!(classes_from_json(r#"{"1": 5}"#).err(), Some(ModelError::InvalidClassesJson));
    assert_eq!(classes_from_json(r#"["a"]"#).err(), Some(ModelError::InvalidClassesJson));
    assert_eq!(classes_from_json(r#"{"1": "a"} x"#).err(), Some(ModelError::InvalidClassesJson));
}

#[test]
fn classes_empty_object() {
    assert!(classes_from_json("{}").unwrap().is_empty());
}

#[test]
fn class_table_later_entry_wins() {
    let entries = vec![
        ("1".to_string(), "a".to_string()),
        ("x".to_string(), "skip".to_string()),
        ("01".to_string(), "b".to_string()),
        ("-4".to_string(), "c".to_string()),
    ];
    let m = class_table_from_entries(&entries);
    assert_eq!(m.len(), 2);
    assert_eq!(m.get(&1).map(String::as_str), Some("b"));
    assert_eq!(m.get(&-4).map(String::as_str), Some("c"));
    assert!(class_table_from_entries(&vec![]).is_empty());
}
