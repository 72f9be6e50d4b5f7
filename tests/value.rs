use harper::num::Num;
use harper::value::{Lookup, Metadata, Value, ValueKind};

#[test]
fn numbers_compare_by_value() {
    assert!(Num::I8(-1).compare(&Num::U8(0)).is_lt());
    assert!(Num::I8(0).num_eq(&Num::U8(0)));
    assert!(Num::I32(10).num_eq(&Num::U64(10)));
    assert!(Num::I8(-2).compare(&Num::I8(-3)).is_gt());
    assert!(Num::U32(5).compare(&Num::I64(-1)).is_gt());
    assert_eq!(Num::U16(7).to_u128_strict(), Ok(7));
    assert_eq!(Num::I16(7).to_u128_strict(), Err(7));
    assert_eq!(Num::I16(7).to_u128_lossy(), Ok(7));
    assert_eq!(Num::I64(-7).to_u128_lossy(), Err(-7));
}

#[test]
fn get_or_insert_keeps_first_value() {
    let mut m = Metadata::new();
    assert!(m.get_or_insert_raw_with("k".to_string(), || Value::Bool(true)));
    assert!(!m.get_or_insert_raw_with("k".to_string(), || Value::Bool(false)));
    assert!(!m.get_or_insert_raw("k".to_string(), Value::Null));
    assert!(matches!(m.get_raw("k"), Some(Value::Bool(true))));
    assert_eq!(m.len(), 1);
}

#[test]
fn insert_overwrites_and_returns_previous() {
    let mut m = Metadata::new();
    assert!(m.insert_raw("a".to_string(), Value::String("x".to_string())).is_none());
    let prev = m.insert_raw("a".to_string(), Value::String("y".to_string()));
    assert!(matches!(prev, Some(Value::String(ref s)) if s == "x"));
    assert!(matches!(m.get_raw("a"), Some(Value::String(ref s)) if s == "y"));
    assert!(m.contains_key("a"));
    assert!(matches!(m.remove_raw("a"), Some(Value::String(_))));
    assert!(!m.contains_key("a"));
    assert_eq!(m.len(), 0);
}

#[test]
fn typed_reads_tell_outcomes_apart() {
    let mut m = Metadata::new();
    m.insert_raw("n".to_string(), Value::Num(Num::U8(1)));
    assert!(matches!(m.get("missing", ValueKind::Num), Lookup::Absent));
    assert!(matches!(
        m.get("n", ValueKind::String),
        Lookup::WrongKind { expected: ValueKind::String, found: ValueKind::Num }
    ));
    assert!(matches!(m.get("n", ValueKind::Num), Lookup::Found(Value::Num(_))));
}

#[test]
fn append_all_last_writer_wins() {
    let mut m = Metadata::new();
    m.append_all(vec![
        ("a".to_string(), Value::Bool(false)),
        ("b".to_string(), Value::Null),
        ("a".to_string(), Value::Bool(true)),
    ]);
    assert_eq!(m.len(), 2);
    assert!(matches!(m.get_raw("a"), Some(Value::Bool(true))));
    assert_eq!(m.get_raw("b").map(|v| v.kind()), Some(ValueKind::Null));
}

#[test]
fn value_accessors() {
    assert_eq!(Value::Null.to_null(), Some(()));
    assert_eq!(Value::Bool(true).to_null(), None);
    assert_eq!(Value::Bool(true).to_bool(), Some(true));
    assert!(Value::Num(Num::I8(3)).to_num().unwrap().num_eq(&Num::U64(3)));
    assert_eq!(Value::String("s".to_string()).as_str(), Some("s"));
    assert_eq!(Value::String("s".to_string()).into_str().ok(), Some("s".to_string()));
    assert!(Value::Null.into_str().is_err());
    assert_eq!(Value::Array(vec![Value::Null]).into_vec().ok().map(|v| v.len()), Some(1));
    assert_eq!(Value::Path("a/b".to_string()).into_path().ok(), Some("a/b".to_string()));
    assert!(Value::Bool(false).into_dict().is_err());
    assert_eq!(Value::Dict(vec![]).kind(), ValueKind::Dict);
}

#[test]
fn merge_dictionary_value() {
    let mut m = Metadata::new();
    assert!(m.append_value(Value::Dict(vec![("x".to_string(), Value::Bool(true))])));
    assert!(!m.append_value(Value::Null));
    assert_eq!(m.len(), 1);
    assert!(matches!(m.get_raw("x"), Some(Value::Bool(true))));
}
