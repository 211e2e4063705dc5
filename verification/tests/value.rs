use seam_core::value::{find_entry, object_insert};
use seam_core::{Entry, Float, Int, Kind, Slot, Value};

#[test]
fn u64_above_i64_max_keeps_its_value() {
    let v = Int::from(u64::MAX);
    assert_eq!(v, Int::Unsigned(u64::MAX));
    assert_eq!(v.as_i128(), i128::from(u64::MAX));
}

#[test]
fn the_max_safe_integer_boundary_is_exact() {
    let v = Int::from(9_007_199_254_740_993_u64);
    assert_eq!(v.as_i128(), 9_007_199_254_740_993_i128);
}

#[test]
fn absent_and_null_do_not_collapse() {
    let mut o = Vec::new();
    object_insert(&mut o, "null_key".to_string(), Value::Null);

    assert_eq!(Slot::read(&o, "null_key"), Slot::Null);
    assert_eq!(Slot::read(&o, "missing_key"), Slot::Absent);
}

#[test]
fn a_u64_that_fits_an_i64_is_kept_signed() {
    assert_eq!(Int::from(5_u64), Int::Signed(5));
    assert_eq!(Int::from(i64::MAX as u64), Int::Signed(i64::MAX));
    assert_eq!(Int::from(i64::MAX as u64 + 1), Int::Unsigned(i64::MAX as u64 + 1));
    assert_eq!(Int::from(-3_i64), Int::Signed(-3));
    assert!(Int::Signed(-1).is_negative());
    assert!(!Int::Signed(0).is_negative());
    assert!(!Int::Unsigned(u64::MAX).is_negative());
    assert_eq!(Int::Signed(i64::MIN).as_i128(), i128::from(i64::MIN));
}

#[test]
fn inserting_keeps_keys_sorted_and_replaces() {
    let mut o = Vec::new();
    object_insert(&mut o, "b".into(), Value::Bool(true));
    object_insert(&mut o, "a".into(), Value::Null);
    object_insert(&mut o, "c".into(), Value::Int(Int::Signed(1)));
    object_insert(&mut o, "b".into(), Value::Bool(false));
    let keys: Vec<&str> = o.iter().map(|e| e.key.as_str()).collect();
    assert_eq!(keys, vec!["a", "b", "c"]);
    assert_eq!(o[1], Entry { key: "b".into(), value: Value::Bool(false) });
    assert_eq!(find_entry(&o, "c"), Some(2));
    assert_eq!(find_entry(&o, "d"), None);
    assert_eq!(Slot::read(&o, "b"), Slot::Present(&Value::Bool(false)));
}

#[test]
fn keys_order_by_bytes() {
    let mut o = Vec::new();
    object_insert(&mut o, "é".into(), Value::Null);
    object_insert(&mut o, "z".into(), Value::Null);
    object_insert(&mut o, "Z".into(), Value::Null);
    object_insert(&mut o, "".into(), Value::Null);
    object_insert(&mut o, "za".into(), Value::Null);
    let keys: Vec<&str> = o.iter().map(|e| e.key.as_str()).collect();
    assert_eq!(keys, vec!["", "Z", "z", "za", "é"]);
}

#[test]
fn every_kind_has_a_name() {
    let all = [
        (Value::Null, Kind::Null, "null"),
        (Value::Bool(true), Kind::Bool, "bool"),
        (Value::Int(Int::Signed(1)), Kind::Int, "integer"),
        (Value::Float(Float { text: "1.5".into(), finite: true }), Kind::Float, "float"),
        (Value::String("s".into()), Kind::String, "string"),
        (Value::Array(vec![]), Kind::Array, "array"),
        (Value::Object(vec![]), Kind::Object, "object"),
        (Value::IntTooWide, Kind::IntegerTooWide, "integer wider than 64 bits"),
        (Value::UnsafeInt, Kind::UnsafeInteger, "integer the host cannot hold exactly"),
        (Value::Foreign, Kind::Foreign, "unsupported value"),
    ];
    for (v, k, name) in all {
        assert_eq!(v.kind(), k);
        assert_eq!(k.name(), name);
    }
}

#[test]
fn a_clone_is_equal() {
    let mut o = Vec::new();
    object_insert(&mut o, "a".into(), Value::Array(vec![Value::String("x".into()), Value::Null]));
    let v = Value::Object(o);
    assert_eq!(v.clone(), v);
}

#[test]
fn the_order_keys_arrive_in_does_not_change_the_object() {
    let mut ab = Vec::new();
    object_insert(&mut ab, "a".into(), Value::Int(Int::Signed(1)));
    object_insert(&mut ab, "b".into(), Value::Null);
    let mut ba = Vec::new();
    object_insert(&mut ba, "b".into(), Value::Null);
    object_insert(&mut ba, "a".into(), Value::Int(Int::Signed(1)));
    assert_eq!(ab, ba);

    let mut twice = Vec::new();
    object_insert(&mut twice, "k".into(), Value::Bool(true));
    object_insert(&mut twice, "k".into(), Value::Bool(false));
    let mut once = Vec::new();
    object_insert(&mut once, "k".into(), Value::Bool(false));
    assert_eq!(twice, once);
}
