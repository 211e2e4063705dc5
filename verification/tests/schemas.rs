//! End to end over the conformance suite's user schema: parse the text, then
//! validate payloads against what came out.

use seam_core::value::object_insert;
use seam_core::{parse, validate, Code, Int, Limits, Presence, Schema, Value};

const USER: &str = r#"
// The user record every binding's conformance run validates against.
schema User {
  id:          u64
  name:        String            @min_len(3) @max_len(64)
  plan:        enum { free, pro, enterprise }
  tags:        optional [String] @max_items(10)

  nickname:    String?
  bio:         optional String
  avatar:      optional String?

  last_seen:   optional DateTime
  signup_date: optional Date
}
"#;

fn load() -> Schema {
    parse(USER).unwrap_or_else(|e| panic!("parsing the user schema: {}", e.describe()))
}

fn obj(pairs: &[(&str, Value)]) -> Value {
    let mut m = Vec::new();
    for (k, v) in pairs {
        object_insert(&mut m, (*k).to_string(), v.clone());
    }
    Value::Object(m)
}

fn base() -> Vec<(&'static str, Value)> {
    vec![
        ("id", Value::Int(Int::from(1_u64))),
        ("name", Value::String("Gabriel".into())),
        ("plan", Value::String("pro".into())),
        ("nickname", Value::Null),
    ]
}

fn with(key: &'static str, value: Value) -> Value {
    let mut pairs = base();
    pairs.push((key, value));
    obj(&pairs)
}

fn codes(v: &Value) -> Vec<(String, Code)> {
    match validate(&load(), "User", v, Limits::default()) {
        Ok(()) => vec![],
        Err(e) => e.issues.into_iter().map(|i| (i.path.render(), i.code)).collect(),
    }
}

#[test]
fn the_conformance_schema_parses() {
    let schema = load();
    let user = schema.get("User").expect("User should be declared");

    assert_eq!(user.fields.len(), 9);
    assert!(user.deny_unknown_fields);

    let presence = |n: &str| user.field(n).map(|f| f.presence);
    assert_eq!(presence("id"), Some(Presence::required()));
    assert_eq!(presence("nickname"), Some(Presence::nullable()));
    assert_eq!(presence("bio"), Some(Presence::optional()));
    assert_eq!(presence("avatar"), Some(Presence::optional_nullable()));
}

#[test]
fn schemas_a_valid_payload_passes() {
    assert_eq!(codes(&obj(&base())), vec![]);
}

#[test]
fn the_readme_integer_survives_the_boundary() {
    let v = with("id", Value::Int(Int::from(9_007_199_254_740_993_u64)));
    assert_eq!(codes(&v), vec![]);
}

#[test]
fn a_naive_datetime_is_rejected() {
    let v = with("last_seen", Value::String("2026-08-29T14:30:00".into()));
    assert_eq!(codes(&v), vec![("last_seen".into(), Code::MissingTimezone)]);

    let ok = with("last_seen", Value::String("2026-08-29T14:30:00-05:00".into()));
    assert_eq!(codes(&ok), vec![]);
}

#[test]
fn a_date_does_not_accept_an_instant() {
    let v = with("signup_date", Value::String("2026-08-29T00:00:00Z".into()));
    assert_eq!(codes(&v), vec![("signup_date".into(), Code::InvalidDate)]);
}

#[test]
fn absence_and_null_stay_distinct_through_the_file() {
    assert_eq!(codes(&with("bio", Value::Null)), vec![("bio".into(), Code::NullNotAllowed)]);
    assert_eq!(codes(&with("avatar", Value::Null)), vec![]);
}

#[test]
fn rules_from_the_file_are_enforced() {
    let mut pairs = base();
    pairs.retain(|(k, _)| *k != "name");
    pairs.push(("name", Value::String("ab".into())));
    assert_eq!(codes(&obj(&pairs)), vec![("name".into(), Code::TooShort)]);

    let many = Value::Array(vec![Value::String("t".into()); 11]);
    assert_eq!(codes(&with("tags", many)), vec![("tags".into(), Code::TooManyItems)]);
}

#[test]
fn a_payload_read_from_json_validates_like_one_built_by_hand() {
    let doc = br#"{ "id": 9007199254740993, "name": "Gabriel", "plan": "pro", "nickname": null,
                    "tags": ["a", "b"], "signup_date": "2026-08-29" }"#;
    let v = seam_core::json::parse(doc, Limits::default()).expect("valid JSON");
    assert_eq!(codes(&v), vec![]);
    let doc = br#"{ "id": -1, "name": "Gabriel", "plan": "pro", "nickname": null }"#;
    let v = seam_core::json::parse(doc, Limits::default()).expect("valid JSON");
    assert_eq!(codes(&v), vec![("id".into(), Code::OutOfRange)]);
}
