//! Tagged unions, from the `.seam` text through to the verdict.

use seam_core::value::object_insert;
use seam_core::{parse, validate, Code, Int, Limits, Schema, Value};

const EVENTS: &str = r#"
schema Created {
  who:    String
  amount: u64
}

schema Deleted {
  who:    String
  reason: optional String
}

union Event @tag("type") {
  created: Created
  deleted: Deleted
}
"#;

fn schema(src: &str) -> Schema {
    parse(src).unwrap_or_else(|e| panic!("parsing failed: {}", e.describe()))
}

fn obj(pairs: &[(&str, Value)]) -> Value {
    let mut m = Vec::new();
    for (k, v) in pairs {
        object_insert(&mut m, (*k).to_string(), v.clone());
    }
    Value::Object(m)
}

fn s(v: &str) -> Value {
    Value::String(v.into())
}

fn codes(schema: &Schema, declared: &str, v: &Value) -> Vec<(String, Code)> {
    match validate(schema, declared, v, Limits::default()) {
        Ok(()) => vec![],
        Err(e) => e.issues.into_iter().map(|i| (i.path.render(), i.code)).collect(),
    }
}

fn why(src: &str) -> String {
    match parse(src) {
        Ok(_) => panic!("expected this schema to be rejected:\n{src}"),
        Err(e) => e.message,
    }
}

#[test]
fn a_union_declares_its_variants_and_its_tag() {
    let sch = schema(EVENTS);
    let u = sch.union("Event").expect("Event should be a union");

    assert_eq!(u.tag, "type");
    assert_eq!(u.name, "Event");
    let tags: Vec<&str> = u.variants.iter().map(|v| v.tag.as_str()).collect();
    assert_eq!(tags, vec!["created", "deleted"]);
    assert_eq!(u.variants[0].schema_name, "Created");

    assert!(sch.get("Event").is_none());
    assert!(sch.declares("Event"));
}

#[test]
fn the_tag_is_required_because_nothing_is_guessed() {
    let message = why("schema A { x: u8 }\nunion U { a: A }\n");
    assert!(message.contains("@tag"), "unhelpful message: {message}");
}

#[test]
fn a_variant_must_name_a_declared_schema() {
    assert!(why("union U @tag(\"t\") { a: Nope }\n").contains("unknown type `Nope`"));
    assert!(why("union U @tag(\"t\") { a: String }\n").contains("built-in"));
}

#[test]
fn a_variant_may_not_be_another_union() {
    let src = "schema A { x: u8 }\nunion Inner @tag(\"t\") { a: A }\nunion Outer @tag(\"u\") { i: Inner }\n";
    assert!(why(src).contains("is a union"));
}

#[test]
fn a_variant_may_not_declare_the_tag_itself() {
    let src = "schema A { type: String\n x: u8 }\nunion U @tag(\"type\") { a: A }\n";
    let message = why(src);
    assert!(message.contains("tag"), "unhelpful message: {message}");
}

#[test]
fn a_union_and_a_schema_cannot_share_a_name() {
    let src = "schema A { x: u8 }\nschema Event { y: u8 }\nunion Event @tag(\"t\") { a: A }\n";
    assert!(why(src).contains("declared more than once"));

    let src = "schema A { x: u8 }\nunion Event @tag(\"t\") { a: A }\nschema Event { y: u8 }\n";
    assert!(why(src).contains("declared more than once"));
}

#[test]
fn a_union_needs_a_variant_and_may_not_repeat_a_tag() {
    assert!(why("union U @tag(\"t\") { }\n").contains("at least one variant"));

    let src = "schema A { x: u8 }\nschema B { y: u8 }\nunion U @tag(\"t\") { a: A\n a: B }\n";
    assert!(why(src).contains("twice"));
}

#[test]
fn a_variant_may_be_declared_after_the_union_that_uses_it() {
    let src = "union U @tag(\"t\") { a: A }\nschema A { x: u8 }\n";
    let sch = schema(src);
    assert_eq!(
        codes(&sch, "U", &obj(&[("t", s("a")), ("x", Value::Int(Int::from(1_u64)))])),
        vec![]
    );
}

#[test]
fn a_tag_value_may_be_a_quoted_string() {
    let src = "schema A { x: u8 }\nunion U @tag(\"type\") { \"user.created\": A }\n";
    let sch = schema(src);
    let ok = obj(&[("type", s("user.created")), ("x", Value::Int(Int::from(1_u64)))]);
    assert_eq!(codes(&sch, "U", &ok), vec![]);
}

fn created() -> Value {
    obj(&[("type", s("created")), ("who", s("Gabriel")), ("amount", Value::Int(Int::from(5_u64)))])
}

#[test]
fn the_tag_selects_the_variant_and_the_variant_is_checked() {
    let sch = schema(EVENTS);
    assert_eq!(codes(&sch, "Event", &created()), vec![]);

    let other = obj(&[
        ("type", s("deleted")),
        ("who", s("Gabriel")),
        ("amount", Value::Int(Int::from(5_u64))),
    ]);
    assert_eq!(codes(&sch, "Event", &other), vec![("amount".into(), Code::UnknownField)]);
}

#[test]
fn the_tag_is_not_an_unknown_field_of_the_variant() {
    let sch = schema(EVENTS);
    assert_eq!(codes(&sch, "Event", &created()), vec![]);
}

#[test]
fn a_missing_tag_is_required_at_the_tag_s_own_path() {
    let sch = schema(EVENTS);
    let v = obj(&[("who", s("Gabriel")), ("amount", Value::Int(Int::from(5_u64)))]);
    assert_eq!(codes(&sch, "Event", &v), vec![("type".into(), Code::Required)]);
}

#[test]
fn a_null_tag_is_null_not_allowed() {
    let sch = schema(EVENTS);
    let v = obj(&[("type", Value::Null), ("who", s("G"))]);
    assert_eq!(codes(&sch, "Event", &v), vec![("type".into(), Code::NullNotAllowed)]);
}

#[test]
fn a_tag_that_is_not_a_string_is_a_type_mismatch() {
    let sch = schema(EVENTS);
    let v = obj(&[("type", Value::Int(Int::from(1_u64))), ("who", s("G"))]);
    assert_eq!(codes(&sch, "Event", &v), vec![("type".into(), Code::TypeMismatch)]);
}

#[test]
fn an_unlisted_tag_is_unknown_variant_and_stops_there() {
    let sch = schema(EVENTS);
    let v = obj(&[("type", s("archived")), ("nonsense", s("x"))]);
    assert_eq!(codes(&sch, "Event", &v), vec![("type".into(), Code::UnknownVariant)]);
}

#[test]
fn the_unknown_variant_message_lists_what_was_expected() {
    let sch = schema(EVENTS);
    let v = obj(&[("type", s("archived"))]);
    let err = validate(&sch, "Event", &v, Limits::default()).unwrap_err();
    assert!(
        err.issues[0].message.contains("created, deleted"),
        "unhelpful message: {}",
        err.issues[0].message
    );
}

#[test]
fn a_union_is_not_an_object() {
    let sch = schema(EVENTS);
    assert_eq!(codes(&sch, "Event", &s("created")), vec![("<root>".into(), Code::TypeMismatch)]);
}

const ENVELOPE: &str = r#"
schema Created {
  who:    String
  amount: u64
}

schema Deleted {
  who:    String
}

union Event @tag("type") {
  created: Created
  deleted: Deleted
}

schema Envelope {
  id:     u64
  latest: Event
  log:    [Event]
  draft:  optional Event?
}
"#;

fn envelope(latest: Value, log: Vec<Value>) -> Value {
    obj(&[("id", Value::Int(Int::from(1_u64))), ("latest", latest), ("log", Value::Array(log))])
}

#[test]
fn a_union_may_be_the_type_of_a_field() {
    let sch = schema(ENVELOPE);
    assert_eq!(codes(&sch, "Envelope", &envelope(created(), vec![])), vec![]);
}

#[test]
fn an_issue_inside_a_union_valued_field_carries_the_field_s_path() {
    let sch = schema(ENVELOPE);
    let bad = obj(&[("type", s("nope"))]);
    assert_eq!(
        codes(&sch, "Envelope", &envelope(bad, vec![])),
        vec![("latest.type".into(), Code::UnknownVariant)]
    );
}

#[test]
fn a_union_inside_an_array_reports_the_element_s_own_index() {
    let sch = schema(ENVELOPE);
    let bad = obj(&[("type", s("created")), ("who", s("G"))]);
    assert_eq!(
        codes(&sch, "Envelope", &envelope(created(), vec![created(), bad])),
        vec![("log[1].amount".into(), Code::Required)]
    );
}

#[test]
fn presence_applies_to_a_union_valued_field_like_any_other() {
    let sch = schema(ENVELOPE);

    assert_eq!(codes(&sch, "Envelope", &envelope(created(), vec![])), vec![]);

    let mut pairs = vec![
        ("id", Value::Int(Int::from(1_u64))),
        ("latest", created()),
        ("log", Value::Array(vec![])),
        ("draft", Value::Null),
    ];
    assert_eq!(codes(&sch, "Envelope", &obj(&pairs)), vec![]);

    pairs[1] = ("latest", Value::Null);
    assert_eq!(codes(&sch, "Envelope", &obj(&pairs)), vec![("latest".into(), Code::NullNotAllowed)]);
}

// --- edges and laws on concrete values --------------------------------------

#[test]
fn union_messages_name_the_problem() {
    assert_eq!(
        why("schema A { x: u8 }\nunion U { a: A }\n"),
        "`union U` needs `@tag(\"field\")`: the field that tells its variants apart is never guessed"
    );
    assert_eq!(
        why("union U @tag(\"t\") { a: String }\n"),
        "`String` is a built-in type; a variant names a schema"
    );
    assert_eq!(why("union U @tag(\"t\") { }\n"), "a union needs at least one variant");
}

#[test]
fn a_variant_is_checked_with_the_variant_s_own_unknown_field_rule() {
    let sch = schema(EVENTS);
    let v = obj(&[("type", s("created")), ("who", s("G")), ("amount", Value::Int(Int::from(1_u64))), ("extra", s("x"))]);
    assert_eq!(codes(&sch, "Event", &v), vec![("extra".into(), Code::UnknownField)]);
}
