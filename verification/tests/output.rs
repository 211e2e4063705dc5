use seam_core::output::{js_output, plain, py_output, shape, Out, OutField};
use seam_core::value::object_insert;
use seam_core::{parse, Float, Int, Value};

const EVENTS: &str = r#"
schema Created {
  who:    String
  amount: u64
  small:  u8
  when:   DateTime
  day:    optional Date
  note:   optional String?
}

union Event @tag("type") {
  created: Created
}

schema Open {
  id: u64
}
"#;

fn obj(pairs: &[(&str, Value)]) -> Value {
    let mut m = Vec::new();
    for (k, v) in pairs {
        object_insert(&mut m, (*k).to_string(), v.clone());
    }
    Value::Object(m)
}

fn s(v: &str) -> Value {
    Value::String(v.into())
}

fn field(k: &str, v: Out) -> OutField {
    OutField { key: k.into(), value: v }
}

fn created() -> Value {
    obj(&[
        ("type", s("created")),
        ("who", s("G")),
        ("amount", Value::Int(Int::Unsigned(u64::MAX))),
        ("small", Value::Int(Int::Signed(7))),
        ("when", s("2026-08-29T14:30:00Z")),
        ("note", Value::Null),
    ])
}

#[test]
fn javascript_gets_the_tag_first_a_bigint_and_a_date() {
    let sch = parse(EVENTS).expect("should parse");
    let out = js_output(&sch, "Event", &created()).expect("resolves");
    assert_eq!(
        out,
        Out::Record(vec![
            field("type", Out::Text("created".into())),
            field("who", Out::Text("G".into())),
            field("amount", Out::BigInt(Int::Unsigned(u64::MAX))),
            field("small", Out::Number(Int::Signed(7))),
            field("when", Out::Instant("2026-08-29T14:30:00Z".into())),
            field("note", Out::Null),
        ])
    );
}

#[test]
fn python_gets_dates_and_keeps_absence() {
    let sch = parse(EVENTS).expect("should parse");
    let mut v = created();
    if let Value::Object(m) = &mut v {
        object_insert(m, "day".into(), s("2026-08-29"));
    }
    let out = py_output(&sch, "Created", &v).expect("an object type");
    assert_eq!(
        out,
        Out::Record(vec![
            field("who", Out::Text("G".into())),
            field("amount", Out::Number(Int::Unsigned(u64::MAX))),
            field("small", Out::Number(Int::Signed(7))),
            field("when", Out::Instant("2026-08-29T14:30:00Z".into())),
            field("day", Out::Date("2026-08-29".into())),
            field("note", Out::Null),
        ])
    );
    // A union is not an object type to the Python binding.
    assert!(py_output(&sch, "Event", &v).is_none());
}

#[test]
fn python_copies_unknown_keys_when_the_type_allows_them() {
    let mut sch = parse(EVENTS).expect("should parse");
    for t in sch.types.iter_mut() {
        if t.name == "Open" {
            t.deny_unknown_fields = false;
        }
    }
    let v = obj(&[("id", Value::Int(Int::Signed(1))), ("extra", Value::Float(Float { text: "1.5".into(), finite: true }))]);
    let out = py_output(&sch, "Open", &v).expect("an object type");
    assert_eq!(
        out,
        Out::Record(vec![
            field("id", Out::Number(Int::Signed(1))),
            field("extra", Out::Float(Float { text: "1.5".into(), finite: true })),
        ])
    );
}

#[test]
fn a_union_shape_comes_from_the_tag() {
    let sch = parse(EVENTS).expect("should parse");
    let (o, tag) = shape(&sch, "Event", &created()).expect("resolves");
    assert_eq!(o.name, "Created");
    assert_eq!(tag, Some("type"));
    let (o, tag) = shape(&sch, "Open", &Value::Null).expect("a schema has a fixed shape");
    assert_eq!(o.name, "Open");
    assert_eq!(tag, None);
    assert!(shape(&sch, "Event", &obj(&[("type", s("nope"))])).is_none());
    assert!(shape(&sch, "Event", &obj(&[("type", Value::Int(Int::Signed(1)))])).is_none());
    assert!(shape(&sch, "Nope", &created()).is_none());
    assert!(js_output(&sch, "Nope", &created()).is_none());
}

#[test]
fn plain_values_pass_through_and_the_unholdable_become_null() {
    assert_eq!(plain(&Value::IntTooWide), Out::Null);
    assert_eq!(plain(&Value::UnsafeInt), Out::Null);
    assert_eq!(plain(&Value::Foreign), Out::Null);
    assert_eq!(
        plain(&Value::Array(vec![Value::Bool(true), s("x")])),
        Out::List(vec![Out::Bool(true), Out::Text("x".into())])
    );
    assert_eq!(
        plain(&obj(&[("b", Value::Null), ("a", Value::Int(Int::Signed(2)))])),
        Out::Record(vec![field("a", Out::Number(Int::Signed(2))), field("b", Out::Null)])
    );
}
