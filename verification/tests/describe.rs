use seam_core::describe::{describe_rule, describe_type, sort_names, Desc, Host, Member};
use seam_core::{parse, Format, IntType, IntWidth, Rule, Type};

fn text(s: &str) -> Desc {
    Desc::Text(s.into())
}

fn member(k: &str, v: Desc) -> Member {
    Member { key: k.into(), value: v }
}

fn keys(d: &Desc) -> Vec<&str> {
    match d {
        Desc::Dict(m) => m.iter().map(|e| e.key.as_str()).collect(),
        other => panic!("expected a dict, got {other:?}"),
    }
}

fn get<'a>(d: &'a Desc, key: &str) -> &'a Desc {
    match d {
        Desc::Dict(m) => &m.iter().find(|e| e.key == key).expect("key present").value,
        other => panic!("expected a dict, got {other:?}"),
    }
}

#[test]
fn integers_say_whether_a_number_holds_them() {
    let u64t = Type::Int(IntType { width: IntWidth::W64, signed: false });
    assert_eq!(
        describe_type(&u64t, Host::JavaScript),
        Desc::Dict(vec![
            member("kind", text("int")),
            member("name", text("u64")),
            member("signed", Desc::Bool(false)),
            member("fitsJsNumber", Desc::Bool(false)),
        ])
    );
    let i32t = Type::Int(IntType { width: IntWidth::W32, signed: true });
    assert_eq!(
        describe_type(&i32t, Host::Python),
        Desc::Dict(vec![
            member("kind", text("int")),
            member("name", text("i32")),
            member("signed", Desc::Bool(true)),
            member("fits_js_number", Desc::Bool(true)),
        ])
    );
}

#[test]
fn arrays_carry_their_element_nullability() {
    let t = Type::Array { item: Box::new(Type::String), item_nullable: true };
    assert_eq!(
        describe_type(&t, Host::JavaScript),
        Desc::Dict(vec![
            member("kind", text("array")),
            member("item", Desc::Dict(vec![member("kind", text("string"))])),
            member("itemNullable", Desc::Bool(true)),
        ])
    );
    assert_eq!(keys(&describe_type(&t, Host::Python)), vec!["kind", "item", "item_nullable"]);
}

#[test]
fn rules_are_named_with_their_arguments() {
    assert_eq!(
        describe_rule(Rule::Range { min: -5, max: 5 }),
        Desc::Dict(vec![
            member("rule", text("range")),
            member("min", Desc::Int(-5)),
            member("max", Desc::Int(5)),
        ])
    );
    assert_eq!(
        describe_rule(Rule::MaxItems(10)),
        Desc::Dict(vec![member("rule", text("max_items")), member("value", Desc::Int(10))])
    );
    assert_eq!(
        describe_rule(Rule::Format(Format::Email)),
        Desc::Dict(vec![member("rule", text("format")), member("value", text("email"))])
    );
}

const SCHEMA: &str = r#"
schema Zed { a: u8 }
schema Alpha {
  id:   u64
  bio:  optional String?  @max_len(3)
  tags: [enum { x, "y-z" }]
}
union Event @tag("type") { a: Alpha }
union Base @tag("t") { z: Zed }
"#;

#[test]
fn a_schema_describes_each_type_under_its_name_in_order() {
    let s = parse(SCHEMA).expect("should parse");
    let py = s.describe(Host::Python);
    assert_eq!(keys(&py), vec!["Alpha", "Zed"]);
    let alpha = get(&py, "Alpha");
    assert_eq!(keys(alpha), vec!["name", "deny_unknown_fields", "fields"]);
    let fields = match get(alpha, "fields") {
        Desc::List(f) => f,
        other => panic!("expected a list, got {other:?}"),
    };
    assert_eq!(fields.len(), 3);
    assert_eq!(get(&fields[1], "optional"), &Desc::Bool(true));
    assert_eq!(get(&fields[1], "nullable"), &Desc::Bool(true));
    assert_eq!(
        get(&fields[1], "rules"),
        &Desc::List(vec![Desc::Dict(vec![member("rule", text("max_len")), member("value", Desc::Int(3))])])
    );
    let tags = get(get(&fields[2], "type"), "item");
    assert_eq!(get(tags, "values"), &Desc::List(vec![text("x"), text("y-z")]));

    let js = s.describe(Host::JavaScript);
    assert_eq!(keys(&js), vec!["Alpha", "Zed", "Base", "Event"]);
    assert_eq!(keys(get(&js, "Alpha")), vec!["kind", "name", "denyUnknownFields", "fields"]);
    assert_eq!(
        get(&js, "Event"),
        &Desc::Dict(vec![
            member("kind", text("union")),
            member("name", text("Event")),
            member("tag", text("type")),
            member("variants", Desc::List(vec![Desc::Dict(vec![member("tag", text("a")), member("type", text("Alpha"))])])),
        ])
    );
}

#[test]
fn names_come_out_sorted() {
    let s = parse(SCHEMA).expect("should parse");
    assert_eq!(s.type_names(), vec!["Alpha", "Base", "Event", "Zed"]);
    assert_eq!(s.object_type_names(), vec!["Alpha", "Zed"]);
    let names: Vec<String> = vec!["b".into(), "a".into(), "é".into(), "B".into(), "a".into()];
    assert_eq!(sort_names(&names), vec!["B", "a", "a", "b", "é"]);
    assert!(sort_names(&vec![]).is_empty());
}
