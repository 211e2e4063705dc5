use seam_core::value::object_insert;
use seam_core::{
    validate, Code, Field, Float, Int, IntType, IntWidth, Limits, ObjectType, Presence, Rule,
    Schema, Type, Value,
};

fn user_schema() -> Schema {
    let user = ObjectType {
        name: "User".into(),
        deny_unknown_fields: true,
        fields: vec![
            Field {
                name: "id".into(),
                ty: Type::Int(IntType { width: IntWidth::W64, signed: false }),
                presence: Presence::required(),
                rules: vec![],
            },
            Field {
                name: "name".into(),
                ty: Type::String,
                presence: Presence::required(),
                rules: vec![Rule::MinLen(3), Rule::MaxLen(64)],
            },
            Field {
                name: "plan".into(),
                ty: Type::Enum(vec!["free".into(), "pro".into(), "enterprise".into()]),
                presence: Presence::required(),
                rules: vec![],
            },
            Field {
                name: "nickname".into(),
                ty: Type::String,
                presence: Presence::nullable(),
                rules: vec![],
            },
            Field {
                name: "bio".into(),
                ty: Type::String,
                presence: Presence::optional(),
                rules: vec![],
            },
            Field {
                name: "signup_date".into(),
                ty: Type::Date,
                presence: Presence::optional_nullable(),
                rules: vec![],
            },
            Field {
                name: "tags".into(),
                ty: Type::Array { item: Box::new(Type::String), item_nullable: false },
                presence: Presence::optional(),
                rules: vec![Rule::MaxItems(3)],
            },
        ],
    };
    Schema { types: vec![user], unions: vec![] }
}

fn obj(pairs: &[(&str, Value)]) -> Value {
    let mut m = Vec::new();
    for (k, v) in pairs {
        object_insert(&mut m, (*k).to_string(), v.clone());
    }
    Value::Object(m)
}

fn valid_user() -> Value {
    obj(&[
        ("id", Value::Int(Int::from(1_u64))),
        ("name", Value::String("Gabriel".into())),
        ("plan", Value::String("pro".into())),
        ("nickname", Value::Null),
    ])
}

fn with(key: &str, value: Value) -> Value {
    let mut v = valid_user();
    if let Value::Object(m) = &mut v {
        object_insert(m, key.into(), value);
    }
    v
}

fn codes(v: &Value) -> Vec<(String, Code)> {
    match validate(&user_schema(), "User", v, Limits::default()) {
        Ok(()) => vec![],
        Err(e) => e.issues.into_iter().map(|i| (i.path.render(), i.code)).collect(),
    }
}

#[test]
fn validate_a_valid_payload_passes() {
    assert_eq!(codes(&valid_user()), vec![]);
}

#[test]
fn the_readme_payload_keeps_its_u64_exactly() {
    let v = with("id", Value::Int(Int::from(9_007_199_254_740_993_u64)));
    assert_eq!(codes(&v), vec![]);
}

#[test]
fn absent_and_null_are_judged_separately() {
    let mut m = Vec::new();
    object_insert(&mut m, "id".into(), Value::Int(Int::from(1_u64)));
    object_insert(&mut m, "name".into(), Value::String("Gabriel".into()));
    object_insert(&mut m, "plan".into(), Value::String("pro".into()));
    assert_eq!(codes(&Value::Object(m)), vec![("nickname".into(), Code::Required)]);

    assert_eq!(codes(&with("bio", Value::Null)), vec![("bio".into(), Code::NullNotAllowed)]);

    assert_eq!(codes(&with("signup_date", Value::Null)), vec![]);
}

#[test]
fn a_naive_datetime_never_slips_through() {
    let v = with("signup_date", Value::String("2026-08-29T00:00:00".into()));
    assert_eq!(codes(&v), vec![("signup_date".into(), Code::InvalidDate)]);
}

#[test]
fn errors_carry_the_path_into_arrays() {
    let v = with(
        "tags",
        Value::Array(vec![Value::String("ok".into()), Value::Int(Int::from(7_i64))]),
    );
    assert_eq!(codes(&v), vec![("tags[1]".into(), Code::TypeMismatch)]);
}

#[test]
fn every_issue_is_reported_not_just_the_first() {
    let v = obj(&[
        ("id", Value::String("not a number".into())),
        ("name", Value::String("ab".into())),
        ("plan", Value::String("platinum".into())),
        ("nickname", Value::Null),
        ("surprise", Value::Bool(true)),
    ]);
    let found = codes(&v);
    assert_eq!(found.len(), 4, "expected four issues, got {found:?}");
    assert!(found.contains(&("id".into(), Code::TypeMismatch)));
    assert!(found.contains(&("name".into(), Code::TooShort)));
    assert!(found.contains(&("plan".into(), Code::NotInEnum)));
    assert!(found.contains(&("surprise".into(), Code::UnknownField)));
}

fn single_field(name: &str, ty: Type, presence: Presence, rules: Vec<Rule>) -> Schema {
    Schema {
        types: vec![ObjectType {
            name: "T".into(),
            deny_unknown_fields: false,
            fields: vec![Field { name: name.into(), ty, presence, rules }],
        }],
        unions: vec![],
    }
}

#[test]
fn integer_width_is_enforced_against_the_declared_type() {
    let schema = single_field(
        "n",
        Type::Int(IntType { width: IntWidth::W32, signed: true }),
        Presence::required(),
        vec![],
    );
    let too_big = obj(&[("n", Value::Int(Int::from(i64::from(i32::MAX) + 1)))]);
    let err = validate(&schema, "T", &too_big, Limits::default());
    assert!(matches!(err, Err(ref e) if e.issues.len() == 1));
    if let Err(e) = err {
        assert_eq!(e.issues.first().map(|i| i.code), Some(Code::OutOfRange));
    }
}

#[test]
fn limits_stop_an_oversized_array() {
    let limits = Limits { max_items: 2, ..Limits::default() };
    let v = with("tags", Value::Array(vec![Value::String("a".into()); 5]));
    let err = validate(&user_schema(), "User", &v, limits);
    assert!(matches!(err, Err(ref e) if e.issues.iter().any(|i| i.code == Code::SizeExceeded)));
}

#[test]
fn limits_stop_an_oversized_string() {
    let limits = Limits { max_string_bytes: 8, ..Limits::default() };
    let v = with("name", Value::String("a".repeat(9)));
    let err = validate(&user_schema(), "User", &v, limits);
    assert!(matches!(err, Err(ref e) if e.issues.iter().any(|i| i.code == Code::SizeExceeded)));

    let ok = with("name", Value::String("a".repeat(8)));
    assert!(validate(&user_schema(), "User", &ok, limits).is_ok());
}

#[test]
fn the_string_limit_counts_bytes_not_characters() {
    let limits = Limits { max_string_bytes: 4, ..Limits::default() };
    let v = with("name", Value::String("ñññ".into()));
    let err = validate(&user_schema(), "User", &v, limits);
    assert!(matches!(err, Err(ref e) if e.issues.iter().any(|i| i.code == Code::SizeExceeded)));
}

#[test]
fn a_null_array_item_is_rejected_unless_the_element_allows_it() {
    let with_items = |item_nullable| {
        single_field(
            "xs",
            Type::Array { item: Box::new(Type::String), item_nullable },
            Presence::required(),
            vec![],
        )
    };
    let payload = obj(&[("xs", Value::Array(vec![Value::String("a".into()), Value::Null]))]);

    let err = validate(&with_items(false), "T", &payload, Limits::default())
        .expect_err("a null element must not pass `[String]`");
    assert_eq!(err.issues.len(), 1);
    assert_eq!(
        err.issues.first().map(|i| (i.path.render(), i.code)),
        Some(("xs[1]".to_string(), Code::NullNotAllowed))
    );

    assert!(validate(&with_items(true), "T", &payload, Limits::default()).is_ok());
}

// --- edges and laws on concrete values --------------------------------------

fn one(schema: &Schema, v: &Value) -> Vec<(String, Code, String)> {
    match validate(schema, "T", v, Limits::default()) {
        Ok(()) => vec![],
        Err(e) => e.issues.into_iter().map(|i| (i.path.render(), i.code, i.message)).collect(),
    }
}

#[test]
fn an_unknown_type_name_is_its_own_verdict() {
    let err = validate(&user_schema(), "Nope", &valid_user(), Limits::default())
        .expect_err("no such type");
    assert_eq!(err.issues.len(), 1);
    assert_eq!(err.issues[0].code, Code::UnknownType);
    assert_eq!(err.issues[0].path.render(), "<root>");
    assert_eq!(err.issues[0].message, "schema declares no type named `Nope`");
}

#[test]
fn integers_are_checked_against_width_and_rules() {
    let u8s = single_field(
        "n",
        Type::Int(IntType { width: IntWidth::W8, signed: false }),
        Presence::required(),
        vec![Rule::Range { min: 10, max: 20 }],
    );
    assert_eq!(one(&u8s, &obj(&[("n", Value::Int(Int::Signed(15)))])), vec![]);
    assert_eq!(
        one(&u8s, &obj(&[("n", Value::Int(Int::Signed(256)))])),
        vec![
            ("n".into(), Code::OutOfRange, "256 is outside the range of u8 (0..=255)".into()),
            ("n".into(), Code::OutOfRange, "256 is outside 10..=20".into()),
        ]
    );
    assert_eq!(
        one(&u8s, &obj(&[("n", Value::Int(Int::Signed(-1)))]))[0].1,
        Code::OutOfRange
    );
    assert_eq!(
        one(&u8s, &obj(&[("n", Value::Int(Int::Signed(9)))])),
        vec![("n".into(), Code::OutOfRange, "9 is outside 10..=20".into())]
    );
    assert_eq!(one(&u8s, &obj(&[("n", Value::IntTooWide)]))[0].1, Code::IntegerTooWide);
    assert_eq!(one(&u8s, &obj(&[("n", Value::UnsafeInt)]))[0].1, Code::UnsafeInteger);
    assert_eq!(
        one(&u8s, &obj(&[("n", Value::Float(Float { text: "1.5".into(), finite: true }))]))[0].1,
        Code::TypeMismatch
    );
    let u64s = single_field(
        "n",
        Type::Int(IntType { width: IntWidth::W64, signed: false }),
        Presence::required(),
        vec![],
    );
    assert_eq!(one(&u64s, &obj(&[("n", Value::Int(Int::Unsigned(u64::MAX)))])), vec![]);
    let i64s = single_field(
        "n",
        Type::Int(IntType { width: IntWidth::W64, signed: true }),
        Presence::required(),
        vec![],
    );
    assert_eq!(one(&i64s, &obj(&[("n", Value::Int(Int::Unsigned(u64::MAX)))]))[0].1, Code::OutOfRange);
}

#[test]
fn floats_must_be_finite() {
    let f = single_field("x", Type::Float, Presence::required(), vec![]);
    assert_eq!(one(&f, &obj(&[("x", Value::Float(Float { text: "1.5".into(), finite: true }))])), vec![]);
    assert_eq!(one(&f, &obj(&[("x", Value::Int(Int::Signed(3)))])), vec![]);
    assert_eq!(
        one(&f, &obj(&[("x", Value::Float(Float { text: "1e999".into(), finite: false }))]))[0].1,
        Code::NotFinite
    );
    assert_eq!(one(&f, &obj(&[("x", Value::Bool(true))]))[0].1, Code::TypeMismatch);
}

#[test]
fn strings_are_checked_by_length_and_format() {
    let s = single_field(
        "s",
        Type::String,
        Presence::required(),
        vec![Rule::MinLen(2), Rule::MaxLen(3), Rule::Format(seam_core::Format::Ipv4)],
    );
    assert_eq!(one(&s, &obj(&[("s", Value::String("x".into()))]))[0].1, Code::TooShort);
    assert_eq!(one(&s, &obj(&[("s", Value::String("abcd".into()))]))[0].1, Code::TooLong);
    // Length counts characters: three two-byte characters are three long.
    let len_only = single_field("s", Type::String, Presence::required(), vec![Rule::MaxLen(3)]);
    assert_eq!(one(&len_only, &obj(&[("s", Value::String("ñññ".into()))])), vec![]);
    let fmt = single_field(
        "s",
        Type::String,
        Presence::required(),
        vec![Rule::Format(seam_core::Format::Uuid)],
    );
    assert_eq!(one(&fmt, &obj(&[("s", Value::String("nope".into()))]))[0].1, Code::InvalidFormat);
    assert_eq!(
        one(&fmt, &obj(&[("s", Value::String("6ba7b810-9dad-11d1-80b4-00c04fd430c8".into()))])),
        vec![]
    );
}

#[test]
fn array_counts_are_rules() {
    let a = single_field(
        "xs",
        Type::Array { item: Box::new(Type::Bool), item_nullable: false },
        Presence::required(),
        vec![Rule::MinItems(2), Rule::MaxItems(3)],
    );
    assert_eq!(one(&a, &obj(&[("xs", Value::Array(vec![Value::Bool(true)]))]))[0].1, Code::TooFewItems);
    assert_eq!(
        one(&a, &obj(&[("xs", Value::Array(vec![Value::Bool(true); 4]))]))[0].1,
        Code::TooManyItems
    );
    assert_eq!(one(&a, &obj(&[("xs", Value::Array(vec![Value::Bool(true); 3]))])), vec![]);
}

#[test]
fn depth_is_limited_and_reported_once() {
    let nested = single_field(
        "xs",
        Type::Array {
            item: Box::new(Type::Array { item: Box::new(Type::Bool), item_nullable: false }),
            item_nullable: false,
        },
        Presence::required(),
        vec![],
    );
    let v = obj(&[("xs", Value::Array(vec![Value::Array(vec![Value::Bool(true)])]))]);
    // The root object is at depth 0, `xs` at 1, its elements at 2.
    let limits = Limits { max_depth: 1, ..Limits::default() };
    let err = validate(&nested, "T", &v, limits).expect_err("too deep");
    assert_eq!(err.issues.len(), 1);
    assert_eq!(err.issues[0].code, Code::DepthExceeded);
    assert!(validate(&nested, "T", &v, Limits::default()).is_ok());
}

#[test]
fn unknown_fields_are_allowed_unless_denied() {
    let open = single_field("a", Type::Bool, Presence::optional(), vec![]);
    assert_eq!(one(&open, &obj(&[("b", Value::Null)])), vec![]);
    let v = with("zzz", Value::Null);
    assert_eq!(codes(&v), vec![("zzz".into(), Code::UnknownField)]);
}

#[test]
fn too_many_keys_is_a_size_issue() {
    let limits = Limits { max_object_keys: 3, ..Limits::default() };
    let err = validate(&user_schema(), "User", &valid_user(), limits).expect_err("four keys");
    assert!(err.issues.iter().any(|i| i.code == Code::SizeExceeded));
}

fn field(name: &str, ty: Type, presence: Presence) -> Field {
    Field { name: name.into(), ty, presence, rules: vec![] }
}

#[test]
fn issues_come_field_by_field_then_unknown_keys_sorted() {
    let inner = ObjectType {
        name: "Inner".into(),
        deny_unknown_fields: true,
        fields: vec![
            field("p", Type::Bool, Presence::required()),
            field("q", Type::String, Presence::required()),
        ],
    };
    let outer = ObjectType {
        name: "Outer".into(),
        deny_unknown_fields: true,
        fields: vec![
            field("a", Type::String, Presence::required()),
            field("b", Type::Ref("Inner".into()), Presence::required()),
            field("c", Type::Bool, Presence::required()),
        ],
    };
    let schema = Schema { types: vec![outer, inner], unions: vec![] };
    let v = obj(&[
        ("zz", Value::Bool(true)),
        ("c", Value::Null),
        ("b", obj(&[("q", Value::Bool(true)), ("extra", Value::Null)])),
        ("aa", Value::Bool(true)),
    ]);
    let found: Vec<(String, Code)> = match validate(&schema, "Outer", &v, Limits::default()) {
        Ok(()) => vec![],
        Err(e) => e.issues.into_iter().map(|i| (i.path.render(), i.code)).collect(),
    };
    assert_eq!(
        found,
        vec![
            ("a".to_string(), Code::Required),
            ("b.p".to_string(), Code::Required),
            ("b.q".to_string(), Code::TypeMismatch),
            ("b.extra".to_string(), Code::UnknownField),
            ("c".to_string(), Code::NullNotAllowed),
            ("aa".to_string(), Code::UnknownField),
            ("zz".to_string(), Code::UnknownField),
        ]
    );
}

#[test]
fn an_absent_or_null_field_raises_only_its_presence_issue() {
    let schema = single_field(
        "when",
        Type::DateTime,
        Presence::required(),
        vec![Rule::MinLen(50)],
    );
    assert_eq!(
        one(&schema, &obj(&[("when", Value::Null)])).into_iter().map(|i| (i.0, i.1)).collect::<Vec<_>>(),
        vec![("when".to_string(), Code::NullNotAllowed)]
    );
    assert_eq!(
        one(&schema, &obj(&[])).into_iter().map(|i| (i.0, i.1)).collect::<Vec<_>>(),
        vec![("when".to_string(), Code::Required)]
    );
}

#[test]
fn a_long_string_is_one_size_issue_whatever_was_declared() {
    let limits = Limits { max_string_bytes: 4, ..Limits::default() };
    for ty in [
        Type::String,
        Type::Date,
        Type::DateTime,
        Type::Enum(vec!["abcdefgh".into()]),
        Type::Bool,
        Type::Int(IntType { width: IntWidth::W8, signed: true }),
    ] {
        let schema = single_field("s", ty, Presence::required(), vec![Rule::MinLen(100)]);
        let v = obj(&[("s", Value::String("abcdefgh".into()))]);
        let found: Vec<Code> = match validate(&schema, "T", &v, limits) {
            Ok(()) => vec![],
            Err(e) => e.issues.into_iter().map(|i| i.code).collect(),
        };
        assert_eq!(found[0], Code::SizeExceeded);
        assert_eq!(found.iter().filter(|c| **c == Code::SizeExceeded).count(), 1);
    }
}
