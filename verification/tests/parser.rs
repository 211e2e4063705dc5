use seam_core::parser::{builtin, lex, ParseError, Tok};
use seam_core::{parse, Field, Format, IntType, IntWidth, ObjectType, Presence, Rule, Schema, Type};

const USER: &str = r#"
schema User {
  id:          u64
  name:        String            @min_len(3) @max_len(64)
  age:         u32               @range(18..=120)
  plan:        enum { free, pro, enterprise }
  tags:        [String]          @max_items(10)

  nickname:    String?           // present, may be null
  bio:         optional String   // may be absent
  avatar:      optional String?  // may be absent OR null
}
"#;

fn user_schema() -> Schema {
    parse(USER).expect("USER should parse")
}

fn with_user<R>(f: impl FnOnce(&ObjectType) -> R) -> R {
    let schema = user_schema();
    let user = schema.get("User").expect("User should exist");
    f(user)
}

fn with_field<R>(name: &str, f: impl FnOnce(&Field) -> R) -> R {
    with_user(|u| f(u.field(name).expect("field should exist")))
}

#[test]
fn parses_the_readme_schema() {
    with_user(|u| {
        assert_eq!(u.name, "User");
        assert_eq!(u.fields.len(), 8);
        assert!(u.deny_unknown_fields);
    });
}

#[test]
fn fields_keep_declaration_order() {
    let names: Vec<String> = with_user(|u| u.fields.iter().map(|f| f.name.clone()).collect());
    assert_eq!(names, ["id", "name", "age", "plan", "tags", "nickname", "bio", "avatar"]);
}

#[test]
fn the_four_presence_states_round_trip() {
    assert_eq!(with_field("id", |f| f.presence), Presence::required());
    assert_eq!(with_field("nickname", |f| f.presence), Presence::nullable());
    assert_eq!(with_field("bio", |f| f.presence), Presence::optional());
    assert_eq!(with_field("avatar", |f| f.presence), Presence::optional_nullable());
}

#[test]
fn integer_width_and_signedness_survive() {
    with_field("id", |f| {
        assert_eq!(f.ty, Type::Int(IntType { width: IntWidth::W64, signed: false }))
    });
    with_field("age", |f| {
        assert_eq!(f.ty, Type::Int(IntType { width: IntWidth::W32, signed: false }))
    });
}

#[test]
fn enums_arrays_and_rules_parse() {
    with_field("plan", |f| {
        assert_eq!(f.ty, Type::Enum(vec!["free".into(), "pro".into(), "enterprise".into()]))
    });
    with_field("tags", |f| {
        assert_eq!(f.ty, Type::Array { item: Box::new(Type::String), item_nullable: false })
    });
    with_field("name", |f| assert_eq!(f.rules, vec![Rule::MinLen(3), Rule::MaxLen(64)]));
    with_field("age", |f| assert_eq!(f.rules, vec![Rule::Range { min: 18, max: 120 }]));
    with_field("tags", |f| assert_eq!(f.rules, vec![Rule::MaxItems(10)]));
}

#[test]
fn comments_are_ignored() {
    let s = parse("// leading\nschema A { x: u8 } // trailing\n").expect("should parse");
    assert!(s.get("A").is_some());
}

#[test]
fn a_type_may_refer_to_one_declared_later() {
    let s = parse("schema A { b: B }\nschema B { x: u8 }").expect("should parse");
    let a = s.get("A").expect("A should exist");
    assert_eq!(a.field("b").map(|f| &f.ty), Some(&Type::Ref("B".into())));
}

fn err(src: &str) -> ParseError {
    parse(src).expect_err("should not parse")
}

#[test]
fn an_unknown_type_is_reported_where_it_is_used() {
    let e = err("schema A { b: Nope }");
    assert_eq!(e.message, "unknown type `Nope`");
    assert_eq!((e.line, e.column), (1, 15));
}

#[test]
fn unknown_rules_are_rejected_rather_than_ignored() {
    assert_eq!(err("schema A { x: u8 @nope(1) }").message, "unknown rule `@nope`");
}

#[test]
fn structural_mistakes_point_at_the_right_token() {
    assert_eq!(err("schema A { x u8 }").message, "expected `:`, found `u8`");
    assert_eq!(err("schema A {").message, "expected `}`, found end of input");
    assert_eq!(err("A { }").message, "expected `schema`, found `A`");
}

#[test]
fn duplicates_are_caught() {
    assert!(err("schema A { x: u8\n x: u8 }").message.contains("more than once"));
    assert!(err("schema A { x: u8 }\nschema A { y: u8 }").message.contains("more than once"));
    assert!(err("schema A { x: enum { a, a } }").message.contains("twice"));
}

#[test]
fn rule_arguments_are_checked() {
    assert!(err("schema A { x: String @min_len(-1) }").message.contains("non-negative"));
    assert!(err("schema A { x: u8 @range(10..=1) }").message.contains("empty"));
}

#[test]
fn quoted_enum_values_allow_characters_idents_cannot_hold() {
    let s = parse(r#"schema A { r: enum { "us-east-1", "eu-west-2" } }"#).expect("should parse");
    let a = s.get("A").expect("A should exist");
    assert_eq!(
        a.field("r").map(|f| &f.ty),
        Some(&Type::Enum(vec!["us-east-1".into(), "eu-west-2".into()]))
    );
}

// --- edges and laws on concrete values --------------------------------------

#[test]
fn a_nullable_array_item_is_part_of_the_element_type() {
    let s = parse("schema A { x: [String?] \n y: optional [u8]? }").expect("should parse");
    let a = s.get("A").expect("A should exist");
    assert_eq!(
        a.field("x").map(|f| &f.ty),
        Some(&Type::Array { item: Box::new(Type::String), item_nullable: true })
    );
    let y = a.field("y").expect("y should exist");
    assert_eq!(y.presence, Presence::optional_nullable());
    assert_eq!(
        y.ty,
        Type::Array {
            item: Box::new(Type::Int(IntType { width: IntWidth::W8, signed: false })),
            item_nullable: false,
        }
    );
}

#[test]
fn every_rule_and_format_parses() {
    let s = parse(
        "schema A {\n x: String @min_len(0) @max_len(5) @format(email)\n y: [u8] @min_items(1) @max_items(2)\n z: i64 @range(-5..=5)\n}",
    )
    .expect("should parse");
    let a = s.get("A").expect("A should exist");
    assert_eq!(
        a.field("x").map(|f| f.rules.clone()),
        Some(vec![Rule::MinLen(0), Rule::MaxLen(5), Rule::Format(Format::Email)])
    );
    assert_eq!(a.field("y").map(|f| f.rules.clone()), Some(vec![Rule::MinItems(1), Rule::MaxItems(2)]));
    assert_eq!(a.field("z").map(|f| f.rules.clone()), Some(vec![Rule::Range { min: -5, max: 5 }]));
    assert_eq!(err("schema A { x: String @format(regex) }").message, "unknown format `regex`");
}

#[test]
fn builtin_names_are_exact() {
    assert_eq!(builtin("String"), Some(Type::String));
    assert_eq!(builtin("bool"), Some(Type::Bool));
    assert_eq!(builtin("f64"), Some(Type::Float));
    assert_eq!(builtin("Date"), Some(Type::Date));
    assert_eq!(builtin("DateTime"), Some(Type::DateTime));
    assert_eq!(builtin("i16"), Some(Type::Int(IntType { width: IntWidth::W16, signed: true })));
    assert_eq!(builtin("u64"), Some(Type::Int(IntType { width: IntWidth::W64, signed: false })));
    assert_eq!(builtin("string"), None);
    assert_eq!(builtin("u128"), None);
}

#[test]
fn the_lexer_reads_every_token() {
    let toks = lex("schema A {\n  x: [u8]? @range(-1..=20) , \"s\" }").expect("should lex");
    let kinds: Vec<Tok> = toks.iter().map(|t| t.tok.clone()).collect();
    assert_eq!(
        kinds,
        vec![
            Tok::Ident("schema".into()),
            Tok::Ident("A".into()),
            Tok::LBrace,
            Tok::Ident("x".into()),
            Tok::Colon,
            Tok::LBracket,
            Tok::Ident("u8".into()),
            Tok::RBracket,
            Tok::Question,
            Tok::At,
            Tok::Ident("range".into()),
            Tok::LParen,
            Tok::Int(-1),
            Tok::RangeIncl,
            Tok::Int(20),
            Tok::RParen,
            Tok::Comma,
            Tok::Str("s".into()),
            Tok::RBrace,
            Tok::Eof,
        ]
    );
    assert_eq!((toks[3].line, toks[3].column), (2, 3));
    assert_eq!(Tok::RangeIncl.describe(), "`..=`");
    assert_eq!(Tok::Int(-7).describe(), "`-7`");
    assert_eq!(Tok::Str("q".into()).describe(), "string \"q\"");
    assert_eq!(Tok::Eof.describe(), "end of input");
}

#[test]
fn lexer_errors_are_placed() {
    let e = lex("schema A {\n  x: u8 # }").expect_err("should not lex");
    assert_eq!(e.message, "unexpected character `#`");
    assert_eq!((e.line, e.column), (2, 9));
    assert_eq!(e.describe(), "2:9: unexpected character `#`");
    let e = lex("\"open").expect_err("should not lex");
    assert_eq!(e.message, "unterminated string");
    let e = lex("999999999999999999999999999999999999999999").expect_err("should not lex");
    assert!(e.message.contains("does not fit a 128-bit integer"));
}

#[test]
fn unicode_identifiers_and_whitespace_follow_the_unicode_tables() {
    // Letters beyond ASCII start and continue identifiers.
    let s = parse("schema Ñandú { añoß: u8 }").expect("should parse");
    let t = s.get("Ñandú").expect("declared");
    assert!(t.field("añoß").is_some());
    // A no-break space is white space to Unicode.
    assert!(parse("schema\u{a0}A { x: u8 }").is_ok());
    // A digit cannot start an identifier, and a symbol is not a letter.
    assert!(parse("schema A { €: u8 }").is_err());
}

#[test]
fn an_empty_source_declares_nothing() {
    let s = parse("").expect("should parse");
    assert!(s.types.is_empty());
    assert!(s.unions.is_empty());
    let s = parse("  // only a comment").expect("should parse");
    assert!(s.types.is_empty());
}

#[test]
fn each_name_and_member_is_declared_once() {
    let s = parse("schema A { x: u8 y: u8 }\nunion U @tag(\"t\") { a: A b: A }").expect("should parse");
    let mut names = s.type_names();
    names.dedup();
    assert_eq!(names.len(), 2);
    assert!(parse("schema A { x: u8 }\nunion A @tag(\"t\") { a: A }").is_err());
    assert!(parse("union U @tag(\"t\") { a: A\n a: A }\nschema A { x: u8 }").is_err());
    assert!(parse("schema A { x: u8\n x: u16 }").is_err());
}

#[test]
fn token_positions_strictly_increase() {
    let toks = lex("schema A {\n  x: u8 @range(1..=2)\n\ty:\tString // note\n}\n").expect("lexes");
    assert!(matches!(toks.last().map(|t| &t.tok), Some(Tok::Eof)));
    assert_eq!(toks.iter().filter(|t| matches!(t.tok, Tok::Eof)).count(), 1);
    for t in &toks {
        assert!(t.line >= 1 && t.column >= 1);
    }
    for w in toks.windows(2) {
        assert!((w[0].line, w[0].column) < (w[1].line, w[1].column), "{:?} then {:?}", w[0], w[1]);
    }
}

#[test]
fn any_unicode_white_space_separates_tokens() {
    let s = parse("schema\u{3000}A\u{a0}{\u{2028}x:\u{85}u8 }").expect("white space separates");
    assert_eq!(s.types[0].name, "A");
    assert_eq!(s.types[0].fields[0].name, "x");
    let t = lex("a\u{2003}b").expect("lexes");
    assert_eq!(t.len(), 3);
    assert_eq!((t[1].line, t[1].column), (1, 3));
}

#[test]
fn an_empty_range_is_refused_when_the_schema_is_read() {
    let e = parse("schema A { x: i32 @range(5..=1) }").expect_err("empty range");
    assert!(e.message.contains("is empty"), "{}", e.message);
    let s = parse("schema A { x: i32 @range(-3..=-3) }").expect("a one-value range");
    assert!(s.types[0].deny_unknown_fields);
    assert_eq!(s.types[0].fields[0].rules, vec![Rule::Range { min: -3, max: -3 }]);
}

#[test]
fn builtin_names_read_back() {
    assert_eq!(builtin("String"), Some(Type::String));
    assert_eq!(builtin("f64"), Some(Type::Float));
    for (w, signed) in [
        (IntWidth::W8, true),
        (IntWidth::W16, false),
        (IntWidth::W32, true),
        (IntWidth::W64, false),
    ] {
        let t = IntType { width: w, signed };
        assert_eq!(builtin(t.name()), Some(Type::Int(t)));
    }
    assert_eq!(builtin("string"), None);
}
