use seam_core::json::{parse, JsonError};
use seam_core::value::object_insert;
use seam_core::{Float, Int, Limits, Value};

fn ok(src: &str) -> Value {
    parse(src.as_bytes(), Limits::permissive()).expect("should parse")
}

fn err(src: &str) -> JsonError {
    parse(src.as_bytes(), Limits::permissive()).expect_err("should not parse")
}

fn float_of(v: &Value) -> f64 {
    match v {
        Value::Float(f) => {
            assert!(f.finite);
            f.text.parse::<f64>().expect("the text of a float is a float")
        }
        other => panic!("expected a float, got {other:?}"),
    }
}

#[test]
fn the_boundary_integer_survives() {
    assert_eq!(ok("9007199254740993"), Value::Int(Int::Signed(9_007_199_254_740_993)));
    assert_eq!(ok("18446744073709551615"), Value::Int(Int::Unsigned(u64::MAX)));
    assert_eq!(ok("-9223372036854775808"), Value::Int(Int::Signed(i64::MIN)));
}

#[test]
fn an_integer_past_64_bits_is_kept_as_a_fact_not_a_number() {
    assert_eq!(ok("18446744073709551616"), Value::IntTooWide);
    assert_eq!(ok("-9223372036854775809"), Value::IntTooWide);
}

#[test]
fn floats_stay_floats() {
    assert_eq!(float_of(&ok("1.5")), 1.5);
    assert_eq!(float_of(&ok("1e3")), 1000.0);
    let z = float_of(&ok("-0.0"));
    assert_eq!(z, -0.0);
    assert!(z.is_sign_negative());
}

#[test]
fn literals_and_containers() {
    assert_eq!(ok("null"), Value::Null);
    assert_eq!(ok("true"), Value::Bool(true));
    assert_eq!(ok("[]"), Value::Array(vec![]));
    assert_eq!(ok("{}"), Value::Object(vec![]));
    let mut entries = Vec::new();
    object_insert(
        &mut entries,
        "a".to_string(),
        Value::Array(vec![Value::Int(Int::Signed(1)), Value::Null]),
    );
    assert_eq!(ok(r#"{"a":[1,null]}"#), Value::Object(entries));
}

#[test]
fn strings_and_escapes() {
    assert_eq!(ok(r#""hi""#), Value::String("hi".into()));
    assert_eq!(ok(r#""a\"b""#), Value::String("a\"b".into()));
    assert_eq!(ok(r#""ñ""#), Value::String("ñ".into()));
    assert_eq!(ok(r#""😀""#), Value::String("😀".into()));
    assert_eq!(ok(r#""ñ😀""#), Value::String("ñ😀".into()));
}

#[test]
fn malformed_input_is_rejected() {
    assert!(err("01").message.contains("trailing"));
    assert!(err("+1").message.contains("unexpected"));
    assert!(err(".5").message.contains("unexpected"));
    assert!(err("5.").message.contains("after `.`"));
    assert!(err("1e").message.contains("exponent"));
    assert!(err(r#"{"a":1,}"#).message.contains("expected"));
    assert!(err("[1,]").message.contains("unexpected"));
    assert!(err(r#""unterminated"#).message.contains("unterminated"));
    assert!(err(r#""\ud800""#).message.contains("surrogate"));
    assert!(err("{} {}").message.contains("trailing"));
    assert!(err("").message.contains("end of input"));
}

#[test]
fn invalid_utf8_is_rejected() {
    let e = parse(&[b'"', 0xFF, b'"'], Limits::permissive()).expect_err("should fail");
    assert!(e.message.contains("UTF-8"));
}

#[test]
fn errors_carry_a_position() {
    let e = err("{\n  \"a\": xyz\n}");
    assert_eq!((e.line, e.column), (2, 8));
}

#[test]
fn limits_are_enforced_while_reading() {
    let deep = "[".repeat(40) + &"]".repeat(40);
    let limits = Limits { max_depth: 8, ..Limits::default() };
    assert!(parse(deep.as_bytes(), limits).expect_err("should fail").message.contains("nesting"));

    let limits = Limits { max_items: 2, ..Limits::default() };
    assert!(parse(b"[1,2,3]", limits).expect_err("should fail").message.contains("items"));

    let limits = Limits { max_string_bytes: 3, ..Limits::default() };
    assert!(parse(br#""abcd""#, limits).expect_err("should fail").message.contains("longer than"));
}

#[test]
fn a_hostile_document_does_not_exhaust_the_stack() {
    let deep = "[".repeat(100_000);
    assert!(parse(deep.as_bytes(), Limits::default()).is_err());
}

// --- edges and laws on concrete values --------------------------------------

#[test]
fn keys_come_out_sorted_and_the_last_duplicate_wins() {
    let v = ok(r#"{"b":1,"a":2,"b":3}"#);
    let mut entries = Vec::new();
    object_insert(&mut entries, "a".into(), Value::Int(Int::Signed(2)));
    object_insert(&mut entries, "b".into(), Value::Int(Int::Signed(3)));
    assert_eq!(v, Value::Object(entries));
    match ok(r#"{"b":1,"a":2}"#) {
        Value::Object(e) => {
            assert_eq!(e[0].key, "a");
            assert_eq!(e[1].key, "b");
        }
        other => panic!("expected an object, got {other:?}"),
    }
}

#[test]
fn every_escape_decodes() {
    assert_eq!(
        ok(r#""\"\\\/\b\f\n\r\t""#),
        Value::String("\"\\/\u{8}\u{c}\n\r\t".into())
    );
    assert_eq!(ok(r#""\u0041\u00f1""#), Value::String("Añ".into()));
    assert_eq!(ok(r#""\uD83D\uDE00""#), Value::String("😀".into()));
    assert_eq!(ok(r#""\u0000""#), Value::String("\u{0}".into()));
    assert!(err(r#""\udc00""#).message.contains("surrogate"));
    assert!(err(r#""\ud800\u0041""#).message.contains("surrogate"));
    assert!(err(r#""\x""#).message.contains("escape"));
    assert!(err(r#""\u00g0""#).message.contains("hex digits"));
    // A raw control character is kept as it is, as the reader always has.
    assert_eq!(ok("\"a\u{1}b\""), Value::String("a\u{1}b".into()));
}

#[test]
fn the_float_boundary_is_binary64_overflow() {
    // The largest finite binary64, and the first decimal that rounds past it.
    let max = ok("1.7976931348623157e308");
    assert_eq!(float_of(&max), f64::MAX);
    match ok("1.7976931348623159e308") {
        Value::Float(Float { finite, text }) => {
            assert!(!finite);
            assert!(text.parse::<f64>().unwrap().is_infinite());
        }
        other => panic!("expected a float, got {other:?}"),
    }
    match ok("1e309") {
        Value::Float(f) => assert!(!f.finite),
        other => panic!("expected a float, got {other:?}"),
    }
    match ok("-1e309") {
        Value::Float(f) => assert!(!f.finite),
        other => panic!("expected a float, got {other:?}"),
    }
    // Underflow is not overflow: it rounds to zero and stays finite.
    assert_eq!(float_of(&ok("1e-400")), 0.0);
    assert_eq!(float_of(&ok("0e999999")), 0.0);
    assert_eq!(float_of(&ok("179769313486231570000e288")), f64::MAX);
}

#[test]
fn number_grammar_is_strict() {
    assert_eq!(ok("-0"), Value::Int(Int::Signed(0)));
    assert_eq!(ok("0"), Value::Int(Int::Signed(0)));
    assert_eq!(float_of(&ok("1E+2")), 100.0);
    assert_eq!(float_of(&ok("2.50e-1")), 0.25);
    assert!(err("-").message.contains("digit"));
    assert!(err("1e+").message.contains("exponent"));
    assert!(err("-a").message.contains("digit"));
    assert!(err("0x10").message.contains("trailing"));
}

#[test]
fn whitespace_around_the_document_is_allowed() {
    assert_eq!(ok(" \t\r\n true \n"), Value::Bool(true));
    assert_eq!(ok("[ 1 , 2 ]"), Value::Array(vec![Value::Int(Int::Signed(1)), Value::Int(Int::Signed(2))]));
}

#[test]
fn an_invalid_byte_is_placed_after_the_valid_prefix() {
    let e = parse(&[b'[', b'"', 0xC3, 0xB1, 0xFF, b'"', b']'], Limits::permissive())
        .expect_err("should fail");
    assert_eq!((e.line, e.column), (1, 5));
    assert_eq!(e.message, "input is not valid UTF-8");
    assert_eq!(e.describe(), "1:5: input is not valid UTF-8");
}

#[test]
fn the_key_limit_counts_distinct_keys() {
    let limits = Limits { max_object_keys: 2, ..Limits::default() };
    assert!(parse(br#"{"a":1,"b":2}"#, limits).is_ok());
    assert!(parse(br#"{"a":1,"b":2,"c":3}"#, limits).is_err());
}

#[test]
fn depth_is_clamped_to_the_engine_cap() {
    // The outermost value is at depth 0, so the cap admits 257 nested arrays.
    let at_cap = "[".repeat(257) + &"]".repeat(257);
    let past_cap = "[".repeat(258) + &"]".repeat(258);
    let reckless = Limits { max_depth: usize::MAX, ..Limits::permissive() };
    assert!(parse(at_cap.as_bytes(), reckless).is_ok());
    assert!(parse(past_cap.as_bytes(), reckless).is_err());
}

#[test]
fn every_integer_of_64_bits_reads_back_exactly() {
    for n in [0_u64, 1, 9, 10, 9_007_199_254_740_993, i64::MAX as u64, i64::MAX as u64 + 1, u64::MAX] {
        let expected = Int::from(n);
        assert_eq!(ok(&n.to_string()), Value::Int(expected));
    }
    for n in [-1_i64, -10, -9_007_199_254_740_993, i64::MIN] {
        assert_eq!(ok(&n.to_string()), Value::Int(Int::Signed(n)));
    }
}

#[test]
fn a_number_without_fraction_or_exponent_is_read_exactly() {
    assert_eq!(ok("12"), Value::Int(Int::Signed(12)));
    assert_eq!(ok("-9223372036854775808"), Value::Int(Int::Signed(i64::MIN)));
    assert_eq!(ok("9223372036854775808"), Value::Int(Int::Unsigned(1u64 << 63)));
    assert_eq!(ok("18446744073709551616"), Value::IntTooWide);
    assert_eq!(ok("-9223372036854775809"), Value::IntTooWide);
    assert_eq!(ok("1.0"), Value::Float(Float { text: "1.0".into(), finite: true }));
    assert_eq!(ok("1e2"), Value::Float(Float { text: "1e2".into(), finite: true }));
    assert_eq!(ok("-0E-0"), Value::Float(Float { text: "-0E-0".into(), finite: true }));
    assert_eq!(ok("1e400"), Value::Float(Float { text: "1e400".into(), finite: false }));
}
