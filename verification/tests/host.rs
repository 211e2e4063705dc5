use seam_core::host::{bigint_value, js_number_kind, py_kind, python_iso, PyFacts};
use seam_core::{Int, Kind, Limits, Value};

#[test]
fn instants_are_respelled_for_python() {
    assert_eq!(python_iso("2026-08-29T14:30:00Z"), "2026-08-29T14:30:00+00:00");
    assert_eq!(python_iso("2026-08-29T14:30:00z"), "2026-08-29T14:30:00+00:00");
    assert_eq!(python_iso("2026-08-29T14:30:00-05:00"), "2026-08-29T14:30:00-05:00");
    assert_eq!(python_iso("2026-08-29T14:30:00.5Z"), "2026-08-29T14:30:00.500000+00:00");
    assert_eq!(python_iso("2026-08-29T14:30:00.1234567+02:00"), "2026-08-29T14:30:00.123456+02:00");
    assert_eq!(python_iso("2026-08-29t14:30:00.123456Z"), "2026-08-29t14:30:00.123456+00:00");
}

#[test]
fn options_override_only_what_they_name() {
    assert_eq!(Limits::from_options(None, None, None, None), Limits::default());
    let l = Limits::from_options(Some(3), None, Some(7), None);
    assert_eq!(l.max_depth, 3);
    assert_eq!(l.max_items, 10_000);
    assert_eq!(l.max_string_bytes, 7);
    assert_eq!(l.max_object_keys, 1_000);
}

#[test]
fn a_javascript_number_is_classified_by_what_it_can_hold() {
    assert_eq!(js_number_kind(true, true, true), Kind::Int);
    assert_eq!(js_number_kind(true, true, false), Kind::UnsafeInteger);
    assert_eq!(js_number_kind(false, true, true), Kind::Float);
    assert_eq!(js_number_kind(true, false, false), Kind::Float);
}

fn facts() -> PyFacts {
    PyFacts {
        is_none: false,
        is_bool: false,
        is_int: false,
        int_fits: false,
        is_str: false,
        is_float: false,
        is_dict: false,
        is_sequence: false,
        is_date: false,
    }
}

#[test]
fn a_python_bool_is_not_an_int_and_a_datetime_is_text() {
    // `True` is an `int` too; the bool check comes first.
    assert_eq!(py_kind(PyFacts { is_bool: true, is_int: true, int_fits: true, ..facts() }), Kind::Bool);
    assert_eq!(py_kind(PyFacts { is_int: true, int_fits: true, ..facts() }), Kind::Int);
    assert_eq!(py_kind(PyFacts { is_int: true, ..facts() }), Kind::IntegerTooWide);
    assert_eq!(py_kind(PyFacts { is_none: true, ..facts() }), Kind::Null);
    assert_eq!(py_kind(PyFacts { is_date: true, ..facts() }), Kind::String);
    assert_eq!(py_kind(PyFacts { is_sequence: true, ..facts() }), Kind::Array);
    assert_eq!(py_kind(PyFacts { is_dict: true, ..facts() }), Kind::Object);
    assert_eq!(py_kind(PyFacts { is_float: true, ..facts() }), Kind::Float);
    assert_eq!(py_kind(PyFacts { is_str: true, ..facts() }), Kind::String);
    assert_eq!(py_kind(facts()), Kind::Foreign);
}

#[test]
fn a_bigint_is_the_integer_it_holds() {
    assert_eq!(bigint_value(false, 5, true), Value::Int(Int::Signed(5)));
    assert_eq!(bigint_value(true, 5, true), Value::Int(Int::Signed(-5)));
    assert_eq!(bigint_value(true, 0, true), Value::Int(Int::Signed(0)));
    assert_eq!(bigint_value(true, 1u128 << 63, true), Value::Int(Int::Signed(i64::MIN)));
    assert_eq!(bigint_value(true, (1u128 << 63) + 1, true), Value::IntTooWide);
    assert_eq!(bigint_value(false, (1u128 << 63) - 1, true), Value::Int(Int::Signed(i64::MAX)));
    assert_eq!(bigint_value(false, 1u128 << 63, true), Value::Int(Int::Unsigned(1u64 << 63)));
    assert_eq!(bigint_value(false, u64::MAX as u128, true), Value::Int(Int::Unsigned(u64::MAX)));
    assert_eq!(bigint_value(false, 1u128 << 64, true), Value::IntTooWide);
    assert_eq!(bigint_value(false, 5, false), Value::IntTooWide);
}
