use seam_core::{Code, Issue, Path, Segment, ValidationError};

#[test]
fn paths_render_in_the_documented_form() {
    let p = Path(vec![
        Segment::Key("user".into()),
        Segment::Key("tags".into()),
        Segment::Index(2),
    ]);
    assert_eq!(p.render(), "user.tags[2]");
    assert_eq!(Path::default().render(), "<root>");
}

#[test]
fn codes_are_snake_case_and_stable() {
    assert_eq!(Code::NullNotAllowed.as_str(), "null_not_allowed");
    assert_eq!(Code::MissingTimezone.as_str(), "missing_timezone");
}

#[test]
fn every_code_has_its_documented_name() {
    let all = [
        (Code::Required, "required"),
        (Code::NullNotAllowed, "null_not_allowed"),
        (Code::TypeMismatch, "type_mismatch"),
        (Code::OutOfRange, "out_of_range"),
        (Code::UnsafeInteger, "unsafe_integer"),
        (Code::IntegerTooWide, "integer_too_wide"),
        (Code::NotFinite, "not_finite"),
        (Code::TooShort, "too_short"),
        (Code::TooLong, "too_long"),
        (Code::TooFewItems, "too_few_items"),
        (Code::TooManyItems, "too_many_items"),
        (Code::NotInEnum, "not_in_enum"),
        (Code::InvalidDate, "invalid_date"),
        (Code::InvalidDateTime, "invalid_datetime"),
        (Code::MissingTimezone, "missing_timezone"),
        (Code::InvalidFormat, "invalid_format"),
        (Code::UnknownField, "unknown_field"),
        (Code::UnknownVariant, "unknown_variant"),
        (Code::DepthExceeded, "depth_exceeded"),
        (Code::SizeExceeded, "size_exceeded"),
        (Code::UnknownType, "unknown_type"),
    ];
    for (code, name) in all {
        assert_eq!(code.as_str(), name);
    }
}

#[test]
fn paths_that_start_with_an_index_or_repeat_one() {
    assert_eq!(Path(vec![Segment::Index(0)]).render(), "[0]");
    assert_eq!(
        Path(vec![Segment::Index(10), Segment::Index(3), Segment::Key("a".into())]).render(),
        "[10][3].a"
    );
    assert_eq!(
        Path(vec![Segment::Key("log".into()), Segment::Index(1), Segment::Key("amount".into())])
            .render(),
        "log[1].amount"
    );
    assert_eq!(Path(vec![Segment::Key("x".into())]).render(), "x");
}

#[test]
fn a_duplicated_segment_is_equal() {
    let k = Segment::Key("k".into());
    assert_eq!(k.duplicate(), k);
    assert_eq!(Segment::Index(7).duplicate(), Segment::Index(7));
}

#[test]
fn an_error_with_no_issues_is_empty() {
    assert!(ValidationError { issues: vec![] }.is_empty());
    let one = ValidationError {
        issues: vec![Issue { path: Path::default(), code: Code::Required, message: "m".into() }],
    };
    assert!(!one.is_empty());
}

fn issue(path: Vec<Segment>, code: Code, message: &str) -> Issue {
    Issue { path: Path(path), code, message: message.into() }
}

#[test]
fn issues_read_as_path_message_and_code() {
    let one = issue(vec![Segment::Key("name".into())], Code::TooShort, "too short");
    assert_eq!(one.describe(), "name: too short (too_short)");
    assert_eq!(Segment::Index(3).describe(), "[3]");
    assert_eq!(Segment::Key("k".into()).describe(), "k");
}

#[test]
fn an_error_lists_every_issue_and_summarises_the_first() {
    let none = ValidationError { issues: vec![] };
    assert_eq!(none.describe(), "validation failed with no issues recorded");
    assert_eq!(none.summary(), "validation failed");

    let a = issue(vec![Segment::Key("a".into())], Code::Required, "required");
    let b = issue(vec![], Code::UnknownType, "no such type");
    let one = ValidationError { issues: vec![a.clone()] };
    assert_eq!(one.describe(), "a: required (required)");
    assert_eq!(one.summary(), "a: required (required)");

    let two = ValidationError { issues: vec![a, b] };
    assert_eq!(
        two.describe(),
        "2 validation issues:\n  - a: required (required)\n  - <root>: no such type (unknown_type)"
    );
    assert_eq!(two.summary(), "a: required (required), and 1 more");
}

#[test]
fn a_path_renders_segment_by_segment() {
    assert_eq!(
        Path(vec![Segment::Index(0), Segment::Key("a".into()), Segment::Index(10)]).render(),
        "[0].a[10]"
    );
    assert_eq!(Path(vec![]).render(), "<root>");
}
