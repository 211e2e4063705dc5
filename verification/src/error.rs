//! `path` and `code` are public API in every binding. `code` is stable and
//! changes only on a major version; `message` is for humans, never parse it.

use vstd::prelude::*;

use crate::text::{decimal, push_char, push_decimal};

verus! {

/// One step from the root of a payload to a value inside it.
#[derive(Debug, Clone, PartialEq, Eq)]
pub enum Segment {
    Key(String),
    Index(usize),
}

/// A segment as the contracts speak of it.
pub enum SpecSegment {
    Key(Seq<char>),
    Index(nat),
}

impl Segment {
    pub open spec fn view(&self) -> SpecSegment {
        match self {
            Segment::Key(k) => SpecSegment::Key(k@),
            Segment::Index(i) => SpecSegment::Index(*i as nat),
        }
    }

    /// An equal segment, owned separately.
    pub fn duplicate(&self) -> (r: Segment)
        ensures
            r.view() == self.view(),
    {
        match self {
            Segment::Key(k) => Segment::Key(k.clone()),
            Segment::Index(i) => Segment::Index(*i),
        }
    }
}

/// A sequence of keys and indices from the root; the empty path is the root.
#[derive(Debug, Clone, Default, PartialEq, Eq)]
pub struct Path(pub Vec<Segment>);

/// The segments of a path as the contracts speak of them.
pub open spec fn segments_view(segs: Seq<Segment>) -> Seq<SpecSegment> {
    segs.map_values(|s: Segment| s.view())
}

/// The rendered form of a path without the root marker: keys joined by `.`,
/// indices in brackets, as in `user.tags[2]`. A key adds a `.` only after
/// something has already been written.
pub open spec fn render_body(segs: Seq<SpecSegment>) -> Seq<char>
    decreases segs.len(),
{
    if segs.len() == 0 {
        Seq::empty()
    } else {
        let prev = render_body(segs.drop_last());
        match segs.last() {
            SpecSegment::Key(k) => if prev.len() == 0 {
                k
            } else {
                prev.push('.') + k
            },
            SpecSegment::Index(i) => prev.push('[') + decimal(i) + seq![']'],
        }
    }
}

/// The rendered form of a path: `<root>` for the root itself.
pub open spec fn render_path(segs: Seq<SpecSegment>) -> Seq<char> {
    if render_body(segs).len() == 0 {
        seq!['<', 'r', 'o', 'o', 't', '>']
    } else {
        render_body(segs)
    }
}

impl Path {
    pub open spec fn view(&self) -> Seq<SpecSegment> {
        segments_view(self.0@)
    }

    /// The path in its documented rendered form, such as `user.tags[2]`.
    pub fn render(&self) -> (r: String)
        ensures
            r@ == render_path(self.view()),
    {
        let mut out = String::new();
        let n = self.0.len();
        let mut i: usize = 0;
        while i < n
            invariant
                n == self.0@.len(),
                i <= n,
                out@ == render_body(segments_view(self.0@.take(i as int))),
            decreases n - i,
        {
            let ghost before = out@;
            assert(segments_view(self.0@.take(i + 1)).drop_last() =~= segments_view(
                self.0@.take(i as int),
            ));
            match &self.0[i] {
                Segment::Key(k) => {
                    if !out.as_str().is_empty() {
                        push_char(&mut out, '.');
                    }
                    out.append(k.as_str());
                },
                Segment::Index(idx) => {
                    push_char(&mut out, '[');
                    push_decimal(&mut out, *idx as u128);
                    push_char(&mut out, ']');
                },
            }
            i = i + 1;
        }
        assert(self.0@.take(n as int) =~= self.0@);
        if out.as_str().is_empty() {
            let mut root = String::new();
            push_char(&mut root, '<');
            push_char(&mut root, 'r');
            push_char(&mut root, 'o');
            push_char(&mut root, 'o');
            push_char(&mut root, 't');
            push_char(&mut root, '>');
            assert(root@ =~= seq!['<', 'r', 'o', 'o', 't', '>']);
            root
        } else {
            out
        }
    }
}

/// A stable, machine-readable reason for an issue.
#[derive(Debug, Clone, Copy, PartialEq, Eq)]
pub enum Code {
    Required,
    NullNotAllowed,
    TypeMismatch,
    OutOfRange,
    UnsafeInteger,
    IntegerTooWide,
    NotFinite,
    TooShort,
    TooLong,
    TooFewItems,
    TooManyItems,
    NotInEnum,
    InvalidDate,
    InvalidDateTime,
    MissingTimezone,
    InvalidFormat,
    UnknownField,
    UnknownVariant,
    DepthExceeded,
    SizeExceeded,
    UnknownType,
}

/// The snake_case identifier of a code, as every binding reports it.
pub open spec fn code_name(c: Code) -> Seq<char> {
        match c {
            Code::Required => "required"@,
            Code::NullNotAllowed => "null_not_allowed"@,
            Code::TypeMismatch => "type_mismatch"@,
            Code::OutOfRange => "out_of_range"@,
            Code::UnsafeInteger => "unsafe_integer"@,
            Code::IntegerTooWide => "integer_too_wide"@,
            Code::NotFinite => "not_finite"@,
            Code::TooShort => "too_short"@,
            Code::TooLong => "too_long"@,
            Code::TooFewItems => "too_few_items"@,
            Code::TooManyItems => "too_many_items"@,
            Code::NotInEnum => "not_in_enum"@,
            Code::InvalidDate => "invalid_date"@,
            Code::InvalidDateTime => "invalid_datetime"@,
            Code::MissingTimezone => "missing_timezone"@,
            Code::InvalidFormat => "invalid_format"@,
            Code::UnknownField => "unknown_field"@,
            Code::UnknownVariant => "unknown_variant"@,
            Code::DepthExceeded => "depth_exceeded"@,
            Code::SizeExceeded => "size_exceeded"@,
            Code::UnknownType => "unknown_type"@,
        }
}

impl Code {
    pub fn as_str(self) -> (r: &'static str)
        ensures
            r@ == code_name(self),
    {
        match self {
            Code::Required => "required",
            Code::NullNotAllowed => "null_not_allowed",
            Code::TypeMismatch => "type_mismatch",
            Code::OutOfRange => "out_of_range",
            Code::UnsafeInteger => "unsafe_integer",
            Code::IntegerTooWide => "integer_too_wide",
            Code::NotFinite => "not_finite",
            Code::TooShort => "too_short",
            Code::TooLong => "too_long",
            Code::TooFewItems => "too_few_items",
            Code::TooManyItems => "too_many_items",
            Code::NotInEnum => "not_in_enum",
            Code::InvalidDate => "invalid_date",
            Code::InvalidDateTime => "invalid_datetime",
            Code::MissingTimezone => "missing_timezone",
            Code::InvalidFormat => "invalid_format",
            Code::UnknownField => "unknown_field",
            Code::UnknownVariant => "unknown_variant",
            Code::DepthExceeded => "depth_exceeded",
            Code::SizeExceeded => "size_exceeded",
            Code::UnknownType => "unknown_type",
        }
    }
}

/// One failure, at one place in the payload.
#[derive(Debug, Clone, PartialEq)]
pub struct Issue {
    pub path: Path,
    pub code: Code,
    pub message: String,
}

/// Every failure from one pass. Validation does not stop at the first.
#[derive(Debug, Clone, PartialEq)]
pub struct ValidationError {
    pub issues: Vec<Issue>,
}

impl ValidationError {
    pub fn is_empty(&self) -> (r: bool)
        ensures
            r == (self.issues@.len() == 0),
    {
        self.issues.len() == 0
    }
}

/// A segment on its own: a key as it is, an index in brackets.
pub open spec fn segment_text(s: SpecSegment) -> Seq<char> {
    match s {
        SpecSegment::Key(k) => k,
        SpecSegment::Index(i) => seq!['['] + decimal(i) + seq![']'],
    }
}

impl Segment {
    /// The segment as a message writes it.
    pub fn describe(&self) -> (r: String)
        ensures
            r@ == segment_text(self.view()),
    {
        match self {
            Segment::Key(k) => k.clone(),
            Segment::Index(i) => {
                let mut out = String::new();
                push_char(&mut out, '[');
                push_decimal(&mut out, *i as u128);
                push_char(&mut out, ']');
                assert(out@ =~= seq!['['] + decimal(*i as nat) + seq![']']);
                out
            },
        }
    }
}

/// One issue as a person reads it: `path: message (code)`.
pub open spec fn issue_text(i: Issue) -> Seq<char> {
    render_path(i.path.view()) + ": "@ + i.message@ + " ("@ + code_name(i.code) + ")"@
}

/// The lines after the count in [`error_text`], one per issue.
pub open spec fn issue_lines(issues: Seq<Issue>) -> Seq<char>
    decreases issues.len(),
{
    if issues.len() == 0 {
        Seq::empty()
    } else {
        issue_lines(issues.drop_last()) + "\n  - "@ + issue_text(issues.last())
    }
}

/// Every issue of a failed pass: the one issue alone, or a count and a list.
pub open spec fn error_text(issues: Seq<Issue>) -> Seq<char> {
    if issues.len() == 0 {
        "validation failed with no issues recorded"@
    } else if issues.len() == 1 {
        issue_text(issues[0])
    } else {
        decimal(issues.len()) + " validation issues:"@ + issue_lines(issues)
    }
}

/// The first issue, and how many others there are.
pub open spec fn summary_text(issues: Seq<Issue>) -> Seq<char> {
    if issues.len() == 0 {
        "validation failed"@
    } else if issues.len() == 1 {
        issue_text(issues[0])
    } else {
        issue_text(issues[0]) + ", and "@ + decimal((issues.len() - 1) as nat) + " more"@
    }
}

impl Issue {
    /// `path: message (code)`.
    pub fn describe(&self) -> (r: String)
        ensures
            r@ == issue_text(*self),
    {
        let mut out = self.path.render();
        out.append(": ");
        out.append(self.message.as_str());
        out.append(" (");
        out.append(self.code.as_str());
        out.append(")");
        assert(out@ =~= issue_text(*self));
        out
    }
}

impl ValidationError {
    /// Every issue, for a log line or an exception's text.
    pub fn describe(&self) -> (r: String)
        ensures
            r@ == error_text(self.issues@),
    {
        let n = self.issues.len();
        if n == 0 {
            return String::from_str("validation failed with no issues recorded");
        }
        if n == 1 {
            return self.issues[0].describe();
        }
        let mut out = String::new();
        push_decimal(&mut out, n as u128);
        out.append(" validation issues:");
        let ghost head = out@;
        let mut i: usize = 0;
        while i < n
            invariant
                n == self.issues@.len(),
                i <= n,
                out@ == head + issue_lines(self.issues@.take(i as int)),
            decreases n - i,
        {
            let line = self.issues[i].describe();
            out.append("\n  - ");
            out.append(line.as_str());
            assert(self.issues@.take(i + 1).drop_last() =~= self.issues@.take(i as int));
            i = i + 1;
        }
        assert(self.issues@.take(n as int) =~= self.issues@);
        assert(out@ =~= error_text(self.issues@));
        out
    }

    /// The first issue and a count of the rest: short enough for an
    /// exception's one-line message.
    pub fn summary(&self) -> (r: String)
        ensures
            r@ == summary_text(self.issues@),
    {
        let n = self.issues.len();
        if n == 0 {
            return String::from_str("validation failed");
        }
        let mut out = self.issues[0].describe();
        if n > 1 {
            out.append(", and ");
            push_decimal(&mut out, (n - 1) as u128);
            out.append(" more");
            assert(out@ =~= summary_text(self.issues@));
        }
        out
    }
}

/// One step of rendering: the text so far, followed by one more segment.
pub open spec fn render_step(so_far: Seq<char>, seg: SpecSegment) -> Seq<char> {
    match seg {
        SpecSegment::Key(k) => if so_far.len() == 0 {
            k
        } else {
            so_far.push('.') + k
        },
        SpecSegment::Index(i) => so_far.push('[') + decimal(i) + seq![']'],
    }
}

/// A path renders as its segments folded in, first to last, from the empty
/// text: a key is appended after a `.` unless nothing has been written yet,
/// an index as `[i]`; the root alone renders as `<root>`.
pub proof fn law_a_path_renders_segment_by_segment(segs: Seq<SpecSegment>)
    ensures
        render_body(segs) == segs.fold_left(Seq::<char>::empty(), |r: Seq<char>, s: SpecSegment| render_step(r, s)),
        render_body(segs) == segs.fold_left_alt(Seq::<char>::empty(), |r: Seq<char>, s: SpecSegment| render_step(r, s)),
        render_path(segs) == if render_body(segs).len() == 0 {
            seq!['<', 'r', 'o', 'o', 't', '>']
        } else {
            render_body(segs)
        },
    decreases segs.len(),
{
    let f = |r: Seq<char>, s: SpecSegment| render_step(r, s);
    if segs.len() > 0 {
        law_a_path_renders_segment_by_segment(segs.drop_last());
    }
    segs.lemma_fold_left_alt(Seq::<char>::empty(), f);
}

} // verus!
