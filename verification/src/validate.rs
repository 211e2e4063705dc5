//! One walk over a payload, reporting every issue rather than the first.

use vstd::prelude::*;

use crate::datetime::{date_verdict, datetime_verdict};
use crate::error::{segments_view, Code, Issue, Path, Segment, SpecSegment, ValidationError};
use crate::limits::MAX_DEPTH;
use crate::message;
use crate::text::{key_lt, str_eq};
use crate::format::{format_name, format_ok};
use crate::limits::Limits;
use crate::schema::{
    int_range, int_type_name, variant_tags, IntType, ObjectType, Presence, Rule, Schema, Type,
    UnionType, Variant,
};
use crate::message::{
    join, msg_bytes, msg_depth, msg_invalid, msg_items, msg_keys, msg_mismatch,
    msg_missing_timezone, msg_not_finite, msg_not_one_of, msg_null, msg_null_item,
    msg_out_of_range, msg_required, msg_rule_range, msg_too_few, msg_too_long, msg_too_many,
    msg_too_short, msg_too_wide, msg_unknown_field, msg_unknown_type, msg_unsafe, strings_view,
};
use crate::value::{
    entries_view, find_entry, Entry, find_key, int_value, lemma_array_view, lemma_object_view, slot_of,
    keys_sorted, lemma_find_key, lemma_first_index, spec_kind, Int, Slot, SpecValue, Value,
};
use crate::datetime::{validate_date, validate_datetime};
use vstd::utf8::encode_utf8;

verus! {

/// An issue as the contracts speak of it.
pub struct SpecIssue {
    pub path: Seq<SpecSegment>,
    pub code: Code,
    pub message: Seq<char>,
}

pub open spec fn issue(path: Seq<SpecSegment>, code: Code, message: Seq<char>) -> Seq<SpecIssue> {
    seq![SpecIssue { path, code, message }]
}

// --------------------------------------------------------------- verdict

/// The issues a temporal string raises, given the verdict of its checker.
pub open spec fn temporal_issues(
    verdict: Result<(), Code>,
    s: Seq<char>,
    expected: Seq<char>,
    path: Seq<SpecSegment>,
) -> Seq<SpecIssue> {
    match verdict {
        Ok(()) => Seq::empty(),
        Err(Code::MissingTimezone) => issue(path, Code::MissingTimezone, msg_missing_timezone(s)),
        Err(code) => issue(path, code, msg_invalid(s, expected)),
    }
}

/// The issues a field's rules raise against a present value. A rule that does
/// not apply to the value's kind is silent: the type check already spoke.
pub open spec fn rules_issues(rules: Seq<Rule>, v: SpecValue, path: Seq<SpecSegment>) -> Seq<SpecIssue>
    decreases rules.len(),
{
    if rules.len() == 0 {
        Seq::empty()
    } else {
        rules_issues(rules.drop_last(), v, path) + match (rules.last(), v) {
            (Rule::MinLen(n), SpecValue::Str(s)) => if s.len() < n {
                issue(path, Code::TooShort, msg_too_short(s.len(), n as nat))
            } else {
                Seq::empty()
            },
            (Rule::MaxLen(n), SpecValue::Str(s)) => if s.len() > n {
                issue(path, Code::TooLong, msg_too_long(s.len(), n as nat))
            } else {
                Seq::empty()
            },
            (Rule::Range { min, max }, SpecValue::Int(n)) => if int_value(n) < min || int_value(n)
                > max {
                issue(path, Code::OutOfRange, msg_rule_range(int_value(n), min as int, max as int))
            } else {
                Seq::empty()
            },
            (Rule::MinItems(n), SpecValue::Array(items)) => if items.len() < n {
                issue(path, Code::TooFewItems, msg_too_few(items.len(), n as nat))
            } else {
                Seq::empty()
            },
            (Rule::MaxItems(n), SpecValue::Array(items)) => if items.len() > n {
                issue(path, Code::TooManyItems, msg_too_many(items.len(), n as nat))
            } else {
                Seq::empty()
            },
            (Rule::Format(f), SpecValue::Str(s)) => if !format_ok(f, encode_utf8(s)) {
                issue(path, Code::InvalidFormat, msg_invalid(s, format_name(f)))
            } else {
                Seq::empty()
            },
            _ => Seq::empty(),
        }
    }
}

/// The keys an object carries that its type does not declare, in key order.
/// The tag of the union that chose the type is not one of them.
pub open spec fn unknown_issues(
    ty: ObjectType,
    e: Seq<(Seq<char>, SpecValue)>,
    path: Seq<SpecSegment>,
    tag: Option<Seq<char>>,
) -> Seq<SpecIssue>
    decreases e.len(),
{
    if e.len() == 0 {
        Seq::empty()
    } else {
        let k = e.last().0;
        unknown_issues(ty, e.drop_last(), path, tag) + if ty.field_spec(k) is None && tag != Some(k) {
            issue(path.push(SpecSegment::Key(k)), Code::UnknownField, msg_unknown_field(ty.name@, k))
        } else {
            Seq::empty()
        }
    }
}

/// The issues an integer raises against a declared integer type.
pub open spec fn int_issues(t: IntType, v: SpecValue, path: Seq<SpecSegment>) -> Seq<SpecIssue> {
    match v {
        SpecValue::Int(n) => if int_value(n) < int_range(t).0 || int_value(n) > int_range(t).1 {
            issue(path, Code::OutOfRange, msg_out_of_range(int_value(n), t))
        } else {
            Seq::empty()
        },
        _ => issue(path, Code::TypeMismatch, msg_mismatch(int_type_name(t), spec_kind(v))),
    }
}

/// The name a temporal type goes by in messages.
pub open spec fn temporal_name(with_time: bool) -> Seq<char> {
    if with_time {
        "datetime"@
    } else {
        "date"@
    }
}

/// The issues of a value declared `Date` (or `DateTime`, with `with_time`).
pub open spec fn date_issues(with_time: bool, v: SpecValue, path: Seq<SpecSegment>) -> Seq<SpecIssue> {
    match v {
        SpecValue::Str(s) => temporal_issues(
            if with_time {
                datetime_verdict(encode_utf8(s))
            } else {
                date_verdict(encode_utf8(s))
            },
            s,
            temporal_name(with_time),
            path,
        ),
        _ => issue(path, Code::TypeMismatch, msg_mismatch(temporal_name(with_time), spec_kind(v))),
    }
}

/// The issues of a value declared as an enum of the `allowed` strings.
pub open spec fn enum_issues(allowed: Seq<Seq<char>>, v: SpecValue, path: Seq<SpecSegment>) -> Seq<SpecIssue> {
    match v {
        SpecValue::Str(s) => if allowed.contains(s) {
            Seq::empty()
        } else {
            issue(path, Code::NotInEnum, msg_not_one_of(s, allowed))
        },
        _ => issue(path, Code::TypeMismatch, msg_mismatch("string"@, spec_kind(v))),
    }
}

/// The issues a value raises against a declared type, at `path`, `depth`
/// levels down. Size and integers the model could not hold are judged before
/// the type: they apply whatever was declared.
pub open spec fn value_issues(
    schema: Schema,
    lim: Limits,
    ty: Type,
    v: SpecValue,
    path: Seq<SpecSegment>,
    depth: nat,
) -> Seq<SpecIssue>
    decreases v, 5nat, 0nat,
{
    if v is Str && encode_utf8(v->Str_0).len() > lim.max_string_bytes {
        issue(path, Code::SizeExceeded, msg_bytes(encode_utf8(v->Str_0).len(), lim.max_string_bytes as nat))
    } else if v is IntTooWide {
        issue(path, Code::IntegerTooWide, msg_too_wide())
    } else if v is UnsafeInt {
        issue(path, Code::UnsafeInteger, msg_unsafe())
    } else {
        type_issues(schema, lim, ty, v, path, depth)
    }
}

/// The issues of a value against its declared type, once size is settled.
pub open spec fn type_issues(
    schema: Schema,
    lim: Limits,
    ty: Type,
    v: SpecValue,
    path: Seq<SpecSegment>,
    depth: nat,
) -> Seq<SpecIssue>
    decreases v, 4nat, 0nat,
{
    match ty {
        Type::Bool => if v is Bool {
            Seq::empty()
        } else {
            issue(path, Code::TypeMismatch, msg_mismatch("bool"@, spec_kind(v)))
        },
        Type::Float => match v {
            SpecValue::Float(_, finite) => if finite {
                Seq::empty()
            } else {
                issue(path, Code::NotFinite, msg_not_finite())
            },
            // An integer is an acceptable float; the reverse is not.
            SpecValue::Int(_) => Seq::empty(),
            _ => issue(path, Code::TypeMismatch, msg_mismatch("float"@, spec_kind(v))),
        },
        Type::String => if v is Str {
            Seq::empty()
        } else {
            issue(path, Code::TypeMismatch, msg_mismatch("string"@, spec_kind(v)))
        },
        Type::Int(t) => int_issues(t, v, path),
        Type::Date => date_issues(false, v, path),
        Type::DateTime => date_issues(true, v, path),
        Type::Enum(allowed) => enum_issues(strings_view(allowed@), v, path),
        Type::Array { item, item_nullable } => array_issues(
            schema,
            lim,
            *item,
            item_nullable,
            v,
            path,
            depth,
        ),
        Type::Object(obj) => object_issues(schema, lim, *obj, v, path, depth, None),
        Type::Ref(name) => match schema.object_spec(name@) {
            Some(obj) => object_issues(schema, lim, obj, v, path, depth, None),
            None => match schema.union_spec(name@) {
                Some(u) => union_issues(schema, lim, u, v, path, depth),
                None => issue(path, Code::UnknownType, msg_unknown_type(name@)),
            },
        },
    }
}

/// The issues of an object against an object type. `tag` is the key of the
/// union that chose this type, which the object may carry undeclared.
pub open spec fn object_issues(
    schema: Schema,
    lim: Limits,
    ty: ObjectType,
    v: SpecValue,
    path: Seq<SpecSegment>,
    depth: nat,
    tag: Option<Seq<char>>,
) -> Seq<SpecIssue>
    decreases v, 2nat, 0nat,
{
    if depth > lim.max_depth {
        issue(path, Code::DepthExceeded, msg_depth(lim.max_depth as nat))
    } else {
        match v {
            SpecValue::Object(e) => if e.len() > lim.max_object_keys {
                issue(path, Code::SizeExceeded, msg_keys(e.len(), lim.max_object_keys as nat))
            } else {
                fields_issues(schema, lim, ty, v, path, depth, ty.fields@.len()) + if ty.deny_unknown_fields {
                    unknown_issues(ty, e, path, tag)
                } else {
                    Seq::empty()
                }
            },
            _ => issue(path, Code::TypeMismatch, msg_mismatch("object"@, spec_kind(v))),
        }
    }
}

/// The issues of the declared field at index `m` alone, all under its key.
pub open spec fn field_own(
    schema: Schema,
    lim: Limits,
    ty: ObjectType,
    v: SpecValue,
    path: Seq<SpecSegment>,
    depth: nat,
    m: nat,
) -> Seq<SpecIssue> {
    fields_issues(schema, lim, ty, v, path, depth, m + 1).skip(
        fields_issues(schema, lim, ty, v, path, depth, m).len() as int,
    )
}

/// The issues of the first `k` declared fields of an object, in declaration order.
pub open spec fn fields_issues(
    schema: Schema,
    lim: Limits,
    ty: ObjectType,
    v: SpecValue,
    path: Seq<SpecSegment>,
    depth: nat,
    k: nat,
) -> Seq<SpecIssue>
    decreases v, 1nat, k,
{
    if k == 0 || !(v is Object) || k > ty.fields@.len() {
        Seq::empty()
    } else {
        let f = ty.fields@[k - 1];
        let e = v->Object_0;
        let p = path.push(SpecSegment::Key(f.name@));
        fields_issues(schema, lim, ty, v, path, depth, (k - 1) as nat) + match find_key(e, f.name@) {
            None => if f.presence.optional {
                Seq::empty()
            } else {
                issue(p, Code::Required, msg_required(f.presence))
            },
            Some(i) => if !(0 <= i < e.len()) {
                Seq::empty()
            } else if e[i].1 is Null {
                if f.presence.nullable {
                    Seq::empty()
                } else {
                    issue(p, Code::NullNotAllowed, msg_null(f.presence))
                }
            } else {
                value_issues(schema, lim, f.ty, e[i].1, p, depth + 1) + rules_issues(
                    f.rules@,
                    e[i].1,
                    p,
                )
            },
        }
    }
}

/// The issues of an array against its element type.
pub open spec fn array_issues(
    schema: Schema,
    lim: Limits,
    item: Type,
    item_nullable: bool,
    v: SpecValue,
    path: Seq<SpecSegment>,
    depth: nat,
) -> Seq<SpecIssue>
    decreases v, 2nat, 0nat,
{
    if depth > lim.max_depth {
        issue(path, Code::DepthExceeded, msg_depth(lim.max_depth as nat))
    } else {
        match v {
            SpecValue::Array(items) => if items.len() > lim.max_items {
                issue(path, Code::SizeExceeded, msg_items(items.len(), lim.max_items as nat))
            } else {
                items_issues(schema, lim, item, item_nullable, v, path, depth, items.len())
            },
            _ => issue(path, Code::TypeMismatch, msg_mismatch("array"@, spec_kind(v))),
        }
    }
}

/// The issues of the first `k` elements of an array, each at its own index.
pub open spec fn items_issues(
    schema: Schema,
    lim: Limits,
    item: Type,
    item_nullable: bool,
    v: SpecValue,
    path: Seq<SpecSegment>,
    depth: nat,
    k: nat,
) -> Seq<SpecIssue>
    decreases v, 1nat, k,
{
    if k == 0 || !(v is Array) || k > v->Array_0.len() {
        Seq::empty()
    } else {
        let x = v->Array_0[k - 1];
        let p = path.push(SpecSegment::Index((k - 1) as nat));
        items_issues(schema, lim, item, item_nullable, v, path, depth, (k - 1) as nat) + if x is Null {
            if item_nullable {
                Seq::empty()
            } else {
                issue(p, Code::NullNotAllowed, msg_null_item())
            }
        } else {
            value_issues(schema, lim, item, x, p, depth + 1)
        }
    }
}

/// The issues of a value against a tagged union: the tag decides the
/// variant, and an unknown tag is the only issue reported.
pub open spec fn union_issues(
    schema: Schema,
    lim: Limits,
    u: UnionType,
    v: SpecValue,
    path: Seq<SpecSegment>,
    depth: nat,
) -> Seq<SpecIssue>
    decreases v, 3nat, 0nat,
{
    if depth > lim.max_depth {
        issue(path, Code::DepthExceeded, msg_depth(lim.max_depth as nat))
    } else {
        match v {
            SpecValue::Object(e) => {
                let tp = path.push(SpecSegment::Key(u.tag@));
                match slot_of(e, u.tag@) {
                    Slot::Absent => issue(tp, Code::Required, msg_required(Presence { optional: false, nullable: false })),
                    Slot::Null => issue(tp, Code::NullNotAllowed, msg_null(Presence { optional: false, nullable: false })),
                    Slot::Present(SpecValue::Str(t)) => match u.variant_spec(t) {
                        None => issue(
                            tp,
                            Code::UnknownVariant,
                            msg_not_one_of(t, crate::schema::variant_tags(u.variants@)),
                        ),
                        Some(var) => match schema.object_spec(var.schema_name@) {
                            Some(obj) => object_issues(schema, lim, obj, v, path, depth, Some(u.tag@)),
                            None => issue(path, Code::UnknownType, msg_unknown_type(var.schema_name@)),
                        },
                    },
                    Slot::Present(other) => issue(tp, Code::TypeMismatch, msg_mismatch("string"@, spec_kind(other))),
                }
            },
            _ => issue(path, Code::TypeMismatch, msg_mismatch("object"@, spec_kind(v))),
        }
    }
}

/// Every issue a payload raises against the type named `name`, in the
/// documented order: fields in declaration order, then unknown keys in sorted
/// order, depth first. Depth is held under the engine's ceiling.
pub open spec fn validation_issues(schema: Schema, name: Seq<char>, v: SpecValue, limits: Limits) -> Seq<SpecIssue> {
    let lim = Limits {
        max_depth: if limits.max_depth > crate::limits::MAX_DEPTH { crate::limits::MAX_DEPTH } else { limits.max_depth },
        ..limits
    };
    match schema.object_spec(name) {
        Some(obj) => object_issues(schema, lim, obj, v, Seq::empty(), 0, None),
        None => match schema.union_spec(name) {
            Some(u) => union_issues(schema, lim, u, v, Seq::empty(), 0),
            None => issue(Seq::empty(), Code::UnknownType, msg_unknown_type(name)),
        },
    }
}


// ------------------------------------------------------------ the walk

pub open spec fn issue_view(i: Issue) -> SpecIssue {
    SpecIssue { path: i.path.view(), code: i.code, message: i.message@ }
}

pub open spec fn issues_view(s: Seq<Issue>) -> Seq<SpecIssue> {
    Seq::new(s.len(), |i: int| issue_view(s[i]))
}

/// A path, owned separately.
fn copy_path(p: &Vec<Segment>) -> (r: Vec<Segment>)
    ensures
        segments_view(r@) == segments_view(p@),
{
    let mut out: Vec<Segment> = Vec::new();
    let n = p.len();
    let mut i: usize = 0;
    while i < n
        invariant
            n == p@.len(),
            i <= n,
            out@.len() == i,
            forall|j: int| 0 <= j < i ==> (#[trigger] out@[j]).view() == p@[j].view(),
        decreases n - i,
    {
        out.push(p[i].duplicate());
        i = i + 1;
    }
    assert(segments_view(out@) =~= segments_view(p@));
    out
}

struct Validator<'a> {
    schema: &'a Schema,
    limits: Limits,
    path: Vec<Segment>,
    issues: Vec<Issue>,
}

impl<'a> Validator<'a> {
    spec fn ok(&self) -> bool {
        self.limits.max_depth <= MAX_DEPTH
    }

    spec fn here(&self) -> Seq<SpecSegment> {
        segments_view(self.path@)
    }

    spec fn found(&self) -> Seq<SpecIssue> {
        issues_view(self.issues@)
    }

    /// Only the issues changed between the two.
    spec fn same_frame(&self, other: &Self) -> bool {
        &&& self.schema == other.schema
        &&& self.limits == other.limits
        &&& self.path@ == other.path@
    }

    fn push(&mut self, code: Code, message: String)
        ensures
            final(self).same_frame(old(self)),
            final(self).found() == old(self).found() + issue(old(self).here(), code, message@),
    {
        let path = Path(copy_path(&self.path));
        self.issues.push(Issue { path, code, message });
        assert(final(self).found() =~= old(self).found() + issue(old(self).here(), code, message@));
    }

    fn enter(&mut self, seg: Segment)
        ensures
            final(self).schema == old(self).schema,
            final(self).limits == old(self).limits,
            final(self).issues@ == old(self).issues@,
            final(self).path@ == old(self).path@.push(seg),
            final(self).here() == old(self).here().push(seg.view()),
    {
        self.path.push(seg);
        assert(final(self).here() =~= old(self).here().push(seg.view()));
    }

    fn leave(&mut self)
        requires
            old(self).path@.len() > 0,
        ensures
            final(self).schema == old(self).schema,
            final(self).limits == old(self).limits,
            final(self).issues@ == old(self).issues@,
            final(self).path@ == old(self).path@.drop_last(),
    {
        self.path.pop();
    }

    fn rules(&mut self, rules: &Vec<Rule>, value: &Value)
        ensures
            final(self).same_frame(old(self)),
            final(self).found() == old(self).found() + rules_issues(
                rules@,
                value.view(),
                old(self).here(),
            ),
    {
        let ghost schema0 = self.schema;
        let ghost lim0 = self.limits;
        let ghost path0 = self.path@;
        let ghost found0 = self.found();
        let ghost here = self.here();
        let ghost v = value.view();
        let n = rules.len();
        let mut k: usize = 0;
        while k < n
            invariant
                n == rules@.len(),
                k <= n,
                self.schema == schema0,
                self.limits == lim0,
                self.path@ == path0,
                here == segments_view(path0),
                v == value.view(),
                self.found() == found0 + rules_issues(rules@.take(k as int), v, here),
            decreases n - k,
        {
            assert(rules@.take(k + 1).drop_last() =~= rules@.take(k as int));
            assert(rules@.take(k + 1).last() == rules@[k as int]);
            match &rules[k] {
                Rule::MinLen(min) => {
                    if let Value::String(s) = value {
                        let len = s.as_str().unicode_len();
                        if len < *min {
                            self.push(Code::TooShort, message::too_short(len, *min));
                        }
                    }
                },
                Rule::MaxLen(max) => {
                    if let Value::String(s) = value {
                        let len = s.as_str().unicode_len();
                        if len > *max {
                            self.push(Code::TooLong, message::too_long(len, *max));
                        }
                    }
                },
                Rule::Range { min, max } => {
                    if let Value::Int(n) = value {
                        let x = n.as_i128();
                        if x < *min || x > *max {
                            self.push(Code::OutOfRange, message::rule_range(x, *min, *max));
                        }
                    }
                },
                Rule::MinItems(min) => {
                    if let Value::Array(items) = value {
                        proof {
                            lemma_array_view(*value);
                        }
                        if items.len() < *min {
                            self.push(Code::TooFewItems, message::too_few(items.len(), *min));
                        }
                    }
                },
                Rule::MaxItems(max) => {
                    if let Value::Array(items) = value {
                        proof {
                            lemma_array_view(*value);
                        }
                        if items.len() > *max {
                            self.push(Code::TooManyItems, message::too_many(items.len(), *max));
                        }
                    }
                },
                Rule::Format(f) => {
                    if let Value::String(s) = value {
                        if !f.matches(s.as_str()) {
                            self.push(Code::InvalidFormat, message::invalid(s.as_str(), f.name()));
                        }
                    }
                },
            }
            k = k + 1;
        }
        assert(rules@.take(n as int) =~= rules@);
    }

    fn integer(&mut self, t: IntType, value: &Value)
        ensures
            final(self).same_frame(old(self)),
            final(self).found() == old(self).found() + int_issues(t, value.view(), old(self).here()),
    {
        match value {
            Value::Int(n) => {
                let (min, max) = t.range();
                let x = n.as_i128();
                if x < min || x > max {
                    self.push(Code::OutOfRange, message::out_of_range(x, t));
                }
            },
            _ => self.push(Code::TypeMismatch, message::mismatch(t.name(), value.kind())),
        }
    }

    fn temporal(&mut self, with_time: bool, value: &Value)
        ensures
            final(self).same_frame(old(self)),
            final(self).found() == old(self).found() + date_issues(
                with_time,
                value.view(),
                old(self).here(),
            ),
    {
        let expected = if with_time {
            "datetime"
        } else {
            "date"
        };
        assert(expected@ == temporal_name(with_time));
        match value {
            Value::String(s) => {
                let verdict = if with_time {
                    validate_datetime(s.as_str())
                } else {
                    validate_date(s.as_str())
                };
                match verdict {
                    Ok(()) => {},
                    Err(Code::MissingTimezone) => {
                        self.push(Code::MissingTimezone, message::missing_timezone(s.as_str()));
                    },
                    Err(code) => {
                        self.push(code, message::invalid(s.as_str(), expected));
                    },
                }
            },
            _ => self.push(Code::TypeMismatch, message::mismatch(expected, value.kind())),
        }
    }

    fn enumeration(&mut self, allowed: &Vec<String>, value: &Value)
        ensures
            final(self).same_frame(old(self)),
            final(self).found() == old(self).found() + enum_issues(
                strings_view(allowed@),
                value.view(),
                old(self).here(),
            ),
    {
        match value {
            Value::String(s) => {
                let ghost all = strings_view(allowed@);
                let n = allowed.len();
                let mut i: usize = 0;
                let mut hit = false;
                while i < n
                    invariant
                        n == allowed@.len(),
                        all == strings_view(allowed@),
                        i <= n,
                        hit ==> all.contains(s@),
                        !hit ==> forall|j: int| 0 <= j < i ==> all[j] != s@,
                    decreases n - i,
                {
                    if str_eq(allowed[i].as_str(), s.as_str()) {
                        assert(all[i as int] == s@);
                        hit = true;
                    }
                    i = i + 1;
                }
                if !hit {
                    self.push(Code::NotInEnum, message::not_one_of(s.as_str(), allowed));
                }
            },
            _ => self.push(Code::TypeMismatch, message::mismatch("string", value.kind())),
        }
    }
    /// The keys an object carries that its type does not declare.
    fn unknown(&mut self, ty: &ObjectType, entries: &Vec<Entry>, tag: Option<&str>)
        ensures
            final(self).same_frame(old(self)),
            final(self).found() == old(self).found() + unknown_issues(
                *ty,
                entries_view(entries@),
                old(self).here(),
                tag_view(tag),
            ),
    {
        let ghost schema0 = self.schema;
        let ghost lim0 = self.limits;
        let ghost path0 = self.path@;
        let ghost found0 = self.found();
        let ghost here = self.here();
        let ghost e = entries_view(entries@);
        let n = entries.len();
        let mut j: usize = 0;
        while j < n
            invariant
                n == entries@.len(),
                j <= n,
                self.schema == schema0,
                self.limits == lim0,
                self.path@ == path0,
                here == segments_view(path0),
                e == entries_view(entries@),
                self.found() == found0 + unknown_issues(*ty, e.take(j as int), here, tag_view(tag)),
            decreases n - j,
        {
            assert(e.take(j + 1).drop_last() =~= e.take(j as int));
            assert(e.take(j + 1).last().0 == entries@[j as int].key@);
            let key = entries[j].key.as_str();
            let is_tag = match tag {
                Some(t) => str_eq(t, key),
                None => false,
            };
            if ty.field(key).is_none() && !is_tag {
                self.enter(Segment::Key(entries[j].key.clone()));
                self.push(Code::UnknownField, message::unknown_field(ty.name.as_str(), key));
                self.leave();
                assert(self.path@ =~= path0);
            }
            j = j + 1;
        }
        assert(e.take(n as int) =~= e);
    }

    fn value(&mut self, ty: &Type, value: &Value, depth: usize)
        requires
            old(self).ok(),
            depth <= old(self).limits.max_depth + 1,
        ensures
            final(self).same_frame(old(self)),
            final(self).found() == old(self).found() + value_issues(
                *old(self).schema,
                old(self).limits,
                *ty,
                value.view(),
                old(self).here(),
                depth as nat,
            ),
        decreases value, 5nat,
    {
        if let Value::String(s) = value {
            let len = s.as_str().as_bytes().len();
            assert(value.view() == SpecValue::Str(s@));
            assert(len == encode_utf8(s@).len());
            if len > self.limits.max_string_bytes {
                self.push(Code::SizeExceeded, message::bytes(len, self.limits.max_string_bytes));
                return;
            }
        }
        match value {
            Value::IntTooWide => {
                self.push(Code::IntegerTooWide, message::too_wide());
                return;
            },
            Value::UnsafeInt => {
                self.push(Code::UnsafeInteger, message::inexact());
                return;
            },
            _ => {},
        }
        assert(!(value.view() is IntTooWide) && !(value.view() is UnsafeInt));
        self.typed(ty, value, depth);
    }

    fn typed(&mut self, ty: &Type, value: &Value, depth: usize)
        requires
            old(self).ok(),
            depth <= old(self).limits.max_depth + 1,
        ensures
            final(self).same_frame(old(self)),
            final(self).found() == old(self).found() + type_issues(
                *old(self).schema,
                old(self).limits,
                *ty,
                value.view(),
                old(self).here(),
                depth as nat,
            ),
        decreases value, 4nat,
    {
        let schema = self.schema;
        match ty {
            Type::Bool => {
                if !matches!(value, Value::Bool(_)) {
                    self.push(Code::TypeMismatch, message::mismatch("bool", value.kind()));
                }
            },
            Type::Float => match value {
                Value::Float(f) => {
                    if !f.finite {
                        self.push(Code::NotFinite, message::not_finite());
                    }
                },
                Value::Int(_) => {},
                _ => self.push(Code::TypeMismatch, message::mismatch("float", value.kind())),
            },
            Type::String => {
                if !matches!(value, Value::String(_)) {
                    self.push(Code::TypeMismatch, message::mismatch("string", value.kind()));
                }
            },
            Type::Int(t) => self.integer(*t, value),
            Type::Date => self.temporal(false, value),
            Type::DateTime => self.temporal(true, value),
            Type::Enum(allowed) => self.enumeration(allowed, value),
            Type::Array { item, item_nullable } => self.array(item, *item_nullable, value, depth),
            Type::Object(obj) => self.object(obj, value, depth, None),
            Type::Ref(name) => match schema.get(name.as_str()) {
                Some(obj) => self.object(obj, value, depth, None),
                None => match schema.union(name.as_str()) {
                    Some(u) => self.union(u, value, depth),
                    None => self.push(Code::UnknownType, message::unknown_type(name.as_str())),
                },
            },
        }
    }

    fn object(&mut self, ty: &ObjectType, value: &Value, depth: usize, tag: Option<&str>)
        requires
            old(self).ok(),
            depth <= old(self).limits.max_depth + 1,
        ensures
            final(self).same_frame(old(self)),
            final(self).found() == old(self).found() + object_issues(
                *old(self).schema,
                old(self).limits,
                *ty,
                value.view(),
                old(self).here(),
                depth as nat,
                tag_view(tag),
            ),
        decreases value, 2nat,
    {
        if depth > self.limits.max_depth {
            self.push(Code::DepthExceeded, message::depth(self.limits.max_depth));
            return;
        }
        let entries = match value {
            Value::Object(e) => e,
            _ => {
                self.push(Code::TypeMismatch, message::mismatch("object", value.kind()));
                return;
            },
        };
        proof {
            lemma_object_view(*value);
        }
        if entries.len() > self.limits.max_object_keys {
            self.push(Code::SizeExceeded, message::keys(entries.len(), self.limits.max_object_keys));
            return;
        }
        let ghost schema0 = self.schema;
        let ghost lim0 = self.limits;
        let ghost path0 = self.path@;
        let ghost found0 = self.found();
        let ghost here = self.here();
        let ghost v = value.view();
        let n = ty.fields.len();
        let mut k: usize = 0;
        while k < n
            invariant
                n == ty.fields@.len(),
                k <= n,
                self.schema == schema0,
                self.limits == lim0,
                lim0.max_depth <= MAX_DEPTH,
                depth <= lim0.max_depth,
                self.path@ == path0,
                here == segments_view(path0),
                v == value.view(),
                v == SpecValue::Object(entries_view(entries@)),
                decreases_to!(*value => *entries),
                self.found() == found0 + fields_issues(*schema0, lim0, *ty, v, here, depth as nat, k as nat),
            decreases n - k,
        {
            let field = &ty.fields[k];
            self.enter(Segment::Key(field.name.clone()));
            match find_entry(entries, field.name.as_str()) {
                None => {
                    if !field.presence.optional {
                        self.push(Code::Required, message::required_message(field.presence));
                    }
                },
                Some(i) => {
                    let x = &entries[i].value;
                    proof {
                        assert(decreases_to!(*entries => entries@));
                        assert(decreases_to!(entries@ => entries@[i as int]));
                        assert(decreases_to!(entries@[i as int] => entries@[i as int].value));
                    }
                    match x {
                        Value::Null => {
                            if !field.presence.nullable {
                                self.push(Code::NullNotAllowed, message::null_message(field.presence));
                            }
                        },
                        _ => {
                            self.value(&field.ty, x, depth + 1);
                            self.rules(&field.rules, x);
                        },
                    }
                },
            }
            self.leave();
            assert(self.path@ =~= path0);
            k = k + 1;
        }
        if ty.deny_unknown_fields {
            self.unknown(ty, entries, tag);
        }
    }

    fn array(&mut self, item: &Type, item_nullable: bool, value: &Value, depth: usize)
        requires
            old(self).ok(),
            depth <= old(self).limits.max_depth + 1,
        ensures
            final(self).same_frame(old(self)),
            final(self).found() == old(self).found() + array_issues(
                *old(self).schema,
                old(self).limits,
                *item,
                item_nullable,
                value.view(),
                old(self).here(),
                depth as nat,
            ),
        decreases value, 2nat,
    {
        if depth > self.limits.max_depth {
            self.push(Code::DepthExceeded, message::depth(self.limits.max_depth));
            return;
        }
        let items = match value {
            Value::Array(items) => items,
            _ => {
                self.push(Code::TypeMismatch, message::mismatch("array", value.kind()));
                return;
            },
        };
        proof {
            lemma_array_view(*value);
        }
        if items.len() > self.limits.max_items {
            self.push(Code::SizeExceeded, message::items(items.len(), self.limits.max_items));
            return;
        }
        let ghost schema0 = self.schema;
        let ghost lim0 = self.limits;
        let ghost path0 = self.path@;
        let ghost found0 = self.found();
        let ghost here = self.here();
        let ghost v = value.view();
        let n = items.len();
        let mut k: usize = 0;
        while k < n
            invariant
                n == items@.len(),
                k <= n,
                self.schema == schema0,
                self.limits == lim0,
                lim0.max_depth <= MAX_DEPTH,
                depth <= lim0.max_depth,
                self.path@ == path0,
                here == segments_view(path0),
                v == value.view(),
                v is Array,
                v->Array_0.len() == n,
                forall|j: int| 0 <= j < n ==> v->Array_0[j] == (#[trigger] items@[j]).view(),
                decreases_to!(*value => *items),
                self.found() == found0 + items_issues(
                    *schema0,
                    lim0,
                    *item,
                    item_nullable,
                    v,
                    here,
                    depth as nat,
                    k as nat,
                ),
            decreases n - k,
        {
            self.enter(Segment::Index(k));
            let x = &items[k];
            proof {
                assert(decreases_to!(*items => items@));
                assert(decreases_to!(items@ => items@[k as int]));
            }
            match x {
                Value::Null => {
                    if !item_nullable {
                        self.push(Code::NullNotAllowed, message::null_item());
                    }
                },
                _ => self.value(item, x, depth + 1),
            }
            self.leave();
            assert(self.path@ =~= path0);
            k = k + 1;
        }
    }

    fn union(&mut self, u: &UnionType, value: &Value, depth: usize)
        requires
            old(self).ok(),
            depth <= old(self).limits.max_depth + 1,
        ensures
            final(self).same_frame(old(self)),
            final(self).found() == old(self).found() + union_issues(
                *old(self).schema,
                old(self).limits,
                *u,
                value.view(),
                old(self).here(),
                depth as nat,
            ),
        decreases value, 3nat,
    {
        if depth > self.limits.max_depth {
            self.push(Code::DepthExceeded, message::depth(self.limits.max_depth));
            return;
        }
        let entries = match value {
            Value::Object(e) => e,
            _ => {
                self.push(Code::TypeMismatch, message::mismatch("object", value.kind()));
                return;
            },
        };
        proof {
            lemma_object_view(*value);
        }
        let schema = self.schema;
        let ghost path0 = self.path@;
        self.enter(Segment::Key(u.tag.clone()));
        match find_entry(entries, u.tag.as_str()) {
            None => {
                self.push(Code::Required, message::required_message(Presence::required()));
                self.leave();
            },
            Some(i) => match &entries[i].value {
                Value::Null => {
                    self.push(Code::NullNotAllowed, message::null_message(Presence::required()));
                    self.leave();
                },
                Value::String(t) => match u.variant(t.as_str()) {
                    None => {
                        let tags = variant_tag_strings(&u.variants);
                        self.push(Code::UnknownVariant, message::not_one_of(t.as_str(), &tags));
                        self.leave();
                    },
                    Some(var) => {
                        self.leave();
                        assert(self.path@ =~= path0);
                        match schema.get(var.schema_name.as_str()) {
                            Some(obj) => self.object(obj, value, depth, Some(u.tag.as_str())),
                            None => self.push(
                                Code::UnknownType,
                                message::unknown_type(var.schema_name.as_str()),
                            ),
                        }
                    },
                },
                other => {
                    self.push(Code::TypeMismatch, message::mismatch("string", other.kind()));
                    self.leave();
                },
            },
        }
        assert(self.path@ =~= path0);
    }
}

/// The tags of a union's variants, in declaration order.
fn variant_tag_strings(variants: &Vec<Variant>) -> (r: Vec<String>)
    ensures
        strings_view(r@) == variant_tags(variants@),
{
    let mut out: Vec<String> = Vec::new();
    let n = variants.len();
    let mut i: usize = 0;
    while i < n
        invariant
            n == variants@.len(),
            i <= n,
            out@.len() == i,
            forall|j: int| 0 <= j < i ==> (#[trigger] out@[j])@ == variants@[j].tag@,
        decreases n - i,
    {
        out.push(variants[i].tag.clone());
        i = i + 1;
    }
    assert(strings_view(out@) =~= variant_tags(variants@));
    out
}

pub open spec fn tag_view(tag: Option<&str>) -> Option<Seq<char>> {
    match tag {
        Some(t) => Some(t@),
        None => None,
    }
}

/// Validates a payload against the type named `name`, reporting every issue
/// rather than the first. `limits` is clamped before use.
pub fn validate(schema: &Schema, name: &str, value: &Value, limits: Limits) -> (r: Result<
    (),
    ValidationError,
>)
    ensures
        r is Ok <==> validation_issues(*schema, name@, value.view(), limits).len() == 0,
        r matches Err(e) ==> issues_view(e.issues@) == validation_issues(
            *schema,
            name@,
            value.view(),
            limits,
        ),
{
    let lim = limits.clamped();
    let mut v = Validator { schema, limits: lim, path: Vec::new(), issues: Vec::new() };
    assert(v.here() =~= Seq::<SpecSegment>::empty());
    assert(v.found() =~= Seq::<SpecIssue>::empty());
    match schema.get(name) {
        Some(obj) => v.object(obj, value, 0, None),
        None => match schema.union(name) {
            Some(u) => v.union(u, value, 0),
            None => v.push(Code::UnknownType, message::unknown_type(name)),
        },
    }
    assert(v.found() =~= validation_issues(*schema, name@, value.view(), limits));
    if v.issues.len() == 0 {
        Ok(())
    } else {
        Err(ValidationError { issues: v.issues })
    }
}

// ----------------------------------------------------------------- laws

/// Presence is two independent axes. An absent key is an issue exactly when
/// the field is not optional, and an explicit null exactly when it is not
/// nullable; each is judged without looking at the other axis.
pub proof fn law_absent_and_null_are_judged_separately(
    schema: Schema,
    lim: Limits,
    ty: ObjectType,
    v: SpecValue,
    path: Seq<SpecSegment>,
    depth: nat,
    k: nat,
)
    requires
        v is Object,
        0 < k <= ty.fields@.len(),
    ensures
        ({
            let f = ty.fields@[k - 1];
            let before = fields_issues(schema, lim, ty, v, path, depth, (k - 1) as nat);
            let own = fields_issues(schema, lim, ty, v, path, depth, k).skip(before.len() as int);
            let p = path.push(SpecSegment::Key(f.name@));
            &&& fields_issues(schema, lim, ty, v, path, depth, k) == before + own
            &&& slot_of(v->Object_0, f.name@) is Absent ==> own == if f.presence.optional {
                Seq::<SpecIssue>::empty()
            } else {
                issue(p, Code::Required, msg_required(f.presence))
            }
            &&& slot_of(v->Object_0, f.name@) is Null ==> own == if f.presence.nullable {
                Seq::<SpecIssue>::empty()
            } else {
                issue(p, Code::NullNotAllowed, msg_null(f.presence))
            }
        }),
{
    let f = ty.fields@[k - 1];
    let before = fields_issues(schema, lim, ty, v, path, depth, (k - 1) as nat);
    let all = fields_issues(schema, lim, ty, v, path, depth, k);
    let own = all.skip(before.len() as int);
    lemma_find_key(v->Object_0, f.name@);
    assert(all == before + own);
}

/// A tag that names no variant is reported as `unknown_variant` at the tag's
/// own path, and it is the only issue: with no variant chosen there is no
/// shape to check the rest of the object against.
pub proof fn law_unknown_variant_is_the_only_issue(
    schema: Schema,
    lim: Limits,
    u: UnionType,
    v: SpecValue,
    path: Seq<SpecSegment>,
    depth: nat,
    t: Seq<char>,
)
    requires
        depth <= lim.max_depth,
        v is Object,
        slot_of(v->Object_0, u.tag@) == Slot::Present(SpecValue::Str(t)),
        u.variant_spec(t) is None,
    ensures
        union_issues(schema, lim, u, v, path, depth) == issue(
            path.push(SpecSegment::Key(u.tag@)),
            Code::UnknownVariant,
            msg_not_one_of(t, variant_tags(u.variants@)),
        ),
{
}

/// A variant is not a level of nesting: once the tag chooses a variant, the
/// object is checked against it at the union's own path.
pub proof fn law_a_variant_is_not_a_level_of_nesting(
    schema: Schema,
    lim: Limits,
    u: UnionType,
    v: SpecValue,
    path: Seq<SpecSegment>,
    depth: nat,
    t: Seq<char>,
    obj: ObjectType,
)
    requires
        depth <= lim.max_depth,
        v is Object,
        slot_of(v->Object_0, u.tag@) == Slot::Present(SpecValue::Str(t)),
        u.variant_spec(t) matches Some(var) && schema.object_spec(var.schema_name@) == Some(obj),
    ensures
        union_issues(schema, lim, u, v, path, depth) == object_issues(
            schema,
            lim,
            obj,
            v,
            path,
            depth,
            Some(u.tag@),
        ),
{
}

/// The union's tag is never reported as an unknown field of the variant it
/// chose.
pub proof fn law_the_tag_is_never_an_unknown_field(
    ty: ObjectType,
    e: Seq<(Seq<char>, SpecValue)>,
    path: Seq<SpecSegment>,
    tag: Seq<char>,
)
    ensures
        forall|i: int|
            0 <= i < unknown_issues(ty, e, path, Some(tag)).len() ==> (#[trigger] unknown_issues(
                ty,
                e,
                path,
                Some(tag),
            )[i]).path != path.push(SpecSegment::Key(tag)),
    decreases e.len(),
{
    if e.len() > 0 {
        law_the_tag_is_never_an_unknown_field(ty, e.drop_last(), path, tag);
        let k = e.last().0;
        if k != tag {
            assert(path.push(SpecSegment::Key(k))[path.len() as int] != path.push(
                SpecSegment::Key(tag),
            )[path.len() as int]);
        }
    }
}

/// An integer where a float is declared is accepted; a float where an
/// integer is declared is a type mismatch, however integral it looks.
pub proof fn law_an_integer_is_a_float_but_not_the_reverse(
    schema: Schema,
    lim: Limits,
    n: Int,
    t: IntType,
    text: Seq<char>,
    finite: bool,
    path: Seq<SpecSegment>,
    depth: nat,
)
    ensures
        type_issues(schema, lim, Type::Float, SpecValue::Int(n), path, depth) == Seq::<SpecIssue>::empty(),
        type_issues(schema, lim, Type::Int(t), SpecValue::Float(text, finite), path, depth).len() == 1,
        type_issues(schema, lim, Type::Int(t), SpecValue::Float(text, finite), path, depth)[0].code
            == Code::TypeMismatch,
{
}

/// NaN and the infinities never validate as a float: they do not survive
/// JSON, so admitting them would make a round trip a lie.
pub proof fn law_a_float_must_be_finite(
    schema: Schema,
    lim: Limits,
    text: Seq<char>,
    path: Seq<SpecSegment>,
    depth: nat,
)
    ensures
        type_issues(schema, lim, Type::Float, SpecValue::Float(text, false), path, depth) == issue(
            path,
            Code::NotFinite,
            msg_not_finite(),
        ),
{
}

/// A value is judged for size before its type: a string over the byte limit
/// is exactly one `size_exceeded` issue, whatever was declared (a string, a
/// date, an enum, or anything else). Within the limits, a float declared as
/// a float raises `not_finite` exactly when it is not finite, an integer
/// declared as a float raises nothing, and a float declared as an integer is
/// one type mismatch.
pub proof fn law_a_value_is_judged_for_size_first(
    schema: Schema,
    lim: Limits,
    ty: Type,
    s: Seq<char>,
    text: Seq<char>,
    finite: bool,
    n: Int,
    t: IntType,
    path: Seq<SpecSegment>,
    depth: nat,
)
    ensures
        encode_utf8(s).len() > lim.max_string_bytes ==> value_issues(
            schema,
            lim,
            ty,
            SpecValue::Str(s),
            path,
            depth,
        ) == issue(path, Code::SizeExceeded, msg_bytes(encode_utf8(s).len(), lim.max_string_bytes as nat)),
        value_issues(schema, lim, Type::Float, SpecValue::Float(text, finite), path, depth) == if finite {
            Seq::<SpecIssue>::empty()
        } else {
            issue(path, Code::NotFinite, msg_not_finite())
        },
        value_issues(schema, lim, Type::Float, SpecValue::Int(n), path, depth) == Seq::<SpecIssue>::empty(),
        value_issues(schema, lim, Type::Int(t), SpecValue::Float(text, finite), path, depth).len() == 1,
        value_issues(schema, lim, Type::Int(t), SpecValue::Float(text, finite), path, depth)[0].code
            == Code::TypeMismatch,
{
}

/// Whether a value is of the kind a declared type names: a float admits an
/// integer too, and the four textual types a string.
pub open spec fn kind_fits(ty: Type, v: SpecValue) -> bool {
    match ty {
        Type::Bool => v is Bool,
        Type::Float => v is Float || v is Int,
        Type::String => v is Str,
        Type::Date => v is Str,
        Type::DateTime => v is Str,
        Type::Enum(_) => v is Str,
        Type::Int(_) => v is Int,
        Type::Array { .. } => v is Array,
        Type::Object(_) => v is Object,
        Type::Ref(_) => true,
    }
}

/// A value of the wrong kind for its declared type is exactly one issue, a
/// type mismatch at its own path, whatever the type. A value of the right
/// kind for a type without parts raises no type mismatch, and for `bool` and
/// `String` no issue at all.
pub proof fn law_a_value_of_the_wrong_kind_is_one_type_mismatch(
    schema: Schema,
    lim: Limits,
    ty: Type,
    v: SpecValue,
    path: Seq<SpecSegment>,
    depth: nat,
)
    requires
        depth <= lim.max_depth,
        !(ty is Ref),
    ensures
        !kind_fits(ty, v) ==> {
            let r = type_issues(schema, lim, ty, v, path, depth);
            &&& r.len() == 1
            &&& r[0].code == Code::TypeMismatch
            &&& r[0].path == path
        },
        kind_fits(ty, v) && !(ty is Array) && !(ty is Object) ==> forall|i: int|
            0 <= i < type_issues(schema, lim, ty, v, path, depth).len() ==> (#[trigger] type_issues(
                schema,
                lim,
                ty,
                v,
                path,
                depth,
            )[i]).code != Code::TypeMismatch,
        kind_fits(ty, v) && (ty is Bool || ty is String) ==> type_issues(schema, lim, ty, v, path, depth)
            == Seq::<SpecIssue>::empty(),
{
    if kind_fits(ty, v) && ty is DateTime {
        crate::datetime::law_a_valid_instant_starts_with_a_valid_date(encode_utf8(v->Str_0));
    }
}

/// Each rule judges its value by its bound alone: `min_len(n)` refuses a
/// string of fewer than `n` characters, `max_len(n)` one of more, counting
/// characters, not bytes; `range(min..=max)` refuses an integer outside it;
/// `min_items(n)` and `max_items(n)` count elements. A declared integer type
/// refuses a value outside its range, and an enum a string it does not list.
/// Each refusal is one issue, with its own code, at the value's path.
#[verifier::spinoff_prover]
#[verifier::rlimit(60)]
pub proof fn law_rules_judge_by_their_bounds(
    s: Seq<char>,
    n: usize,
    items: Seq<SpecValue>,
    k: Int,
    min: i128,
    max: i128,
    t: IntType,
    allowed: Seq<Seq<char>>,
    path: Seq<SpecSegment>,
)
    ensures
        rules_issues(seq![Rule::MinLen(n)], SpecValue::Str(s), path).len() == if s.len() < n { 1int } else { 0 },
        s.len() < n ==> rules_issues(seq![Rule::MinLen(n)], SpecValue::Str(s), path)[0].code == Code::TooShort,
        rules_issues(seq![Rule::MaxLen(n)], SpecValue::Str(s), path).len() == if s.len() > n { 1int } else { 0 },
        s.len() > n ==> rules_issues(seq![Rule::MaxLen(n)], SpecValue::Str(s), path)[0].code == Code::TooLong,
        rules_issues(seq![Rule::Range { min, max }], SpecValue::Int(k), path).len() == if int_value(k)
            < min || int_value(k) > max { 1int } else { 0 },
        int_value(k) < min || int_value(k) > max ==> rules_issues(
            seq![Rule::Range { min, max }],
            SpecValue::Int(k),
            path,
        )[0].code == Code::OutOfRange,
        rules_issues(seq![Rule::MinItems(n)], SpecValue::Array(items), path).len() == if items.len() < n {
            1int
        } else {
            0
        },
        items.len() < n ==> rules_issues(seq![Rule::MinItems(n)], SpecValue::Array(items), path)[0].code
            == Code::TooFewItems,
        rules_issues(seq![Rule::MaxItems(n)], SpecValue::Array(items), path).len() == if items.len() > n {
            1int
        } else {
            0
        },
        items.len() > n ==> rules_issues(seq![Rule::MaxItems(n)], SpecValue::Array(items), path)[0].code
            == Code::TooManyItems,
        int_issues(t, SpecValue::Int(k), path).len() == if int_range(t).0 <= int_value(k) <= int_range(
            t,
        ).1 {
            0int
        } else {
            1
        },
        !(int_range(t).0 <= int_value(k) <= int_range(t).1) ==> int_issues(t, SpecValue::Int(k), path)[0].code
            == Code::OutOfRange,
        enum_issues(allowed, SpecValue::Str(s), path).len() == if allowed.contains(s) { 0int } else { 1 },
        !allowed.contains(s) ==> enum_issues(allowed, SpecValue::Str(s), path)[0].code == Code::NotInEnum,
{
    assert(rules_issues(seq![Rule::MinLen(n)], SpecValue::Str(s), path) == if s.len() < n {
        issue(path, Code::TooShort, msg_too_short(s.len(), n as nat))
    } else {
        Seq::<SpecIssue>::empty()
    }) by {
        let rs = seq![Rule::MinLen(n)];
        assert(rs.drop_last() =~= Seq::<Rule>::empty());
        assert(rs.last() == Rule::MinLen(n));
        assert(rules_issues(rs.drop_last(), SpecValue::Str(s), path) == Seq::<SpecIssue>::empty());
    }
    assert(rules_issues(seq![Rule::MaxLen(n)], SpecValue::Str(s), path) == if s.len() > n {
        issue(path, Code::TooLong, msg_too_long(s.len(), n as nat))
    } else {
        Seq::<SpecIssue>::empty()
    }) by {
        let rs = seq![Rule::MaxLen(n)];
        assert(rs.drop_last() =~= Seq::<Rule>::empty());
        assert(rs.last() == Rule::MaxLen(n));
        assert(rules_issues(rs.drop_last(), SpecValue::Str(s), path) == Seq::<SpecIssue>::empty());
    }
    assert(rules_issues(seq![Rule::Range { min, max }], SpecValue::Int(k), path) == if int_value(k) < min || int_value(k) > max {
        issue(path, Code::OutOfRange, msg_rule_range(int_value(k), min as int, max as int))
    } else {
        Seq::<SpecIssue>::empty()
    }) by {
        let rs = seq![Rule::Range { min, max }];
        assert(rs.drop_last() =~= Seq::<Rule>::empty());
        assert(rs.last() == Rule::Range { min, max });
        assert(rules_issues(rs.drop_last(), SpecValue::Int(k), path) == Seq::<SpecIssue>::empty());
    }
    assert(rules_issues(seq![Rule::MinItems(n)], SpecValue::Array(items), path) == if items.len() < n {
        issue(path, Code::TooFewItems, msg_too_few(items.len(), n as nat))
    } else {
        Seq::<SpecIssue>::empty()
    }) by {
        let rs = seq![Rule::MinItems(n)];
        assert(rs.drop_last() =~= Seq::<Rule>::empty());
        assert(rs.last() == Rule::MinItems(n));
        assert(rules_issues(rs.drop_last(), SpecValue::Array(items), path) == Seq::<SpecIssue>::empty());
    }
    assert(rules_issues(seq![Rule::MaxItems(n)], SpecValue::Array(items), path) == if items.len() > n {
        issue(path, Code::TooManyItems, msg_too_many(items.len(), n as nat))
    } else {
        Seq::<SpecIssue>::empty()
    }) by {
        let rs = seq![Rule::MaxItems(n)];
        assert(rs.drop_last() =~= Seq::<Rule>::empty());
        assert(rs.last() == Rule::MaxItems(n));
        assert(rules_issues(rs.drop_last(), SpecValue::Array(items), path) == Seq::<SpecIssue>::empty());
    }
}

/// The key an unknown-field issue is about: the last segment of its path.
pub open spec fn issue_key(i: SpecIssue) -> Seq<char> {
    match i.path.last() {
        SpecSegment::Key(k) => k,
        SpecSegment::Index(_) => Seq::empty(),
    }
}

proof fn lemma_unknown_keys(
    ty: ObjectType,
    e: Seq<(Seq<char>, SpecValue)>,
    path: Seq<SpecSegment>,
    tag: Option<Seq<char>>,
)
    ensures
        forall|i: int|
            0 <= i < unknown_issues(ty, e, path, tag).len() ==> exists|m: int|
                0 <= m < e.len() && (#[trigger] unknown_issues(ty, e, path, tag)[i]).path == path.push(
                    SpecSegment::Key(e[m].0),
                ),
    decreases e.len(),
{
    if e.len() > 0 {
        let d = e.drop_last();
        lemma_unknown_keys(ty, d, path, tag);
        let u = unknown_issues(ty, e, path, tag);
        let ud = unknown_issues(ty, d, path, tag);
        assert forall|i: int| 0 <= i < u.len() implies exists|m: int|
            0 <= m < e.len() && (#[trigger] u[i]).path == path.push(SpecSegment::Key(e[m].0)) by {
            if i < ud.len() {
                assert(u[i] == ud[i]);
                let m = choose|m: int| 0 <= m < d.len() && ud[i].path == path.push(SpecSegment::Key(d[m].0));
                assert(d[m] == e[m]);
            } else {
                assert(u[i].path == path.push(SpecSegment::Key(e[e.len() - 1].0)));
            }
        }
    }
}

/// Unknown keys are reported in ascending key order, each once, whatever
/// order the payload wrote them in.
pub proof fn law_unknown_fields_come_in_key_order(
    ty: ObjectType,
    e: Seq<(Seq<char>, SpecValue)>,
    path: Seq<SpecSegment>,
    tag: Option<Seq<char>>,
)
    requires
        keys_sorted(e),
    ensures
        forall|i: int, j: int|
            0 <= i < j < unknown_issues(ty, e, path, tag).len() ==> key_lt(
                issue_key(#[trigger] unknown_issues(ty, e, path, tag)[i]),
                issue_key(#[trigger] unknown_issues(ty, e, path, tag)[j]),
            ),
    decreases e.len(),
{
    if e.len() > 0 {
        let d = e.drop_last();
        assert(keys_sorted(d)) by {
            reveal(keys_sorted);
        }
        law_unknown_fields_come_in_key_order(ty, d, path, tag);
        lemma_unknown_keys(ty, d, path, tag);
        let u = unknown_issues(ty, e, path, tag);
        let ud = unknown_issues(ty, d, path, tag);
        let last = e[e.len() - 1].0;
        assert forall|i: int, j: int| 0 <= i < j < u.len() implies key_lt(
            issue_key(#[trigger] u[i]),
            issue_key(#[trigger] u[j]),
        ) by {
            assert(u[i] == ud[i]);
            if j < ud.len() {
                assert(u[j] == ud[j]);
            } else {
                let m = choose|m: int| 0 <= m < d.len() && ud[i].path == path.push(SpecSegment::Key(d[m].0));
                assert(issue_key(u[i]) == d[m].0);
                assert(u[j].path == path.push(SpecSegment::Key(last)));
                assert(issue_key(u[j]) == last);
                reveal(keys_sorted);
                assert(key_lt(e[m].0, e[e.len() - 1].0));
            }
        }
    }
}

/// Whether path `q` lies at or below path `p`.
pub open spec fn starts_with(q: Seq<SpecSegment>, p: Seq<SpecSegment>) -> bool {
    p.len() <= q.len() && q.take(p.len() as int) == p
}

/// Every issue of `xs` lies at or below `p`.
pub open spec fn all_under(xs: Seq<SpecIssue>, p: Seq<SpecSegment>) -> bool {
    forall|i: int| 0 <= i < xs.len() ==> starts_with((#[trigger] xs[i]).path, p)
}

proof fn lemma_issue_under(p: Seq<SpecSegment>, code: Code, message: Seq<char>)
    ensures
        all_under(issue(p, code, message), p),
{
    assert(p.take(p.len() as int) =~= p);
}

proof fn lemma_issue_below(p: Seq<SpecSegment>, s: SpecSegment, code: Code, message: Seq<char>)
    ensures
        all_under(issue(p.push(s), code, message), p),
{
    assert(p.push(s).take(p.len() as int) =~= p);
}

proof fn lemma_under_add(a: Seq<SpecIssue>, b: Seq<SpecIssue>, p: Seq<SpecSegment>)
    requires
        all_under(a, p),
        all_under(b, p),
    ensures
        all_under(a + b, p),
{
    assert forall|i: int| 0 <= i < (a + b).len() implies starts_with((#[trigger] (a + b)[i]).path, p) by {
        if i < a.len() {
            assert((a + b)[i] == a[i]);
        } else {
            assert((a + b)[i] == b[i - a.len()]);
        }
    }
}

proof fn lemma_under_parent(xs: Seq<SpecIssue>, p: Seq<SpecSegment>, s: SpecSegment)
    requires
        all_under(xs, p.push(s)),
    ensures
        all_under(xs, p),
{
    assert forall|i: int| 0 <= i < xs.len() implies starts_with((#[trigger] xs[i]).path, p) by {
        let q = xs[i].path;
        assert(starts_with(q, p.push(s)));
        assert(q.take(p.len() as int) =~= q.take((p.len() + 1) as int).take(p.len() as int));
        assert(p.push(s).take(p.len() as int) =~= p);
    }
}

proof fn lemma_rules_under(rules: Seq<Rule>, v: SpecValue, p: Seq<SpecSegment>)
    ensures
        all_under(rules_issues(rules, v, p), p),
    decreases rules.len(),
{
    assert(p.take(p.len() as int) =~= p);
    if rules.len() > 0 {
        lemma_rules_under(rules.drop_last(), v, p);
        let last = rules_issues(rules, v, p).skip(rules_issues(rules.drop_last(), v, p).len() as int);
        assert(rules_issues(rules, v, p) =~= rules_issues(rules.drop_last(), v, p) + last);
        lemma_under_add(rules_issues(rules.drop_last(), v, p), last, p);
    }
}

proof fn lemma_unknown_under(
    ty: ObjectType,
    e: Seq<(Seq<char>, SpecValue)>,
    path: Seq<SpecSegment>,
    tag: Option<Seq<char>>,
)
    ensures
        all_under(unknown_issues(ty, e, path, tag), path),
    decreases e.len(),
{
    if e.len() > 0 {
        let k = e.last().0;
        lemma_unknown_under(ty, e.drop_last(), path, tag);
        lemma_issue_below(path, SpecSegment::Key(k), Code::UnknownField, msg_unknown_field(ty.name@, k));
        lemma_under_add(
            unknown_issues(ty, e.drop_last(), path, tag),
            if ty.field_spec(k) is None && tag != Some(k) {
                issue(path.push(SpecSegment::Key(k)), Code::UnknownField, msg_unknown_field(ty.name@, k))
            } else {
                Seq::empty()
            },
            path,
        );
    }
}

proof fn lemma_value_under(
    schema: Schema,
    lim: Limits,
    ty: Type,
    v: SpecValue,
    path: Seq<SpecSegment>,
    depth: nat,
)
    ensures
        all_under(value_issues(schema, lim, ty, v, path, depth), path),
    decreases v, 5nat, 0nat,
{
    assert(path.take(path.len() as int) =~= path);
    if !(v is Str && encode_utf8(v->Str_0).len() > lim.max_string_bytes) && !(v is IntTooWide)
        && !(v is UnsafeInt) {
        lemma_type_under(schema, lim, ty, v, path, depth);
    }
}

proof fn lemma_type_under(
    schema: Schema,
    lim: Limits,
    ty: Type,
    v: SpecValue,
    path: Seq<SpecSegment>,
    depth: nat,
)
    ensures
        all_under(type_issues(schema, lim, ty, v, path, depth), path),
    decreases v, 4nat, 0nat,
{
    assert(path.take(path.len() as int) =~= path);
    match ty {
        Type::Array { item, item_nullable } => {
            lemma_array_under(schema, lim, *item, item_nullable, v, path, depth);
        },
        Type::Object(obj) => {
            lemma_object_under(schema, lim, *obj, v, path, depth, None);
        },
        Type::Ref(name) => match schema.object_spec(name@) {
            Some(obj) => {
                lemma_object_under(schema, lim, obj, v, path, depth, None);
            },
            None => match schema.union_spec(name@) {
                Some(u) => {
                    lemma_union_under(schema, lim, u, v, path, depth);
                },
                None => {},
            },
        },
        _ => {},
    }
}

proof fn lemma_union_under(
    schema: Schema,
    lim: Limits,
    u: UnionType,
    v: SpecValue,
    path: Seq<SpecSegment>,
    depth: nat,
)
    ensures
        all_under(union_issues(schema, lim, u, v, path, depth), path),
    decreases v, 3nat, 0nat,
{
    assert(path.take(path.len() as int) =~= path);
    if depth <= lim.max_depth {
        if let SpecValue::Object(e) = v {
            let tp = path.push(SpecSegment::Key(u.tag@));
            assert(tp.take(path.len() as int) =~= path);
            match slot_of(e, u.tag@) {
                Slot::Present(SpecValue::Str(t)) => match u.variant_spec(t) {
                    Some(var) => match schema.object_spec(var.schema_name@) {
                        Some(obj) => {
                            lemma_object_under(schema, lim, obj, v, path, depth, Some(u.tag@));
                        },
                        None => {},
                    },
                    None => {},
                },
                _ => {},
            }
        }
    }
}

proof fn lemma_object_under(
    schema: Schema,
    lim: Limits,
    ty: ObjectType,
    v: SpecValue,
    path: Seq<SpecSegment>,
    depth: nat,
    tag: Option<Seq<char>>,
)
    ensures
        all_under(object_issues(schema, lim, ty, v, path, depth, tag), path),
    decreases v, 2nat, 0nat,
{
    assert(path.take(path.len() as int) =~= path);
    if depth <= lim.max_depth {
        if let SpecValue::Object(e) = v {
            if e.len() <= lim.max_object_keys {
                lemma_fields_under(schema, lim, ty, v, path, depth, ty.fields@.len());
                lemma_unknown_under(ty, e, path, tag);
                lemma_under_add(
                    fields_issues(schema, lim, ty, v, path, depth, ty.fields@.len()),
                    if ty.deny_unknown_fields {
                        unknown_issues(ty, e, path, tag)
                    } else {
                        Seq::empty()
                    },
                    path,
                );
            }
        }
    }
}

proof fn lemma_fields_under(
    schema: Schema,
    lim: Limits,
    ty: ObjectType,
    v: SpecValue,
    path: Seq<SpecSegment>,
    depth: nat,
    k: nat,
)
    ensures
        all_under(fields_issues(schema, lim, ty, v, path, depth, k), path),
    decreases v, 1nat, k,
{
    if !(k == 0 || !(v is Object) || k > ty.fields@.len()) {
        let f = ty.fields@[k - 1];
        let before = fields_issues(schema, lim, ty, v, path, depth, (k - 1) as nat);
        let own = field_own(schema, lim, ty, v, path, depth, (k - 1) as nat);
        lemma_fields_under(schema, lim, ty, v, path, depth, (k - 1) as nat);
        lemma_own_under(schema, lim, ty, v, path, depth, (k - 1) as nat);
        lemma_under_parent(own, path, SpecSegment::Key(f.name@));
        assert(fields_issues(schema, lim, ty, v, path, depth, k) == before + own);
        lemma_under_add(before, own, path);
    }
}

/// The issues of one declared field all lie under that field's key.
proof fn lemma_own_under(
    schema: Schema,
    lim: Limits,
    ty: ObjectType,
    v: SpecValue,
    path: Seq<SpecSegment>,
    depth: nat,
    m: nat,
)
    requires
        v is Object,
        m < ty.fields@.len(),
    ensures
        all_under(
            field_own(schema, lim, ty, v, path, depth, m),
            path.push(SpecSegment::Key(ty.fields@[m as int].name@)),
        ),
    decreases v, 0nat, 0nat,
{
    let f = ty.fields@[m as int];
    let e = v->Object_0;
    let p = path.push(SpecSegment::Key(f.name@));
    let before = fields_issues(schema, lim, ty, v, path, depth, m);
    let own = field_own(schema, lim, ty, v, path, depth, m);
    assert(fields_issues(schema, lim, ty, v, path, depth, m + 1) == before + own);
    assert(p.take(p.len() as int) =~= p);
    match find_key(e, f.name@) {
        Some(i) => {
            if 0 <= i < e.len() && !(e[i].1 is Null) {
                lemma_value_under(schema, lim, f.ty, e[i].1, p, depth + 1);
                lemma_rules_under(f.rules@, e[i].1, p);
                lemma_under_add(
                    value_issues(schema, lim, f.ty, e[i].1, p, depth + 1),
                    rules_issues(f.rules@, e[i].1, p),
                    p,
                );
            }
        },
        None => {},
    }
}

proof fn lemma_array_under(
    schema: Schema,
    lim: Limits,
    item: Type,
    item_nullable: bool,
    v: SpecValue,
    path: Seq<SpecSegment>,
    depth: nat,
)
    ensures
        all_under(array_issues(schema, lim, item, item_nullable, v, path, depth), path),
    decreases v, 2nat, 0nat,
{
    assert(path.take(path.len() as int) =~= path);
    if depth <= lim.max_depth {
        if let SpecValue::Array(items) = v {
            if items.len() <= lim.max_items {
                lemma_items_under(schema, lim, item, item_nullable, v, path, depth, items.len());
            }
        }
    }
}

proof fn lemma_items_under(
    schema: Schema,
    lim: Limits,
    item: Type,
    item_nullable: bool,
    v: SpecValue,
    path: Seq<SpecSegment>,
    depth: nat,
    k: nat,
)
    ensures
        all_under(items_issues(schema, lim, item, item_nullable, v, path, depth, k), path),
    decreases v, 1nat, k,
{
    if !(k == 0 || !(v is Array) || k > v->Array_0.len()) {
        let x = v->Array_0[k - 1];
        let s = SpecSegment::Index((k - 1) as nat);
        let p = path.push(s);
        lemma_items_under(schema, lim, item, item_nullable, v, path, depth, (k - 1) as nat);
        let own: Seq<SpecIssue> = if x is Null {
            if item_nullable {
                Seq::empty()
            } else {
                issue(p, Code::NullNotAllowed, msg_null_item())
            }
        } else {
            value_issues(schema, lim, item, x, p, depth + 1)
        };
        assert(p.take(p.len() as int) =~= p);
        if !(x is Null) {
            lemma_value_under(schema, lim, item, x, p, depth + 1);
        }
        lemma_under_parent(own, path, s);
        lemma_under_add(
            items_issues(schema, lim, item, item_nullable, v, path, depth, (k - 1) as nat),
            own,
            path,
        );
    }
}

/// The test of lying at or below `p`.
pub open spec fn under_pred(p: Seq<SpecSegment>) -> spec_fn(SpecIssue) -> bool {
    |x: SpecIssue| starts_with(x.path, p)
}

/// The issues of `xs` that lie at or below `p`, in their order.
pub open spec fn issues_under(xs: Seq<SpecIssue>, p: Seq<SpecSegment>) -> Seq<SpecIssue> {
    xs.filter(under_pred(p))
}

/// No issue of `xs` lies at or below `p`.
pub open spec fn none_under(xs: Seq<SpecIssue>, p: Seq<SpecSegment>) -> bool {
    forall|i: int| 0 <= i < xs.len() ==> !starts_with((#[trigger] xs[i]).path, p)
}

/// Whether no two declared fields of `ty` share a name.
pub open spec fn field_names_distinct(ty: ObjectType) -> bool {
    crate::schema::field_names(ty.fields@).no_duplicates()
}

proof fn lemma_keep_all(xs: Seq<SpecIssue>, p: Seq<SpecSegment>)
    requires
        all_under(xs, p),
    ensures
        issues_under(xs, p) == xs,
    decreases xs.len(),
{
    reveal(Seq::filter);
    if xs.len() > 0 {
        let d = xs.drop_last();
        assert(all_under(d, p)) by {
            assert forall|i: int| 0 <= i < d.len() implies starts_with((#[trigger] d[i]).path, p) by {
                assert(d[i] == xs[i]);
            }
        }
        lemma_keep_all(d, p);
        assert(under_pred(p)(xs.last()));
        assert(d.push(xs.last()) =~= xs);
    }
}

proof fn lemma_keep_none(xs: Seq<SpecIssue>, p: Seq<SpecSegment>)
    requires
        none_under(xs, p),
    ensures
        issues_under(xs, p) == Seq::<SpecIssue>::empty(),
    decreases xs.len(),
{
    reveal(Seq::filter);
    if xs.len() > 0 {
        let d = xs.drop_last();
        assert(none_under(d, p)) by {
            assert forall|i: int| 0 <= i < d.len() implies !starts_with((#[trigger] d[i]).path, p) by {
                assert(d[i] == xs[i]);
            }
        }
        lemma_keep_none(d, p);
        assert(!under_pred(p)(xs[xs.len() - 1]));
    } else {
        assert(xs =~= Seq::<SpecIssue>::empty());
    }
}

proof fn lemma_keep_add(a: Seq<SpecIssue>, b: Seq<SpecIssue>, p: Seq<SpecSegment>)
    ensures
        issues_under(a + b, p) == issues_under(a, p) + issues_under(b, p),
{
    Seq::<SpecIssue>::filter_distributes_over_add(a, b, under_pred(p));
}

/// Issues under one key lie under no sibling key.
proof fn lemma_siblings_apart(xs: Seq<SpecIssue>, path: Seq<SpecSegment>, a: Seq<char>, b: Seq<char>)
    requires
        all_under(xs, path.push(SpecSegment::Key(a))),
        a != b,
    ensures
        none_under(xs, path.push(SpecSegment::Key(b))),
{
    let pa = path.push(SpecSegment::Key(a));
    let pb = path.push(SpecSegment::Key(b));
    assert forall|i: int| 0 <= i < xs.len() implies !starts_with((#[trigger] xs[i]).path, pb) by {
        let q = xs[i].path;
        if starts_with(q, pb) {
            assert(starts_with(q, pa));
            assert(pa[path.len() as int] == q.take(pa.len() as int)[path.len() as int]);
            assert(pb[path.len() as int] == q.take(pb.len() as int)[path.len() as int]);
        }
    }
}

proof fn lemma_unknown_not_under_field(
    ty: ObjectType,
    e: Seq<(Seq<char>, SpecValue)>,
    path: Seq<SpecSegment>,
    tag: Option<Seq<char>>,
    m: int,
)
    requires
        0 <= m < ty.fields@.len(),
    ensures
        none_under(unknown_issues(ty, e, path, tag), path.push(SpecSegment::Key(ty.fields@[m].name@))),
    decreases e.len(),
{
    let name = ty.fields@[m].name@;
    let pn = path.push(SpecSegment::Key(name));
    if e.len() > 0 {
        let k = e.last().0;
        let d = e.drop_last();
        lemma_unknown_not_under_field(ty, d, path, tag, m);
        let tail: Seq<SpecIssue> = if ty.field_spec(k) is None && tag != Some(k) {
            issue(path.push(SpecSegment::Key(k)), Code::UnknownField, msg_unknown_field(ty.name@, k))
        } else {
            Seq::empty()
        };
        if ty.field_spec(k) is None && tag != Some(k) {
            lemma_first_index(crate::schema::field_names(ty.fields@), k);
            assert(crate::schema::field_names(ty.fields@)[m] == name);
            assert(k != name);
            lemma_issue_below(path, SpecSegment::Key(k), Code::UnknownField, msg_unknown_field(ty.name@, k));
            assert(all_under(tail, path.push(SpecSegment::Key(k)))) by {
                let q = path.push(SpecSegment::Key(k));
                assert(q.take(q.len() as int) =~= q);
            }
            lemma_siblings_apart(tail, path, k, name);
        }
        let u = unknown_issues(ty, e, path, tag);
        let ud = unknown_issues(ty, d, path, tag);
        assert(u == ud + tail);
        assert forall|i: int| 0 <= i < u.len() implies !starts_with((#[trigger] u[i]).path, pn) by {
            if i < ud.len() {
                assert(u[i] == ud[i]);
            } else {
                assert(u[i] == tail[i - ud.len()]);
            }
        }
    }
}

/// The issues under field `m`'s key among the first `k` fields: none before
/// that field is reached, and its own issues after.
proof fn lemma_fields_under_one_key(
    schema: Schema,
    lim: Limits,
    ty: ObjectType,
    v: SpecValue,
    path: Seq<SpecSegment>,
    depth: nat,
    m: nat,
    k: nat,
)
    requires
        v is Object,
        field_names_distinct(ty),
        m < ty.fields@.len(),
        k <= ty.fields@.len(),
    ensures
        issues_under(
            fields_issues(schema, lim, ty, v, path, depth, k),
            path.push(SpecSegment::Key(ty.fields@[m as int].name@)),
        ) == if k <= m {
            Seq::<SpecIssue>::empty()
        } else {
            field_own(schema, lim, ty, v, path, depth, m)
        },
    decreases k,
{
    let pm = path.push(SpecSegment::Key(ty.fields@[m as int].name@));
    if k == 0 {
        lemma_keep_none(fields_issues(schema, lim, ty, v, path, depth, 0), pm);
    } else {
        let j = (k - 1) as nat;
        let before = fields_issues(schema, lim, ty, v, path, depth, j);
        let own = field_own(schema, lim, ty, v, path, depth, j);
        lemma_fields_under_one_key(schema, lim, ty, v, path, depth, m, j);
        assert(fields_issues(schema, lim, ty, v, path, depth, k) == before + own);
        lemma_keep_add(before, own, pm);
        lemma_own_under(schema, lim, ty, v, path, depth, j);
        if j == m {
            lemma_keep_all(own, pm);
        } else {
            let names = crate::schema::field_names(ty.fields@);
            assert(names[j as int] == ty.fields@[j as int].name@);
            assert(names[m as int] == ty.fields@[m as int].name@);
            lemma_siblings_apart(own, path, ty.fields@[j as int].name@, ty.fields@[m as int].name@);
            lemma_keep_none(own, pm);
        }
        assert(issues_under(before, pm) + Seq::<SpecIssue>::empty() =~= issues_under(before, pm));
        assert(Seq::<SpecIssue>::empty() + own =~= own);
    }
}

/// Each declared field owns the issues under its key: of everything an object
/// raises, the issues whose path starts with a field's key are exactly that
/// field's own, whatever its siblings or the unknown keys raise. A field
/// that is absent or null therefore raises at most its one presence issue.
pub proof fn law_a_field_owns_the_issues_under_its_key(
    schema: Schema,
    lim: Limits,
    ty: ObjectType,
    e: Seq<(Seq<char>, SpecValue)>,
    path: Seq<SpecSegment>,
    depth: nat,
    tag: Option<Seq<char>>,
    m: nat,
)
    requires
        depth <= lim.max_depth,
        e.len() <= lim.max_object_keys,
        field_names_distinct(ty),
        m < ty.fields@.len(),
    ensures
        ({
            let v = SpecValue::Object(e);
            let f = ty.fields@[m as int];
            let p = path.push(SpecSegment::Key(f.name@));
            let under = issues_under(object_issues(schema, lim, ty, v, path, depth, tag), p);
            &&& under == field_own(schema, lim, ty, v, path, depth, m)
            &&& slot_of(e, f.name@) is Absent ==> under == if f.presence.optional {
                Seq::<SpecIssue>::empty()
            } else {
                issue(p, Code::Required, msg_required(f.presence))
            }
            &&& slot_of(e, f.name@) is Null ==> under == if f.presence.nullable {
                Seq::<SpecIssue>::empty()
            } else {
                issue(p, Code::NullNotAllowed, msg_null(f.presence))
            }
        }),
{
    let v = SpecValue::Object(e);
    let n = ty.fields@.len();
    let f = ty.fields@[m as int];
    let p = path.push(SpecSegment::Key(f.name@));
    let fi = fields_issues(schema, lim, ty, v, path, depth, n);
    let rest: Seq<SpecIssue> = if ty.deny_unknown_fields {
        unknown_issues(ty, e, path, tag)
    } else {
        Seq::empty()
    };
    assert(object_issues(schema, lim, ty, v, path, depth, tag) == fi + rest);
    lemma_keep_add(fi, rest, p);
    lemma_fields_under_one_key(schema, lim, ty, v, path, depth, m, n);
    lemma_unknown_not_under_field(ty, e, path, tag, m as int);
    lemma_keep_none(rest, p);
    assert(issues_under(fi, p) + issues_under(rest, p) =~= issues_under(fi, p));
    law_absent_and_null_are_judged_separately(schema, lim, ty, v, path, depth, m + 1);
}

/// The first `k` declared fields' issues, each field's block in turn: the
/// issues of `whole` under that field's key.
pub open spec fn in_field_order(
    whole: Seq<SpecIssue>,
    ty: ObjectType,
    path: Seq<SpecSegment>,
    k: nat,
) -> Seq<SpecIssue>
    decreases k,
{
    if k == 0 || k > ty.fields@.len() {
        Seq::empty()
    } else {
        in_field_order(whole, ty, path, (k - 1) as nat) + issues_under(
            whole,
            path.push(SpecSegment::Key(ty.fields@[k - 1].name@)),
        )
    }
}

/// Issues come in a stable order: for each declared field, in declaration
/// order, every issue under that field's key, one field's subtree finished
/// before the next begins; then, where unknown keys are refused, one issue
/// per undeclared key, in ascending key order.
pub proof fn law_issues_come_field_by_field(
    schema: Schema,
    lim: Limits,
    ty: ObjectType,
    e: Seq<(Seq<char>, SpecValue)>,
    path: Seq<SpecSegment>,
    depth: nat,
    tag: Option<Seq<char>>,
)
    requires
        depth <= lim.max_depth,
        e.len() <= lim.max_object_keys,
        field_names_distinct(ty),
        keys_sorted(e),
    ensures
        ({
            let whole = object_issues(schema, lim, ty, SpecValue::Object(e), path, depth, tag);
            let unknown = unknown_issues(ty, e, path, tag);
            &&& whole == in_field_order(whole, ty, path, ty.fields@.len()) + if ty.deny_unknown_fields {
                unknown
            } else {
                Seq::<SpecIssue>::empty()
            }
            &&& forall|i: int, j: int|
                0 <= i < j < unknown.len() ==> key_lt(
                    issue_key(#[trigger] unknown[i]),
                    issue_key(#[trigger] unknown[j]),
                )
        }),
{
    let v = SpecValue::Object(e);
    let whole = object_issues(schema, lim, ty, v, path, depth, tag);
    lemma_fields_in_field_order(schema, lim, ty, e, path, depth, tag, ty.fields@.len());
    law_unknown_fields_come_in_key_order(ty, e, path, tag);
}

/// The two laws above, for a whole payload: validating an object against a
/// type reports, for each declared field in declaration order, exactly that
/// field's own issues under its key, then the unknown keys in key order.
pub proof fn law_validation_reports_each_field_under_its_key(
    schema: Schema,
    name: Seq<char>,
    e: Seq<(Seq<char>, SpecValue)>,
    limits: Limits,
    o: ObjectType,
)
    requires
        schema.object_spec(name) == Some(o),
        e.len() <= limits.max_object_keys,
        field_names_distinct(o),
        keys_sorted(e),
    ensures
        ({
            let whole = validation_issues(schema, name, SpecValue::Object(e), limits);
            let lim = Limits {
                max_depth: if limits.max_depth > MAX_DEPTH {
                    MAX_DEPTH
                } else {
                    limits.max_depth
                },
                ..limits
            };
            &&& whole == in_field_order(whole, o, Seq::empty(), o.fields@.len()) + if o.deny_unknown_fields {
                unknown_issues(o, e, Seq::empty(), None)
            } else {
                Seq::<SpecIssue>::empty()
            }
            &&& forall|m: nat|
                m < o.fields@.len() ==> #[trigger] issues_under(
                    whole,
                    seq![SpecSegment::Key(o.fields@[m as int].name@)],
                ) == field_own(schema, lim, o, SpecValue::Object(e), Seq::empty(), 0, m)
        }),
{
    let lim = Limits {
        max_depth: if limits.max_depth > MAX_DEPTH {
            MAX_DEPTH
        } else {
            limits.max_depth
        },
        ..limits
    };
    let root = Seq::<SpecSegment>::empty();
    let whole = validation_issues(schema, name, SpecValue::Object(e), limits);
    assert(whole == object_issues(schema, lim, o, SpecValue::Object(e), root, 0, None));
    law_issues_come_field_by_field(schema, lim, o, e, root, 0, None);
    assert forall|m: nat| m < o.fields@.len() implies #[trigger] issues_under(
        whole,
        seq![SpecSegment::Key(o.fields@[m as int].name@)],
    ) == field_own(schema, lim, o, SpecValue::Object(e), root, 0, m) by {
        assert(root.push(SpecSegment::Key(o.fields@[m as int].name@)) =~= seq![
            SpecSegment::Key(o.fields@[m as int].name@),
        ]);
        law_a_field_owns_the_issues_under_its_key(schema, lim, o, e, root, 0, None, m);
    }
}

proof fn lemma_fields_in_field_order(
    schema: Schema,
    lim: Limits,
    ty: ObjectType,
    e: Seq<(Seq<char>, SpecValue)>,
    path: Seq<SpecSegment>,
    depth: nat,
    tag: Option<Seq<char>>,
    k: nat,
)
    requires
        depth <= lim.max_depth,
        e.len() <= lim.max_object_keys,
        field_names_distinct(ty),
        k <= ty.fields@.len(),
    ensures
        fields_issues(schema, lim, ty, SpecValue::Object(e), path, depth, k) == in_field_order(
            object_issues(schema, lim, ty, SpecValue::Object(e), path, depth, tag),
            ty,
            path,
            k,
        ),
    decreases k,
{
    if k > 0 {
        let v = SpecValue::Object(e);
        let j = (k - 1) as nat;
        lemma_fields_in_field_order(schema, lim, ty, e, path, depth, tag, j);
        law_a_field_owns_the_issues_under_its_key(schema, lim, ty, e, path, depth, tag, j);
        let before = fields_issues(schema, lim, ty, v, path, depth, j);
        assert(fields_issues(schema, lim, ty, v, path, depth, k) == before + field_own(
            schema,
            lim,
            ty,
            v,
            path,
            depth,
            j,
        ));
    }
}

/// How high a caller sets `max_depth` does not matter past the engine's
/// ceiling: validating with the limits as given and as clamped reports the
/// same issues.
pub proof fn law_depth_is_capped_however_it_arrives(
    schema: Schema,
    name: Seq<char>,
    v: SpecValue,
    limits: Limits,
    clamped: Limits,
)
    requires
        clamped.max_depth == if limits.max_depth > MAX_DEPTH {
            MAX_DEPTH
        } else {
            limits.max_depth
        },
        clamped.max_items == limits.max_items,
        clamped.max_string_bytes == limits.max_string_bytes,
        clamped.max_object_keys == limits.max_object_keys,
    ensures
        clamped.max_depth <= MAX_DEPTH,
        validation_issues(schema, name, v, limits) == validation_issues(schema, name, v, clamped),
{
}

} // verus!
