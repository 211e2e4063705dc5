//! What a binding hands back once a payload has validated: the value rebuilt
//! for the host, with dates and wide integers in the host's own types.
//!
//! Stated once here, over plain values, so the bindings differ only where
//! their languages do. A binding turns an [`Out`] into its host's objects.

use vstd::prelude::*;

use crate::message::owned;
use crate::schema::{IntWidth, ObjectType, Schema, Type, UnionType};
use crate::value::{value_at, Slot, lemma_array_view, lemma_object_view, entries_view, find_entry, find_key, lemma_find_key, slot_of, Entry, Float, Int, SpecValue, Value};

verus! {

/// A validated value as a host receives it.
#[derive(Debug, PartialEq)]
pub enum Out {
    Null,
    Bool(bool),
    /// An integer the host's ordinary number type holds.
    Number(Int),
    /// A 64-bit integer, for a host whose ordinary number cannot hold one.
    BigInt(Int),
    Float(Float),
    Text(String),
    /// A calendar date, as its `YYYY-MM-DD` text.
    Date(String),
    /// An instant, as the RFC 3339 text it arrived in.
    Instant(String),
    List(Vec<Out>),
    /// Keys in the order the host object receives them.
    Record(Vec<OutField>),
}

#[derive(Debug, PartialEq)]
pub struct OutField {
    pub key: String,
    pub value: Out,
}

/// An output value as the contracts speak of it.
pub enum SpecOut {
    Null,
    Bool(bool),
    Number(Int),
    BigInt(Int),
    Float(Seq<char>, bool),
    Text(Seq<char>),
    Date(Seq<char>),
    Instant(Seq<char>),
    List(Seq<SpecOut>),
    Record(Seq<(Seq<char>, SpecOut)>),
}

impl Out {
    pub open spec fn view(&self) -> SpecOut
        decreases self,
    {
        match self {
            Out::Null => SpecOut::Null,
            Out::Bool(b) => SpecOut::Bool(*b),
            Out::Number(n) => SpecOut::Number(*n),
            Out::BigInt(n) => SpecOut::BigInt(*n),
            Out::Float(f) => SpecOut::Float(f.text@, f.finite),
            Out::Text(s) => SpecOut::Text(s@),
            Out::Date(s) => SpecOut::Date(s@),
            Out::Instant(s) => SpecOut::Instant(s@),
            Out::List(items) => SpecOut::List(
                Seq::new(
                    items@.len(),
                    |i: int|
                        if 0 <= i < items@.len() {
                            items@[i].view()
                        } else {
                            SpecOut::Null
                        },
                ),
            ),
            Out::Record(fields) => SpecOut::Record(
                Seq::new(
                    fields@.len(),
                    |i: int|
                        if 0 <= i < fields@.len() {
                            (fields@[i].key@, fields@[i].value.view())
                        } else {
                            (Seq::empty(), SpecOut::Null)
                        },
                ),
            ),
        }
    }
}

pub open spec fn outs_view(v: Seq<Out>) -> Seq<SpecOut> {
    Seq::new(v.len(), |i: int| v[i].view())
}

pub open spec fn out_fields_view(v: Seq<OutField>) -> Seq<(Seq<char>, SpecOut)> {
    Seq::new(v.len(), |i: int| (v[i].key@, v[i].value.view()))
}

proof fn lemma_list_view(v: Vec<Out>)
    ensures
        Out::List(v).view() == SpecOut::List(outs_view(v@)),
{
    assert(Out::List(v).view()->List_0 =~= outs_view(v@));
}

proof fn lemma_record_view(v: Vec<OutField>)
    ensures
        Out::Record(v).view() == SpecOut::Record(out_fields_view(v@)),
{
    assert(Out::Record(v).view()->Record_0 =~= out_fields_view(v@));
}

// ------------------------------------------------------------ plain values

/// A value with no declared type to say otherwise: as it is, except that
/// what a host cannot hold (an integer past 64 bits, one already inexact, a
/// value of no known kind) comes back as null. Validation has refused those
/// wherever a type was declared.
pub open spec fn plain_out(v: SpecValue) -> SpecOut
    decreases v,
{
    match v {
        SpecValue::Bool(b) => SpecOut::Bool(b),
        SpecValue::Int(n) => SpecOut::Number(n),
        SpecValue::Float(t, finite) => SpecOut::Float(t, finite),
        SpecValue::Str(s) => SpecOut::Text(s),
        SpecValue::Array(items) => SpecOut::List(
            Seq::new(
                items.len(),
                |i: int|
                    if 0 <= i < items.len() {
                        plain_out(items[i])
                    } else {
                        SpecOut::Null
                    },
            ),
        ),
        SpecValue::Object(e) => SpecOut::Record(
            Seq::new(
                e.len(),
                |i: int|
                    if 0 <= i < e.len() {
                        (e[i].0, plain_out(e[i].1))
                    } else {
                        (Seq::empty(), SpecOut::Null)
                    },
            ),
        ),
        _ => SpecOut::Null,
    }
}

/// [`plain_out`].
pub fn plain(v: &Value) -> (r: Out)
    ensures
        r.view() == plain_out(v.view()),
    decreases v,
{
    match v {
        Value::Bool(b) => Out::Bool(*b),
        Value::Int(n) => Out::Number(*n),
        Value::Float(f) => Out::Float(Float { text: f.text.clone(), finite: f.finite }),
        Value::String(s) => Out::Text(s.clone()),
        Value::Array(items) => {
            let n = items.len();
            let mut out: Vec<Out> = Vec::new();
            let mut i: usize = 0;
            while i < n
                invariant
                    n == items@.len(),
                    i <= n,
                    out@.len() == i,
                    decreases_to!(*v => *items),
                    forall|j: int| 0 <= j < i ==> (#[trigger] out@[j]).view() == plain_out(items@[j].view()),
                decreases n - i,
            {
                proof {
                    assert(decreases_to!(*items => items@));
                    assert(decreases_to!(items@ => items@[i as int]));
                }
                out.push(plain(&items[i]));
                i = i + 1;
            }
            proof {
                lemma_list_view(out);
                lemma_array_view(*v);
                let a = v.view()->Array_0;
                assert(outs_view(out@) =~= Seq::new(
                    a.len(),
                    |i: int|
                        if 0 <= i < a.len() {
                            plain_out(a[i])
                        } else {
                            SpecOut::Null
                        },
                ));
                assert(plain_out(v.view())->List_0 =~= outs_view(out@));
            }
            Out::List(out)
        },
        Value::Object(entries) => {
            let n = entries.len();
            let mut out: Vec<OutField> = Vec::new();
            let mut i: usize = 0;
            while i < n
                invariant
                    n == entries@.len(),
                    i <= n,
                    out@.len() == i,
                    decreases_to!(*v => *entries),
                    forall|j: int|
                        0 <= j < i ==> (#[trigger] out@[j]).key@ == entries@[j].key@
                            && out@[j].value.view() == plain_out(entries@[j].value.view()),
                decreases n - i,
            {
                proof {
                    assert(decreases_to!(*entries => entries@));
                    assert(decreases_to!(entries@ => entries@[i as int]));
                    assert(decreases_to!(entries@[i as int] => entries@[i as int].value));
                }
                let value = plain(&entries[i].value);
                out.push(OutField { key: entries[i].key.clone(), value });
                i = i + 1;
            }
            proof {
                lemma_record_view(out);
                lemma_object_view(*v);
                let e = v.view()->Object_0;
                assert(out_fields_view(out@) =~= Seq::new(
                    e.len(),
                    |i: int|
                        if 0 <= i < e.len() {
                            (e[i].0, plain_out(e[i].1))
                        } else {
                            (Seq::empty(), SpecOut::Null)
                        },
                ));
                assert(plain_out(v.view())->Record_0 =~= out_fields_view(out@));
            }
            Out::Record(out)
        },
        _ => Out::Null,
    }
}

// ---------------------------------------------------------------- shapes

/// The object type a value is shaped like, and the tag key to carry over.
/// A `schema` fixes it; a `union` has none until the value's tag picks a
/// variant, which is why this reads the value.
pub open spec fn shape_spec(schema: Schema, name: Seq<char>, v: SpecValue) -> Option<
    (ObjectType, Option<Seq<char>>),
> {
    match schema.object_spec(name) {
        Some(o) => Some((o, None)),
        None => match schema.union_spec(name) {
            None => None,
            Some(u) => match v {
                SpecValue::Object(e) => match slot_of(e, u.tag@) {
                    Slot::Present(SpecValue::Str(t)) => match u.variant_spec(t) {
                        Some(var) => match schema.object_spec(var.schema_name@) {
                            Some(o) => Some((o, Some(u.tag@))),
                            None => None,
                        },
                        None => None,
                    },
                    _ => None,
                },
                _ => None,
            },
        },
    }
}

/// [`shape_spec`].
pub fn shape<'s>(schema: &'s Schema, name: &str, v: &Value) -> (r: Option<(&'s ObjectType, Option<&'s str>)>)
    ensures
        match (r, shape_spec(*schema, name@, v.view())) {
            (Some((o, None)), Some((p, None))) => *o == p,
            (Some((o, Some(t))), Some((p, Some(u)))) => *o == p && t@ == u,
            (None, None) => true,
            _ => false,
        },
{
    if let Some(o) = schema.get(name) {
        return Some((o, None));
    }
    let u = match schema.union(name) {
        Some(u) => u,
        None => {
            return None;
        },
    };
    let entries = match v {
        Value::Object(entries) => entries,
        _ => {
            return None;
        },
    };
    proof {
        lemma_object_view(*v);
    }
    let found = match Slot::read(entries, u.tag.as_str()) {
        Slot::Present(Value::String(t)) => t,
        _ => {
            return None;
        },
    };
    let var = match u.variant(found.as_str()) {
        Some(var) => var,
        None => {
            return None;
        },
    };
    match schema.get(var.schema_name.as_str()) {
        Some(o) => Some((o, Some(u.tag.as_str()))),
        None => None,
    }
}

// ----------------------------------------------------------- JavaScript

/// A value under its declared type, for JavaScript: an instant becomes a
/// `Date`, and a 64-bit integer a `bigint`, since a `number` cannot hold
/// one. A calendar date stays its text: JavaScript has no date-only type,
/// and passing one through an instant is how a day goes missing.
pub open spec fn js_value(schema: Schema, ty: Type, v: SpecValue) -> SpecOut
    decreases v, 3nat, 0nat,
{
    match ty {
        Type::DateTime => match v {
            SpecValue::Str(s) => SpecOut::Instant(s),
            _ => plain_out(v),
        },
        Type::Object(o) => js_object(schema, *o, v, None),
        Type::Ref(name) => match shape_spec(schema, name@, v) {
            Some((o, tag)) => js_object(schema, o, v, tag),
            None => plain_out(v),
        },
        Type::Array { item, .. } => match v {
            SpecValue::Array(items) => SpecOut::List(js_items(schema, *item, v, items.len())),
            _ => plain_out(v),
        },
        Type::Int(it) => match v {
            SpecValue::Int(n) => if it.width == IntWidth::W64 {
                SpecOut::BigInt(n)
            } else {
                SpecOut::Number(n)
            },
            _ => plain_out(v),
        },
        _ => plain_out(v),
    }
}

/// The first `k` elements of an array, each under the element type.
pub open spec fn js_items(schema: Schema, item: Type, v: SpecValue, k: nat) -> Seq<SpecOut>
    decreases v, 1nat, k,
{
    if k == 0 || !(v is Array) || k > v->Array_0.len() {
        Seq::empty()
    } else {
        js_items(schema, item, v, (k - 1) as nat).push(js_value(schema, item, v->Array_0[k - 1]))
    }
}

/// An object for JavaScript: the union's tag first when there is one, since
/// no field of the variant declares it, then each declared field that is
/// present, in declaration order. An absent key stays absent.
pub open spec fn js_object(schema: Schema, o: ObjectType, v: SpecValue, tag: Option<Seq<char>>) -> SpecOut
    decreases v, 2nat, 0nat,
{
    let e = match v {
        SpecValue::Object(e) => e,
        _ => Seq::empty(),
    };
    let head = match tag {
        Some(t) => match slot_of(e, t) {
            Slot::Present(w) => seq![(t, plain_out(w))],
            _ => Seq::empty(),
        },
        None => Seq::empty(),
    };
    SpecOut::Record(head + js_fields(schema, o, v, o.fields@.len()))
}

/// The first `k` declared fields of an object, for JavaScript.
pub open spec fn js_fields(schema: Schema, o: ObjectType, v: SpecValue, k: nat) -> Seq<
    (Seq<char>, SpecOut),
>
    decreases v, 1nat, k,
{
    if k == 0 || !(v is Object) || k > o.fields@.len() {
        Seq::empty()
    } else {
        let f = o.fields@[k - 1];
        let e = v->Object_0;
        let before = js_fields(schema, o, v, (k - 1) as nat);
        match find_key(e, f.name@) {
            None => before,
            Some(i) => if !(0 <= i < e.len()) {
                before
            } else if e[i].1 is Null {
                before.push((f.name@, SpecOut::Null))
            } else {
                before.push((f.name@, js_value(schema, f.ty, e[i].1)))
            },
        }
    }
}

/// What a JavaScript binding hands back for a value that validated as the
/// named type; `None` only where the name or a union's tag resolves to no
/// object type, which validation has already reported.
pub open spec fn js_output_spec(schema: Schema, name: Seq<char>, v: SpecValue) -> Option<SpecOut> {
    match shape_spec(schema, name, v) {
        Some((o, tag)) => Some(js_object(schema, o, v, tag)),
        None => None,
    }
}

pub open spec fn str_opt(t: Option<&str>) -> Option<Seq<char>> {
    match t {
        Some(s) => Some(s@),
        None => None,
    }
}

proof fn lemma_out_fields_push(v: Seq<OutField>, x: OutField)
    ensures
        out_fields_view(v.push(x)) == out_fields_view(v).push((x.key@, x.value.view())),
{
    assert(out_fields_view(v.push(x)) =~= out_fields_view(v).push((x.key@, x.value.view())));
}

proof fn lemma_outs_push(v: Seq<Out>, x: Out)
    ensures
        outs_view(v.push(x)) == outs_view(v).push(x.view()),
{
    assert(outs_view(v.push(x)) =~= outs_view(v).push(x.view()));
}

/// [`js_value`].
fn js_value_out(schema: &Schema, ty: &Type, v: &Value) -> (r: Out)
    ensures
        r.view() == js_value(*schema, *ty, v.view()),
    decreases v, 3nat,
{
    match ty {
        Type::DateTime => match v {
            Value::String(s) => Out::Instant(s.clone()),
            _ => plain(v),
        },
        Type::Object(o) => js_object_out(schema, o, v, None),
        Type::Ref(name) => match shape(schema, name.as_str(), v) {
            Some((o, tag)) => js_object_out(schema, o, v, tag),
            None => plain(v),
        },
        Type::Array { item, .. } => match v {
            Value::Array(items) => {
                proof {
                    lemma_array_view(*v);
                }
                let n = items.len();
                let mut out: Vec<Out> = Vec::new();
                let mut k: usize = 0;
                while k < n
                    invariant
                        n == items@.len(),
                        k <= n,
                        v.view() is Array,
                        v.view()->Array_0.len() == n,
                        forall|j: int| 0 <= j < n ==> v.view()->Array_0[j] == (#[trigger] items@[j]).view(),
                        decreases_to!(*v => *items),
                        outs_view(out@) == js_items(*schema, **item, v.view(), k as nat),
                    decreases n - k,
                {
                    proof {
                        assert(decreases_to!(*items => items@));
                        assert(decreases_to!(items@ => items@[k as int]));
                    }
                    let x = js_value_out(schema, item, &items[k]);
                    proof {
                        lemma_outs_push(out@, x);
                    }
                    out.push(x);
                    k = k + 1;
                }
                proof {
                    lemma_list_view(out);
                }
                Out::List(out)
            },
            _ => plain(v),
        },
        Type::Int(it) => match v {
            Value::Int(n) => match it.width {
                IntWidth::W64 => Out::BigInt(*n),
                _ => Out::Number(*n),
            },
            _ => plain(v),
        },
        _ => plain(v),
    }
}

/// [`js_object`].
fn js_object_out(schema: &Schema, o: &ObjectType, v: &Value, tag: Option<&str>) -> (r: Out)
    ensures
        r.view() == js_object(*schema, *o, v.view(), str_opt(tag)),
    decreases v, 2nat,
{
    let mut out: Vec<OutField> = Vec::new();
    match v {
        Value::Object(entries) => {
            proof {
                lemma_object_view(*v);
            }
            let ghost e = entries_view(entries@);
            match tag {
                Some(t) => match Slot::read(entries, t) {
                    Slot::Present(w) => {
                        let x = OutField { key: owned(t), value: plain(w) };
                        proof {
                            lemma_out_fields_push(out@, x);
                        }
                        out.push(x);
                    },
                    _ => {},
                },
                None => {},
            }
            let ghost head = out_fields_view(out@);
            assert(head =~= match str_opt(tag) {
                Some(t) => match slot_of(e, t) {
                    Slot::Present(w) => seq![(t, plain_out(w))],
                    _ => Seq::empty(),
                },
                None => Seq::empty(),
            });
            let n = o.fields.len();
            let mut k: usize = 0;
            while k < n
                invariant
                    n == o.fields@.len(),
                    k <= n,
                    e == entries_view(entries@),
                    v.view() == SpecValue::Object(e),
                    decreases_to!(*v => *entries),
                    out_fields_view(out@) == head + js_fields(*schema, *o, v.view(), k as nat),
                decreases n - k,
            {
                let field = &o.fields[k];
                match find_entry(entries, field.name.as_str()) {
                    None => {},
                    Some(i) => {
                        let x = &entries[i].value;
                        proof {
                            assert(decreases_to!(*entries => entries@));
                            assert(decreases_to!(entries@ => entries@[i as int]));
                            assert(decreases_to!(entries@[i as int] => entries@[i as int].value));
                            assert(e[i as int].1 == x.view());
                        }
                        let value = match x {
                            Value::Null => Out::Null,
                            _ => js_value_out(schema, &field.ty, x),
                        };
                        let item = OutField { key: field.name.clone(), value };
                        proof {
                            lemma_out_fields_push(out@, item);
                        }
                        out.push(item);
                    },
                }
                proof {
                    assert(head + js_fields(*schema, *o, v.view(), (k + 1) as nat) =~= out_fields_view(out@));
                }
                k = k + 1;
            }
        },
        _ => {},
    }
    proof {
        lemma_record_view(out);
        assert(js_object(*schema, *o, v.view(), str_opt(tag))->Record_0 =~= out_fields_view(out@));
    }
    Out::Record(out)
}

/// What a JavaScript binding hands back for a value that validated as the
/// named type.
pub fn js_output(schema: &Schema, name: &str, v: &Value) -> (r: Option<Out>)
    ensures
        match (r, js_output_spec(*schema, name@, v.view())) {
            (Some(a), Some(b)) => a.view() == b,
            (None, None) => true,
            _ => false,
        },
{
    match shape(schema, name, v) {
        Some((o, tag)) => Some(js_object_out(schema, o, v, tag)),
        None => None,
    }
}

// ---------------------------------------------------------------- Python

/// A value under its declared type, for Python: a calendar date becomes a
/// `datetime.date` and an instant a `datetime.datetime`; integers of every
/// width are Python `int`s.
pub open spec fn py_value(schema: Schema, ty: Type, v: SpecValue) -> SpecOut
    decreases v, 3nat, 0nat,
{
    if v is Null {
        SpecOut::Null
    } else {
        match ty {
            Type::Date => match v {
                SpecValue::Str(s) => SpecOut::Date(s),
                _ => plain_out(v),
            },
            Type::DateTime => match v {
                SpecValue::Str(s) => SpecOut::Instant(s),
                _ => plain_out(v),
            },
            Type::Array { item, .. } => match v {
                SpecValue::Array(items) => SpecOut::List(py_items(schema, *item, v, items.len())),
                _ => plain_out(v),
            },
            Type::Object(o) => py_object(schema, *o, v),
            Type::Ref(name) => match schema.object_spec(name@) {
                Some(o) => py_object(schema, o, v),
                None => plain_out(v),
            },
            _ => plain_out(v),
        }
    }
}

/// The first `k` elements of an array, each under the element type.
pub open spec fn py_items(schema: Schema, item: Type, v: SpecValue, k: nat) -> Seq<SpecOut>
    decreases v, 1nat, k,
{
    if k == 0 || !(v is Array) || k > v->Array_0.len() {
        Seq::empty()
    } else {
        py_items(schema, item, v, (k - 1) as nat).push(py_value(schema, item, v->Array_0[k - 1]))
    }
}

/// An object for Python: each declared field whose key is present, null
/// included, in declaration order; then, unless the type denies unknown
/// fields, every other key as it is, in key order. An absent key stays
/// absent, which is how `"bio" in result` reads it.
pub open spec fn py_object(schema: Schema, o: ObjectType, v: SpecValue) -> SpecOut
    decreases v, 2nat, 0nat,
{
    match v {
        SpecValue::Object(e) => SpecOut::Record(
            py_fields(schema, o, v, o.fields@.len()) + if o.deny_unknown_fields {
                Seq::empty()
            } else {
                py_extras(o, e, e.len())
            },
        ),
        _ => SpecOut::Record(Seq::empty()),
    }
}

/// The first `k` declared fields of an object, for Python.
pub open spec fn py_fields(schema: Schema, o: ObjectType, v: SpecValue, k: nat) -> Seq<
    (Seq<char>, SpecOut),
>
    decreases v, 1nat, k,
{
    if k == 0 || !(v is Object) || k > o.fields@.len() {
        Seq::empty()
    } else {
        let f = o.fields@[k - 1];
        let e = v->Object_0;
        let before = py_fields(schema, o, v, (k - 1) as nat);
        match find_key(e, f.name@) {
            None => before,
            Some(i) => if !(0 <= i < e.len()) {
                before
            } else {
                before.push((f.name@, py_value(schema, f.ty, e[i].1)))
            },
        }
    }
}

/// Among the first `k` entries, those no field declares, as they are.
pub open spec fn py_extras(o: ObjectType, e: Seq<(Seq<char>, SpecValue)>, k: nat) -> Seq<
    (Seq<char>, SpecOut),
>
    decreases k,
{
    if k == 0 || k > e.len() {
        Seq::empty()
    } else {
        let before = py_extras(o, e, (k - 1) as nat);
        if o.field_spec(e[k - 1].0) is Some {
            before
        } else {
            before.push((e[k - 1].0, plain_out(e[k - 1].1)))
        }
    }
}

/// [`py_value`].
fn py_value_out(schema: &Schema, ty: &Type, v: &Value) -> (r: Out)
    ensures
        r.view() == py_value(*schema, *ty, v.view()),
    decreases v, 3nat,
{
    if let Value::Null = v {
        return Out::Null;
    }
    match ty {
        Type::Date => match v {
            Value::String(s) => Out::Date(s.clone()),
            _ => plain(v),
        },
        Type::DateTime => match v {
            Value::String(s) => Out::Instant(s.clone()),
            _ => plain(v),
        },
        Type::Array { item, .. } => match v {
            Value::Array(items) => {
                proof {
                    lemma_array_view(*v);
                }
                let n = items.len();
                let mut out: Vec<Out> = Vec::new();
                let mut k: usize = 0;
                while k < n
                    invariant
                        n == items@.len(),
                        k <= n,
                        v.view() is Array,
                        v.view()->Array_0.len() == n,
                        forall|j: int| 0 <= j < n ==> v.view()->Array_0[j] == (#[trigger] items@[j]).view(),
                        decreases_to!(*v => *items),
                        outs_view(out@) == py_items(*schema, **item, v.view(), k as nat),
                    decreases n - k,
                {
                    proof {
                        assert(decreases_to!(*items => items@));
                        assert(decreases_to!(items@ => items@[k as int]));
                    }
                    let x = py_value_out(schema, item, &items[k]);
                    proof {
                        lemma_outs_push(out@, x);
                    }
                    out.push(x);
                    k = k + 1;
                }
                proof {
                    lemma_list_view(out);
                }
                Out::List(out)
            },
            _ => plain(v),
        },
        Type::Object(o) => py_object_out(schema, o, v),
        Type::Ref(name) => match schema.get(name.as_str()) {
            Some(o) => py_object_out(schema, o, v),
            None => plain(v),
        },
        _ => plain(v),
    }
}

/// [`py_object`].
fn py_object_out(schema: &Schema, o: &ObjectType, v: &Value) -> (r: Out)
    ensures
        r.view() == py_object(*schema, *o, v.view()),
    decreases v, 2nat,
{
    let mut out: Vec<OutField> = Vec::new();
    match v {
        Value::Object(entries) => {
            proof {
                lemma_object_view(*v);
            }
            let ghost e = entries_view(entries@);
            let n = o.fields.len();
            let mut k: usize = 0;
            assert(out_fields_view(out@) =~= Seq::empty());
            while k < n
                invariant
                    n == o.fields@.len(),
                    k <= n,
                    e == entries_view(entries@),
                    v.view() == SpecValue::Object(e),
                    decreases_to!(*v => *entries),
                    out_fields_view(out@) == py_fields(*schema, *o, v.view(), k as nat),
                decreases n - k,
            {
                let field = &o.fields[k];
                match find_entry(entries, field.name.as_str()) {
                    None => {},
                    Some(i) => {
                        let x = &entries[i].value;
                        proof {
                            assert(decreases_to!(*entries => entries@));
                            assert(decreases_to!(entries@ => entries@[i as int]));
                            assert(decreases_to!(entries@[i as int] => entries@[i as int].value));
                            assert(e[i as int].1 == x.view());
                        }
                        let value = py_value_out(schema, &field.ty, x);
                        let item = OutField { key: field.name.clone(), value };
                        proof {
                            lemma_out_fields_push(out@, item);
                        }
                        out.push(item);
                    },
                }
                k = k + 1;
            }
            let ghost declared = out_fields_view(out@);
            if !o.deny_unknown_fields {
                let m = entries.len();
                let mut j: usize = 0;
                while j < m
                    invariant
                        m == entries@.len(),
                        j <= m,
                        e == entries_view(entries@),
                        out_fields_view(out@) == declared + py_extras(*o, e, j as nat),
                    decreases m - j,
                {
                    let entry = &entries[j];
                    if o.field(entry.key.as_str()).is_none() {
                        let item = OutField { key: entry.key.clone(), value: plain(&entry.value) };
                        proof {
                            lemma_out_fields_push(out@, item);
                        }
                        out.push(item);
                    }
                    j = j + 1;
                }
            }
            proof {
                if o.deny_unknown_fields {
                    assert(declared + Seq::<(Seq<char>, SpecOut)>::empty() =~= declared);
                }
                assert(e.len() == entries@.len());
            }
        },
        _ => {
            assert(out_fields_view(out@) =~= Seq::empty());
        },
    }
    proof {
        lemma_record_view(out);
        assert(py_object(*schema, *o, v.view())->Record_0 =~= out_fields_view(out@));
    }
    Out::Record(out)
}

/// What the Python binding hands back for a value that validated as the
/// named object type.
pub fn py_output(schema: &Schema, name: &str, v: &Value) -> (r: Option<Out>)
    ensures
        match (r, schema.object_spec(name@)) {
            (Some(a), Some(o)) => a.view() == py_object(*schema, o, v.view()),
            (None, None) => true,
            _ => false,
        },
{
    match schema.get(name) {
        Some(o) => Some(py_object_out(schema, o, v)),
        None => None,
    }
}


// ------------------------------------------------------------------ laws

/// Whether an output's entries keep the input's absence and null: no entry
/// for a key the input did not send, and null for a key it sent as null.
pub open spec fn keeps_absence_and_null(out: Seq<(Seq<char>, SpecOut)>, e: Seq<(Seq<char>, SpecValue)>) -> bool {
    forall|i: int|
        0 <= i < out.len() ==> {
            &&& !(slot_of(e, (#[trigger] out[i]).0) is Absent)
            &&& (slot_of(e, out[i].0) is Null ==> out[i].1 is Null)
        }
}

proof fn lemma_js_fields_keep(schema: Schema, o: ObjectType, v: SpecValue, k: nat)
    requires
        v is Object,
    ensures
        keeps_absence_and_null(js_fields(schema, o, v, k), v->Object_0),
    decreases k,
{
    if k > 0 && k <= o.fields@.len() {
        lemma_js_fields_keep(schema, o, v, (k - 1) as nat);
        let e = v->Object_0;
        let f = o.fields@[k - 1];
        lemma_find_key(e, f.name@);
    }
}

proof fn lemma_py_fields_keep(schema: Schema, o: ObjectType, v: SpecValue, k: nat)
    requires
        v is Object,
    ensures
        keeps_absence_and_null(py_fields(schema, o, v, k), v->Object_0),
    decreases k,
{
    if k > 0 && k <= o.fields@.len() {
        lemma_py_fields_keep(schema, o, v, (k - 1) as nat);
        let e = v->Object_0;
        let f = o.fields@[k - 1];
        lemma_find_key(e, f.name@);
        if let Some(i) = find_key(e, f.name@) {
            if e[i].1 is Null {
                assert(py_value(schema, f.ty, e[i].1) is Null);
            }
        }
    }
}

/// A host never sees a declared field the payload did not send, and sees
/// null where the payload sent null: for JavaScript, `"bio" in user` is false
/// exactly when `bio` was absent.
pub proof fn law_javascript_keeps_absence_and_null(schema: Schema, o: ObjectType, v: SpecValue)
    requires
        v is Object,
    ensures
        keeps_absence_and_null(js_fields(schema, o, v, o.fields@.len()), v->Object_0),
{
    lemma_js_fields_keep(schema, o, v, o.fields@.len());
}

/// The same for Python: `"bio" in result` is false exactly when `bio` was
/// absent, and a null comes back as `None`.
pub proof fn law_python_keeps_absence_and_null(schema: Schema, o: ObjectType, v: SpecValue)
    requires
        v is Object,
    ensures
        keeps_absence_and_null(py_fields(schema, o, v, o.fields@.len()), v->Object_0),
{
    lemma_py_fields_keep(schema, o, v, o.fields@.len());
}


/// A calendar date never becomes a JavaScript `Date`: whatever it holds, a
/// `Date` field comes back as it arrived.
pub proof fn law_a_date_never_becomes_an_instant_in_javascript(schema: Schema, v: SpecValue)
    ensures
        js_value(schema, Type::Date, v) == plain_out(v),
        !(js_value(schema, Type::Date, v) is Instant),
{
}

/// A 64-bit integer is a `bigint` in JavaScript, never a `number`.
pub proof fn law_a_64_bit_integer_is_a_bigint_in_javascript(schema: Schema, signed: bool, n: Int)
    ensures
        js_value(
            schema,
            Type::Int(crate::schema::IntType { width: IntWidth::W64, signed }),
            SpecValue::Int(n),
        ) == SpecOut::BigInt(n),
{
}

proof fn lemma_js_items(schema: Schema, item: Type, xs: Seq<SpecValue>, k: nat)
    requires
        k <= xs.len(),
    ensures
        js_items(schema, item, SpecValue::Array(xs), k) == Seq::new(
            k,
            |i: int| js_value(schema, item, xs[i]),
        ),
    decreases k,
{
    if k > 0 {
        lemma_js_items(schema, item, xs, (k - 1) as nat);
    }
    assert(js_items(schema, item, SpecValue::Array(xs), k) =~= Seq::new(
        k,
        |i: int| js_value(schema, item, xs[i]),
    ));
}

proof fn lemma_py_items(schema: Schema, item: Type, xs: Seq<SpecValue>, k: nat)
    requires
        k <= xs.len(),
    ensures
        py_items(schema, item, SpecValue::Array(xs), k) == Seq::new(
            k,
            |i: int| py_value(schema, item, xs[i]),
        ),
    decreases k,
{
    if k > 0 {
        lemma_py_items(schema, item, xs, (k - 1) as nat);
    }
    assert(py_items(schema, item, SpecValue::Array(xs), k) =~= Seq::new(
        k,
        |i: int| py_value(schema, item, xs[i]),
    ));
}

/// An array goes to its host element by element, each under the element
/// type, in order: in JavaScript every element of a `[u64]` or `[i64]` is a
/// `bigint` and every string of a `[DateTime]` a `Date`; in Python every
/// string of a `[Date]` is a date and of a `[DateTime]` a datetime.
pub proof fn law_an_array_goes_out_element_by_element(
    schema: Schema,
    item: Type,
    item_nullable: bool,
    xs: Seq<SpecValue>,
)
    ensures
        ({
            let ty = Type::Array { item: Box::new(item), item_nullable };
            let js = js_value(schema, ty, SpecValue::Array(xs));
            let py = py_value(schema, ty, SpecValue::Array(xs));
            &&& js == SpecOut::List(Seq::new(xs.len(), |i: int| js_value(schema, item, xs[i])))
            &&& py == SpecOut::List(Seq::new(xs.len(), |i: int| py_value(schema, item, xs[i])))
            &&& forall|i: int|
                0 <= i < xs.len() ==> {
                    &&& (item matches Type::Int(t) && t.width == IntWidth::W64 && #[trigger] xs[i] is Int)
                        ==> js->List_0[i] == SpecOut::BigInt(xs[i]->Int_0)
                    &&& (item is DateTime && xs[i] is Str) ==> js->List_0[i] == SpecOut::Instant(
                        xs[i]->Str_0,
                    ) && py->List_0[i] == SpecOut::Instant(xs[i]->Str_0)
                    &&& (item is Date && xs[i] is Str) ==> py->List_0[i] == SpecOut::Date(
                        xs[i]->Str_0,
                    )
                }
        }),
{
    lemma_js_items(schema, item, xs, xs.len());
    lemma_py_items(schema, item, xs, xs.len());
}

/// A union's tag is carried through to the value handed back, first: a
/// binding that returned the variant's declared fields alone would hand back
/// an object missing its own discriminant.
pub proof fn law_the_tag_is_carried_through(schema: Schema, name: Seq<char>, v: SpecValue)
    requires
        schema.object_spec(name) is None,
        shape_spec(schema, name, v) is Some,
    ensures
        ({
            let u = schema.union_spec(name)->0;
            let e = v->Object_0;
            &&& js_output_spec(schema, name, v) matches Some(SpecOut::Record(fields))
            &&& fields.len() > 0
            &&& fields[0] == (u.tag@, plain_out(value_at(e, u.tag@)->0))
        }),
{
    let u = schema.union_spec(name)->0;
    let e = v->Object_0;
    let (o, tag) = shape_spec(schema, name, v)->0;
    assert(tag == Some(u.tag@));
    let head = seq![(u.tag@, plain_out(value_at(e, u.tag@)->0))];
    assert(js_object(schema, o, v, tag) == SpecOut::Record(head + js_fields(schema, o, v, o.fields@.len())));
}

} // verus!
