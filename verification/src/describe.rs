//! The schema as plain data, for tooling that generates a host language's
//! types. It carries shape, not behaviour: each binding renders its own
//! language's types from this, with that language's spelling of the keys.

use vstd::prelude::*;
use vstd::seq_lib::to_multiset_insert;

use crate::format::format_name;
use crate::schema::{
    int_type_name, Field, IntWidth, ObjectType, Rule, Schema, Type, UnionType, Variant,
};
use crate::message::owned;
use crate::text::{key_lt, lemma_key_order, str_less};

verus! {

// ------------------------------------------------------------ name order

/// The contents of a list of strings.
pub open spec fn views(v: Seq<String>) -> Seq<Seq<char>> {
    Seq::new(v.len(), |i: int| v[i]@)
}

proof fn lemma_views_push(v: Seq<String>, x: String)
    ensures
        views(v.push(x)) == views(v).push(x@),
{
    assert(views(v.push(x)) =~= views(v).push(x@));
}

proof fn lemma_take_push<A>(s: Seq<A>, i: int)
    requires
        0 <= i < s.len(),
    ensures
        s.take(i + 1) == s.take(i).push(s[i]),
{
    assert(s.take(i + 1) =~= s.take(i).push(s[i]));
}

/// Ascending in the order `String` sorts in; equal names may sit side by side.
pub open spec fn in_key_order(s: Seq<Seq<char>>) -> bool {
    forall|i: int, j: int| 0 <= i < j < s.len() ==> !key_lt(#[trigger] s[j], #[trigger] s[i])
}

/// The same names, in ascending order.
pub fn sort_names(names: &Vec<String>) -> (r: Vec<String>)
    ensures
        in_key_order(views(r@)),
        views(r@).to_multiset() == views(names@).to_multiset(),
{
    let n = names.len();
    let mut out: Vec<String> = Vec::new();
    let mut k: usize = 0;
    assert(views(out@) =~= views(names@).take(0));
    while k < n
        invariant
            n == names@.len(),
            k <= n,
            in_key_order(views(out@)),
            views(out@).to_multiset() == views(names@).take(k as int).to_multiset(),
        decreases n - k,
    {
        let x = names[k].clone();
        let m = out.len();
        let mut p: usize = 0;
        while p < m && !str_less(x.as_str(), out[p].as_str())
            invariant
                m == out@.len(),
                k < n == names@.len(),
                p <= m,
                x@ == names@[k as int]@,
                forall|q: int| 0 <= q < p ==> !key_lt(x@, #[trigger] views(out@)[q]),
            decreases m - p,
        {
            p = p + 1;
        }
        let ghost before = views(out@);
        proof {
            assert(p < m ==> key_lt(x@, before[p as int]));
        }
        out.insert(p, x);
        proof {
            let after = views(out@);
            assert(after =~= before.insert(p as int, x@));
            to_multiset_insert(before, p as int, x@);
            assert(views(names@).take(k + 1) =~= views(names@).take(k as int).push(x@));
            broadcast use vstd::seq_lib::group_to_multiset_ensures;
            assert forall|i: int, j: int| 0 <= i < j < after.len() implies !key_lt(
                #[trigger] after[j],
                #[trigger] after[i],
            ) by {
                if j < p {
                    assert(after[i] == before[i] && after[j] == before[j]);
                } else if j == p {
                    assert(after[i] == before[i]);
                } else if i == p {
                    let y = before[j - 1];
                    assert(after[j] == y);
                    assert(!key_lt(y, before[p as int]) || j - 1 == p);
                    lemma_key_order(y, x@, before[p as int]);
                    lemma_key_order(x@, before[p as int], y);
                } else if i < p {
                    assert(after[i] == before[i] && after[j] == before[j - 1]);
                    lemma_key_order(before[j - 1], x@, before[i]);
                    lemma_key_order(before[j - 1], before[i], x@);
                    assert(!key_lt(x@, before[i]));
                    if j - 1 > i {
                        assert(!key_lt(before[j - 1], before[i]));
                    }
                } else {
                    assert(after[i] == before[i - 1] && after[j] == before[j - 1]);
                }
            }
        }
        k = k + 1;
    }
    assert(views(names@).take(n as int) =~= views(names@));
    out
}

// ------------------------------------------------------------ the tree

/// Which language a description is for. The data is the same; the spelling
/// of multi-word keys follows the language it is crossing into.
#[derive(Debug, Clone, Copy, PartialEq, Eq)]
pub enum Host {
    /// snake_case keys; the object types only.
    Python,
    /// camelCase keys; object types and unions, each marked with its kind.
    JavaScript,
}

/// Plain data a binding turns into its host's dicts, lists and scalars.
#[derive(Debug, PartialEq)]
pub enum Desc {
    Bool(bool),
    Int(i128),
    Text(String),
    List(Vec<Desc>),
    /// Keys in the order a host object should receive them.
    Dict(Vec<Member>),
}

#[derive(Debug, PartialEq)]
pub struct Member {
    pub key: String,
    pub value: Desc,
}

/// A description as the contracts speak of it.
pub enum SpecDesc {
    Bool(bool),
    Int(int),
    Text(Seq<char>),
    List(Seq<SpecDesc>),
    Dict(Seq<(Seq<char>, SpecDesc)>),
}

impl Desc {
    pub open spec fn view(&self) -> SpecDesc
        decreases self,
    {
        match self {
            Desc::Bool(b) => SpecDesc::Bool(*b),
            Desc::Int(n) => SpecDesc::Int(*n as int),
            Desc::Text(s) => SpecDesc::Text(s@),
            Desc::List(items) => SpecDesc::List(
                Seq::new(
                    items@.len(),
                    |i: int|
                        if 0 <= i < items@.len() {
                            items@[i].view()
                        } else {
                            SpecDesc::Bool(false)
                        },
                ),
            ),
            Desc::Dict(members) => SpecDesc::Dict(
                Seq::new(
                    members@.len(),
                    |i: int|
                        if 0 <= i < members@.len() {
                            (members@[i].key@, members@[i].value.view())
                        } else {
                            (Seq::empty(), SpecDesc::Bool(false))
                        },
                ),
            ),
        }
    }
}

/// The spelling of a multi-word key for a host.
pub open spec fn host_key(host: Host, snake: Seq<char>, camel: Seq<char>) -> Seq<char> {
    match host {
        Host::Python => snake,
        Host::JavaScript => camel,
    }
}

pub open spec fn text(s: Seq<char>) -> SpecDesc {
    SpecDesc::Text(s)
}

/// `{ kind: k }`.
pub open spec fn kind_only(k: Seq<char>) -> SpecDesc {
    SpecDesc::Dict(seq![("kind"@, text(k))])
}

/// One rule: its name, and its argument under `value`, or `min` and `max`.
pub open spec fn rule_desc(r: Rule) -> SpecDesc {
    match r {
        Rule::MinLen(n) => SpecDesc::Dict(
            seq![("rule"@, text("min_len"@)), ("value"@, SpecDesc::Int(n as int))],
        ),
        Rule::MaxLen(n) => SpecDesc::Dict(
            seq![("rule"@, text("max_len"@)), ("value"@, SpecDesc::Int(n as int))],
        ),
        Rule::MinItems(n) => SpecDesc::Dict(
            seq![("rule"@, text("min_items"@)), ("value"@, SpecDesc::Int(n as int))],
        ),
        Rule::MaxItems(n) => SpecDesc::Dict(
            seq![("rule"@, text("max_items"@)), ("value"@, SpecDesc::Int(n as int))],
        ),
        Rule::Range { min, max } => SpecDesc::Dict(
            seq![
                ("rule"@, text("range"@)),
                ("min"@, SpecDesc::Int(min as int)),
                ("max"@, SpecDesc::Int(max as int)),
            ],
        ),
        Rule::Format(f) => SpecDesc::Dict(
            seq![("rule"@, text("format"@)), ("value"@, text(format_name(f)))],
        ),
    }
}

pub open spec fn rules_desc(rules: Seq<Rule>) -> SpecDesc {
    SpecDesc::List(Seq::new(rules.len(), |i: int| rule_desc(rules[i])))
}

/// A type: its `kind`, and what that kind needs besides. An integer says
/// whether a JavaScript `number` holds it; an array, whether its elements may
/// be null.
pub open spec fn type_desc(t: Type, host: Host) -> SpecDesc
    decreases t, 1nat,
{
    match t {
        Type::Bool => kind_only("bool"@),
        Type::Float => kind_only("float"@),
        Type::String => kind_only("string"@),
        Type::Date => kind_only("date"@),
        Type::DateTime => kind_only("datetime"@),
        Type::Int(it) => SpecDesc::Dict(
            seq![
                ("kind"@, text("int"@)),
                ("name"@, text(int_type_name(it))),
                ("signed"@, SpecDesc::Bool(it.signed)),
                (host_key(host, "fits_js_number"@, "fitsJsNumber"@), SpecDesc::Bool(it.width != IntWidth::W64)),
            ],
        ),
        Type::Enum(values) => SpecDesc::Dict(
            seq![
                ("kind"@, text("enum"@)),
                ("values"@, SpecDesc::List(Seq::new(values@.len(), |i: int| text(values@[i]@)))),
            ],
        ),
        Type::Array { item, item_nullable } => SpecDesc::Dict(
            seq![
                ("kind"@, text("array"@)),
                ("item"@, type_desc(*item, host)),
                (host_key(host, "item_nullable"@, "itemNullable"@), SpecDesc::Bool(item_nullable)),
            ],
        ),
        Type::Object(o) => SpecDesc::Dict(
            seq![("kind"@, text("object"@)), ("object"@, object_desc(*o, host))],
        ),
        Type::Ref(name) => SpecDesc::Dict(seq![("kind"@, text("ref"@)), ("name"@, text(name@))]),
    }
}

/// A field: its name and type, the two presence axes as two keys, and its
/// rules in declaration order.
pub open spec fn field_desc(f: Field, host: Host) -> SpecDesc
    decreases f, 0nat,
{
    SpecDesc::Dict(
        seq![
            ("name"@, text(f.name@)),
            ("type"@, type_desc(f.ty, host)),
            ("optional"@, SpecDesc::Bool(f.presence.optional)),
            ("nullable"@, SpecDesc::Bool(f.presence.nullable)),
            ("rules"@, rules_desc(f.rules@)),
        ],
    )
}

/// The fields of an object type, in declaration order.
pub open spec fn fields_desc(fields: Seq<Field>, host: Host) -> Seq<SpecDesc>
    decreases fields,
{
    Seq::new(
        fields.len(),
        |i: int|
            if 0 <= i < fields.len() {
                field_desc(fields[i], host)
            } else {
                SpecDesc::Bool(false)
            },
    )
}

/// An object type. JavaScript marks it with its kind, since there a
/// description may also be a union's.
pub open spec fn object_desc(o: ObjectType, host: Host) -> SpecDesc
    decreases o, 2nat,
{
    let head: Seq<(Seq<char>, SpecDesc)> = match host {
        Host::Python => Seq::empty(),
        Host::JavaScript => seq![("kind"@, text("object"@))],
    };
    SpecDesc::Dict(
        head + seq![
            ("name"@, text(o.name@)),
            (host_key(host, "deny_unknown_fields"@, "denyUnknownFields"@), SpecDesc::Bool(o.deny_unknown_fields)),
            ("fields"@, SpecDesc::List(fields_desc(o.fields@, host))),
        ],
    )
}

/// A union: its tag key, and each variant's tag value and object type.
pub open spec fn union_desc(u: UnionType) -> SpecDesc {
    SpecDesc::Dict(
        seq![
            ("kind"@, text("union"@)),
            ("name"@, text(u.name@)),
            ("tag"@, text(u.tag@)),
            ("variants"@, SpecDesc::List(Seq::new(u.variants@.len(), |i: int| variant_desc(u.variants@[i])))),
        ],
    )
}

pub open spec fn variant_desc(v: Variant) -> SpecDesc {
    SpecDesc::Dict(seq![("tag"@, text(v.tag@)), ("type"@, text(v.schema_name@))])
}

// ------------------------------------------------------------- building

/// The members of a dict as the contracts speak of them.
pub open spec fn members_view(m: Seq<Member>) -> Seq<(Seq<char>, SpecDesc)> {
    Seq::new(m.len(), |i: int| (m[i].key@, m[i].value.view()))
}

pub open spec fn items_view(v: Seq<Desc>) -> Seq<SpecDesc> {
    Seq::new(v.len(), |i: int| v[i].view())
}

proof fn lemma_members_push(m: Seq<Member>, x: Member)
    ensures
        members_view(m.push(x)) == members_view(m).push((x.key@, x.value.view())),
{
    assert(members_view(m.push(x)) =~= members_view(m).push((x.key@, x.value.view())));
}

proof fn lemma_dict_view(m: Vec<Member>)
    ensures
        Desc::Dict(m).view() == SpecDesc::Dict(members_view(m@)),
{
    assert(Desc::Dict(m).view()->Dict_0 =~= members_view(m@));
}

proof fn lemma_list_view(v: Vec<Desc>)
    ensures
        Desc::List(v).view() == SpecDesc::List(items_view(v@)),
{
    assert(Desc::List(v).view()->List_0 =~= items_view(v@));
}

fn entry(key: &str, value: Desc) -> (r: Member)
    ensures
        r.key@ == key@,
        r.value == value,
{
    Member { key: owned(key), value }
}

fn text_desc(s: &str) -> (r: Desc)
    ensures
        r.view() == text(s@),
{
    Desc::Text(owned(s))
}

fn kind_desc(k: &str) -> (r: Desc)
    ensures
        r.view() == kind_only(k@),
{
    let mut m: Vec<Member> = Vec::new();
    m.push(entry("kind", text_desc(k)));
    proof {
        lemma_dict_view(m);
        assert(members_view(m@) =~= seq![("kind"@, text(k@))]);
    }
    Desc::Dict(m)
}

fn rule_entry(name: &str, value: Desc) -> (r: Desc)
    ensures
        r.view() == SpecDesc::Dict(seq![("rule"@, text(name@)), ("value"@, value.view())]),
{
    let ghost v = value.view();
    let mut m: Vec<Member> = Vec::new();
    m.push(entry("rule", text_desc(name)));
    m.push(entry("value", value));
    proof {
        lemma_dict_view(m);
        assert(members_view(m@) =~= seq![("rule"@, text(name@)), ("value"@, v)]);
    }
    Desc::Dict(m)
}

/// One rule, as [`rule_desc`] lays it out.
pub fn describe_rule(rule: Rule) -> (r: Desc)
    ensures
        r.view() == rule_desc(rule),
{
    match rule {
        Rule::MinLen(n) => rule_entry("min_len", Desc::Int(n as i128)),
        Rule::MaxLen(n) => rule_entry("max_len", Desc::Int(n as i128)),
        Rule::MinItems(n) => rule_entry("min_items", Desc::Int(n as i128)),
        Rule::MaxItems(n) => rule_entry("max_items", Desc::Int(n as i128)),
        Rule::Format(f) => rule_entry("format", text_desc(f.name())),
        Rule::Range { min, max } => {
            let mut m: Vec<Member> = Vec::new();
            m.push(entry("rule", text_desc("range")));
            m.push(entry("min", Desc::Int(min)));
            m.push(entry("max", Desc::Int(max)));
            proof {
                lemma_dict_view(m);
                assert(members_view(m@) =~= seq![
                    ("rule"@, text("range"@)),
                    ("min"@, SpecDesc::Int(min as int)),
                    ("max"@, SpecDesc::Int(max as int)),
                ]);
            }
            Desc::Dict(m)
        },
    }
}

/// A field's rules, in declaration order.
pub fn describe_rules(rules: &Vec<Rule>) -> (r: Desc)
    ensures
        r.view() == rules_desc(rules@),
{
    let n = rules.len();
    let mut out: Vec<Desc> = Vec::new();
    let mut i: usize = 0;
    while i < n
        invariant
            n == rules@.len(),
            i <= n,
            out@.len() == i,
            forall|j: int| 0 <= j < i ==> (#[trigger] out@[j]).view() == rule_desc(rules@[j]),
        decreases n - i,
    {
        out.push(describe_rule(rules[i]));
        i = i + 1;
    }
    proof {
        lemma_list_view(out);
        assert(items_view(out@) =~= Seq::new(rules@.len(), |i: int| rule_desc(rules@[i])));
    }
    Desc::List(out)
}

fn dict3(k0: &str, v0: Desc, k1: &str, v1: Desc, k2: &str, v2: Desc) -> (r: Desc)
    ensures
        r.view() == SpecDesc::Dict(seq![(k0@, v0.view()), (k1@, v1.view()), (k2@, v2.view())]),
{
    let ghost w = seq![(k0@, v0.view()), (k1@, v1.view()), (k2@, v2.view())];
    let mut m: Vec<Member> = Vec::new();
    m.push(entry(k0, v0));
    m.push(entry(k1, v1));
    m.push(entry(k2, v2));
    proof {
        lemma_dict_view(m);
        assert(members_view(m@) =~= w);
    }
    Desc::Dict(m)
}

fn dict2(k0: &str, v0: Desc, k1: &str, v1: Desc) -> (r: Desc)
    ensures
        r.view() == SpecDesc::Dict(seq![(k0@, v0.view()), (k1@, v1.view())]),
{
    let ghost w = seq![(k0@, v0.view()), (k1@, v1.view())];
    let mut m: Vec<Member> = Vec::new();
    m.push(entry(k0, v0));
    m.push(entry(k1, v1));
    proof {
        lemma_dict_view(m);
        assert(members_view(m@) =~= w);
    }
    Desc::Dict(m)
}

fn key_for(host: Host, snake: &'static str, camel: &'static str) -> (r: &'static str)
    ensures
        r@ == host_key(host, snake@, camel@),
{
    match host {
        Host::Python => snake,
        Host::JavaScript => camel,
    }
}

/// A type, as [`type_desc`] lays it out.
pub fn describe_type(ty: &Type, host: Host) -> (r: Desc)
    ensures
        r.view() == type_desc(*ty, host),
    decreases ty, 1nat,
{
    match ty {
        Type::Bool => kind_desc("bool"),
        Type::Float => kind_desc("float"),
        Type::String => kind_desc("string"),
        Type::Date => kind_desc("date"),
        Type::DateTime => kind_desc("datetime"),
        Type::Int(it) => {
            let ghost w = seq![
                ("kind"@, text("int"@)),
                ("name"@, text(int_type_name(*it))),
                ("signed"@, SpecDesc::Bool(it.signed)),
                (host_key(host, "fits_js_number"@, "fitsJsNumber"@), SpecDesc::Bool(it.width != IntWidth::W64)),
            ];
            let mut m: Vec<Member> = Vec::new();
            m.push(entry("kind", text_desc("int")));
            m.push(entry("name", text_desc(it.name())));
            m.push(entry("signed", Desc::Bool(it.signed)));
            m.push(entry(key_for(host, "fits_js_number", "fitsJsNumber"), Desc::Bool(it.fits_js_number())));
            proof {
                lemma_dict_view(m);
                assert(members_view(m@) =~= w);
            }
            Desc::Dict(m)
        },
        Type::Enum(values) => {
            let n = values.len();
            let mut list: Vec<Desc> = Vec::new();
            let mut i: usize = 0;
            while i < n
                invariant
                    n == values@.len(),
                    i <= n,
                    list@.len() == i,
                    forall|j: int| 0 <= j < i ==> (#[trigger] list@[j]).view() == text(values@[j]@),
                decreases n - i,
            {
                list.push(Desc::Text(values[i].clone()));
                i = i + 1;
            }
            proof {
                lemma_list_view(list);
                assert(items_view(list@) =~= Seq::new(values@.len(), |i: int| text(values@[i]@)));
            }
            dict2("kind", text_desc("enum"), "values", Desc::List(list))
        },
        Type::Array { item, item_nullable } => {
            let inner = describe_type(item, host);
            dict3(
                "kind",
                text_desc("array"),
                "item",
                inner,
                key_for(host, "item_nullable", "itemNullable"),
                Desc::Bool(*item_nullable),
            )
        },
        Type::Object(o) => {
            let inner = describe_object(o, host);
            dict2("kind", text_desc("object"), "object", inner)
        },
        Type::Ref(name) => dict2("kind", text_desc("ref"), "name", Desc::Text(name.clone())),
    }
}

/// A field, as [`field_desc`] lays it out.
pub fn describe_field(f: &Field, host: Host) -> (r: Desc)
    ensures
        r.view() == field_desc(*f, host),
    decreases f, 0nat,
{
    let ghost w = seq![
        ("name"@, text(f.name@)),
        ("type"@, type_desc(f.ty, host)),
        ("optional"@, SpecDesc::Bool(f.presence.optional)),
        ("nullable"@, SpecDesc::Bool(f.presence.nullable)),
        ("rules"@, rules_desc(f.rules@)),
    ];
    let mut m: Vec<Member> = Vec::new();
    m.push(entry("name", Desc::Text(f.name.clone())));
    m.push(entry("type", describe_type(&f.ty, host)));
    m.push(entry("optional", Desc::Bool(f.presence.optional)));
    m.push(entry("nullable", Desc::Bool(f.presence.nullable)));
    m.push(entry("rules", describe_rules(&f.rules)));
    proof {
        lemma_dict_view(m);
        assert(members_view(m@) =~= w);
    }
    Desc::Dict(m)
}

/// An object type, as [`object_desc`] lays it out.
pub fn describe_object(o: &ObjectType, host: Host) -> (r: Desc)
    ensures
        r.view() == object_desc(*o, host),
    decreases o, 2nat,
{
    let n = o.fields.len();
    let mut fields: Vec<Desc> = Vec::new();
    let mut i: usize = 0;
    while i < n
        invariant
            n == o.fields@.len(),
            i <= n,
            fields@.len() == i,
            forall|j: int| 0 <= j < i ==> (#[trigger] fields@[j]).view() == field_desc(o.fields@[j], host),
        decreases n - i,
    {
        proof {
            assert(decreases_to!(*o => o.fields));
            assert(decreases_to!(o.fields => o.fields@));
            assert(decreases_to!(o.fields@ => o.fields@[i as int]));
        }
        fields.push(describe_field(&o.fields[i], host));
        i = i + 1;
    }
    proof {
        lemma_list_view(fields);
        assert(items_view(fields@) =~= fields_desc(o.fields@, host));
    }
    let ghost head: Seq<(Seq<char>, SpecDesc)> = match host {
        Host::Python => Seq::empty(),
        Host::JavaScript => seq![("kind"@, text("object"@))],
    };
    let ghost w = head + seq![
        ("name"@, text(o.name@)),
        (host_key(host, "deny_unknown_fields"@, "denyUnknownFields"@), SpecDesc::Bool(o.deny_unknown_fields)),
        ("fields"@, SpecDesc::List(fields_desc(o.fields@, host))),
    ];
    let mut m: Vec<Member> = Vec::new();
    match host {
        Host::Python => {},
        Host::JavaScript => m.push(entry("kind", text_desc("object"))),
    }
    m.push(entry("name", Desc::Text(o.name.clone())));
    m.push(entry(key_for(host, "deny_unknown_fields", "denyUnknownFields"), Desc::Bool(o.deny_unknown_fields)));
    m.push(entry("fields", Desc::List(fields)));
    proof {
        lemma_dict_view(m);
        assert(members_view(m@) =~= w);
    }
    Desc::Dict(m)
}

/// A union, as [`union_desc`] lays it out.
pub fn describe_union(u: &UnionType) -> (r: Desc)
    ensures
        r.view() == union_desc(*u),
{
    let n = u.variants.len();
    let mut variants: Vec<Desc> = Vec::new();
    let mut i: usize = 0;
    while i < n
        invariant
            n == u.variants@.len(),
            i <= n,
            variants@.len() == i,
            forall|j: int| 0 <= j < i ==> (#[trigger] variants@[j]).view() == variant_desc(u.variants@[j]),
        decreases n - i,
    {
        let v = &u.variants[i];
        variants.push(dict2("tag", Desc::Text(v.tag.clone()), "type", Desc::Text(v.schema_name.clone())));
        i = i + 1;
    }
    proof {
        lemma_list_view(variants);
        assert(items_view(variants@) =~= Seq::new(u.variants@.len(), |i: int| variant_desc(u.variants@[i])));
    }
    let ghost w = seq![
        ("kind"@, text("union"@)),
        ("name"@, text(u.name@)),
        ("tag"@, text(u.tag@)),
        ("variants"@, SpecDesc::List(Seq::new(u.variants@.len(), |i: int| variant_desc(u.variants@[i])))),
    ];
    let mut m: Vec<Member> = Vec::new();
    m.push(entry("kind", text_desc("union")));
    m.push(entry("name", Desc::Text(u.name.clone())));
    m.push(entry("tag", Desc::Text(u.tag.clone())));
    m.push(entry("variants", Desc::List(variants)));
    proof {
        lemma_dict_view(m);
        assert(members_view(m@) =~= w);
    }
    Desc::Dict(m)
}

// ------------------------------------------------------------ the schema

/// The keys of a dict's members, in order.
pub open spec fn member_keys(m: Seq<(Seq<char>, SpecDesc)>) -> Seq<Seq<char>> {
    Seq::new(m.len(), |i: int| m[i].0)
}

/// The same members, ascending by key.
pub fn sort_members(members: Vec<Member>) -> (r: Vec<Member>)
    ensures
        in_key_order(member_keys(members_view(r@))),
        members_view(r@).to_multiset() == members_view(members@).to_multiset(),
{
    let ghost all = members_view(members@);
    let mut rest = members;
    let mut out: Vec<Member> = Vec::new();
    proof {
        broadcast use vstd::seq_lib::group_to_multiset_ensures;
        assert(members_view(out@) =~= Seq::empty());
        assert(members_view(rest@) =~= all);
    }
    while rest.len() > 0
        invariant
            in_key_order(member_keys(members_view(out@))),
            members_view(out@).to_multiset().add(members_view(rest@).to_multiset()) == all.to_multiset(),
        decreases rest@.len(),
    {
        let ghost rest0 = members_view(rest@);
        let x = match rest.pop() {
            Some(x) => x,
            None => {
                return out;
            },
        };
        proof {
            broadcast use vstd::seq_lib::group_to_multiset_ensures;
            assert(rest0 =~= members_view(rest@).push((x.key@, x.value.view())));
        }
        let m = out.len();
        let ghost keys = member_keys(members_view(out@));
        let mut p: usize = 0;
        while p < m && !str_less(x.key.as_str(), out[p].key.as_str())
            invariant
                m == out@.len(),
                keys == member_keys(members_view(out@)),
                p <= m,
                forall|q: int| 0 <= q < p ==> !key_lt(x.key@, #[trigger] keys[q]),
            decreases m - p,
        {
            p = p + 1;
        }
        let ghost before = members_view(out@);
        proof {
            assert(p < m ==> key_lt(x.key@, keys[p as int]));
        }
        let ghost xv = (x.key@, x.value.view());
        out.insert(p, x);
        proof {
            broadcast use vstd::seq_lib::group_to_multiset_ensures;
            let after = members_view(out@);
            assert(after =~= before.insert(p as int, xv));
            to_multiset_insert(before, p as int, xv);
            let ka = member_keys(after);
            assert(ka =~= keys.insert(p as int, xv.0));
            assert forall|i: int, j: int| 0 <= i < j < ka.len() implies !key_lt(
                #[trigger] ka[j],
                #[trigger] ka[i],
            ) by {
                if j < p {
                } else if j == p {
                } else if i == p {
                    let y = keys[j - 1];
                    assert(!key_lt(y, keys[p as int]) || j - 1 == p);
                    lemma_key_order(y, xv.0, keys[p as int]);
                    lemma_key_order(xv.0, keys[p as int], y);
                } else if i < p {
                    lemma_key_order(keys[j - 1], xv.0, keys[i]);
                    lemma_key_order(keys[j - 1], keys[i], xv.0);
                    assert(!key_lt(xv.0, keys[i]));
                    if j - 1 > i {
                        assert(!key_lt(keys[j - 1], keys[i]));
                    }
                } else {
                }
            }
            assert(members_view(out@).to_multiset().add(members_view(rest@).to_multiset())
                =~= all.to_multiset());
        }
    }
    proof {
        broadcast use vstd::seq_lib::group_to_multiset_ensures;
        assert(members_view(rest@) =~= Seq::empty());
        assert(members_view(out@).to_multiset() =~= all.to_multiset());
    }
    out
}

/// Each object type under its name.
pub open spec fn object_entries(types: Seq<ObjectType>, host: Host) -> Seq<(Seq<char>, SpecDesc)> {
    Seq::new(types.len(), |i: int| (types[i].name@, object_desc(types[i], host)))
}

/// Each union under its name.
pub open spec fn union_entries(unions: Seq<UnionType>) -> Seq<(Seq<char>, SpecDesc)> {
    Seq::new(unions.len(), |i: int| (unions[i].name@, union_desc(unions[i])))
}

/// Whether `e` holds the entries of `want`, and nothing else, ascending by key.
pub open spec fn sorted_entries(e: Seq<(Seq<char>, SpecDesc)>, want: Seq<(Seq<char>, SpecDesc)>) -> bool {
    &&& in_key_order(member_keys(e))
    &&& e.to_multiset() == want.to_multiset()
}

/// Every declared name, as the contracts speak of them.
pub open spec fn declared_names(s: Schema) -> Seq<Seq<char>> {
    Seq::new(s.types@.len(), |i: int| s.types@[i].name@) + Seq::new(
        s.unions@.len(),
        |i: int| s.unions@[i].name@,
    )
}

impl Schema {
    /// The schema as plain data: each object type under its name, ascending;
    /// for JavaScript, then each union under its name, ascending.
    pub fn describe(&self, host: Host) -> (r: Desc)
        ensures
            r.view() is Dict,
            ({
                let e = r.view()->Dict_0;
                let k = self.types@.len();
                &&& sorted_entries(e.take(k as int), object_entries(self.types@, host))
                &&& match host {
                    Host::Python => e.len() == k,
                    Host::JavaScript => sorted_entries(e.skip(k as int), union_entries(self.unions@)),
                }
            }),
    {
        let n = self.types.len();
        let mut objects: Vec<Member> = Vec::new();
        let mut i: usize = 0;
        while i < n
            invariant
                n == self.types@.len(),
                i <= n,
                members_view(objects@) == object_entries(self.types@, host).take(i as int),
            decreases n - i,
        {
            let t = &self.types[i];
            let entry = Member { key: t.name.clone(), value: describe_object(t, host) };
            proof {
                lemma_members_push(objects@, entry);
                lemma_take_push(object_entries(self.types@, host), i as int);
            }
            objects.push(entry);
            i = i + 1;
        }
        assert(object_entries(self.types@, host).take(n as int) =~= object_entries(self.types@, host));
        let mut all = sort_members(objects);
        let ghost first = members_view(all@);
        proof {
            broadcast use vstd::seq_lib::group_to_multiset_ensures;
            assert(first.to_multiset().len() == object_entries(self.types@, host).to_multiset().len());
            assert(first.len() == n);
        }
        match host {
            Host::Python => {},
            Host::JavaScript => {
                let m = self.unions.len();
                let mut unions: Vec<Member> = Vec::new();
                let mut j: usize = 0;
                while j < m
                    invariant
                        m == self.unions@.len(),
                        j <= m,
                        members_view(unions@) == union_entries(self.unions@).take(j as int),
                    decreases m - j,
                {
                    let u = &self.unions[j];
                    let entry = Member { key: u.name.clone(), value: describe_union(u) };
                    proof {
                        lemma_members_push(unions@, entry);
                        lemma_take_push(union_entries(self.unions@), j as int);
                    }
                    unions.push(entry);
                    j = j + 1;
                }
                assert(union_entries(self.unions@).take(m as int) =~= union_entries(self.unions@));
                let mut sorted = sort_members(unions);
                let ghost second = members_view(sorted@);
                let ghost all0 = all@;
                let ghost sorted0 = sorted@;
                all.append(&mut sorted);
                assert(all@ =~= all0 + sorted0);
                assert(members_view(all@) =~= first + second);
                assert((first + second).take(n as int) =~= first);
                assert((first + second).skip(n as int) =~= second);
            },
        }
        proof {
            lemma_dict_view(all);
            assert(members_view(all@).take(n as int) =~= first);
        }
        Desc::Dict(all)
    }

    /// Every declared name, object types and unions alike, ascending.
    pub fn type_names(&self) -> (r: Vec<String>)
        ensures
            in_key_order(views(r@)),
            views(r@).to_multiset() == declared_names(*self).to_multiset(),
    {
        let mut names: Vec<String> = Vec::new();
        let n = self.types.len();
        let m = self.unions.len();
        let mut i: usize = 0;
        while i < n
            invariant
                n == self.types@.len(),
                i <= n,
                views(names@) == declared_names(*self).take(i as int),
            decreases n - i,
        {
            let x = self.types[i].name.clone();
            proof {
                lemma_views_push(names@, x);
                lemma_take_push(declared_names(*self), i as int);
            }
            names.push(x);
            i = i + 1;
        }
        let mut j: usize = 0;
        while j < m
            invariant
                n == self.types@.len(),
                m == self.unions@.len(),
                j <= m,
                views(names@) == declared_names(*self).take(n + j),
            decreases m - j,
        {
            let x = self.unions[j].name.clone();
            proof {
                lemma_views_push(names@, x);
                lemma_take_push(declared_names(*self), n + j);
            }
            names.push(x);
            j = j + 1;
        }
        assert(declared_names(*self).take(n + m) =~= declared_names(*self));
        sort_names(&names)
    }

    /// The object types' names, ascending.
    pub fn object_type_names(&self) -> (r: Vec<String>)
        ensures
            in_key_order(views(r@)),
            views(r@).to_multiset() == Seq::new(self.types@.len(), |i: int| self.types@[i].name@).to_multiset(),
    {
        let mut names: Vec<String> = Vec::new();
        let n = self.types.len();
        let mut i: usize = 0;
        while i < n
            invariant
                n == self.types@.len(),
                i <= n,
                views(names@) == Seq::new(self.types@.len(), |i: int| self.types@[i].name@).take(i as int),
            decreases n - i,
        {
            let x = self.types[i].name.clone();
            proof {
                lemma_views_push(names@, x);
                lemma_take_push(Seq::new(self.types@.len(), |i: int| self.types@[i].name@), i as int);
            }
            names.push(x);
            i = i + 1;
        }
        assert(Seq::new(self.types@.len(), |i: int| self.types@[i].name@).take(n as int)
            =~= Seq::new(self.types@.len(), |i: int| self.types@[i].name@));
        sort_names(&names)
    }
}

} // verus!
