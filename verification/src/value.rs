//! Payloads as the engine reads them. An integer never passes through a
//! float, and absence and null stay separate states.

use vstd::prelude::*;

use crate::text::{key_lt, lemma_key_order, str_eq, str_less};

verus! {

/// An integer that has not been through a float. Keeping the source signedness
/// is what lets a `u64` above `i64::MAX` survive the boundary intact.
#[derive(Debug, Clone, Copy, PartialEq, Eq)]
pub enum Int {
    Signed(i64),
    Unsigned(u64),
}

/// The mathematical value of an [`Int`].
pub open spec fn int_value(n: Int) -> int {
    match n {
        Int::Signed(v) => v as int,
        Int::Unsigned(v) => v as int,
    }
}

impl Int {
    pub fn as_i128(self) -> (r: i128)
        ensures
            r == int_value(self),
    {
        match self {
            Int::Signed(v) => v as i128,
            Int::Unsigned(v) => v as i128,
        }
    }

    pub fn is_negative(self) -> (r: bool)
        ensures
            r == (int_value(self) < 0),
    {
        match self {
            Int::Signed(v) => v < 0,
            Int::Unsigned(_) => false,
        }
    }
}

impl From<i64> for Int {
    fn from(v: i64) -> (r: Int) {
        Int::Signed(v)
    }
}

impl vstd::std_specs::convert::FromSpecImpl<i64> for Int {
    open spec fn obeys_from_spec() -> bool {
        true
    }

    open spec fn from_spec(v: i64) -> Int {
        Int::Signed(v)
    }
}

/// A `u64` that fits an `i64` is kept signed, so equal numbers compare equal
/// whichever way they arrived.
pub open spec fn int_from_u64(v: u64) -> Int {
    if v <= i64::MAX {
        Int::Signed(v as i64)
    } else {
        Int::Unsigned(v)
    }
}

impl From<u64> for Int {
    fn from(v: u64) -> (r: Int) {
        if v <= 9223372036854775807u64 {
            Int::Signed(v as i64)
        } else {
            Int::Unsigned(v)
        }
    }
}

impl vstd::std_specs::convert::FromSpecImpl<u64> for Int {
    open spec fn obeys_from_spec() -> bool {
        true
    }

    open spec fn from_spec(v: u64) -> Int {
        int_from_u64(v)
    }
}

/// A binary64 number as the engine sees it: the decimal text it was written
/// in, and whether binary64 holds it as a finite value. Only finiteness takes
/// part in validation; the text is what a binding hands back to its host.
#[derive(Debug, Clone, PartialEq, Eq)]
pub struct Float {
    pub text: String,
    pub finite: bool,
}

#[derive(Debug, PartialEq)]
pub enum Value {
    Null,
    Bool(bool),
    Int(Int),
    Float(Float),
    String(String),
    Array(Vec<Value>),
    /// Entries in strictly ascending key order, each key once: see
    /// [`Value::wf`]. [`object_insert`] keeps that order.
    Object(Vec<Entry>),
    /// An integer too wide for `Int`, kept as a fact so validation can report
    /// it at its own path instead of the parse failing the whole document.
    IntTooWide,
    /// An integer the host already held inexactly, such as a JavaScript
    /// `number` past 2^53.
    UnsafeInt,
    /// Something the model has no place for. A binding reports it rather than
    /// guessing.
    Foreign,
}

/// One key of an object and the value stored under it.
#[derive(Debug, PartialEq)]
pub struct Entry {
    pub key: String,
    pub value: Value,
}

/// What a value is, before asking what it holds.
#[derive(Debug, Clone, Copy, PartialEq, Eq)]
pub enum Kind {
    Null,
    Bool,
    Int,
    Float,
    String,
    Array,
    Object,
    IntegerTooWide,
    UnsafeInteger,
    Foreign,
}

pub open spec fn kind_name(k: Kind) -> Seq<char> {
    match k {
        Kind::Null => "null"@,
        Kind::Bool => "bool"@,
        Kind::Int => "integer"@,
        Kind::Float => "float"@,
        Kind::String => "string"@,
        Kind::Array => "array"@,
        Kind::Object => "object"@,
        Kind::IntegerTooWide => "integer wider than 64 bits"@,
        Kind::UnsafeInteger => "integer the host cannot hold exactly"@,
        Kind::Foreign => "unsupported value"@,
    }
}

impl Kind {
    pub fn name(self) -> (r: &'static str)
        ensures
            r@ == kind_name(self),
    {
        match self {
            Kind::Null => "null",
            Kind::Bool => "bool",
            Kind::Int => "integer",
            Kind::Float => "float",
            Kind::String => "string",
            Kind::Array => "array",
            Kind::Object => "object",
            Kind::IntegerTooWide => "integer wider than 64 bits",
            Kind::UnsafeInteger => "integer the host cannot hold exactly",
            Kind::Foreign => "unsupported value",
        }
    }
}

pub open spec fn value_kind(v: Value) -> Kind {
    match v {
        Value::Null => Kind::Null,
        Value::Bool(_) => Kind::Bool,
        Value::Int(_) => Kind::Int,
        Value::Float(_) => Kind::Float,
        Value::String(_) => Kind::String,
        Value::Array(_) => Kind::Array,
        Value::Object(_) => Kind::Object,
        Value::IntTooWide => Kind::IntegerTooWide,
        Value::UnsafeInt => Kind::UnsafeInteger,
        Value::Foreign => Kind::Foreign,
    }
}

/// A value as the contracts speak of it: strings as characters, sequences
/// for arrays and for an object's entries.
pub enum SpecValue {
    Null,
    Bool(bool),
    Int(Int),
    /// The decimal text and whether binary64 holds it as a finite value.
    Float(Seq<char>, bool),
    Str(Seq<char>),
    Array(Seq<SpecValue>),
    Object(Seq<(Seq<char>, SpecValue)>),
    IntTooWide,
    UnsafeInt,
    Foreign,
}

pub open spec fn spec_kind(v: SpecValue) -> Kind {
    match v {
        SpecValue::Null => Kind::Null,
        SpecValue::Bool(_) => Kind::Bool,
        SpecValue::Int(_) => Kind::Int,
        SpecValue::Float(..) => Kind::Float,
        SpecValue::Str(_) => Kind::String,
        SpecValue::Array(_) => Kind::Array,
        SpecValue::Object(_) => Kind::Object,
        SpecValue::IntTooWide => Kind::IntegerTooWide,
        SpecValue::UnsafeInt => Kind::UnsafeInteger,
        SpecValue::Foreign => Kind::Foreign,
    }
}

/// The keys of an object's entries are strictly ascending, so each occurs once.
#[verifier::opaque]
pub open spec fn keys_sorted(e: Seq<(Seq<char>, SpecValue)>) -> bool {
    forall|i: int, j: int| 0 <= i < j < e.len() ==> key_lt(#[trigger] e[i].0, #[trigger] e[j].0)
}

/// Where `x` first occurs in `s`.
pub open spec fn first_index<K>(s: Seq<K>, x: K) -> Option<int>
    decreases s.len(),
{
    if s.len() == 0 {
        None
    } else {
        match first_index(s.drop_last(), x) {
            Some(i) => Some(i),
            None => if s.last() == x {
                Some(s.len() - 1)
            } else {
                None
            },
        }
    }
}

/// What [`first_index`] says, stated plainly.
pub proof fn lemma_first_index<K>(s: Seq<K>, x: K)
    ensures
        first_index(s, x) matches Some(i) ==> 0 <= i < s.len() && s[i] == x && forall|j: int|
            0 <= j < i ==> s[j] != x,
        first_index(s, x) is None ==> forall|i: int| 0 <= i < s.len() ==> s[i] != x,
        forall|i: int|
            0 <= i < s.len() && s[i] == x && (forall|j: int| 0 <= j < i ==> s[j] != x)
                ==> first_index(s, x) == Some(i),
    decreases s.len(),
{
    if s.len() > 0 {
        let t = s.drop_last();
        lemma_first_index(t, x);
        assert(forall|j: int| 0 <= j < t.len() ==> t[j] == s[j]);
        assert forall|i: int|
            0 <= i < s.len() && s[i] == x && (forall|j: int| 0 <= j < i ==> s[j] != x) implies first_index(
            s,
            x,
        ) == Some(i) by {
            if i < t.len() {
                assert(t[i] == x);
            } else {
                assert forall|j: int| 0 <= j < t.len() implies t[j] != x by {
                    assert(s[j] != x);
                }
            }
        }
    }
}

/// The keys of an object's entries, in order.
pub open spec fn keys_of(e: Seq<(Seq<char>, SpecValue)>) -> Seq<Seq<char>> {
    Seq::new(e.len(), |i: int| e[i].0)
}

/// Where `k` is among an object's entries: its first occurrence.
pub open spec fn find_key(e: Seq<(Seq<char>, SpecValue)>, k: Seq<char>) -> Option<int> {
    first_index(keys_of(e), k)
}

/// What [`find_key`] says, stated plainly.
pub proof fn lemma_find_key(e: Seq<(Seq<char>, SpecValue)>, k: Seq<char>)
    ensures
        find_key(e, k) matches Some(i) ==> 0 <= i < e.len() && e[i].0 == k && forall|j: int|
            0 <= j < i ==> e[j].0 != k,
        find_key(e, k) is None ==> forall|i: int| 0 <= i < e.len() ==> e[i].0 != k,
        forall|i: int|
            0 <= i < e.len() && e[i].0 == k && (forall|j: int| 0 <= j < i ==> e[j].0 != k)
                ==> find_key(e, k) == Some(i),
{
    let ks = keys_of(e);
    lemma_first_index(ks, k);
    assert(forall|i: int| 0 <= i < e.len() ==> #[trigger] ks[i] == e[i].0);
    match find_key(e, k) {
        Some(i) => {
            assert forall|j: int| 0 <= j < i implies e[j].0 != k by {
                assert(ks[j] != k);
            }
        },
        None => {
            assert forall|i: int| 0 <= i < e.len() implies e[i].0 != k by {
                assert(ks[i] != k);
            }
        },
    }
    assert forall|i: int|
        0 <= i < e.len() && e[i].0 == k && (forall|j: int| 0 <= j < i ==> e[j].0 != k) implies find_key(
        e,
        k,
    ) == Some(i) by {
        assert forall|j: int| 0 <= j < i implies ks[j] != k by {
            assert(e[j].0 != k);
        }
        assert(ks[i] == k);
    }
}

/// The value stored under `k`, if any.
pub open spec fn value_at(e: Seq<(Seq<char>, SpecValue)>, k: Seq<char>) -> Option<SpecValue> {
    match find_key(e, k) {
        Some(i) => Some(e[i].1),
        None => None,
    }
}

/// What a field finds at its key. Absence and null are separate states.
pub open spec fn slot_of(e: Seq<(Seq<char>, SpecValue)>, k: Seq<char>) -> Slot<SpecValue> {
    match value_at(e, k) {
        None => Slot::Absent,
        Some(SpecValue::Null) => Slot::Null,
        Some(v) => Slot::Present(v),
    }
}

impl SpecValue {
    /// Every object inside the value, at any depth, keeps its keys in strictly
    /// ascending order.
    pub open spec fn wf(self) -> bool
        decreases self,
    {
        match self {
            SpecValue::Array(items) => forall|i: int| 0 <= i < items.len() ==> (#[trigger] items[i]).wf(),
            SpecValue::Object(e) => keys_sorted(e) && forall|i: int|
                0 <= i < e.len() ==> (#[trigger] e[i]).1.wf(),
            _ => true,
        }
    }
}

/// The entries of an object as the contracts speak of them.
pub open spec fn entries_view(e: Seq<Entry>) -> Seq<(Seq<char>, SpecValue)> {
    Seq::new(e.len(), |i: int| (e[i].key@, e[i].value.view()))
}

impl Value {
    pub open spec fn view(self) -> SpecValue
        decreases self,
    {
        match self {
            Value::Null => SpecValue::Null,
            Value::Bool(b) => SpecValue::Bool(b),
            Value::Int(n) => SpecValue::Int(n),
            Value::Float(f) => SpecValue::Float(f.text@, f.finite),
            Value::String(s) => SpecValue::Str(s@),
            Value::Array(items) => SpecValue::Array(
                Seq::new(
                    items@.len(),
                    |i: int|
                        if 0 <= i < items@.len() {
                            items@[i].view()
                        } else {
                            SpecValue::Null
                        },
                ),
            ),
            Value::Object(e) => SpecValue::Object(
                Seq::new(
                    e@.len(),
                    |i: int|
                        if 0 <= i < e@.len() {
                            (e@[i].key@, e@[i].value.view())
                        } else {
                            (Seq::empty(), SpecValue::Null)
                        },
                ),
            ),
            Value::IntTooWide => SpecValue::IntTooWide,
            Value::UnsafeInt => SpecValue::UnsafeInt,
            Value::Foreign => SpecValue::Foreign,
        }
    }

    /// See [`SpecValue::wf`].
    pub open spec fn wf(self) -> bool {
        self.view().wf()
    }

    /// What a value is.
    pub fn kind(&self) -> (r: Kind)
        ensures
            r == value_kind(*self),
            r == spec_kind(self.view()),
    {
        match self {
            Value::Null => Kind::Null,
            Value::Bool(_) => Kind::Bool,
            Value::Int(_) => Kind::Int,
            Value::Float(_) => Kind::Float,
            Value::String(_) => Kind::String,
            Value::Array(_) => Kind::Array,
            Value::Object(_) => Kind::Object,
            Value::IntTooWide => Kind::IntegerTooWide,
            Value::UnsafeInt => Kind::UnsafeInteger,
            Value::Foreign => Kind::Foreign,
        }
    }
}

pub proof fn lemma_array_view(v: Value)
    requires
        v is Array,
    ensures
        v.view() is Array,
        v.view()->Array_0.len() == v->Array_0@.len(),
        forall|i: int|
            0 <= i < v->Array_0@.len() ==> v.view()->Array_0[i] == (#[trigger] v->Array_0@[i]).view(),
{
}

pub proof fn lemma_object_view(v: Value)
    requires
        v is Object,
    ensures
        v.view() == SpecValue::Object(entries_view(v->Object_0@)),
{
    assert(v.view()->Object_0 =~= entries_view(v->Object_0@));
}

impl Clone for Value {
    /// An equal value, owned separately.
    fn clone(&self) -> (r: Self)
        ensures
            r.view() == self.view(),
        decreases self,
    {
        match self {
            Value::Null => Value::Null,
            Value::Bool(b) => Value::Bool(*b),
            Value::Int(n) => Value::Int(*n),
            Value::Float(f) => Value::Float(Float { text: f.text.clone(), finite: f.finite }),
            Value::String(s) => Value::String(s.clone()),
            Value::Array(items) => {
                let mut out: Vec<Value> = Vec::new();
                let n = items.len();
                let mut i: usize = 0;
                while i < n
                    invariant
                        n == items@.len(),
                        i <= n,
                        out@.len() == i,
                        forall|j: int| 0 <= j < i ==> (#[trigger] out@[j]).view() == items@[j].view(),
                        decreases_to!(*self => *items),
                    decreases n - i,
                {
                    proof {
                        assert(decreases_to!(*items => items@));
                        assert(decreases_to!(items@ => items@[i as int]));
                    }
                    out.push(items[i].clone());
                    i = i + 1;
                }
                let r = Value::Array(out);
                assert(r.view()->Array_0 =~= self.view()->Array_0);
                r
            },
            Value::Object(entries) => {
                let mut out: Vec<Entry> = Vec::new();
                let n = entries.len();
                let mut i: usize = 0;
                while i < n
                    invariant
                        n == entries@.len(),
                        i <= n,
                        out@.len() == i,
                        forall|j: int|
                            0 <= j < i ==> (#[trigger] out@[j]).key@ == entries@[j].key@
                                && out@[j].value.view() == entries@[j].value.view(),
                        decreases_to!(*self => *entries),
                    decreases n - i,
                {
                    proof {
                        assert(decreases_to!(*entries => entries@));
                        assert(decreases_to!(entries@ => entries@[i as int]));
                        assert(decreases_to!(entries@[i as int] => entries@[i as int].value));
                    }
                    let e = &entries[i];
                    out.push(Entry { key: e.key.clone(), value: e.value.clone() });
                    i = i + 1;
                }
                let r = Value::Object(out);
                assert(r.view()->Object_0 =~= self.view()->Object_0);
                r
            },
            Value::IntTooWide => Value::IntTooWide,
            Value::UnsafeInt => Value::UnsafeInt,
            Value::Foreign => Value::Foreign,
        }
    }
}

/// What a field found at its key. Absence and null are separate states here;
/// collapsing them is the bug this type exists to prevent.
#[derive(Debug, Clone, Copy, PartialEq)]
pub enum Slot<T> {
    Absent,
    Null,
    Present(T),
}

/// Finds the first entry under `key`.
pub fn find_entry(entries: &Vec<Entry>, key: &str) -> (r: Option<usize>)
    ensures
        r matches Some(i) ==> i < entries@.len() && find_key(entries_view(entries@), key@) == Some(
            i as int,
        ),
        r is None ==> find_key(entries_view(entries@), key@) is None,
{
    let ghost ev = entries_view(entries@);
    let n = entries.len();
    let mut i: usize = 0;
    while i < n
        invariant
            n == entries@.len(),
            ev == entries_view(entries@),
            i <= n,
            forall|j: int| 0 <= j < i ==> ev[j].0 != key@,
        decreases n - i,
    {
        assert(ev[i as int].0 == entries@[i as int].key@);
        if str_eq(entries[i].key.as_str(), key) {
            proof {
                lemma_find_key(ev, key@);
            }
            return Some(i);
        }
        i = i + 1;
    }
    proof {
        lemma_find_key(ev, key@);
    }
    None
}

impl<'a> Slot<&'a Value> {
    /// Reads a key without collapsing absence into null.
    pub fn read(entries: &'a Vec<Entry>, key: &str) -> (r: Self)
        ensures
            match (r, slot_of(entries_view(entries@), key@)) {
                (Slot::Absent, Slot::Absent) => true,
                (Slot::Null, Slot::Null) => true,
                (Slot::Present(v), Slot::Present(w)) => v.view() == w,
                _ => false,
            },
    {
        match find_entry(entries, key) {
            None => Slot::Absent,
            Some(i) => match &entries[i].value {
                Value::Null => Slot::Null,
                v => Slot::Present(v),
            },
        }
    }
}

/// In entries with strictly ascending keys, the entry holding a key is the
/// only one, so it is the one `find_key` names.
pub proof fn lemma_only_index(e: Seq<(Seq<char>, SpecValue)>, k: Seq<char>, i: int)
    requires
        keys_sorted(e),
        0 <= i < e.len(),
        e[i].0 == k,
    ensures
        find_key(e, k) == Some(i),
{
    reveal(keys_sorted);
    lemma_key_order(k, k, k);
    assert forall|j: int| 0 <= j < i implies e[j].0 != k by {
        assert(key_lt(e[j].0, e[i].0));
    }
    lemma_find_key(e, k);
}

/// Replacing the value under an existing key keeps the order.
proof fn lemma_replace_sorted(old_e: Seq<(Seq<char>, SpecValue)>, p: int, v: SpecValue)
    requires
        keys_sorted(old_e),
        0 <= p < old_e.len(),
    ensures
        keys_sorted(old_e.update(p, (old_e[p].0, v))),
{
    let e = old_e.update(p, (old_e[p].0, v));
    reveal(keys_sorted);
    assert forall|i: int, j: int| 0 <= i < j < e.len() implies key_lt(#[trigger] e[i].0, #[trigger] e[j].0) by {
        assert(key_lt(old_e[i].0, old_e[j].0));
    }
}

/// Replacing the value under an existing key changes only that key.
proof fn lemma_replace_at(old_e: Seq<(Seq<char>, SpecValue)>, p: int, v: SpecValue, k: Seq<char>)
    requires
        keys_sorted(old_e),
        0 <= p < old_e.len(),
    ensures
        value_at(old_e.update(p, (old_e[p].0, v)), k) == if k == old_e[p].0 {
            Some(v)
        } else {
            value_at(old_e, k)
        },
{
    let e = old_e.update(p, (old_e[p].0, v));
    lemma_replace_sorted(old_e, p, v);
    lemma_find_key(e, k);
    lemma_find_key(old_e, k);
    if k == old_e[p].0 {
        lemma_only_index(e, k, p);
    } else {
        assert(forall|i: int| 0 <= i < e.len() ==> (e[i].0 == k <==> old_e[i].0 == k));
        match find_key(old_e, k) {
            Some(i) => {
                assert(e[i].0 == k);
                lemma_only_index(e, k, i);
                lemma_only_index(old_e, k, i);
            },
            None => {},
        }
    }
}

/// Inserting a new key where it belongs keeps the order.
proof fn lemma_insert_sorted(old_e: Seq<(Seq<char>, SpecValue)>, p: int, k0: Seq<char>, v: SpecValue)
    requires
        keys_sorted(old_e),
        0 <= p <= old_e.len(),
        forall|j: int| 0 <= j < p ==> key_lt(#[trigger] old_e[j].0, k0),
        p < old_e.len() ==> key_lt(k0, old_e[p].0),
    ensures
        keys_sorted(old_e.insert(p, (k0, v))),
{
    let e = old_e.insert(p, (k0, v));
    reveal(keys_sorted);
    assert forall|i: int, j: int| 0 <= i < j < e.len() implies key_lt(#[trigger] e[i].0, #[trigger] e[j].0) by {
        if j < p {
            assert(key_lt(old_e[i].0, old_e[j].0));
        } else if j == p {
        } else if i < p {
            if j - 1 > p {
                assert(key_lt(old_e[p].0, old_e[j - 1].0));
                lemma_key_order(k0, old_e[p].0, old_e[j - 1].0);
            }
            lemma_key_order(old_e[i].0, k0, old_e[j - 1].0);
        } else if i == p {
            if j - 1 > p {
                assert(key_lt(old_e[p].0, old_e[j - 1].0));
                lemma_key_order(k0, old_e[p].0, old_e[j - 1].0);
            }
        } else {
            assert(key_lt(old_e[i - 1].0, old_e[j - 1].0));
        }
    }
}

/// Inserting a new key where it belongs adds only that key.
proof fn lemma_insert_at(
    old_e: Seq<(Seq<char>, SpecValue)>,
    p: int,
    k0: Seq<char>,
    v: SpecValue,
    k: Seq<char>,
)
    requires
        keys_sorted(old_e),
        0 <= p <= old_e.len(),
        forall|j: int| 0 <= j < p ==> key_lt(#[trigger] old_e[j].0, k0),
        p < old_e.len() ==> key_lt(k0, old_e[p].0),
    ensures
        value_at(old_e.insert(p, (k0, v)), k) == if k == k0 {
            Some(v)
        } else {
            value_at(old_e, k)
        },
{
    let e = old_e.insert(p, (k0, v));
    lemma_insert_sorted(old_e, p, k0, v);
    lemma_find_key(e, k);
    lemma_find_key(old_e, k);
    if k == k0 {
        lemma_only_index(e, k, p);
    } else {
        match find_key(old_e, k) {
            Some(i) => {
                if i < p {
                    assert(e[i].0 == k);
                    lemma_only_index(e, k, i);
                } else {
                    assert(e[i + 1].0 == k);
                    lemma_only_index(e, k, i + 1);
                }
                lemma_only_index(old_e, k, i);
            },
            None => {
                assert forall|i: int| 0 <= i < e.len() implies e[i].0 != k by {
                    if i < p {
                        assert(e[i] == old_e[i]);
                    } else if i > p {
                        assert(e[i] == old_e[i - 1]);
                    }
                }
            },
        }
    }
}

/// Where a key belongs among entries in ascending key order: after every key
/// below it.
pub open spec fn insertion_point(e: Seq<(Seq<char>, SpecValue)>, k: Seq<char>) -> nat
    decreases e.len(),
{
    if e.len() == 0 {
        0
    } else if key_lt(e[0].0, k) {
        1 + insertion_point(e.drop_first(), k)
    } else {
        0
    }
}

/// The entries with `v` stored under `k`: the entry holding `k` is replaced,
/// or a new one goes where `k` belongs.
pub open spec fn insert_entry(e: Seq<(Seq<char>, SpecValue)>, k: Seq<char>, v: SpecValue) -> Seq<
    (Seq<char>, SpecValue),
> {
    let p = insertion_point(e, k) as int;
    if p < e.len() && e[p].0 == k {
        e.update(p, (k, v))
    } else {
        e.insert(p, (k, v))
    }
}

proof fn lemma_insertion_point(e: Seq<(Seq<char>, SpecValue)>, k: Seq<char>, p: int)
    requires
        0 <= p <= e.len(),
        forall|j: int| 0 <= j < p ==> key_lt(#[trigger] e[j].0, k),
        p < e.len() ==> !key_lt(e[p].0, k),
    ensures
        insertion_point(e, k) == p,
    decreases p,
{
    if p > 0 {
        let t = e.drop_first();
        assert forall|j: int| 0 <= j < p - 1 implies key_lt(#[trigger] t[j].0, k) by {
            assert(t[j] == e[j + 1]);
        }
        assert(key_lt(e[0].0, k));
        lemma_insertion_point(t, k, p - 1);
    }
}

/// Stores `value` under `key`, replacing what was there: the last write wins,
/// as every mainstream JSON parser does. Keys stay in ascending order.
pub fn object_insert(entries: &mut Vec<Entry>, key: String, value: Value)
    requires
        keys_sorted(entries_view(old(entries)@)),
    ensures
        keys_sorted(entries_view(final(entries)@)),
        entries_view(final(entries)@) == insert_entry(entries_view(old(entries)@), key@, value.view()),
        value_at(entries_view(final(entries)@), key@) == Some(value.view()),
        forall|k: Seq<char>|
            k != key@ ==> value_at(entries_view(final(entries)@), k) == value_at(
                entries_view(old(entries)@),
                k,
            ),
{
    let ghost old_e = entries_view(entries@);
    let ghost k0 = key@;
    let ghost v0 = value.view();
    let n = entries.len();
    let mut p: usize = 0;
    while p < n && str_less(entries[p].key.as_str(), key.as_str())
        invariant
            n == entries@.len(),
            old_e == entries_view(entries@),
            k0 == key@,
            p <= n,
            forall|j: int| 0 <= j < p ==> key_lt(#[trigger] old_e[j].0, k0),
        decreases n - p,
    {
        p = p + 1;
    }
    proof {
        lemma_insertion_point(old_e, k0, p as int);
    }
    if p < n && str_eq(entries[p].key.as_str(), key.as_str()) {
        entries.set(p, Entry { key, value });
        proof {
            lemma_replace_sorted(old_e, p as int, v0);
            assert(entries_view(entries@) =~= old_e.update(p as int, (old_e[p as int].0, v0)));
            assert forall|k: Seq<char>| k != key@ implies value_at(entries_view(entries@), k)
                == value_at(old_e, k) by {
                lemma_replace_at(old_e, p as int, v0, k);
            }
            lemma_replace_at(old_e, p as int, v0, k0);
        }
    } else {
        proof {
            if p < n {
                lemma_key_order(old_e[p as int].0, k0, k0);
            }
            lemma_insert_sorted(old_e, p as int, k0, v0);
        }
        entries.insert(p, Entry { key, value });
        proof {
            assert(entries_view(entries@) =~= old_e.insert(p as int, (k0, v0)));
            assert forall|k: Seq<char>| k != k0 implies value_at(entries_view(entries@), k)
                == value_at(old_e, k) by {
                lemma_insert_at(old_e, p as int, k0, v0, k);
            }
            lemma_insert_at(old_e, p as int, k0, v0, k0);
        }
    }
}


// ------------------------------------------------------------------ laws

/// What [`insertion_point`] says: every key before it is below `k`, and the
/// key at it, if any, is not.
proof fn lemma_insertion_point_bounds(e: Seq<(Seq<char>, SpecValue)>, k: Seq<char>)
    ensures
        insertion_point(e, k) <= e.len(),
        forall|j: int| 0 <= j < insertion_point(e, k) ==> key_lt(#[trigger] e[j].0, k),
        insertion_point(e, k) < e.len() ==> !key_lt(e[insertion_point(e, k) as int].0, k),
    decreases e.len(),
{
    if e.len() > 0 && key_lt(e[0].0, k) {
        let t = e.drop_first();
        lemma_insertion_point_bounds(t, k);
        assert forall|j: int| 0 <= j < insertion_point(e, k) implies key_lt(#[trigger] e[j].0, k) by {
            if j > 0 {
                assert(e[j] == t[j - 1]);
            }
        }
    }
}

/// Storing a value keeps entries in order and changes only its own key.
pub proof fn lemma_insert_entry(e: Seq<(Seq<char>, SpecValue)>, k: Seq<char>, v: SpecValue)
    requires
        keys_sorted(e),
    ensures
        keys_sorted(insert_entry(e, k, v)),
        forall|q: Seq<char>|
            #[trigger] value_at(insert_entry(e, k, v), q) == if q == k {
                Some(v)
            } else {
                value_at(e, q)
            },
{
    lemma_insertion_point_bounds(e, k);
    let p = insertion_point(e, k) as int;
    if p < e.len() && e[p].0 == k {
        lemma_replace_sorted(e, p, v);
        assert(insert_entry(e, k, v) == e.update(p, (e[p].0, v)));
        assert forall|q: Seq<char>|
            #[trigger] value_at(insert_entry(e, k, v), q) == if q == k {
                Some(v)
            } else {
                value_at(e, q)
            } by {
            lemma_replace_at(e, p, v, q);
        }
    } else {
        if p < e.len() {
            lemma_key_order(e[p].0, k, k);
        }
        lemma_insert_sorted(e, p, k, v);
        assert forall|q: Seq<char>|
            #[trigger] value_at(insert_entry(e, k, v), q) == if q == k {
                Some(v)
            } else {
                value_at(e, q)
            } by {
            lemma_insert_at(e, p, k, v, q);
        }
    }
}

/// Past the first entry of ordered entries, a key other than the first is
/// found where it was.
proof fn lemma_value_at_tail(a: Seq<(Seq<char>, SpecValue)>, k: Seq<char>)
    requires
        a.len() > 0,
        k != a[0].0,
    ensures
        value_at(a, k) == value_at(a.drop_first(), k),
{
    let t = a.drop_first();
    lemma_find_key(a, k);
    lemma_find_key(t, k);
    match find_key(a, k) {
        Some(i) => {
            assert(i > 0);
            assert(t[i - 1] == a[i]);
            assert forall|j: int| 0 <= j < i - 1 implies t[j].0 != k by {
                assert(t[j] == a[j + 1]);
            }
        },
        None => {
            assert forall|j: int| 0 <= j < t.len() implies t[j].0 != k by {
                assert(t[j] == a[j + 1]);
            }
        },
    }
}

/// Entries in strictly ascending key order are fixed by what they store:
/// two that agree on every key are the same entries.
pub proof fn lemma_entries_determined(a: Seq<(Seq<char>, SpecValue)>, b: Seq<(Seq<char>, SpecValue)>)
    requires
        keys_sorted(a),
        keys_sorted(b),
        forall|k: Seq<char>| #[trigger] value_at(a, k) == value_at(b, k),
    ensures
        a == b,
    decreases a.len(),
{
    if a.len() == 0 || b.len() == 0 {
        if b.len() > 0 {
            lemma_only_index(b, b[0].0, 0);
            assert(value_at(a, b[0].0) == value_at(b, b[0].0));
        } else if a.len() > 0 {
            lemma_only_index(a, a[0].0, 0);
            assert(value_at(a, a[0].0) == value_at(b, a[0].0));
        }
        assert(a =~= b);
    } else {
        let x = a[0].0;
        let y = b[0].0;
        lemma_only_index(a, x, 0);
        lemma_only_index(b, y, 0);
        assert(value_at(a, x) == value_at(b, x));
        assert(value_at(a, y) == value_at(b, y));
        lemma_find_key(a, y);
        lemma_find_key(b, x);
        reveal(keys_sorted);
        if x != y {
            let j = find_key(b, x)->0;
            let i = find_key(a, y)->0;
            assert(key_lt(b[0].0, b[j].0));
            assert(key_lt(a[0].0, a[i].0));
            lemma_key_order(x, y, x);
            assert(false);
        }
        let ta = a.drop_first();
        let tb = b.drop_first();
        assert(keys_sorted(ta));
        assert(keys_sorted(tb));
        assert forall|k: Seq<char>| #[trigger] value_at(ta, k) == value_at(tb, k) by {
            if k == x {
                lemma_find_key(ta, k);
                lemma_find_key(tb, k);
                assert forall|j: int| 0 <= j < ta.len() implies ta[j].0 != k by {
                    assert(key_lt(a[0].0, a[j + 1].0));
                    lemma_key_order(k, k, k);
                }
                assert forall|j: int| 0 <= j < tb.len() implies tb[j].0 != k by {
                    assert(key_lt(b[0].0, b[j + 1].0));
                    lemma_key_order(k, k, k);
                }
            } else {
                lemma_value_at_tail(a, k);
                lemma_value_at_tail(b, k);
                assert(value_at(a, k) == value_at(b, k));
            }
        }
        lemma_entries_determined(ta, tb);
        assert(a =~= b) by {
            assert forall|i: int| 0 <= i < a.len() implies a[i] == b[i] by {
                if i > 0 {
                    assert(a[i] == ta[i - 1] && b[i] == tb[i - 1]);
                }
            }
        }
    }
}

/// The order an object's keys arrive in does not change the object: storing
/// two different keys gives the same entries whichever is stored first.
pub proof fn law_key_order_does_not_matter(
    e: Seq<(Seq<char>, SpecValue)>,
    k1: Seq<char>,
    v1: SpecValue,
    k2: Seq<char>,
    v2: SpecValue,
)
    requires
        keys_sorted(e),
        k1 != k2,
    ensures
        insert_entry(insert_entry(e, k1, v1), k2, v2) == insert_entry(insert_entry(e, k2, v2), k1, v1),
{
    lemma_insert_entry(e, k1, v1);
    lemma_insert_entry(e, k2, v2);
    let a = insert_entry(insert_entry(e, k1, v1), k2, v2);
    let b = insert_entry(insert_entry(e, k2, v2), k1, v1);
    lemma_insert_entry(insert_entry(e, k1, v1), k2, v2);
    lemma_insert_entry(insert_entry(e, k2, v2), k1, v1);
    assert forall|k: Seq<char>| #[trigger] value_at(a, k) == value_at(b, k) by {
        assert(value_at(a, k) == value_at(insert_entry(insert_entry(e, k1, v1), k2, v2), k));
    }
    lemma_entries_determined(a, b);
}

/// A key written twice keeps the last value, as if the first were never
/// written.
pub proof fn law_the_last_duplicate_wins(
    e: Seq<(Seq<char>, SpecValue)>,
    k: Seq<char>,
    first: SpecValue,
    last: SpecValue,
)
    requires
        keys_sorted(e),
    ensures
        insert_entry(insert_entry(e, k, first), k, last) == insert_entry(e, k, last),
{
    lemma_insert_entry(e, k, first);
    lemma_insert_entry(insert_entry(e, k, first), k, last);
    lemma_insert_entry(e, k, last);
    let a = insert_entry(insert_entry(e, k, first), k, last);
    let b = insert_entry(e, k, last);
    assert forall|q: Seq<char>| #[trigger] value_at(a, q) == value_at(b, q) by {
        assert(value_at(a, q) == value_at(insert_entry(insert_entry(e, k, first), k, last), q));
    }
    lemma_entries_determined(a, b);
}

} // verus!
