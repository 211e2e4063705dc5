//! The compiled type model a `.seam` file becomes.

use vstd::prelude::*;

use crate::format::Format;
use crate::text::str_eq;
use crate::value::{first_index, lemma_first_index};

verus! {

/// Object types and tagged unions, in declaration order. The two share one
/// namespace: a name is declared once, as one or the other.
#[derive(Debug, Default, PartialEq)]
pub struct Schema {
    pub types: Vec<ObjectType>,
    pub unions: Vec<UnionType>,
}

/// A choice between object types, told apart by the value of one field.
#[derive(Debug, Clone, Default, PartialEq)]
pub struct UnionType {
    pub name: String,
    /// The key carrying the discriminant.
    pub tag: String,
    /// Declaration order, the order the variants are listed in a message.
    pub variants: Vec<Variant>,
}

#[derive(Debug, Clone, PartialEq, Eq)]
pub struct Variant {
    /// The value of the tag field that selects this variant.
    pub tag: String,
    /// The object type it selects; always a declared `schema`.
    pub schema_name: String,
}

#[derive(Debug, Default, PartialEq)]
pub struct ObjectType {
    pub name: String,
    /// Declaration order, because it is the order errors are reported in.
    pub fields: Vec<Field>,
    pub deny_unknown_fields: bool,
}

#[derive(Debug, PartialEq)]
pub struct Field {
    pub name: String,
    pub ty: Type,
    pub presence: Presence,
    pub rules: Vec<Rule>,
}

/// Two independent axes, not one. An absent key means "don't touch this
/// field"; an explicit null means "clear it".
#[derive(Debug, Clone, Copy, Default, PartialEq, Eq)]
pub struct Presence {
    pub optional: bool,
    pub nullable: bool,
}

#[derive(Debug, PartialEq)]
pub enum Type {
    Bool,
    Int(IntType),
    Float,
    String,
    /// A calendar date. Never widened into an instant.
    Date,
    /// An instant with a mandatory UTC offset.
    DateTime,
    Enum(Vec<String>),
    /// An element has two states, a value or null, so only nullability
    /// applies to it. Absence is a property of a key, and an array has no keys.
    Array {
        item: Box<Type>,
        item_nullable: bool,
    },
    Object(Box<ObjectType>),
    /// A declared object type or union, by name.
    Ref(String),
}

/// Width is part of the type because it is what makes a cross-language range
/// check possible at all.
#[derive(Debug, Clone, Copy, PartialEq, Eq)]
pub struct IntType {
    pub width: IntWidth,
    pub signed: bool,
}

#[derive(Debug, Clone, Copy, PartialEq, Eq)]
pub enum IntWidth {
    W8,
    W16,
    W32,
    W64,
}

#[derive(Debug, Clone, Copy, PartialEq)]
pub enum Rule {
    MinLen(usize),
    MaxLen(usize),
    Range { min: i128, max: i128 },
    MinItems(usize),
    MaxItems(usize),
    Format(Format),
}

// ---------------------------------------------------------------- lookups

pub open spec fn object_names(s: Seq<ObjectType>) -> Seq<Seq<char>> {
    Seq::new(s.len(), |i: int| s[i].name@)
}

pub open spec fn union_names(s: Seq<UnionType>) -> Seq<Seq<char>> {
    Seq::new(s.len(), |i: int| s[i].name@)
}

pub open spec fn field_names(s: Seq<Field>) -> Seq<Seq<char>> {
    Seq::new(s.len(), |i: int| s[i].name@)
}

pub open spec fn variant_tags(s: Seq<Variant>) -> Seq<Seq<char>> {
    Seq::new(s.len(), |i: int| s[i].tag@)
}

impl Schema {
    /// The object type declared under `name`.
    pub open spec fn object_spec(self, name: Seq<char>) -> Option<ObjectType> {
        match first_index(object_names(self.types@), name) {
            Some(i) => Some(self.types@[i]),
            None => None,
        }
    }

    /// The union declared under `name`.
    pub open spec fn union_spec(self, name: Seq<char>) -> Option<UnionType> {
        match first_index(union_names(self.unions@), name) {
            Some(i) => Some(self.unions@[i]),
            None => None,
        }
    }

    pub fn get(&self, name: &str) -> (r: Option<&ObjectType>)
        ensures
            match (r, self.object_spec(name@)) {
                (Some(o), Some(p)) => *o == p,
                (None, None) => true,
                _ => false,
            },
    {
        let ghost names = object_names(self.types@);
        proof {
            lemma_first_index(names, name@);
        }
        let n = self.types.len();
        let mut i: usize = 0;
        while i < n
            invariant
                n == self.types@.len(),
                names == object_names(self.types@),
                i <= n,
                forall|j: int| 0 <= j < i ==> names[j] != name@,
                forall|i: int|
                    0 <= i < names.len() && names[i] == name@ && (forall|j: int|
                        0 <= j < i ==> names[j] != name@) ==> first_index(names, name@) == Some(i),
            decreases n - i,
        {
            assert(names[i as int] == self.types@[i as int].name@);
            if str_eq(self.types[i].name.as_str(), name) {
                return Some(&self.types[i]);
            }
            i = i + 1;
        }
        None
    }

    pub fn union(&self, name: &str) -> (r: Option<&UnionType>)
        ensures
            match (r, self.union_spec(name@)) {
                (Some(o), Some(p)) => *o == p,
                (None, None) => true,
                _ => false,
            },
    {
        let ghost names = union_names(self.unions@);
        proof {
            lemma_first_index(names, name@);
        }
        let n = self.unions.len();
        let mut i: usize = 0;
        while i < n
            invariant
                n == self.unions@.len(),
                names == union_names(self.unions@),
                i <= n,
                forall|j: int| 0 <= j < i ==> names[j] != name@,
                forall|i: int|
                    0 <= i < names.len() && names[i] == name@ && (forall|j: int|
                        0 <= j < i ==> names[j] != name@) ==> first_index(names, name@) == Some(i),
            decreases n - i,
        {
            assert(names[i as int] == self.unions@[i as int].name@);
            if str_eq(self.unions[i].name.as_str(), name) {
                return Some(&self.unions[i]);
            }
            i = i + 1;
        }
        None
    }

    /// Whether the name is declared at all, as either an object or a union.
    pub fn declares(&self, name: &str) -> (r: bool)
        ensures
            r == (self.object_spec(name@) is Some || self.union_spec(name@) is Some),
    {
        self.get(name).is_some() || self.union(name).is_some()
    }
}

impl UnionType {
    /// The variant selected by a tag value.
    pub open spec fn variant_spec(self, tag: Seq<char>) -> Option<Variant> {
        match first_index(variant_tags(self.variants@), tag) {
            Some(i) => Some(self.variants@[i]),
            None => None,
        }
    }

    pub fn variant(&self, tag: &str) -> (r: Option<&Variant>)
        ensures
            match (r, self.variant_spec(tag@)) {
                (Some(o), Some(p)) => *o == p,
                (None, None) => true,
                _ => false,
            },
    {
        let ghost tags = variant_tags(self.variants@);
        proof {
            lemma_first_index(tags, tag@);
        }
        let n = self.variants.len();
        let mut i: usize = 0;
        while i < n
            invariant
                n == self.variants@.len(),
                tags == variant_tags(self.variants@),
                i <= n,
                forall|j: int| 0 <= j < i ==> tags[j] != tag@,
                forall|i: int|
                    0 <= i < tags.len() && tags[i] == tag@ && (forall|j: int|
                        0 <= j < i ==> tags[j] != tag@) ==> first_index(tags, tag@) == Some(i),
            decreases n - i,
        {
            assert(tags[i as int] == self.variants@[i as int].tag@);
            if str_eq(self.variants[i].tag.as_str(), tag) {
                return Some(&self.variants[i]);
            }
            i = i + 1;
        }
        None
    }
}

impl ObjectType {
    /// The field declared under `name`.
    pub open spec fn field_spec(self, name: Seq<char>) -> Option<Field> {
        match first_index(field_names(self.fields@), name) {
            Some(i) => Some(self.fields@[i]),
            None => None,
        }
    }

    pub fn field(&self, name: &str) -> (r: Option<&Field>)
        ensures
            match (r, self.field_spec(name@)) {
                (Some(o), Some(p)) => *o == p,
                (None, None) => true,
                _ => false,
            },
    {
        let ghost names = field_names(self.fields@);
        proof {
            lemma_first_index(names, name@);
        }
        let n = self.fields.len();
        let mut i: usize = 0;
        while i < n
            invariant
                n == self.fields@.len(),
                names == field_names(self.fields@),
                i <= n,
                forall|j: int| 0 <= j < i ==> names[j] != name@,
                forall|i: int|
                    0 <= i < names.len() && names[i] == name@ && (forall|j: int|
                        0 <= j < i ==> names[j] != name@) ==> first_index(names, name@) == Some(i),
            decreases n - i,
        {
            assert(names[i as int] == self.fields@[i as int].name@);
            if str_eq(self.fields[i].name.as_str(), name) {
                return Some(&self.fields[i]);
            }
            i = i + 1;
        }
        None
    }
}

impl Presence {
    pub fn required() -> (r: Self)
        ensures
            r == (Presence { optional: false, nullable: false }),
    {
        Presence { optional: false, nullable: false }
    }

    pub fn nullable() -> (r: Self)
        ensures
            r == (Presence { optional: false, nullable: true }),
    {
        Presence { optional: false, nullable: true }
    }

    pub fn optional() -> (r: Self)
        ensures
            r == (Presence { optional: true, nullable: false }),
    {
        Presence { optional: true, nullable: false }
    }

    pub fn optional_nullable() -> (r: Self)
        ensures
            r == (Presence { optional: true, nullable: true }),
    {
        Presence { optional: true, nullable: true }
    }
}

// ------------------------------------------------------------- integers

pub open spec fn width_bits(w: IntWidth) -> nat {
    match w {
        IntWidth::W8 => 8,
        IntWidth::W16 => 16,
        IntWidth::W32 => 32,
        IntWidth::W64 => 64,
    }
}

pub open spec fn pow2(n: nat) -> int
    decreases n,
{
    if n == 0 {
        1
    } else {
        2 * pow2((n - 1) as nat)
    }
}

/// The inclusive range of an integer type: `-2^(w-1) ..= 2^(w-1) - 1` when
/// signed, `0 ..= 2^w - 1` when not.
pub open spec fn int_range(t: IntType) -> (int, int) {
    let bits = width_bits(t.width);
    if t.signed {
        (-pow2((bits - 1) as nat), pow2((bits - 1) as nat) - 1)
    } else {
        (0, pow2(bits) - 1)
    }
}

pub open spec fn int_type_name(t: IntType) -> Seq<char> {
    match (t.signed, t.width) {
        (true, IntWidth::W8) => "i8"@,
        (true, IntWidth::W16) => "i16"@,
        (true, IntWidth::W32) => "i32"@,
        (true, IntWidth::W64) => "i64"@,
        (false, IntWidth::W8) => "u8"@,
        (false, IntWidth::W16) => "u16"@,
        (false, IntWidth::W32) => "u32"@,
        (false, IntWidth::W64) => "u64"@,
    }
}

impl IntType {
    pub fn range(self) -> (r: (i128, i128))
        ensures
            r.0 == int_range(self).0,
            r.1 == int_range(self).1,
    {
        reveal_with_fuel(pow2, 65);
        match (self.signed, self.width) {
            (true, IntWidth::W8) => (-128, 127),
            (true, IntWidth::W16) => (-32768, 32767),
            (true, IntWidth::W32) => (-2147483648, 2147483647),
            (true, IntWidth::W64) => (-9223372036854775808, 9223372036854775807),
            (false, IntWidth::W8) => (0, 255),
            (false, IntWidth::W16) => (0, 65535),
            (false, IntWidth::W32) => (0, 4294967295),
            (false, IntWidth::W64) => (0, 18446744073709551615),
        }
    }

    pub fn name(self) -> (r: &'static str)
        ensures
            r@ == int_type_name(self),
    {
        match (self.signed, self.width) {
            (true, IntWidth::W8) => "i8",
            (true, IntWidth::W16) => "i16",
            (true, IntWidth::W32) => "i32",
            (true, IntWidth::W64) => "i64",
            (false, IntWidth::W8) => "u8",
            (false, IntWidth::W16) => "u16",
            (false, IntWidth::W32) => "u32",
            (false, IntWidth::W64) => "u64",
        }
    }

    /// Whether the JS binding can use `number` rather than `bigint`: every
    /// width below 64 bits fits exactly in a double.
    pub fn fits_js_number(self) -> (r: bool)
        ensures
            r == (self.width != IntWidth::W64),
    {
        match self.width {
            IntWidth::W64 => false,
            _ => true,
        }
    }
}

pub open spec fn type_kind_name(t: Type) -> Seq<char> {
    match t {
        Type::Bool => "bool"@,
        Type::Int(_) => "integer"@,
        Type::Float => "float"@,
        Type::String => "string"@,
        Type::Date => "date"@,
        Type::DateTime => "datetime"@,
        Type::Enum(_) => "enum"@,
        Type::Array { .. } => "array"@,
        Type::Object(_) => "object"@,
        Type::Ref(_) => "object"@,
    }
}

impl Type {
    pub fn kind(&self) -> (r: &'static str)
        ensures
            r@ == type_kind_name(*self),
    {
        match self {
            Type::Bool => "bool",
            Type::Int(_) => "integer",
            Type::Float => "float",
            Type::String => "string",
            Type::Date => "date",
            Type::DateTime => "datetime",
            Type::Enum(_) => "enum",
            Type::Array { .. } => "array",
            Type::Object(_) => "object",
            Type::Ref(_) => "object",
        }
    }
}

// ------------------------------------------------------------------ views

/// A field as the contracts speak of it.
pub struct SpecField {
    pub name: Seq<char>,
    pub ty: SpecType,
    pub presence: Presence,
    pub rules: Seq<Rule>,
}

/// An object type as the contracts speak of it.
pub struct SpecObject {
    pub name: Seq<char>,
    pub fields: Seq<SpecField>,
    pub deny_unknown_fields: bool,
}

/// A type as the contracts speak of it.
pub enum SpecType {
    Bool,
    Int(IntType),
    Float,
    String,
    Date,
    DateTime,
    Enum(Seq<Seq<char>>),
    Array(Box<SpecType>, bool),
    Object(Box<SpecObject>),
    Ref(Seq<char>),
}

/// A union as the contracts speak of it: its variants as (tag, schema) pairs.
pub struct SpecUnion {
    pub name: Seq<char>,
    pub tag: Seq<char>,
    pub variants: Seq<(Seq<char>, Seq<char>)>,
}

/// A schema as the contracts speak of it.
pub struct SpecSchema {
    pub types: Seq<SpecObject>,
    pub unions: Seq<SpecUnion>,
}

impl Type {
    pub open spec fn view(&self) -> SpecType
        decreases self,
    {
        match self {
            Type::Bool => SpecType::Bool,
            Type::Int(t) => SpecType::Int(*t),
            Type::Float => SpecType::Float,
            Type::String => SpecType::String,
            Type::Date => SpecType::Date,
            Type::DateTime => SpecType::DateTime,
            Type::Enum(v) => SpecType::Enum(Seq::new(v@.len(), |i: int| v@[i]@)),
            Type::Array { item, item_nullable } => SpecType::Array(
                Box::new((**item).view()),
                *item_nullable,
            ),
            Type::Object(obj) => SpecType::Object(
                Box::new(
                    SpecObject {
                        name: obj.name@,
                        fields: Seq::new(
                            obj.fields@.len(),
                            |i: int|
                                if 0 <= i < obj.fields@.len() {
                                    SpecField {
                                        name: obj.fields@[i].name@,
                                        ty: obj.fields@[i].ty.view(),
                                        presence: obj.fields@[i].presence,
                                        rules: obj.fields@[i].rules@,
                                    }
                                } else {
                                    SpecField {
                                        name: Seq::empty(),
                                        ty: SpecType::Bool,
                                        presence: obj.fields@[0].presence,
                                        rules: Seq::empty(),
                                    }
                                },
                        ),
                        deny_unknown_fields: obj.deny_unknown_fields,
                    },
                ),
            ),
            Type::Ref(name) => SpecType::Ref(name@),
        }
    }
}

impl Field {
    pub open spec fn view(&self) -> SpecField {
        SpecField { name: self.name@, ty: self.ty.view(), presence: self.presence, rules: self.rules@ }
    }
}

impl ObjectType {
    pub open spec fn view(&self) -> SpecObject {
        SpecObject {
            name: self.name@,
            fields: Seq::new(self.fields@.len(), |i: int| self.fields@[i].view()),
            deny_unknown_fields: self.deny_unknown_fields,
        }
    }
}

impl UnionType {
    pub open spec fn view(&self) -> SpecUnion {
        SpecUnion {
            name: self.name@,
            tag: self.tag@,
            variants: Seq::new(
                self.variants@.len(),
                |i: int| (self.variants@[i].tag@, self.variants@[i].schema_name@),
            ),
        }
    }
}

impl Schema {
    pub open spec fn view(&self) -> SpecSchema {
        SpecSchema {
            types: Seq::new(self.types@.len(), |i: int| self.types@[i].view()),
            unions: Seq::new(self.unions@.len(), |i: int| self.unions@[i].view()),
        }
    }
}

/// Each integer type holds exactly the integers of its width and sign:
/// `i8` is -128 to 127, `u8` 0 to 255, and so on up to 64 bits.
pub proof fn law_integer_types_hold_their_width(signed: bool, w: IntWidth)
    ensures
        int_range(IntType { width: w, signed }) == match (signed, w) {
            (true, IntWidth::W8) => (-128int, 127int),
            (true, IntWidth::W16) => (-32768int, 32767int),
            (true, IntWidth::W32) => (-2147483648int, 2147483647int),
            (true, IntWidth::W64) => (-9223372036854775808int, 9223372036854775807int),
            (false, IntWidth::W8) => (0int, 255int),
            (false, IntWidth::W16) => (0int, 65535int),
            (false, IntWidth::W32) => (0int, 4294967295int),
            (false, IntWidth::W64) => (0int, 18446744073709551615int),
        },
{
    reveal_with_fuel(pow2, 65);
}

} // verus!
