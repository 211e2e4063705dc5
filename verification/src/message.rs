//! The human-readable text of each issue. Messages are for people and may
//! change; what they say is fixed here so every binding says the same thing.

use vstd::prelude::*;

use crate::schema::{int_range, int_type_name, IntType, Presence};
use crate::text::{decimal, push_decimal, push_signed_decimal, signed_decimal};
use crate::value::{kind_name, Kind};

verus! {

/// The items joined by `sep`, as `[a, b].join(", ")` writes them.
pub open spec fn join(items: Seq<Seq<char>>, sep: Seq<char>) -> Seq<char>
    decreases items.len(),
{
    if items.len() == 0 {
        Seq::empty()
    } else if items.len() == 1 {
        items[0]
    } else {
        join(items.drop_last(), sep) + sep + items.last()
    }
}

pub open spec fn msg_mismatch(expected: Seq<char>, found: Kind) -> Seq<char> {
    "expected "@ + expected + ", found "@ + kind_name(found)
}

pub open spec fn msg_depth(max: nat) -> Seq<char> {
    "nesting deeper than the limit of "@ + decimal(max)
}

pub open spec fn msg_keys(n: nat, max: nat) -> Seq<char> {
    decimal(n) + " keys exceeds the limit of "@ + decimal(max)
}

pub open spec fn msg_unknown_field(owner: Seq<char>, key: Seq<char>) -> Seq<char> {
    "`"@ + owner + "` declares no field named `"@ + key + "`"@
}

pub open spec fn msg_required(p: Presence) -> Seq<char> {
    if p.nullable {
        "required; may be null but must be present"@
    } else {
        "required"@
    }
}

pub open spec fn msg_null(p: Presence) -> Seq<char> {
    if p.optional {
        "may be absent, but must not be null when present"@
    } else {
        "must not be null"@
    }
}

pub open spec fn msg_bytes(n: nat, max: nat) -> Seq<char> {
    decimal(n) + " bytes exceeds the limit of "@ + decimal(max)
}

pub open spec fn msg_out_of_range(v: int, t: IntType) -> Seq<char> {
    signed_decimal(v) + " is outside the range of "@ + int_type_name(t) + " ("@ + signed_decimal(
        int_range(t).0,
    ) + "..="@ + signed_decimal(int_range(t).1) + ")"@
}

pub open spec fn msg_missing_timezone(s: Seq<char>) -> Seq<char> {
    "`"@ + s + "` has no UTC offset; Seam does not assume local time"@
}

pub open spec fn msg_invalid(s: Seq<char>, expected: Seq<char>) -> Seq<char> {
    "`"@ + s + "` is not a valid "@ + expected
}

pub open spec fn msg_not_one_of(s: Seq<char>, allowed: Seq<Seq<char>>) -> Seq<char> {
    "`"@ + s + "` is not one of: "@ + join(allowed, ", "@)
}

pub open spec fn msg_items(n: nat, max: nat) -> Seq<char> {
    decimal(n) + " items exceeds the limit of "@ + decimal(max)
}

pub open spec fn msg_too_short(len: nat, n: nat) -> Seq<char> {
    "length "@ + decimal(len) + " is below the minimum of "@ + decimal(n)
}

pub open spec fn msg_too_long(len: nat, n: nat) -> Seq<char> {
    "length "@ + decimal(len) + " exceeds the maximum of "@ + decimal(n)
}

pub open spec fn msg_rule_range(v: int, min: int, max: int) -> Seq<char> {
    signed_decimal(v) + " is outside "@ + signed_decimal(min) + "..="@ + signed_decimal(max)
}

pub open spec fn msg_too_few(n: nat, min: nat) -> Seq<char> {
    decimal(n) + " items is below the minimum of "@ + decimal(min)
}

pub open spec fn msg_too_many(n: nat, max: nat) -> Seq<char> {
    decimal(n) + " items exceeds the maximum of "@ + decimal(max)
}

pub open spec fn msg_unknown_type(name: Seq<char>) -> Seq<char> {
    "schema declares no type named `"@ + name + "`"@
}

pub open spec fn msg_not_finite() -> Seq<char> {
    "NaN and infinity are not valid values"@
}

pub open spec fn msg_too_wide() -> Seq<char> {
    "integers wider than 64 bits are not supported"@
}

pub open spec fn msg_unsafe() -> Seq<char> {
    "the host held this integer inexactly, so it is not the value that was sent"@
}

pub open spec fn msg_null_item() -> Seq<char> {
    "must not be null; declare the element as `T?` to allow it"@
}


// ------------------------------------------------------------ builders

/// An owned copy of a string.
pub fn owned(s: &str) -> (r: String)
    ensures
        r@ == s@,
{
    let mut out = String::new();
    out.append(s);
    assert(out@ =~= s@);
    out
}

/// `expected <what>, found <kind>`.
pub fn mismatch(expected: &str, found: Kind) -> (r: String)
    ensures
        r@ == msg_mismatch(expected@, found),
{
    let mut s = String::new();
    s.append("expected ");
    s.append(expected);
    s.append(", found ");
    s.append(found.name());
    assert(s@ =~= msg_mismatch(expected@, found));
    s
}

pub fn depth(max: usize) -> (r: String)
    ensures
        r@ == msg_depth(max as nat),
{
    let mut s = String::new();
    s.append("nesting deeper than the limit of ");
    push_decimal(&mut s, max as u128);
    assert(s@ =~= msg_depth(max as nat));
    s
}

/// `<n><what><max>`, the shape of every "exceeds the limit" message.
fn count_against(n: usize, what: &str, max: usize) -> (r: String)
    ensures
        r@ == decimal(n as nat) + what@ + decimal(max as nat),
{
    let mut s = String::new();
    push_decimal(&mut s, n as u128);
    s.append(what);
    push_decimal(&mut s, max as u128);
    assert(s@ =~= decimal(n as nat) + what@ + decimal(max as nat));
    s
}

pub fn keys(n: usize, max: usize) -> (r: String)
    ensures
        r@ == msg_keys(n as nat, max as nat),
{
    count_against(n, " keys exceeds the limit of ", max)
}

pub fn bytes(n: usize, max: usize) -> (r: String)
    ensures
        r@ == msg_bytes(n as nat, max as nat),
{
    count_against(n, " bytes exceeds the limit of ", max)
}

pub fn items(n: usize, max: usize) -> (r: String)
    ensures
        r@ == msg_items(n as nat, max as nat),
{
    count_against(n, " items exceeds the limit of ", max)
}

pub fn too_few(n: usize, min: usize) -> (r: String)
    ensures
        r@ == msg_too_few(n as nat, min as nat),
{
    count_against(n, " items is below the minimum of ", min)
}

pub fn too_many(n: usize, max: usize) -> (r: String)
    ensures
        r@ == msg_too_many(n as nat, max as nat),
{
    count_against(n, " items exceeds the maximum of ", max)
}

pub fn too_short(len: usize, n: usize) -> (r: String)
    ensures
        r@ == msg_too_short(len as nat, n as nat),
{
    let mut s = String::new();
    s.append("length ");
    let t = count_against(len, " is below the minimum of ", n);
    s.append(t.as_str());
    assert(s@ =~= msg_too_short(len as nat, n as nat));
    s
}

pub fn too_long(len: usize, n: usize) -> (r: String)
    ensures
        r@ == msg_too_long(len as nat, n as nat),
{
    let mut s = String::new();
    s.append("length ");
    let t = count_against(len, " exceeds the maximum of ", n);
    s.append(t.as_str());
    assert(s@ =~= msg_too_long(len as nat, n as nat));
    s
}

/// `` `<s><rest> ``, the shape of the messages that quote a value.
fn quoted(s: &str, rest: &str) -> (r: String)
    ensures
        r@ == "`"@ + s@ + rest@,
{
    let mut out = String::new();
    out.append("`");
    out.append(s);
    out.append(rest);
    assert(out@ =~= "`"@ + s@ + rest@);
    out
}

pub fn unknown_field(owner: &str, key: &str) -> (r: String)
    ensures
        r@ == msg_unknown_field(owner@, key@),
{
    let mut s = quoted(owner, "` declares no field named `");
    s.append(key);
    s.append("`");
    assert(s@ =~= msg_unknown_field(owner@, key@));
    s
}

pub fn required_message(p: Presence) -> (r: String)
    ensures
        r@ == msg_required(p),
{
    if p.nullable {
        let mut s = String::new();
        s.append("required; may be null but must be present");
        assert(s@ =~= msg_required(p));
        s
    } else {
        let mut s = String::new();
        s.append("required");
        assert(s@ =~= msg_required(p));
        s
    }
}

pub fn null_message(p: Presence) -> (r: String)
    ensures
        r@ == msg_null(p),
{
    if p.optional {
        let mut s = String::new();
        s.append("may be absent, but must not be null when present");
        assert(s@ =~= msg_null(p));
        s
    } else {
        let mut s = String::new();
        s.append("must not be null");
        assert(s@ =~= msg_null(p));
        s
    }
}

pub fn out_of_range(v: i128, t: IntType) -> (r: String)
    ensures
        r@ == msg_out_of_range(v as int, t),
{
    let (min, max) = t.range();
    let mut s = String::new();
    push_signed_decimal(&mut s, v);
    s.append(" is outside the range of ");
    s.append(t.name());
    s.append(" (");
    push_signed_decimal(&mut s, min);
    s.append("..=");
    push_signed_decimal(&mut s, max);
    s.append(")");
    assert(s@ =~= msg_out_of_range(v as int, t));
    s
}

pub fn rule_range(v: i128, min: i128, max: i128) -> (r: String)
    ensures
        r@ == msg_rule_range(v as int, min as int, max as int),
{
    let mut s = String::new();
    push_signed_decimal(&mut s, v);
    s.append(" is outside ");
    push_signed_decimal(&mut s, min);
    s.append("..=");
    push_signed_decimal(&mut s, max);
    assert(s@ =~= msg_rule_range(v as int, min as int, max as int));
    s
}

pub fn missing_timezone(s: &str) -> (r: String)
    ensures
        r@ == msg_missing_timezone(s@),
{
    let r = quoted(s, "` has no UTC offset; Seam does not assume local time");
    assert(r@ =~= msg_missing_timezone(s@));
    r
}

pub fn invalid(s: &str, expected: &str) -> (r: String)
    ensures
        r@ == msg_invalid(s@, expected@),
{
    let mut r = quoted(s, "` is not a valid ");
    r.append(expected);
    assert(r@ =~= msg_invalid(s@, expected@));
    r
}

pub open spec fn strings_view(v: Seq<String>) -> Seq<Seq<char>> {
    Seq::new(v.len(), |i: int| v[i]@)
}

/// The strings joined by `, `.
pub fn join_commas(items: &Vec<String>) -> (r: String)
    ensures
        r@ == join(strings_view(items@), ", "@),
{
    let ghost all = strings_view(items@);
    let mut out = String::new();
    let n = items.len();
    let mut k: usize = 0;
    while k < n
        invariant
            n == items@.len(),
            all == strings_view(items@),
            k <= n,
            out@ == join(all.take(k as int), ", "@),
        decreases n - k,
    {
        assert(all.take(k + 1).drop_last() =~= all.take(k as int));
        if k > 0 {
            out.append(", ");
        }
        out.append(items[k].as_str());
        proof {
            if k == 0 {
                assert(out@ =~= all.take(1)[0]);
            }
        }
        k = k + 1;
    }
    assert(all.take(n as int) =~= all);
    out
}

pub fn not_one_of(s: &str, allowed: &Vec<String>) -> (r: String)
    ensures
        r@ == msg_not_one_of(s@, strings_view(allowed@)),
{
    let mut r = quoted(s, "` is not one of: ");
    let j = join_commas(allowed);
    r.append(j.as_str());
    assert(r@ =~= msg_not_one_of(s@, strings_view(allowed@)));
    r
}

pub fn unknown_type(name: &str) -> (r: String)
    ensures
        r@ == msg_unknown_type(name@),
{
    let mut s = String::new();
    s.append("schema declares no type named `");
    s.append(name);
    s.append("`");
    assert(s@ =~= msg_unknown_type(name@));
    s
}

pub fn not_finite() -> (r: String)
    ensures
        r@ == msg_not_finite(),
{
    let mut s = String::new();
    s.append("NaN and infinity are not valid values");
    assert(s@ =~= msg_not_finite());
    s
}

pub fn too_wide() -> (r: String)
    ensures
        r@ == msg_too_wide(),
{
    let mut s = String::new();
    s.append("integers wider than 64 bits are not supported");
    assert(s@ =~= msg_too_wide());
    s
}

pub fn inexact() -> (r: String)
    ensures
        r@ == msg_unsafe(),
{
    let mut s = String::new();
    s.append("the host held this integer inexactly, so it is not the value that was sent");
    assert(s@ =~= msg_unsafe());
    s
}

pub fn null_item() -> (r: String)
    ensures
        r@ == msg_null_item(),
{
    let mut s = String::new();
    s.append("must not be null; declare the element as `T?` to allow it");
    assert(s@ =~= msg_null_item());
    s
}

} // verus!
