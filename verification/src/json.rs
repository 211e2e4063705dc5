//! JSON in, [`Value`] out.
//!
//! The boundary rules apply while the bytes are read, not after. An integer
//! never passes through a binary float: it is read exactly or kept as the fact
//! that it was too wide. A number with a fraction or an exponent keeps its
//! text, and whether binary64 would hold it as a finite value.
//!
//! This parses in order to validate. There is no encoder.
//!
//! The grammar is stated as a recursive descent over the input bytes: each
//! reader says what it yields and how many bytes it reads, or where it stopped
//! and why.

use vstd::prelude::*;
use vstd::string::StrSliceExecFns;
use vstd::utf8::{decode_utf8, encode_utf8, valid_utf8};

use crate::limits::{Limits, MAX_DEPTH};
use crate::message::{self, msg_depth, owned};
use crate::text::{char_from_u32, decimal, signed_decimal, push_char, push_decimal, string_from_utf8};
use crate::value::{
    int_from_u64, entries_view, insert_entry, keys_sorted, lemma_object_view, object_insert, Entry, Float, Int,
    SpecValue, Value,
};

verus! {

/// Where reading stopped, as a byte offset, and why.
pub struct Failure {
    pub at: int,
    pub message: Seq<char>,
}

pub open spec fn fail<T>(at: int, message: Seq<char>) -> Result<T, Failure> {
    Err(Failure { at, message })
}

pub open spec fn byte_at(src: Seq<u8>, pos: int) -> Option<u8> {
    if 0 <= pos < src.len() {
        Some(src[pos])
    } else {
        None
    }
}

pub open spec fn is_ws(b: u8) -> bool {
    b == 0x20 || b == 0x09 || b == 0x0a || b == 0x0d
}

pub open spec fn is_digit(b: u8) -> bool {
    0x30 <= b <= 0x39
}

pub open spec fn is_hex(b: u8) -> bool {
    is_digit(b) || (0x61 <= b <= 0x66) || (0x41 <= b <= 0x46)
}

pub open spec fn hex_value(b: u8) -> int {
    if is_digit(b) {
        b - 0x30
    } else if 0x61 <= b <= 0x66 {
        b - 0x61 + 10
    } else {
        b - 0x41 + 10
    }
}

/// What is left of the input from `pos`, which bounds every recursion below.
pub open spec fn remaining(src: Seq<u8>, pos: int) -> nat {
    if pos <= src.len() {
        (src.len() - pos) as nat
    } else {
        0
    }
}

/// How many bytes of whitespace start at `pos`.
pub open spec fn ws_len(src: Seq<u8>, pos: int) -> nat
    decreases remaining(src, pos),
{
    if 0 <= pos < src.len() && is_ws(src[pos]) {
        1 + ws_len(src, pos + 1)
    } else {
        0
    }
}

/// How many ASCII digits start at `pos`.
pub open spec fn digits_len(src: Seq<u8>, pos: int) -> nat
    decreases remaining(src, pos),
{
    if 0 <= pos < src.len() && is_digit(src[pos]) {
        1 + digits_len(src, pos + 1)
    } else {
        0
    }
}

/// How many bytes of a string body start at `pos` before a quote, a
/// backslash or the end of input.
pub open spec fn run_len(src: Seq<u8>, pos: int) -> nat
    decreases remaining(src, pos),
{
    if 0 <= pos < src.len() && src[pos] != 0x22 && src[pos] != 0x5c {
        1 + run_len(src, pos + 1)
    } else {
        0
    }
}

// ------------------------------------------------------------ messages

pub open spec fn msg_expected_byte(b: u8) -> Seq<char> {
    "expected `"@ + seq![b as char] + "`"@
}

pub open spec fn msg_unexpected(b: u8) -> Seq<char> {
    "unexpected `"@ + seq![b as char] + "`"@
}

pub open spec fn msg_expected_word(word: Seq<char>) -> Seq<char> {
    "expected `"@ + word + "`"@
}

pub open spec fn msg_too_many_keys(max: nat) -> Seq<char> {
    "more than "@ + decimal(max) + " keys in one object"@
}

pub open spec fn msg_too_many_items(max: nat) -> Seq<char> {
    "more than "@ + decimal(max) + " items in one array"@
}

pub open spec fn msg_string_too_long(max: nat) -> Seq<char> {
    "string longer than "@ + decimal(max) + " bytes"@
}

// ------------------------------------------------------------- strings

/// Four hex digits at `pos` and their value.
pub open spec fn hex4(src: Seq<u8>, pos: int) -> Result<(int, nat), Failure> {
    if !(byte_at(src, pos) matches Some(b) && is_hex(b)) {
        fail(if pos < src.len() { pos + 1 } else { pos }, "expected four hex digits"@)
    } else if !(byte_at(src, pos + 1) matches Some(b) && is_hex(b)) {
        fail(if pos + 1 < src.len() { pos + 2 } else { pos + 1 }, "expected four hex digits"@)
    } else if !(byte_at(src, pos + 2) matches Some(b) && is_hex(b)) {
        fail(if pos + 2 < src.len() { pos + 3 } else { pos + 2 }, "expected four hex digits"@)
    } else if !(byte_at(src, pos + 3) matches Some(b) && is_hex(b)) {
        fail(if pos + 3 < src.len() { pos + 4 } else { pos + 3 }, "expected four hex digits"@)
    } else {
        Ok(
            (
                ((hex_value(src[pos]) * 16 + hex_value(src[pos + 1])) * 16 + hex_value(src[pos + 2]))
                    * 16 + hex_value(src[pos + 3]),
                4,
            ),
        )
    }
}

/// A `\u` escape whose hex digits start at `pos`: one code unit, or a high
/// surrogate followed by `\u` and a low one.
pub open spec fn unicode_escape(src: Seq<u8>, pos: int) -> Result<(char, nat), Failure> {
    match hex4(src, pos) {
        Err(f) => Err(f),
        Ok((first, _)) => if 0xD800 <= first <= 0xDBFF {
            let p = pos + 4;
            if byte_at(src, p) != Some(0x5cu8) {
                fail(if p < src.len() { p + 1 } else { p }, "lone high surrogate"@)
            } else if byte_at(src, p + 1) != Some(0x75u8) {
                fail(if p + 1 < src.len() { p + 2 } else { p + 1 }, "lone high surrogate"@)
            } else {
                match hex4(src, p + 2) {
                    Err(f) => Err(f),
                    Ok((second, _)) => if !(0xDC00 <= second <= 0xDFFF) {
                        fail(p + 6, "high surrogate not followed by a low one"@)
                    } else {
                        Ok(
                            (
                                (0x10000 + (first - 0xD800) * 1024 + (second - 0xDC00)) as char,
                                10,
                            ),
                        )
                    },
                }
            }
        } else if 0xDC00 <= first <= 0xDFFF {
            fail(pos + 4, "lone low surrogate"@)
        } else {
            Ok((first as char, 4))
        },
    }
}

/// The escape whose letter is at `pos`, just after a backslash.
pub open spec fn escape(src: Seq<u8>, pos: int) -> Result<(char, nat), Failure> {
    match byte_at(src, pos) {
        None => fail(pos, "unknown escape"@),
        Some(b) => if b == 0x22 {
            Ok(('"', 1))
        } else if b == 0x5c {
            Ok(('\\', 1))
        } else if b == 0x2f {
            Ok(('/', 1))
        } else if b == 0x62 {
            Ok(('\u{0008}', 1))
        } else if b == 0x66 {
            Ok(('\u{000C}', 1))
        } else if b == 0x6e {
            Ok(('\n', 1))
        } else if b == 0x72 {
            Ok(('\r', 1))
        } else if b == 0x74 {
            Ok(('\t', 1))
        } else if b == 0x75 {
            match unicode_escape(src, pos + 1) {
                Err(f) => Err(f),
                Ok((c, n)) => Ok((c, n + 1)),
            }
        } else {
            fail(pos + 1, "unknown escape"@)
        },
    }
}

/// The rest of a string from `pos`, after `acc` has been read. Each run of
/// plain bytes is UTF-8 text; the length limit is checked after each run.
pub open spec fn string_body(src: Seq<u8>, pos: int, lim: Limits, acc: Seq<char>) -> Result<
    (Seq<char>, nat),
    Failure,
>
    decreases remaining(src, pos),
{
    let run = run_len(src, pos);
    let end = pos + run;
    let chunk = src.subrange(pos, end);
    if !valid_utf8(chunk) {
        fail(end, "invalid UTF-8 in string"@)
    } else {
        let text = acc + decode_utf8(chunk);
        if encode_utf8(text).len() > lim.max_string_bytes {
            fail(end, msg_string_too_long(lim.max_string_bytes as nat))
        } else {
            match byte_at(src, end) {
                None => fail(end, "unterminated string"@),
                Some(b) => if b == 0x22 {
                    Ok((text, run + 1))
                } else {
                    match escape(src, end + 1) {
                        Err(f) => Err(f),
                        Ok((c, n)) => match string_body(src, end + 1 + n, lim, text.push(c)) {
                            Err(f) => Err(f),
                            Ok((s, m)) => Ok((s, run + 1 + n + m)),
                        },
                    }
                },
            }
        }
    }
}

/// A string starting with its opening quote at `pos`.
pub open spec fn string_at(src: Seq<u8>, pos: int, lim: Limits) -> Result<(Seq<char>, nat), Failure> {
    if byte_at(src, pos) != Some(0x22u8) {
        fail(pos, msg_expected_byte(0x22))
    } else {
        match string_body(src, pos + 1, lim, Seq::empty()) {
            Err(f) => Err(f),
            Ok((s, n)) => Ok((s, n + 1)),
        }
    }
}

// ------------------------------------------------------------- numbers

/// The value of a run of ASCII digits.
pub open spec fn digits_value(d: Seq<u8>) -> nat
    decreases d.len(),
{
    if d.len() == 0 {
        0
    } else {
        digits_value(d.drop_last()) * 10 + (d.last() - 0x30) as nat
    }
}

pub open spec fn pow10(n: nat) -> nat
    decreases n,
{
    if n == 0 {
        1
    } else {
        10 * pow10((n - 1) as nat)
    }
}

/// The least magnitude that binary64, rounding to nearest, takes to
/// infinity: 2^1024 - 2^970, halfway between the largest finite value and the
/// next power of two, where a tie rounds away to infinity.
pub open spec fn overflow_threshold() -> nat {
    digits_value(threshold_digits())
}

/// Whether `digits × 10^scale` is below the overflow threshold, so that
/// binary64 holds it as a finite value.
pub open spec fn below_overflow(digits: nat, scale: int) -> bool {
    if scale >= 0 {
        digits * pow10(scale as nat) < overflow_threshold()
    } else {
        digits < overflow_threshold() * pow10((-scale) as nat)
    }
}

/// The pieces of a number starting at `pos`, as byte offsets: where the
/// integer digits start and end, where the fraction digits end, and where the
/// whole number ends.
pub struct NumberShape {
    pub int_start: int,
    pub int_end: int,
    pub frac_end: int,
    pub end: int,
}

/// The shape of the number at `pos`, or where it stopped being one.
pub open spec fn number_shape(src: Seq<u8>, pos: int) -> Result<NumberShape, Failure> {
    let p = if byte_at(src, pos) == Some(0x2du8) {
        pos + 1
    } else {
        pos
    };
    if !(byte_at(src, p) matches Some(b) && is_digit(b)) {
        fail(p, "expected a digit"@)
    } else {
        // A leading zero is the whole integer part.
        let int_end = if src[p] == 0x30 {
            p + 1
        } else {
            p + digits_len(src, p)
        };
        if byte_at(src, int_end) == Some(0x2eu8) && !(byte_at(src, int_end + 1) matches Some(
            b,
        ) && is_digit(b)) {
            fail(int_end + 1, "expected a digit after `.`"@)
        } else {
            let frac_end = if byte_at(src, int_end) == Some(0x2eu8) {
                int_end + 1 + digits_len(src, int_end + 1)
            } else {
                int_end
            };
            if byte_at(src, frac_end) == Some(0x65u8) || byte_at(src, frac_end) == Some(0x45u8) {
                let q = if byte_at(src, frac_end + 1) == Some(0x2bu8) || byte_at(src, frac_end + 1)
                    == Some(0x2du8) {
                    frac_end + 2
                } else {
                    frac_end + 1
                };
                if !(byte_at(src, q) matches Some(b) && is_digit(b)) {
                    fail(q, "expected a digit in the exponent"@)
                } else {
                    Ok(NumberShape { int_start: p, int_end, frac_end, end: q + digits_len(src, q) })
                }
            } else {
                Ok(NumberShape { int_start: p, int_end, frac_end, end: frac_end })
            }
        }
    }
}

/// An integer as `i64` when it fits, else as `u64`, else too wide.
pub open spec fn integer_value(negative: bool, magnitude: nat) -> SpecValue {
    let v: int = if negative {
        -magnitude
    } else {
        magnitude as int
    };
    if -0x8000_0000_0000_0000 <= v <= 0x7fff_ffff_ffff_ffff {
        SpecValue::Int(Int::Signed(v as i64))
    } else if 0 <= v <= 0xffff_ffff_ffff_ffff {
        SpecValue::Int(Int::Unsigned(v as u64))
    } else {
        SpecValue::IntTooWide
    }
}

/// The bytes of a number's text as characters; they are all ASCII.
pub open spec fn ascii_text(b: Seq<u8>) -> Seq<char> {
    Seq::new(b.len(), |i: int| b[i] as char)
}

/// Whether the number of the given shape is finite in binary64.
pub open spec fn shape_is_finite(src: Seq<u8>, s: NumberShape) -> bool {
    let int_digits = src.subrange(s.int_start, s.int_end);
    let frac_digits = if s.frac_end > s.int_end {
        src.subrange(s.int_end + 1, s.frac_end)
    } else {
        Seq::empty()
    };
    below_overflow(
        digits_value(int_digits + frac_digits),
        exponent_of(src, s.frac_end, s.end) - frac_digits.len(),
    )
}

/// Where the digits of an exponent whose `e` is at `at` start: past its sign,
/// if it has one.
pub open spec fn exponent_start(src: Seq<u8>, at: int) -> int {
    if src[at + 1] == 0x2b || src[at + 1] == 0x2d {
        at + 2
    } else {
        at + 1
    }
}

/// The exponent of a number whose `e`, if any, is at `at` and which ends at
/// `end`.
pub open spec fn exponent_of(src: Seq<u8>, at: int, end: int) -> int {
    if end > at {
        let e = digits_value(src.subrange(exponent_start(src, at), end)) as int;
        if src[at + 1] == 0x2d {
            -e
        } else {
            e
        }
    } else {
        0
    }
}

/// The number at `pos`. Without a fraction or an exponent it is an integer,
/// read exactly; with either it is a float, kept as its text.
pub open spec fn number_at(src: Seq<u8>, pos: int) -> Result<(SpecValue, nat), Failure> {
    match number_shape(src, pos) {
        Err(f) => Err(f),
        Ok(s) => {
            let n = (s.end - pos) as nat;
            if s.frac_end == s.int_end && s.end == s.frac_end {
                Ok(
                    (
                        integer_value(
                            s.int_start > pos,
                            digits_value(src.subrange(s.int_start, s.int_end)),
                        ),
                        n,
                    ),
                )
            } else {
                Ok(
                    (
                        SpecValue::Float(
                            ascii_text(src.subrange(pos, s.end)),
                            shape_is_finite(src, s),
                        ),
                        n,
                    ),
                )
            }
        },
    }
}

// ------------------------------------------------------------ documents

/// How much nesting is still allowed at `depth`.
pub open spec fn depth_left(lim: Limits, depth: nat) -> nat {
    if depth <= lim.max_depth {
        (lim.max_depth + 1 - depth) as nat
    } else {
        0
    }
}

/// `word` spelled out at `pos`.
pub open spec fn literal_at(src: Seq<u8>, pos: int, word: Seq<char>, v: SpecValue) -> Result<
    (SpecValue, nat),
    Failure,
> {
    if pos + word.len() <= src.len() && ascii_text(src.subrange(pos, pos + word.len())) == word {
        Ok((v, word.len()))
    } else {
        fail(pos, msg_expected_word(word))
    }
}

/// The value at `pos`, `depth` levels down.
#[verifier::opaque]
pub open spec fn value_at(src: Seq<u8>, pos: int, depth: nat, lim: Limits) -> Result<
    (SpecValue, nat),
    Failure,
>
    decreases depth_left(lim, depth), remaining(src, pos), 2nat,
{
    if depth > lim.max_depth {
        fail(pos, msg_depth(lim.max_depth as nat))
    } else {
        match byte_at(src, pos) {
            None => fail(pos, "unexpected end of input"@),
            Some(b) => if b == 0x7b {
                object_at(src, pos, depth, lim)
            } else if b == 0x5b {
                array_at(src, pos, depth, lim)
            } else if b == 0x22 {
                match string_at(src, pos, lim) {
                    Err(f) => Err(f),
                    Ok((s, n)) => Ok((SpecValue::Str(s), n)),
                }
            } else if b == 0x74 {
                literal_at(src, pos, "true"@, SpecValue::Bool(true))
            } else if b == 0x66 {
                literal_at(src, pos, "false"@, SpecValue::Bool(false))
            } else if b == 0x6e {
                literal_at(src, pos, "null"@, SpecValue::Null)
            } else if b == 0x2d || is_digit(b) {
                number_at(src, pos)
            } else {
                fail(pos, msg_unexpected(b))
            },
        }
    }
}

/// An array whose `[` is at `pos`.
#[verifier::opaque]
pub open spec fn array_at(src: Seq<u8>, pos: int, depth: nat, lim: Limits) -> Result<
    (SpecValue, nat),
    Failure,
>
    decreases depth_left(lim, depth), remaining(src, pos), 1nat,
    when depth <= lim.max_depth
{
    let p = pos + 1 + ws_len(src, pos + 1);
    if byte_at(src, p) == Some(0x5du8) {
        Ok((SpecValue::Array(Seq::empty()), (p + 1 - pos) as nat))
    } else {
        match items_at(src, p, depth, lim, Seq::empty()) {
            Err(f) => Err(f),
            Ok((v, n)) => Ok((v, (p - pos + n) as nat)),
        }
    }
}

/// The elements of an array from `pos`, after `acc` has been read.
#[verifier::opaque]
pub open spec fn items_at(
    src: Seq<u8>,
    pos: int,
    depth: nat,
    lim: Limits,
    acc: Seq<SpecValue>,
) -> Result<(SpecValue, nat), Failure>
    decreases depth_left(lim, depth), remaining(src, pos), 0nat,
    when depth <= lim.max_depth
{
    let p0 = pos + ws_len(src, pos);
    match value_at(src, p0, depth + 1, lim) {
        Err(f) => Err(f),
        Ok((v, n)) => {
            let items = acc.push(v);
            let p1 = p0 + n;
            if items.len() > lim.max_items {
                fail(p1, msg_too_many_items(lim.max_items as nat))
            } else {
                let p2 = p1 + ws_len(src, p1);
                match byte_at(src, p2) {
                    None => fail(p2, "expected `,` or `]`"@),
                    Some(b) => if b == 0x5d {
                        Ok((SpecValue::Array(items), (p2 + 1 - pos) as nat))
                    } else if b == 0x2c {
                        match items_at(src, p2 + 1, depth, lim, items) {
                            Err(f) => Err(f),
                            Ok((w, m)) => Ok((w, (p2 + 1 - pos + m) as nat)),
                        }
                    } else {
                        fail(p2 + 1, "expected `,` or `]`"@)
                    },
                }
            }
        },
    }
}

/// An object whose `{` is at `pos`.
#[verifier::opaque]
pub open spec fn object_at(src: Seq<u8>, pos: int, depth: nat, lim: Limits) -> Result<
    (SpecValue, nat),
    Failure,
>
    decreases depth_left(lim, depth), remaining(src, pos), 1nat,
    when depth <= lim.max_depth
{
    let p = pos + 1 + ws_len(src, pos + 1);
    if byte_at(src, p) == Some(0x7du8) {
        Ok((SpecValue::Object(Seq::empty()), (p + 1 - pos) as nat))
    } else {
        match members_at(src, p, depth, lim, Seq::empty()) {
            Err(f) => Err(f),
            Ok((v, n)) => Ok((v, (p - pos + n) as nat)),
        }
    }
}

/// The members of an object from `pos`, after the entries `acc` have been
/// read. A repeated key keeps the last value, as every mainstream parser does.
#[verifier::opaque]
pub open spec fn members_at(
    src: Seq<u8>,
    pos: int,
    depth: nat,
    lim: Limits,
    acc: Seq<(Seq<char>, SpecValue)>,
) -> Result<(SpecValue, nat), Failure>
    decreases depth_left(lim, depth), remaining(src, pos), 0nat,
    when depth <= lim.max_depth
{
    let p0 = pos + ws_len(src, pos);
    match string_at(src, p0, lim) {
        Err(f) => Err(f),
        Ok((key, kn)) => {
            let p1 = p0 + kn;
            let p2 = p1 + ws_len(src, p1);
            if byte_at(src, p2) != Some(0x3au8) {
                fail(p2, msg_expected_byte(0x3a))
            } else {
                let p3 = p2 + 1 + ws_len(src, p2 + 1);
                match value_at(src, p3, depth + 1, lim) {
                    Err(f) => Err(f),
                    Ok((v, n)) => {
                        let entries = insert_entry(acc, key, v);
                        let p4 = p3 + n;
                        if entries.len() > lim.max_object_keys {
                            fail(p4, msg_too_many_keys(lim.max_object_keys as nat))
                        } else {
                            let p5 = p4 + ws_len(src, p4);
                            match byte_at(src, p5) {
                                None => fail(p5, "expected `,` or `}`"@),
                                Some(b) => if b == 0x7d {
                                    Ok((SpecValue::Object(entries), (p5 + 1 - pos) as nat))
                                } else if b == 0x2c {
                                    match members_at(src, p5 + 1, depth, lim, entries) {
                                        Err(f) => Err(f),
                                        Ok((w, m)) => Ok((w, (p5 + 1 - pos + m) as nat)),
                                    }
                                } else {
                                    fail(p5 + 1, "expected `,` or `}`"@)
                                },
                            }
                        }
                    },
                }
            }
        },
    }
}

// ----------------------------------------------------------------- reader

/// Where reading stopped, and why.
pub struct Stop {
    pub at: usize,
    pub message: String,
}

pub open spec fn stopped(e: Stop, f: Failure) -> bool {
    e.at as int == f.at && e.message@ == f.message
}

/// A reader's value agrees with the grammar's.
pub open spec fn value_agrees(r: Result<(Value, usize), Stop>, s: Result<(SpecValue, nat), Failure>) -> bool {
    match (r, s) {
        (Ok((a, n)), Ok((b, m))) => a.view() == b && n == m,
        (Err(e), Err(f)) => stopped(e, f),
        _ => false,
    }
}

/// A reader's string agrees with the grammar's.
pub open spec fn string_agrees(r: Result<(String, usize), Stop>, s: Result<(Seq<char>, nat), Failure>) -> bool {
    match (r, s) {
        (Ok((a, n)), Ok((b, m))) => a@ == b && n == m,
        (Err(e), Err(f)) => stopped(e, f),
        _ => false,
    }
}

/// A reader's four hex digits agree with the grammar's.
pub open spec fn hex_agrees(r: Result<(u32, usize), Stop>, s: Result<(int, nat), Failure>) -> bool {
    match (r, s) {
        (Ok((a, n)), Ok((b, m))) => a as int == b && n == m,
        (Err(e), Err(f)) => stopped(e, f),
        _ => false,
    }
}

/// A reader's character agrees with the grammar's.
pub open spec fn agrees<T>(r: Result<(T, usize), Stop>, s: Result<(T, nat), Failure>) -> bool {
    match (r, s) {
        (Ok((a, n)), Ok((b, m))) => a == b && n == m,
        (Err(e), Err(f)) => stopped(e, f),
        _ => false,
    }
}

/// The reader stayed inside the input: what it read fits, and it stopped at
/// a place in it.
pub open spec fn within<T>(r: Result<(T, usize), Stop>, src: Seq<u8>, pos: int) -> bool {
    match r {
        Ok((_, n)) => pos + n <= src.len(),
        Err(e) => e.at <= src.len(),
    }
}

pub open spec fn after<T>(r: Result<(T, nat), Failure>, k: int) -> Result<(T, nat), Failure> {
    match r {
        Ok((v, n)) => Ok((v, (n + k) as nat)),
        Err(f) => Err(f),
    }
}

fn stop(at: usize, message: String) -> (r: Stop)
    ensures
        r.at == at,
        r.message@ == message@,
{
    Stop { at, message }
}

fn ws_byte(b: u8) -> (r: bool)
    ensures
        r == is_ws(b),
{
    b == 0x20 || b == 0x09 || b == 0x0a || b == 0x0d
}

fn digit_byte(b: u8) -> (r: bool)
    ensures
        r == is_digit(b),
{
    0x30 <= b && b <= 0x39
}

fn skip_ws(src: &[u8], pos: usize) -> (r: usize)
    requires
        pos <= src@.len(),
    ensures
        r == pos + ws_len(src@, pos as int),
        r <= src@.len(),
{
    let mut p = pos;
    while p < src.len() && ws_byte(src[p])
        invariant
            pos <= p <= src@.len(),
            pos + ws_len(src@, pos as int) == p + ws_len(src@, p as int),
        decreases src@.len() - p,
    {
        p = p + 1;
    }
    p
}

fn skip_digits(src: &[u8], pos: usize) -> (r: usize)
    requires
        pos <= src@.len(),
    ensures
        r == pos + digits_len(src@, pos as int),
        r <= src@.len(),
        forall|i: int| pos <= i < r ==> is_digit(#[trigger] src@[i]),
{
    let mut p = pos;
    while p < src.len() && digit_byte(src[p])
        invariant
            pos <= p <= src@.len(),
            pos + digits_len(src@, pos as int) == p + digits_len(src@, p as int),
            forall|i: int| pos <= i < p ==> is_digit(#[trigger] src@[i]),
        decreases src@.len() - p,
    {
        p = p + 1;
    }
    p
}

fn skip_run(src: &[u8], pos: usize) -> (r: usize)
    requires
        pos <= src@.len(),
    ensures
        r == pos + run_len(src@, pos as int),
        r <= src@.len(),
{
    let mut p = pos;
    while p < src.len() && src[p] != 0x22 && src[p] != 0x5c
        invariant
            pos <= p <= src@.len(),
            pos + run_len(src@, pos as int) == p + run_len(src@, p as int),
        decreases src@.len() - p,
    {
        p = p + 1;
    }
    p
}

/// The bytes `src[from..to]`, owned.
fn copy_bytes(src: &[u8], from: usize, to: usize) -> (r: Vec<u8>)
    requires
        from <= to <= src@.len(),
    ensures
        r@ == src@.subrange(from as int, to as int),
{
    let mut out: Vec<u8> = Vec::new();
    let mut i = from;
    while i < to
        invariant
            from <= i <= to <= src@.len(),
            out@ == src@.subrange(from as int, i as int),
        decreases to - i,
    {
        out.push(src[i]);
        i = i + 1;
        assert(out@ =~= src@.subrange(from as int, i as int));
    }
    out
}

/// The bytes `src[from..to]` as characters, one each.
fn ascii_string(src: &[u8], from: usize, to: usize) -> (r: String)
    requires
        from <= to <= src@.len(),
    ensures
        r@ == ascii_text(src@.subrange(from as int, to as int)),
{
    let mut out = String::new();
    let mut i = from;
    while i < to
        invariant
            from <= i <= to <= src@.len(),
            out@ == ascii_text(src@.subrange(from as int, i as int)),
        decreases to - i,
    {
        push_char(&mut out, src[i] as char);
        i = i + 1;
        assert(out@ =~= ascii_text(src@.subrange(from as int, i as int)));
    }
    out
}

fn expected_byte(b: u8) -> (r: String)
    ensures
        r@ == msg_expected_byte(b),
{
    let mut s = owned("expected `");
    push_char(&mut s, b as char);
    s.append("`");
    assert(s@ =~= msg_expected_byte(b));
    s
}

fn unexpected(b: u8) -> (r: String)
    ensures
        r@ == msg_unexpected(b),
{
    let mut s = owned("unexpected `");
    push_char(&mut s, b as char);
    s.append("`");
    assert(s@ =~= msg_unexpected(b));
    s
}

/// `<head><n><tail>`.
fn around(head: &str, n: usize, tail: &str) -> (r: String)
    ensures
        r@ == head@ + decimal(n as nat) + tail@,
{
    let mut s = owned(head);
    push_decimal(&mut s, n as u128);
    s.append(tail);
    assert(s@ =~= head@ + decimal(n as nat) + tail@);
    s
}

/// One hex digit at `pos`, if there is one.
fn hex_digit(src: &[u8], pos: usize) -> (r: Option<u32>)
    ensures
        r is Some <==> (byte_at(src@, pos as int) matches Some(b) && is_hex(b)),
        r is Some ==> pos < src@.len(),
        r matches Some(d) ==> d == hex_value(src@[pos as int]) && d < 16,
{
    if pos < src.len() {
        let b = src[pos];
        if 0x30 <= b && b <= 0x39 {
            Some((b - 0x30) as u32)
        } else if 0x61 <= b && b <= 0x66 {
            Some((b - 0x61 + 10) as u32)
        } else if 0x41 <= b && b <= 0x46 {
            Some((b - 0x41 + 10) as u32)
        } else {
            None
        }
    } else {
        None
    }
}

/// Where a hex digit expected at `pos` was found missing.
fn hex_stop(src: &[u8], pos: usize) -> (r: Stop)
    requires
        pos <= src@.len(),
    ensures
        r.at == if pos < src@.len() {
            pos + 1
        } else {
            pos as int
        },
        r.message@ == "expected four hex digits"@,
        r.at <= src@.len(),
{
    stop(
        if pos < src.len() {
            pos + 1
        } else {
            pos
        },
        owned("expected four hex digits"),
    )
}

fn read_hex4(src: &[u8], pos: usize) -> (r: Result<(u32, usize), Stop>)
    requires
        pos <= src@.len(),
    ensures
        hex_agrees(r, hex4(src@, pos as int)),
        within(r, src@, pos as int),
        r is Ok ==> pos + 4 <= src@.len(),
        r matches Ok((v, _)) ==> v < 0x10000,
{
    let len = src.len();
    let d0 = match hex_digit(src, pos) {
        Some(d) => d,
        None => return Err(hex_stop(src, pos)),
    };
    let d1 = match hex_digit(src, pos + 1) {
        Some(d) => d,
        None => return Err(hex_stop(src, pos + 1)),
    };
    let d2 = match hex_digit(src, pos + 2) {
        Some(d) => d,
        None => return Err(hex_stop(src, pos + 2)),
    };
    let d3 = match hex_digit(src, pos + 3) {
        Some(d) => d,
        None => return Err(hex_stop(src, pos + 3)),
    };
    Ok((((d0 * 16 + d1) * 16 + d2) * 16 + d3, 4))
}

fn read_unicode_escape(src: &[u8], pos: usize) -> (r: Result<(char, usize), Stop>)
    requires
        pos <= src@.len(),
    ensures
        agrees(r, unicode_escape(src@, pos as int)),
        within(r, src@, pos as int),
{
    let len = src.len();
    let first = match read_hex4(src, pos) {
        Ok((v, _)) => v,
        Err(e) => return Err(e),
    };
    if 0xD800 <= first && first <= 0xDBFF {
        let p = pos + 4;
        if !(p < src.len() && src[p] == 0x5c) {
            return Err(
                stop(
                    if p < src.len() {
                        p + 1
                    } else {
                        p
                    },
                    owned("lone high surrogate"),
                ),
            );
        }
        if !(p + 1 < src.len() && src[p + 1] == 0x75) {
            return Err(
                stop(
                    if p + 1 < src.len() {
                        p + 2
                    } else {
                        p + 1
                    },
                    owned("lone high surrogate"),
                ),
            );
        }
        let second = match read_hex4(src, p + 2) {
            Ok((v, _)) => v,
            Err(e) => return Err(e),
        };
        if !(0xDC00 <= second && second <= 0xDFFF) {
            return Err(stop(p + 6, owned("high surrogate not followed by a low one")));
        }
        let scalar = 0x10000 + (first - 0xD800) * 1024 + (second - 0xDC00);
        match char_from_u32(scalar) {
            Some(c) => Ok((c, 10)),
            None => Err(stop(p + 6, owned("escape is not a Unicode scalar value"))),
        }
    } else if 0xDC00 <= first && first <= 0xDFFF {
        Err(stop(pos + 4, owned("lone low surrogate")))
    } else {
        match char_from_u32(first) {
            Some(c) => Ok((c, 4)),
            None => Err(stop(pos + 4, owned("escape is not a Unicode scalar value"))),
        }
    }
}

fn read_escape(src: &[u8], pos: usize) -> (r: Result<(char, usize), Stop>)
    requires
        pos <= src@.len(),
    ensures
        agrees(r, escape(src@, pos as int)),
        within(r, src@, pos as int),
{
    if pos >= src.len() {
        return Err(stop(pos, owned("unknown escape")));
    }
    let b = src[pos];
    if b == 0x22 {
        Ok(('"', 1))
    } else if b == 0x5c {
        Ok(('\\', 1))
    } else if b == 0x2f {
        Ok(('/', 1))
    } else if b == 0x62 {
        Ok(('\u{0008}', 1))
    } else if b == 0x66 {
        Ok(('\u{000C}', 1))
    } else if b == 0x6e {
        Ok(('\n', 1))
    } else if b == 0x72 {
        Ok(('\r', 1))
    } else if b == 0x74 {
        Ok(('\t', 1))
    } else if b == 0x75 {
        match read_unicode_escape(src, pos + 1) {
            Ok((c, n)) => Ok((c, n + 1)),
            Err(e) => Err(e),
        }
    } else {
        Err(stop(pos + 1, owned("unknown escape")))
    }
}

fn read_string(src: &[u8], pos: usize, lim: Limits) -> (r: Result<(String, usize), Stop>)
    requires
        pos <= src@.len(),
    ensures
        string_agrees(r, string_at(src@, pos as int, lim)),
        within(r, src@, pos as int),
{
    if !(pos < src.len() && src[pos] == 0x22) {
        return Err(stop(pos, expected_byte(0x22)));
    }
    let ghost start = pos + 1;
    let mut out = String::new();
    let mut p = pos + 1;
    loop
        invariant
            start == pos + 1,
            pos < src@.len(),
            src@[pos as int] == 0x22,
            start <= p <= src@.len(),
            string_body(src@, start, lim, Seq::empty()) == after(
                string_body(src@, p as int, lim, out@),
                p - start,
            ),
        decreases src@.len() - p,
    {
        let end = skip_run(src, p);
        let chunk = copy_bytes(src, p, end);
        let text = match string_from_utf8(chunk) {
            Some(t) => t,
            None => {
                assert(!valid_utf8(src@.subrange(p as int, end as int)));
                return Err(stop(end, owned("invalid UTF-8 in string")));
            },
        };
        proof {
            vstd::utf8::encode_utf8_decode_utf8(text@);
        }
        assert(text@ == decode_utf8(src@.subrange(p as int, end as int)));
        out.append(text.as_str());
        if out.as_str().as_bytes().len() > lim.max_string_bytes {
            return Err(stop(end, around("string longer than ", lim.max_string_bytes, " bytes")));
        }
        if end >= src.len() {
            return Err(stop(end, owned("unterminated string")));
        }
        if src[end] == 0x22 {
            return Ok((out, end + 1 - pos));
        }
        let (c, n) = match read_escape(src, end + 1) {
            Ok(x) => x,
            Err(e) => return Err(e),
        };
        push_char(&mut out, c);
        p = end + 1 + n;
    }
}

/// The shape of the number at `pos` as the reader found it.
pub open spec fn shape_of(a: usize, b: usize, c: usize, d: usize) -> NumberShape {
    NumberShape { int_start: a as int, int_end: b as int, frac_end: c as int, end: d as int }
}

/// What a number's shape promises about its bytes: digits where digits go.
pub open spec fn shaped(src: Seq<u8>, a: int, b: int, c: int, d: int) -> bool {
    &&& 0 <= a < b <= c <= d <= src.len()
    &&& forall|i: int| a <= i < b ==> is_digit(#[trigger] src[i])
    &&& c > b ==> b + 1 < c && forall|i: int| b + 1 <= i < c ==> is_digit(#[trigger] src[i])
    &&& d > c ==> c + 1 < d && exponent_start(src, c) < d && forall|i: int|
        exponent_start(src, c) <= i < d ==> is_digit(#[trigger] src[i])
}

/// Every byte of a run of digits is a digit.
proof fn lemma_digits_run(src: Seq<u8>, p: int)
    requires
        0 <= p <= src.len(),
    ensures
        p + digits_len(src, p) <= src.len(),
        forall|i: int| p <= i < p + digits_len(src, p) ==> is_digit(#[trigger] src[i]),
    decreases src.len() - p,
{
    if p < src.len() && is_digit(src[p]) {
        lemma_digits_run(src, p + 1);
    }
}

/// A number's shape keeps digits where digits go.
proof fn lemma_shaped(src: Seq<u8>, pos: int, s: NumberShape)
    requires
        0 <= pos <= src.len(),
        number_shape(src, pos) == Ok::<NumberShape, Failure>(s),
    ensures
        shaped(src, s.int_start, s.int_end, s.frac_end, s.end),
{
    let p = s.int_start;
    lemma_digits_run(src, p);
    if s.frac_end > s.int_end {
        lemma_digits_run(src, s.int_end + 1);
    }
    if s.end > s.frac_end {
        lemma_digits_run(src, exponent_start(src, s.frac_end));
    }
}

/// An integer from its sign and digits, never through a float.
fn read_integer(src: &[u8], from: usize, to: usize, negative: bool) -> (r: Value)
    requires
        from <= to <= src@.len(),
        forall|i: int| from <= i < to ==> is_digit(#[trigger] src@[i]),
    ensures
        r.view() == integer_value(negative, digits_value(src@.subrange(from as int, to as int))),
{
    // Past 2^64 the exact magnitude no longer matters: it fits neither type.
    let cap: u128 = 0x1_0000_0000_0000_0000;
    let mut mag: u128 = 0;
    let mut i = from;
    while i < to
        invariant
            from <= i <= to <= src@.len(),
            forall|j: int| from <= j < to ==> is_digit(#[trigger] src@[j]),
            mag == digits_value(src@.subrange(from as int, i as int)) || (mag > cap
                && digits_value(src@.subrange(from as int, i as int)) > cap),
            cap == 0x1_0000_0000_0000_0000u128,
            mag <= cap * 10 + 9,
        decreases to - i,
    {
        let d = (src[i] - 0x30) as u128;
        assert(src@.subrange(from as int, i + 1).drop_last() =~= src@.subrange(from as int, i as int));
        if mag <= cap {
            mag = mag * 10 + d;
        }
        i = i + 1;
    }
    if negative {
        if mag <= 0x8000_0000_0000_0000 {
            let v: i128 = 0 - (mag as i128);
            Value::Int(Int::Signed(v as i64))
        } else {
            Value::IntTooWide
        }
    } else if mag <= 0x7fff_ffff_ffff_ffff {
        Value::Int(Int::Signed(mag as i64))
    } else if mag <= 0xffff_ffff_ffff_ffff {
        Value::Int(Int::Unsigned(mag as u64))
    } else {
        Value::IntTooWide
    }
}

/// The shape of the number at `pos`: where its integer digits start and end,
/// where its fraction ends and where it ends.
fn read_shape(src: &[u8], pos: usize) -> (r: Result<(usize, usize, usize, usize), Stop>)
    requires
        pos <= src@.len(),
    ensures
        match (r, number_shape(src@, pos as int)) {
            (Ok((a, b, c, d)), Ok(s)) => s == shape_of(a, b, c, d),
            (Err(e), Err(f)) => stopped(e, f),
            _ => false,
        },
        r matches Err(e) ==> e.at <= src@.len(),
        r matches Ok((a, b, c, d)) ==> pos <= a <= b <= c <= d <= src@.len() && (a == pos || a
            == pos + 1) && a < b && forall|i: int| a <= i < b ==> is_digit(#[trigger] src@[i]),
{
    let len = src.len();
    let p = if pos < len && src[pos] == 0x2d {
        pos + 1
    } else {
        pos
    };
    if !(p < len && digit_byte(src[p])) {
        return Err(stop(p, owned("expected a digit")));
    }
    let int_end = if src[p] == 0x30 {
        p + 1
    } else {
        skip_digits(src, p)
    };
    let dot = int_end < len && src[int_end] == 0x2e;
    if dot && !(int_end + 1 < len && digit_byte(src[int_end + 1])) {
        return Err(stop(int_end + 1, owned("expected a digit after `.`")));
    }
    let frac_end = if dot {
        skip_digits(src, int_end + 1)
    } else {
        int_end
    };
    if frac_end < len && (src[frac_end] == 0x65 || src[frac_end] == 0x45) {
        let q = if frac_end + 1 < len && (src[frac_end + 1] == 0x2b || src[frac_end + 1] == 0x2d) {
            frac_end + 2
        } else {
            frac_end + 1
        };
        if !(q < len && digit_byte(src[q])) {
            return Err(stop(q, owned("expected a digit in the exponent")));
        }
        Ok((p, int_end, frac_end, skip_digits(src, q)))
    } else {
        Ok((p, int_end, frac_end, frac_end))
    }
}

fn read_number(src: &[u8], pos: usize) -> (r: Result<(Value, usize), Stop>)
    requires
        pos <= src@.len(),
    ensures
        value_agrees(r, number_at(src@, pos as int)),
        within(r, src@, pos as int),
{
    let (p, int_end, frac_end, end) = match read_shape(src, pos) {
        Ok(x) => x,
        Err(e) => return Err(e),
    };
    if frac_end == int_end && end == frac_end {
        Ok((read_integer(src, p, int_end, p > pos), end - pos))
    } else {
        let text = ascii_string(src, pos, end);
        proof {
            lemma_shaped(src@, pos as int, shape_of(p, int_end, frac_end, end));
        }
        let finite = shape_finite(src, p, int_end, frac_end, end);
        Ok((Value::Float(Float { text, finite }), end - pos))
    }
}

/// The elements of an array as the contracts speak of them.
pub open spec fn values_view(items: Seq<Value>) -> Seq<SpecValue> {
    Seq::new(items.len(), |i: int| items[i].view())
}

fn read_literal(src: &[u8], pos: usize, word: &str, v: Value) -> (r: Result<(Value, usize), Stop>)
    requires
        pos <= src@.len(),
    ensures
        value_agrees(r, literal_at(src@, pos as int, word@, v.view())),
        within(r, src@, pos as int),
{
    let n = word.unicode_len();
    let len = src.len();
    if n > len - pos {
        return Err(stop(pos, expected_word(word)));
    }
    let mut i: usize = 0;
    while i < n
        invariant
            n == word@.len(),
            len == src@.len(),
            pos + n <= src@.len(),
            i <= n,
            forall|j: int| 0 <= j < i ==> (src@[pos + j] as char) == word@[j],
        decreases n - i,
    {
        if (src[pos + i] as char) != word.get_char(i) {
            assert(ascii_text(src@.subrange(pos as int, pos + n))[i as int] != word@[i as int]);
            return Err(stop(pos, expected_word(word)));
        }
        i = i + 1;
    }
    assert(ascii_text(src@.subrange(pos as int, pos + n)) =~= word@);
    Ok((v, n))
}

fn expected_word(word: &str) -> (r: String)
    ensures
        r@ == msg_expected_word(word@),
{
    let mut s = owned("expected `");
    s.append(word);
    s.append("`");
    assert(s@ =~= msg_expected_word(word@));
    s
}

fn read_value(src: &[u8], pos: usize, depth: usize, lim: Limits) -> (r: Result<(Value, usize), Stop>)
    requires
        pos <= src@.len(),
        depth <= lim.max_depth + 1,
        lim.max_depth <= MAX_DEPTH,
    ensures
        value_agrees(r, value_at(src@, pos as int, depth as nat, lim)),
        within(r, src@, pos as int),
    decreases lim.max_depth + 1 - depth, 1nat,
{
    reveal(value_at);
    reveal(object_at);
    reveal(array_at);
    if depth > lim.max_depth {
        return Err(stop(pos, message::depth(lim.max_depth)));
    }
    if pos >= src.len() {
        return Err(stop(pos, owned("unexpected end of input")));
    }
    let b = src[pos];
    if b == 0x7b {
        read_object(src, pos, depth, lim)
    } else if b == 0x5b {
        read_array(src, pos, depth, lim)
    } else if b == 0x22 {
        match read_string(src, pos, lim) {
            Ok((s, n)) => Ok((Value::String(s), n)),
            Err(e) => Err(e),
        }
    } else if b == 0x74 {
        read_literal(src, pos, "true", Value::Bool(true))
    } else if b == 0x66 {
        read_literal(src, pos, "false", Value::Bool(false))
    } else if b == 0x6e {
        read_literal(src, pos, "null", Value::Null)
    } else if b == 0x2d || digit_byte(b) {
        read_number(src, pos)
    } else {
        Err(stop(pos, unexpected(b)))
    }
}

#[verifier::spinoff_prover]
#[verifier::rlimit(40)]
fn read_array(src: &[u8], pos: usize, depth: usize, lim: Limits) -> (r: Result<(Value, usize), Stop>)
    requires
        pos < src@.len(),
        src@[pos as int] == 0x5b,
        depth <= lim.max_depth,
        lim.max_depth <= MAX_DEPTH,
    ensures
        value_agrees(r, array_at(src@, pos as int, depth as nat, lim)),
        within(r, src@, pos as int),
    decreases lim.max_depth + 1 - depth, 0nat,
{
    reveal(array_at);
    reveal(items_at);
    let len = src.len();
    let p = skip_ws(src, pos + 1);
    if p < src.len() && src[p] == 0x5d {
        let r = Value::Array(Vec::new());
        assert(r.view()->Array_0 =~= Seq::<SpecValue>::empty());
        return Ok((r, p + 1 - pos));
    }
    let mut items: Vec<Value> = Vec::new();
    let mut q = p;
    assert(values_view(items@) =~= Seq::<SpecValue>::empty());
    loop
        invariant
            len == src@.len(),
            p <= q <= src@.len(),
            pos < p,
            depth <= lim.max_depth,
            lim.max_depth <= MAX_DEPTH,
            array_at(src@, pos as int, depth as nat, lim) == after(
                items_at(src@, p as int, depth as nat, lim, Seq::empty()),
                p - pos,
            ),
            items_at(src@, p as int, depth as nat, lim, Seq::empty()) == after(
                items_at(src@, q as int, depth as nat, lim, values_view(items@)),
                q - p,
            ),
        decreases src@.len() - q,
    {
        reveal(items_at);
        reveal(value_at);
        let q0 = skip_ws(src, q);
        let (v, n) = match read_value(src, q0, depth + 1, lim) {
            Ok(x) => x,
            Err(e) => return Err(e),
        };
        let ghost before = items@;
        items.push(v);
        assert(values_view(items@) =~= values_view(before).push(v.view()));
        let q1 = q0 + n;
        if items.len() > lim.max_items {
            return Err(stop(q1, around("more than ", lim.max_items, " items in one array")));
        }
        let q2 = skip_ws(src, q1);
        if q2 >= src.len() {
            return Err(stop(q2, owned("expected `,` or `]`")));
        }
        if src[q2] == 0x5d {
            let r = Value::Array(items);
            assert(r.view()->Array_0 =~= values_view(items@));
            return Ok((r, q2 + 1 - pos));
        }
        if src[q2] != 0x2c {
            return Err(stop(q2 + 1, owned("expected `,` or `]`")));
        }
        q = q2 + 1;
    }
}

#[verifier::spinoff_prover]
#[verifier::rlimit(40)]
fn read_object(src: &[u8], pos: usize, depth: usize, lim: Limits) -> (r: Result<(Value, usize), Stop>)
    requires
        pos < src@.len(),
        src@[pos as int] == 0x7b,
        depth <= lim.max_depth,
        lim.max_depth <= MAX_DEPTH,
    ensures
        value_agrees(r, object_at(src@, pos as int, depth as nat, lim)),
        within(r, src@, pos as int),
    decreases lim.max_depth + 1 - depth, 0nat,
{
    reveal(object_at);
    reveal(members_at);
    let len = src.len();
    let p = skip_ws(src, pos + 1);
    if p < src.len() && src[p] == 0x7d {
        let r = Value::Object(Vec::new());
        assert(r.view()->Object_0 =~= Seq::<(Seq<char>, SpecValue)>::empty());
        return Ok((r, p + 1 - pos));
    }
    let mut entries: Vec<Entry> = Vec::new();
    let mut q = p;
    proof {
        reveal(keys_sorted);
    }
    assert(entries_view(entries@) =~= Seq::<(Seq<char>, SpecValue)>::empty());
    loop
        invariant
            len == src@.len(),
            p <= q <= src@.len(),
            pos < p,
            depth <= lim.max_depth,
            lim.max_depth <= MAX_DEPTH,
            keys_sorted(entries_view(entries@)),
            object_at(src@, pos as int, depth as nat, lim) == after(
                members_at(src@, p as int, depth as nat, lim, Seq::empty()),
                p - pos,
            ),
            members_at(src@, p as int, depth as nat, lim, Seq::empty()) == after(
                members_at(src@, q as int, depth as nat, lim, entries_view(entries@)),
                q - p,
            ),
        decreases src@.len() - q,
    {
        reveal(members_at);
        reveal(value_at);
        let q0 = skip_ws(src, q);
        let (key, kn) = match read_string(src, q0, lim) {
            Ok(x) => x,
            Err(e) => return Err(e),
        };
        let q1 = q0 + kn;
        let q2 = skip_ws(src, q1);
        if !(q2 < src.len() && src[q2] == 0x3a) {
            return Err(stop(q2, expected_byte(0x3a)));
        }
        let q3 = skip_ws(src, q2 + 1);
        let (v, n) = match read_value(src, q3, depth + 1, lim) {
            Ok(x) => x,
            Err(e) => return Err(e),
        };
        object_insert(&mut entries, key, v);
        let q4 = q3 + n;
        if entries.len() > lim.max_object_keys {
            return Err(stop(q4, around("more than ", lim.max_object_keys, " keys in one object")));
        }
        let q5 = skip_ws(src, q4);
        if q5 >= src.len() {
            return Err(stop(q5, owned("expected `,` or `}`")));
        }
        if src[q5] == 0x7d {
            let r = Value::Object(entries);
            proof {
                lemma_object_view(r);
            }
            return Ok((r, q5 + 1 - pos));
        }
        if src[q5] != 0x2c {
            return Err(stop(q5 + 1, owned("expected `,` or `}`")));
        }
        q = q5 + 1;
    }
}

// --------------------------------------------------------------- document

/// A parse failure, with a 1-based line and column.
#[derive(Debug, Clone, PartialEq, Eq)]
pub struct JsonError {
    pub line: usize,
    pub column: usize,
    pub message: String,
}

impl JsonError {
    /// `line:column: message`.
    pub fn describe(&self) -> (r: String)
        ensures
            r@ == decimal(self.line as nat) + ":"@ + decimal(self.column as nat) + ": "@
                + self.message@,
    {
        let mut s = String::new();
        push_decimal(&mut s, self.line as u128);
        s.append(":");
        push_decimal(&mut s, self.column as u128);
        s.append(": ");
        s.append(self.message.as_str());
        assert(s@ =~= decimal(self.line as nat) + ":"@ + decimal(self.column as nat) + ": "@
            + self.message@);
        s
    }
}

/// The 1-based line and column of byte offset `at`: a newline starts a new
/// line, and every other byte moves one column.
pub open spec fn line_col(src: Seq<u8>, at: int) -> (nat, nat)
    decreases at,
{
    if at <= 0 {
        (1, 1)
    } else {
        let (line, col) = line_col(src, at - 1);
        if src[at - 1] == 0x0a {
            (line + 1, 1)
        } else {
            (line, col + 1)
        }
    }
}

/// The length of the longest prefix that is UTF-8.
pub open spec fn valid_prefix_len(b: Seq<u8>) -> nat {
    choose|n: nat|
        n <= b.len() && valid_utf8(b.take(n as int)) && forall|m: int|
            n < m <= b.len() ==> !valid_utf8(#[trigger] b.take(m))
}

/// What reading a whole document gives: its value, or where it failed as
/// `(line, column, message)`. Nothing but whitespace may follow the value.
pub open spec fn document(src: Seq<u8>, limits: Limits) -> Result<SpecValue, (nat, nat, Seq<char>)> {
    let lim = Limits {
        max_depth: if limits.max_depth > MAX_DEPTH {
            MAX_DEPTH
        } else {
            limits.max_depth
        },
        ..limits
    };
    if !valid_utf8(src) {
        Err((1, valid_prefix_len(src) + 1, "input is not valid UTF-8"@))
    } else {
        let p0 = ws_len(src, 0) as int;
        match value_at(src, p0, 0, lim) {
            Err(f) => Err((line_col(src, f.at).0, line_col(src, f.at).1, f.message)),
            Ok((v, n)) => {
                let p1 = p0 + n;
                let p2 = p1 + ws_len(src, p1);
                if p2 < src.len() {
                    Err(
                        (
                            line_col(src, p2).0,
                            line_col(src, p2).1,
                            "trailing characters after the document"@,
                        ),
                    )
                } else {
                    Ok(v)
                }
            },
        }
    }
}

/// `std::str::from_utf8`: whether the bytes are UTF-8 and, when they are
/// not, its `valid_up_to`, the length of the longest prefix that is.
#[verifier::external_body]
fn utf8_valid_up_to(input: &[u8]) -> (r: Result<(), usize>)
    ensures
        r is Ok <==> valid_utf8(input@),
        r matches Err(n) ==> n <= input@.len() && valid_utf8(input@.take(n as int)) && forall|
            m: int,
        | n < m <= input@.len() ==> !valid_utf8(#[trigger] input@.take(m)),
{
    match std::str::from_utf8(input) {
        Ok(_) => Ok(()),
        Err(e) => Err(e.valid_up_to()),
    }
}

/// The error at byte offset `at`, placed by line and column.
fn error_at(src: &[u8], at: usize, message: String) -> (r: JsonError)
    requires
        at <= src@.len(),
        src@.len() < usize::MAX,
    ensures
        (r.line as nat, r.column as nat) == line_col(src@, at as int),
        r.message@ == message@,
{
    let mut line: usize = 1;
    let mut column: usize = 1;
    let mut i: usize = 0;
    while i < at
        invariant
            at <= src@.len() < usize::MAX,
            i <= at,
            (line as nat, column as nat) == line_col(src@, i as int),
            line <= i + 1,
            column <= i + 1,
        decreases at - i,
    {
        if src[i] == 0x0a {
            line = line + 1;
            column = 1;
        } else {
            column = column + 1;
        }
        i = i + 1;
    }
    JsonError { line, column, message }
}

/// Parses one JSON document, rejecting anything after it. `limits` is
/// clamped before use; each one is enforced while reading.
pub fn parse(input: &[u8], limits: Limits) -> (r: Result<Value, JsonError>)
    requires
        input@.len() < usize::MAX,
    ensures
        match (r, document(input@, limits)) {
            (Ok(v), Ok(w)) => v.view() == w,
            (Err(e), Err((line, column, message))) => e.line == line && e.column == column
                && e.message@ == message,
            _ => false,
        },
{
    match utf8_valid_up_to(input) {
        Ok(()) => {},
        Err(n) => {
            let ghost b = input@;
            assert(valid_prefix_len(b) == n) by {
                let k = valid_prefix_len(b);
                assert(n <= b.len() && valid_utf8(b.take(n as int)) && forall|m: int|
                    n < m <= b.len() ==> !valid_utf8(#[trigger] b.take(m)));
                if k < n {
                    assert(!valid_utf8(b.take(n as int)));
                } else if k > n {
                    assert(!valid_utf8(b.take(k as int)));
                }
            }
            return Err(
                JsonError { line: 1, column: n + 1, message: owned("input is not valid UTF-8") },
            );
        },
    }
    let lim = limits.clamped();
    let p0 = skip_ws(input, 0);
    match read_value(input, p0, 0, lim) {
        Err(e) => Err(error_at(input, e.at, e.message)),
        Ok((v, n)) => {
            let p2 = skip_ws(input, p0 + n);
            if p2 < input.len() {
                Err(error_at(input, p2, owned("trailing characters after the document")))
            } else {
                Ok(v)
            }
        },
    }
}

/// The decimal digits of the overflow threshold, most significant first.
pub open spec fn threshold_digits() -> Seq<u8> {
    seq![
        49, 55, 57, 55, 54, 57, 51, 49, 51, 52, 56, 54, 50, 51, 49, 53, 56, 48, 55, 57, 51, 55, 50,
        56, 57, 55, 49, 52, 48, 53, 51, 48, 51, 52, 49, 53, 48, 55, 57, 57, 51, 52, 49, 51, 50, 55,
        49, 48, 48, 51, 55, 56, 50, 54, 57, 51, 54, 49, 55, 51, 55, 55, 56, 57, 56, 48, 52, 52, 52,
        57, 54, 56, 50, 57, 50, 55, 54, 52, 55, 53, 48, 57, 52, 54, 54, 52, 57, 48, 49, 55, 57, 55,
        55, 53, 56, 55, 50, 48, 55, 48, 57, 54, 51, 51, 48, 50, 56, 54, 52, 49, 54, 54, 57, 50, 56,
        56, 55, 57, 49, 48, 57, 52, 54, 53, 53, 53, 53, 52, 55, 56, 53, 49, 57, 52, 48, 52, 48, 50,
        54, 51, 48, 54, 53, 55, 52, 56, 56, 54, 55, 49, 53, 48, 53, 56, 50, 48, 54, 56, 49, 57, 48,
        56, 57, 48, 50, 48, 48, 48, 55, 48, 56, 51, 56, 51, 54, 55, 54, 50, 55, 51, 56, 53, 52, 56,
        52, 53, 56, 49, 55, 55, 49, 49, 53, 51, 49, 55, 54, 52, 52, 55, 53, 55, 51, 48, 50, 55, 48,
        48, 54, 57, 56, 53, 53, 53, 55, 49, 51, 54, 54, 57, 53, 57, 54, 50, 50, 56, 52, 50, 57, 49,
        52, 56, 49, 57, 56, 54, 48, 56, 51, 52, 57, 51, 54, 52, 55, 53, 50, 57, 50, 55, 49, 57, 48,
        55, 52, 49, 54, 56, 52, 52, 52, 51, 54, 53, 53, 49, 48, 55, 48, 52, 51, 52, 50, 55, 49, 49,
        53, 53, 57, 54, 57, 57, 53, 48, 56, 48, 57, 51, 48, 52, 50, 56, 56, 48, 49, 55, 55, 57, 48,
        52, 49, 55, 52, 52, 57, 55, 55, 57, 50
    ]
}

proof fn lemma_threshold_digits()
    ensures
        threshold_digits().len() == 309,
        threshold_digits()[0] == 0x31,
        forall|i: int| 0 <= i < 309 ==> is_digit(#[trigger] threshold_digits()[i]),
{
}

fn threshold_array() -> (r: [u8; 309])
    ensures
        r@ == threshold_digits(),
{
    let t: [u8; 309] = [
        49, 55, 57, 55, 54, 57, 51, 49, 51, 52, 56, 54, 50, 51, 49, 53, 56, 48, 55, 57, 51, 55, 50,
        56, 57, 55, 49, 52, 48, 53, 51, 48, 51, 52, 49, 53, 48, 55, 57, 57, 51, 52, 49, 51, 50, 55,
        49, 48, 48, 51, 55, 56, 50, 54, 57, 51, 54, 49, 55, 51, 55, 55, 56, 57, 56, 48, 52, 52, 52,
        57, 54, 56, 50, 57, 50, 55, 54, 52, 55, 53, 48, 57, 52, 54, 54, 52, 57, 48, 49, 55, 57, 55,
        55, 53, 56, 55, 50, 48, 55, 48, 57, 54, 51, 51, 48, 50, 56, 54, 52, 49, 54, 54, 57, 50, 56,
        56, 55, 57, 49, 48, 57, 52, 54, 53, 53, 53, 53, 52, 55, 56, 53, 49, 57, 52, 48, 52, 48, 50,
        54, 51, 48, 54, 53, 55, 52, 56, 56, 54, 55, 49, 53, 48, 53, 56, 50, 48, 54, 56, 49, 57, 48,
        56, 57, 48, 50, 48, 48, 48, 55, 48, 56, 51, 56, 51, 54, 55, 54, 50, 55, 51, 56, 53, 52, 56,
        52, 53, 56, 49, 55, 55, 49, 49, 53, 51, 49, 55, 54, 52, 52, 55, 53, 55, 51, 48, 50, 55, 48,
        48, 54, 57, 56, 53, 53, 53, 55, 49, 51, 54, 54, 57, 53, 57, 54, 50, 50, 56, 52, 50, 57, 49,
        52, 56, 49, 57, 56, 54, 48, 56, 51, 52, 57, 51, 54, 52, 55, 53, 50, 57, 50, 55, 49, 57, 48,
        55, 52, 49, 54, 56, 52, 52, 52, 51, 54, 53, 53, 49, 48, 55, 48, 52, 51, 52, 50, 55, 49, 49,
        53, 53, 57, 54, 57, 57, 53, 48, 56, 48, 57, 51, 48, 52, 50, 56, 56, 48, 49, 55, 55, 57, 48,
        52, 49, 55, 52, 52, 57, 55, 55, 57, 50
    ];
    assert(t@ =~= threshold_digits());
    t
}

// ------------------------------------------------------- decimal magnitude

pub open spec fn all_digits(x: Seq<u8>) -> bool {
    forall|i: int| 0 <= i < x.len() ==> is_digit(#[trigger] x[i])
}

pub open spec fn zeros(n: nat) -> Seq<u8> {
    Seq::new(n, |i: int| 0x30u8)
}

proof fn lemma_pow10_positive(n: nat)
    ensures
        pow10(n) >= 1,
    decreases n,
{
    if n > 0 {
        lemma_pow10_positive((n - 1) as nat);
    }
}

proof fn lemma_pow10_add(a: nat, b: nat)
    ensures
        pow10(a + b) == pow10(a) * pow10(b),
    decreases b,
{
    if b == 0 {
        assert(a + b == a);
        assert(pow10(b) == 1);
    } else {
        let b1 = (b - 1) as nat;
        lemma_pow10_add(a, b1);
        let pa = pow10(a);
        let pb1 = pow10(b1);
        assert(a + b1 + 1 == a + b);
        assert(pow10(a + b) == 10 * pow10(a + b1));
        assert(pow10(a + b1) == pa * pb1);
        assert(pow10(b) == 10 * pb1);
        assert(pa * (10 * pb1) == 10 * (pa * pb1)) by (nonlinear_arith);
    }
}

proof fn lemma_pow10_mono(a: nat, b: nat)
    requires
        a <= b,
    ensures
        pow10(a) <= pow10(b),
{
    lemma_pow10_add(a, (b - a) as nat);
    lemma_pow10_positive((b - a) as nat);
    lemma_pow10_positive(a);
    assert(pow10(a) * pow10((b - a) as nat) >= pow10(a)) by (nonlinear_arith)
        requires
            pow10((b - a) as nat) >= 1,
    ;
}

/// Digits after others shift them left.
proof fn lemma_digits_concat(x: Seq<u8>, y: Seq<u8>)
    ensures
        digits_value(x + y) == digits_value(x) * pow10(y.len()) + digits_value(y),
    decreases y.len(),
{
    if y.len() == 0 {
        assert(x + y =~= x);
        assert(pow10(0) == 1);
    } else {
        let y2 = y.drop_last();
        assert((x + y).drop_last() =~= x + y2);
        assert((x + y).last() == y.last());
        lemma_digits_concat(x, y2);
        let dx = digits_value(x);
        let p = pow10(y2.len());
        let d = (y.last() - 0x30) as nat;
        assert(y2.len() + 1 == y.len());
        assert(pow10(y.len()) == 10 * p);
        assert(digits_value(x + y) == digits_value(x + y2) * 10 + d);
        assert(digits_value(y) == digits_value(y2) * 10 + d);
        assert((dx * p + digits_value(y2)) * 10 == dx * (10 * p) + digits_value(y2) * 10)
            by (nonlinear_arith);
    }
}

proof fn lemma_digits_bound(x: Seq<u8>)
    requires
        all_digits(x),
    ensures
        digits_value(x) < pow10(x.len()),
    decreases x.len(),
{
    if x.len() > 0 {
        let x2 = x.drop_last();
        assert(is_digit(x[x.len() - 1]));
        lemma_digits_bound(x2);
    }
}

proof fn lemma_digit_one(c: u8)
    ensures
        digits_value(seq![c]) == (c - 0x30) as nat,
{
    let s1 = seq![c];
    assert(s1.len() == 1);
    assert(s1.last() == c);
    assert(s1.drop_last() =~= Seq::<u8>::empty());
    assert(digits_value(Seq::<u8>::empty()) == 0);
    assert(digits_value(s1) == digits_value(s1.drop_last()) * 10 + (s1.last() - 0x30) as nat);
}

/// A leading digit that is not zero sets the magnitude.
proof fn lemma_digits_lead(x: Seq<u8>)
    requires
        x.len() > 0,
        all_digits(x),
        x[0] != 0x30,
    ensures
        digits_value(x) >= pow10((x.len() - 1) as nat),
{
    let rest = x.drop_first();
    assert(seq![x[0]] + rest =~= x);
    lemma_digits_concat(seq![x[0]], rest);
    lemma_digit_one(x[0]);
    assert(is_digit(x[0]));
    lemma_pow10_positive(rest.len());
    assert(((x[0] - 0x30) as nat) * pow10(rest.len()) >= pow10(rest.len())) by (nonlinear_arith)
        requires
            (x[0] - 0x30) as nat >= 1,
    ;
}

proof fn lemma_all_zeros(x: Seq<u8>)
    requires
        forall|i: int| 0 <= i < x.len() ==> x[i] == 0x30,
    ensures
        digits_value(x) == 0,
    decreases x.len(),
{
    if x.len() > 0 {
        lemma_all_zeros(x.drop_last());
    }
}

/// Between two runs of digits of one length, the first place they differ
/// decides which is larger.
proof fn lemma_digits_order(a: Seq<u8>, b: Seq<u8>, i: int)
    requires
        a.len() == b.len(),
        all_digits(a),
        all_digits(b),
        0 <= i < a.len(),
        a.take(i) == b.take(i),
        a[i] < b[i],
    ensures
        digits_value(a) < digits_value(b),
{
    let n = a.len();
    let w = (n - i - 1) as nat;
    let ra = a.skip(i + 1);
    let rb = b.skip(i + 1);
    assert(a =~= a.take(i) + (seq![a[i]] + ra));
    assert(b =~= b.take(i) + (seq![b[i]] + rb));
    lemma_digits_concat(a.take(i), seq![a[i]] + ra);
    lemma_digits_concat(b.take(i), seq![b[i]] + rb);
    lemma_digits_concat(seq![a[i]], ra);
    lemma_digits_concat(seq![b[i]], rb);
    lemma_digit_one(a[i]);
    lemma_digit_one(b[i]);
    assert(all_digits(ra)) by {
        assert forall|j: int| 0 <= j < ra.len() implies is_digit(#[trigger] ra[j]) by {
            assert(ra[j] == a[i + 1 + j]);
        }
    }
    lemma_digits_bound(ra);
    lemma_digits_bound(rb);
    assert(is_digit(a[i]) && is_digit(b[i]));
    let da = (a[i] - 0x30) as nat;
    let db = (b[i] - 0x30) as nat;
    let pw = pow10(w);
    let va = digits_value(ra);
    let vb = digits_value(rb);
    assert(da * pw + va < db * pw + vb) by (nonlinear_arith)
        requires
            da < db,
            va < pw,
            vb >= 0,
    ;
    let p = digits_value(a.take(i));
    let q = pow10((n - i) as nat);
    assert(p * q + (da * pw + va) < p * q + (db * pw + vb));
}

/// Pads digits with zeros on the right to `n` places.
pub open spec fn padded(x: Seq<u8>, n: nat) -> Seq<u8> {
    x + zeros((n - x.len()) as nat)
}

proof fn lemma_threshold_bounds()
    ensures
        pow10(308) <= overflow_threshold() < pow10(309),
        all_digits(threshold_digits()),
{
    lemma_threshold_digits();
    lemma_digits_bound(threshold_digits());
    lemma_digits_lead(threshold_digits());
}

/// A significand of `len` digits whose magnitude stays below 10^308 is
/// finite.
proof fn lemma_small(v: nat, len: nat, scale: int)
    requires
        v < pow10(len),
        len + scale <= 308,
    ensures
        below_overflow(v, scale),
{
    lemma_threshold_bounds();
    let t = overflow_threshold();
    if scale >= 0 {
        let m = (len + scale) as nat;
        lemma_pow10_add(len, scale as nat);
        lemma_pow10_mono(m, 308);
        lemma_pow10_positive(scale as nat);
        let ps = pow10(scale as nat);
        assert(v * ps < pow10(len) * ps) by (nonlinear_arith)
            requires
                v < pow10(len),
                ps >= 1,
        ;
    } else {
        let k = (-scale) as nat;
        lemma_pow10_mono(len, 308 + k);
        lemma_pow10_add(308, k);
        lemma_pow10_positive(k);
        let pk = pow10(k);
        assert(pow10(308) * pk <= t * pk) by (nonlinear_arith)
            requires
                pow10(308) <= t,
                pk >= 1,
        ;
    }
}

/// A significand of `len` digits, the first not zero, whose magnitude
/// reaches 10^309 is not finite.
proof fn lemma_large(v: nat, len: nat, scale: int)
    requires
        len >= 1,
        v >= pow10((len - 1) as nat),
        len + scale >= 310,
    ensures
        !below_overflow(v, scale),
{
    lemma_threshold_bounds();
    let t = overflow_threshold();
    if scale >= 0 {
        let m1 = (len - 1 + scale) as nat;
        lemma_pow10_add((len - 1) as nat, scale as nat);
        lemma_pow10_mono(309, m1);
        lemma_pow10_positive(scale as nat);
        let ps = pow10(scale as nat);
        assert(v * ps >= pow10((len - 1) as nat) * ps) by (nonlinear_arith)
            requires
                v >= pow10((len - 1) as nat),
                ps >= 1,
        ;
    } else {
        let k = (-scale) as nat;
        lemma_pow10_mono(309 + k, (len - 1) as nat);
        lemma_pow10_add(309, k);
        lemma_pow10_positive(k);
        let pk = pow10(k);
        assert(t * pk < pow10(309) * pk) by (nonlinear_arith)
            requires
                t < pow10(309),
                pk >= 1,
        ;
    }
}

/// At magnitude 10^308 exactly, finiteness is a comparison of digits with the
/// threshold's, both padded to one length.
proof fn lemma_at_309(x: Seq<u8>, scale: int)
    requires
        all_digits(x),
        x.len() + scale == 309,
    ensures
        ({
            let n: nat = if x.len() > 309 {
                x.len()
            } else {
                309
            };
            below_overflow(digits_value(x), scale) == (digits_value(padded(x, n)) < digits_value(
                padded(threshold_digits(), n),
            ))
        }),
{
    lemma_threshold_digits();
    let n: nat = if x.len() > 309 {
        x.len()
    } else {
        309
    };
    lemma_digits_concat(x, zeros((n - x.len()) as nat));
    lemma_all_zeros(zeros((n - x.len()) as nat));
    lemma_digits_concat(threshold_digits(), zeros((n - 309) as nat));
    lemma_all_zeros(zeros((n - 309) as nat));
}

/// The digits of a significand, integer part then fraction.
fn significand(src: &[u8], a: usize, b: usize, c: usize, d: usize) -> (ds: Vec<u8>)
    requires
        shaped(src@, a as int, b as int, c as int, d as int),
    ensures
        ds@ == src@.subrange(a as int, b as int) + if c > b {
            src@.subrange(b + 1, c as int)
        } else {
            Seq::<u8>::empty()
        },
        all_digits(ds@),
{
    let ghost int_digits = src@.subrange(a as int, b as int);
    let mut ds = copy_bytes(src, a, b);
    if c > b {
        let mut i = b + 1;
        while i < c
            invariant
                b + 1 <= i <= c <= src@.len(),
                ds@ == int_digits + src@.subrange(b + 1, i as int),
            decreases c - i,
        {
            ds.push(src[i]);
            i = i + 1;
            assert(ds@ =~= int_digits + src@.subrange(b + 1, i as int));
        }
    }
    let ghost frac_digits = if c > b {
        src@.subrange(b + 1, c as int)
    } else {
        Seq::<u8>::empty()
    };
    assert(ds@ =~= int_digits + frac_digits);
    assert(all_digits(ds@)) by {
        assert forall|i: int| 0 <= i < ds@.len() implies is_digit(#[trigger] ds@[i]) by {
            if i < int_digits.len() {
                assert(ds@[i] == src@[a + i]);
            } else {
                assert(ds@[i] == src@[b + 1 + (i - int_digits.len())]);
            }
        }
    }
    ds
}

/// The magnitude of an exponent below 2^80 exactly, and past it only that it
/// is past: no decision depends on more. With whether it is negative.
fn exponent_magnitude(src: &[u8], c: usize, d: usize) -> (r: (u128, bool))
    requires
        d > c ==> c + 1 < d && exponent_start(src@, c as int) < d && forall|i: int|
            exponent_start(src@, c as int) <= i < d ==> is_digit(#[trigger] src@[i]),
        d <= src@.len(),
    ensures
        ({
            let mag: nat = if d > c {
                digits_value(src@.subrange(exponent_start(src@, c as int), d as int))
            } else {
                0
            };
            &&& exponent_of(src@, c as int, d as int) == if r.1 {
                -mag
            } else {
                mag as int
            }
            &&& r.0 == mag || (r.0 >= 0x1_0000_0000_0000_0000_0000 && mag
                >= 0x1_0000_0000_0000_0000_0000)
            &&& r.0 <= 0x1_0000_0000_0000_0000_0000 * 10 + 9
        }),
{
    if d <= c {
        return (0, false);
    }
    let cap: u128 = 0x1_0000_0000_0000_0000_0000;
    let negative = src[c + 1] == 0x2d;
    let e0 = if src[c + 1] == 0x2b || src[c + 1] == 0x2d {
        c + 2
    } else {
        c + 1
    };
    let mut e: u128 = 0;
    let mut i = e0;
    while i < d
        invariant
            e0 == exponent_start(src@, c as int),
            e0 <= i <= d <= src@.len(),
            forall|j: int| e0 <= j < d ==> is_digit(#[trigger] src@[j]),
            cap == 0x1_0000_0000_0000_0000_0000u128,
            e == digits_value(src@.subrange(e0 as int, i as int)) || (e >= cap && digits_value(
                src@.subrange(e0 as int, i as int),
            ) >= cap),
            e <= cap * 10 + 9,
        decreases d - i,
    {
        let digit = (src[i] - 0x30) as u128;
        assert(src@.subrange(e0 as int, i + 1).drop_last() =~= src@.subrange(e0 as int, i as int));
        if e < cap {
            e = e * 10 + digit;
        }
        i = i + 1;
    }
    (e, negative)
}

/// Whether the digits `ds[z..]`, padded to `total` places, are below the
/// threshold's, padded alike.
fn below_threshold_digits(ds: &Vec<u8>, z: usize, total: usize) -> (r: bool)
    requires
        z < ds@.len(),
        all_digits(ds@),
        total == if ds@.len() - z > 309 {
            (ds@.len() - z) as int
        } else {
            309
        },
    ensures
        r == (digits_value(padded(ds@.skip(z as int), total as nat)) < digits_value(
            padded(threshold_digits(), total as nat),
        )),
{
    proof {
        lemma_threshold_digits();
    }
    let t = threshold_array();
    let n = ds.len();
    let l = n - z;
    let ghost sig = ds@.skip(z as int);
    let ghost pa = padded(sig, total as nat);
    let ghost pb = padded(threshold_digits(), total as nat);
    assert(all_digits(pa)) by {
        assert forall|i: int| 0 <= i < pa.len() implies is_digit(#[trigger] pa[i]) by {
            if i < sig.len() {
                assert(pa[i] == ds@[z + i]);
            }
        }
    }
    assert(all_digits(pb));
    let mut i: usize = 0;
    assert(pa.take(0) =~= pb.take(0));
    while i < total
        invariant
            i <= total,
            n == ds@.len(),
            l == n - z,
            total >= l && total >= 309,
            sig == ds@.skip(z as int),
            t@ == threshold_digits(),
            threshold_digits().len() == 309,
            pa == padded(sig, total as nat),
            pb == padded(threshold_digits(), total as nat),
            pa.len() == total && pb.len() == total,
            all_digits(pa) && all_digits(pb),
            pa.take(i as int) == pb.take(i as int),
        decreases total - i,
    {
        let x = if i < l {
            ds[z + i]
        } else {
            0x30
        };
        let y = if i < 309 {
            t[i]
        } else {
            0x30
        };
        assert(x == pa[i as int] && y == pb[i as int]);
        if x != y {
            proof {
                if x < y {
                    lemma_digits_order(pa, pb, i as int);
                } else {
                    lemma_digits_order(pb, pa, i as int);
                }
            }
            return x < y;
        }
        assert(pa.take(i + 1) =~= pa.take(i as int).push(x));
        assert(pb.take(i + 1) =~= pb.take(i as int).push(y));
        i = i + 1;
    }
    assert(pa =~= pa.take(total as int));
    assert(pb =~= pb.take(total as int));
    false
}

/// How many zeros lead a run of digits; what follows them has the run's value.
fn leading_zeros(ds: &Vec<u8>) -> (z: usize)
    requires
        all_digits(ds@),
    ensures
        z <= ds@.len(),
        z == ds@.len() ==> digits_value(ds@) == 0,
        z < ds@.len() ==> ({
            let sig = ds@.skip(z as int);
            &&& digits_value(ds@) == digits_value(sig)
            &&& all_digits(sig)
            &&& digits_value(sig) < pow10(sig.len())
            &&& digits_value(sig) >= pow10((sig.len() - 1) as nat)
        }),
{
    let n = ds.len();
    let mut z: usize = 0;
    while z < n && ds[z] == 0x30
        invariant
            n == ds@.len(),
            z <= n,
            forall|j: int| 0 <= j < z ==> ds@[j] == 0x30,
        decreases n - z,
    {
        z = z + 1;
    }
    proof {
        if z == n {
            lemma_all_zeros(ds@);
        } else {
            let sig = ds@.skip(z as int);
            let head = ds@.take(z as int);
            assert(ds@ =~= head + sig);
            lemma_digits_concat(head, sig);
            assert forall|i: int| 0 <= i < head.len() implies head[i] == 0x30 by {
                assert(head[i] == ds@[i]);
            }
            lemma_all_zeros(head);
            assert(digits_value(head) * pow10(sig.len()) == 0) by (nonlinear_arith)
                requires
                    digits_value(head) == 0,
            ;
            assert(digits_value(ds@) == digits_value(sig));
            assert(all_digits(sig)) by {
                assert forall|i: int| 0 <= i < sig.len() implies is_digit(#[trigger] sig[i]) by {
                    assert(sig[i] == ds@[z + i]);
                }
            }
            assert(sig[0] != 0x30);
            lemma_digits_bound(sig);
            lemma_digits_lead(sig);
        }
    }
    z
}

/// Zero is finite at any scale.
proof fn lemma_zero_finite(scale: int)
    ensures
        below_overflow(0, scale),
{
    lemma_threshold_bounds();
    lemma_pow10_positive(308);
    if scale < 0 {
        lemma_pow10_positive((-scale) as nat);
        let pk = pow10((-scale) as nat);
        let t = overflow_threshold();
        assert(t * pk > 0) by (nonlinear_arith)
            requires
                t >= 1,
                pk >= 1,
        ;
    } else {
        lemma_pow10_positive(scale as nat);
    }
}

/// Whether a number of the checked shape is finite in binary64: whether its
/// magnitude is below the overflow threshold.
fn shape_finite(src: &[u8], a: usize, b: usize, c: usize, d: usize) -> (r: bool)
    requires
        shaped(src@, a as int, b as int, c as int, d as int),
    ensures
        r == shape_is_finite(src@, shape_of(a, b, c, d)),
{
    let ds = significand(src, a, b, c, d);
    let frac_len: usize = if c > b {
        c - b - 1
    } else {
        0
    };
    let ghost exponent = exponent_of(src@, c as int, d as int);
    let ghost scale = exponent - frac_len;
    let n = ds.len();
    let z = leading_zeros(&ds);
    if z == n {
        proof {
            lemma_zero_finite(scale);
        }
        return true;
    }
    let ghost sig = ds@.skip(z as int);
    let l = n - z;
    let (e, negative) = exponent_magnitude(src, c, d);
    let m: i128 = l as i128 - frac_len as i128 + if negative {
        -(e as i128)
    } else {
        e as i128
    };
    let ghost v = digits_value(sig);
    if m <= 308 {
        proof {
            lemma_small(v, l as nat, scale);
        }
        true
    } else if m >= 310 {
        proof {
            lemma_large(v, l as nat, scale);
        }
        false
    } else {
        let total = if l > 309 {
            l
        } else {
            309
        };
        proof {
            lemma_at_309(sig, scale);
        }
        below_threshold_digits(&ds, z, total)
    }
}


// ------------------------------------------------------------------ laws

/// The decimal text of `n`, as the bytes a document holds.
pub open spec fn decimal_bytes(n: nat) -> Seq<u8>
    decreases n,
{
    if n < 10 {
        seq![(n + 48) as u8]
    } else {
        decimal_bytes(n / 10).push((n % 10 + 48) as u8)
    }
}

proof fn lemma_decimal_bytes(n: nat)
    ensures
        decimal_bytes(n).len() >= 1,
        forall|i: int| 0 <= i < decimal_bytes(n).len() ==> is_digit(#[trigger] decimal_bytes(n)[i]),
        digits_value(decimal_bytes(n)) == n,
        n > 0 ==> decimal_bytes(n)[0] != 0x30,
        n == 0 ==> decimal_bytes(n) == seq![0x30u8],
        decimal_bytes(n).len() == decimal(n).len(),
        forall|i: int| 0 <= i < decimal(n).len() ==> (#[trigger] decimal(n)[i]) as u32 == decimal_bytes(n)[i] as u32,
    decreases n,
{
    if n >= 10 {
        lemma_decimal_bytes(n / 10);
        let b = decimal_bytes(n);
        let p = decimal_bytes(n / 10);
        assert(b.drop_last() =~= p);
        assert(forall|i: int| 0 <= i < p.len() ==> b[i] == p[i]);
        assert(decimal(n) == decimal(n / 10).push(crate::text::digit_char(n % 10)));
    } else {
        assert(digits_value(decimal_bytes(n)) == digits_value(Seq::<u8>::empty()) * 10 + n) by {
            assert(decimal_bytes(n).drop_last() =~= Seq::<u8>::empty());
        }
    }
}

/// The bytes of `n`'s decimal text are its UTF-8 encoding.
proof fn lemma_decimal_encoding(n: nat)
    ensures
        encode_utf8(decimal(n)) == decimal_bytes(n),
{
    lemma_decimal_bytes(n);
    let cs = decimal(n);
    crate::text::lemma_decimal_ascii(n);
    assert(vstd::utf8::is_ascii_chars(cs));
    vstd::utf8::is_ascii_chars_encode_utf8(cs);
    assert forall|i: int| 0 <= i < cs.len() implies encode_utf8(cs)[i] == decimal_bytes(n)[i] by {
        assert(cs[i] as u8 == encode_utf8(cs)[i]);
        assert(cs[i] as u32 == decimal_bytes(n)[i] as u32);
    }
    assert(encode_utf8(cs) =~= decimal_bytes(n));
}

/// In a run of digits, the run reaches its end.
proof fn lemma_all_digits_run(b: Seq<u8>, pos: int)
    requires
        0 <= pos <= b.len(),
        forall|i: int| 0 <= i < b.len() ==> is_digit(#[trigger] b[i]),
    ensures
        digits_len(b, pos) == b.len() - pos,
    decreases b.len() - pos,
{
    if pos < b.len() {
        lemma_all_digits_run(b, pos + 1);
    }
}

/// Reading the digits of `m`, after `lead` bytes of sign, gives the integer
/// of that sign and magnitude.
proof fn lemma_reads_digits(src: Seq<u8>, lead: int, m: nat, lim: Limits)
    requires
        lead == 0 || lead == 1,
        lead == 1 ==> src[0] == 0x2d,
        src.len() == lead + decimal_bytes(m).len(),
        src.skip(lead) == decimal_bytes(m),
        lim.max_depth <= MAX_DEPTH,
    ensures
        value_at(src, 0, 0, lim) == Ok::<(SpecValue, nat), Failure>(
            (integer_value(lead == 1, m), src.len()),
        ),
{
    lemma_decimal_bytes(m);
    let d = decimal_bytes(m);
    assert forall|i: int| 0 <= i < d.len() implies src[lead + i] == #[trigger] d[i] by {
        assert(src.skip(lead)[i] == src[lead + i]);
    }
    assert(is_digit(src[lead]));
    let end = src.len() as int;
    assert(digits_len(src, lead) == d.len()) by {
        lemma_digits_shift(src, lead, d);
    }
    assert(src.subrange(lead, end) =~= d);
    reveal(value_at);
    assert(number_shape(src, 0) == Ok::<NumberShape, Failure>(
        NumberShape { int_start: lead, int_end: end, frac_end: end, end },
    ));
}

/// `digits_len` at `pos` counts the digits of what follows.
proof fn lemma_digits_shift(src: Seq<u8>, lead: int, d: Seq<u8>)
    requires
        0 <= lead <= src.len(),
        src.skip(lead) == d,
        forall|i: int| 0 <= i < d.len() ==> is_digit(#[trigger] d[i]),
    ensures
        digits_len(src, lead) == d.len(),
    decreases src.len() - lead,
{
    if lead < src.len() {
        assert(src[lead] == d[0]);
        assert(src.skip(lead + 1) =~= d.drop_first());
        lemma_digits_shift(src, lead + 1, d.drop_first());
    }
}

/// Whether a number's text has neither a fraction nor an exponent: no `.`,
/// `e` or `E`.
pub open spec fn integral_text(t: Seq<u8>) -> bool {
    forall|i: int| 0 <= i < t.len() ==> #[trigger] t[i] != 0x2e && t[i] != 0x65 && t[i] != 0x45
}

/// A number is read as its whole literal, and its text decides its kind.
/// Without `.`, `e` or `E` it is an integer of exactly the value written:
/// `i64` when it fits, else `u64` when it fits, else too wide, and never
/// rounded. With any of them it is a float, kept as the literal's own text
/// with whether binary64 holds it finitely.
pub proof fn law_an_integer_is_read_exactly(src: Seq<u8>, pos: int)
    requires
        0 <= pos <= src.len(),
    ensures
        number_at(src, pos) matches Ok((v, n)) ==> {
            let t = src.subrange(pos, pos + n);
            let negative = t[0] == 0x2d;
            let digits = if negative {
                t.drop_first()
            } else {
                t
            };
            &&& 0 < n && pos + n <= src.len()
            &&& integral_text(t) ==> v == integer_value(negative, digits_value(digits))
            &&& !integral_text(t) ==> v is Float && v->Float_0 == ascii_text(t)
        },
{
    if let Ok(sh) = number_shape(src, pos) {
        lemma_shaped(src, pos, sh);
        let n = (sh.end - pos) as nat;
        let t = src.subrange(pos, pos + n);
        let negative = t[0] == 0x2d;
        assert(negative <==> sh.int_start > pos) by {
            if sh.int_start == pos {
                assert(is_digit(src[pos]));
            }
        }
        if sh.frac_end == sh.int_end && sh.end == sh.frac_end {
            assert(integral_text(t)) by {
                assert forall|i: int| 0 <= i < t.len() implies #[trigger] t[i] != 0x2e && t[i] != 0x65
                    && t[i] != 0x45 by {
                    if pos + i >= sh.int_start {
                        assert(is_digit(src[pos + i]));
                    }
                }
            }
            let digits = if negative {
                t.drop_first()
            } else {
                t
            };
            assert(digits =~= src.subrange(sh.int_start, sh.int_end));
        } else if sh.frac_end > sh.int_end {
            assert(t[sh.int_end - pos] == 0x2e);
        } else {
            assert(t[sh.frac_end - pos] == 0x65 || t[sh.frac_end - pos] == 0x45);
        }
    }
}

/// The JSON spelling of a boolean.
pub open spec fn bool_chars(b: bool) -> Seq<char> {
    if b {
        seq!['t', 'r', 'u', 'e']
    } else {
        seq!['f', 'a', 'l', 's', 'e']
    }
}

/// The elements of a JSON array of booleans, comma-separated, and its `]`.
pub open spec fn bools_rest(bs: Seq<bool>) -> Seq<char>
    decreases bs.len(),
{
    if bs.len() == 0 {
        seq![']']
    } else if bs.len() == 1 {
        bool_chars(bs[0]) + seq![']']
    } else {
        bool_chars(bs[0]) + seq![','] + bools_rest(bs.drop_first())
    }
}

/// A JSON array of booleans, written with no white space.
pub open spec fn bools_json(bs: Seq<bool>) -> Seq<char> {
    seq!['['] + bools_rest(bs)
}

pub open spec fn bools_values(bs: Seq<bool>) -> Seq<SpecValue> {
    Seq::new(bs.len(), |i: int| SpecValue::Bool(bs[i]))
}

proof fn lemma_bools_rest_ascii(bs: Seq<bool>)
    ensures
        vstd::utf8::is_ascii_chars(bools_rest(bs)),
        bools_rest(bs).len() >= 1,
    decreases bs.len(),
{
    if bs.len() > 1 {
        lemma_bools_rest_ascii(bs.drop_first());
    }
}

/// A literal whose spelling is at `pos` reads as what it spells.
proof fn lemma_reads_literal(src: Seq<u8>, pos: int, b: bool, depth: nat, lim: Limits)
    requires
        depth <= lim.max_depth,
        0 <= pos,
        pos + bool_chars(b).len() <= src.len(),
        forall|j: int| 0 <= j < bool_chars(b).len() ==> src[pos + j] == #[trigger] bool_chars(b)[j] as u8,
    ensures
        value_at(src, pos, depth, lim) == Ok::<(SpecValue, nat), Failure>(
            (SpecValue::Bool(b), bool_chars(b).len()),
        ),
{
    let w = bool_chars(b);
    let word = if b {
        "true"@
    } else {
        "false"@
    };
    assert(w =~= word) by {
        reveal_strlit("true");
        reveal_strlit("false");
    }
    assert(ascii_text(src.subrange(pos, pos + w.len())) =~= w) by {
        assert forall|j: int| 0 <= j < w.len() implies ascii_text(src.subrange(pos, pos + w.len()))[j]
            == w[j] by {
            assert(src[pos + j] == w[j] as u8);
        }
    }
    assert(literal_at(src, pos, word, SpecValue::Bool(b)) == Ok::<(SpecValue, nat), Failure>(
        (SpecValue::Bool(b), w.len()),
    ));
    assert(src[pos + 0] == w[0] as u8);
    let first: u8 = if b {
        0x74
    } else {
        0x66
    };
    assert(byte_at(src, pos) == Some(first));
    assert(value_at(src, pos, depth, lim) == literal_at(src, pos, word, SpecValue::Bool(b))) by {
        reveal(value_at);
    }
}

/// One element of an array read, and what follows it: the closing `]`, or a
/// `,` and the rest.
#[verifier::spinoff_prover]
#[verifier::rlimit(80)]
proof fn lemma_items_step(
    src: Seq<u8>,
    pos: int,
    depth: nat,
    lim: Limits,
    acc: Seq<SpecValue>,
    v: SpecValue,
    n: nat,
)
    requires
        depth + 1 <= lim.max_depth,
        0 <= pos,
        ws_len(src, pos) == 0,
        value_at(src, pos, depth + 1, lim) == Ok::<(SpecValue, nat), Failure>((v, n)),
        acc.len() + 1 <= lim.max_items,
        ws_len(src, pos + n) == 0,
        byte_at(src, pos + n) == Some(0x5du8) || byte_at(src, pos + n) == Some(0x2cu8),
    ensures
        byte_at(src, pos + n) == Some(0x5du8) ==> items_at(src, pos, depth, lim, acc) == Ok::<
            (SpecValue, nat),
            Failure,
        >((SpecValue::Array(acc.push(v)), n + 1)),
        byte_at(src, pos + n) == Some(0x2cu8) ==> items_at(src, pos, depth, lim, acc) == match items_at(
            src,
            pos + n + 1,
            depth,
            lim,
            acc.push(v),
        ) {
            Err(f) => Err(f),
            Ok((w, m)) => Ok((w, n + 1 + m)),
        },
{
    reveal_with_fuel(items_at, 2);
}

/// `null` at the start of a document reads as null.
proof fn lemma_reads_null(src: Seq<u8>, lim: Limits)
    requires
        src == encode_utf8(seq!['n', 'u', 'l', 'l']),
    ensures
        value_at(src, 0, 0, lim) == Ok::<(SpecValue, nat), Failure>((SpecValue::Null, 4)),
{
    let w = seq!['n', 'u', 'l', 'l'];
    assert(vstd::utf8::is_ascii_chars(w));
    vstd::utf8::is_ascii_chars_encode_utf8(w);
    assert(w =~= "null"@) by {
        reveal_strlit("null");
    }
    assert(ascii_text(src.subrange(0, 4)) =~= w) by {
        assert forall|j: int| 0 <= j < 4 implies ascii_text(src.subrange(0, 4))[j] == w[j] by {
            assert(src[j] == w[j] as u8);
        }
    }
    assert(src[0] == w[0] as u8);
    assert(byte_at(src, 0) == Some(0x6eu8));
    assert(value_at(src, 0, 0, lim) == literal_at(src, 0, "null"@, SpecValue::Null)) by {
        reveal(value_at);
    }
}

/// The elements written by `bools_rest`, read from `pos` to the end, give
/// the booleans they spell, after those read before.
proof fn lemma_reads_bools(src: Seq<u8>, pos: int, bs: Seq<bool>, acc: Seq<SpecValue>, depth: nat, lim: Limits)
    requires
        bs.len() >= 1,
        depth + 1 <= lim.max_depth,
        acc.len() + bs.len() <= lim.max_items,
        0 <= pos,
        src.len() == pos + bools_rest(bs).len(),
        forall|j: int| 0 <= j < bools_rest(bs).len() ==> src[pos + j] == #[trigger] bools_rest(bs)[j] as u8,
    ensures
        items_at(src, pos, depth, lim, acc) == Ok::<(SpecValue, nat), Failure>(
            (SpecValue::Array(acc + bools_values(bs)), bools_rest(bs).len()),
        ),
    decreases bs.len(),
{
    let r = bools_rest(bs);
    let w = bool_chars(bs[0]);
    let end: char = if bs.len() == 1 {
        ']'
    } else {
        ','
    };
    if bs.len() == 1 {
        assert(r =~= w + seq![']']);
    } else {
        assert(r =~= w + seq![','] + bools_rest(bs.drop_first()));
    }
    assert forall|j: int| 0 <= j < w.len() implies src[pos + j] == #[trigger] w[j] as u8 by {
        assert(r[j] == w[j]);
    }
    assert(src[pos + 0] == w[0] as u8);
    assert(ws_len(src, pos) == 0);
    lemma_reads_literal(src, pos, bs[0], depth + 1, lim);
    let items = acc.push(SpecValue::Bool(bs[0]));
    let p1 = pos + w.len();
    assert(r[w.len() as int] == end);
    assert(src[p1] == end as u8);
    assert(ws_len(src, p1) == 0);
    lemma_items_step(src, pos, depth, lim, acc, SpecValue::Bool(bs[0]), w.len());
    if bs.len() == 1 {
        assert(byte_at(src, p1) == Some(0x5du8));
        assert(items =~= acc + bools_values(bs));
    } else {
        let t = bs.drop_first();
        let rt = bools_rest(t);
        assert forall|j: int| 0 <= j < rt.len() implies src[p1 + 1 + j] == #[trigger] rt[j] as u8 by {
            assert(r[w.len() + 1 + j] == rt[j]);
        }
        lemma_reads_bools(src, p1 + 1, t, items, depth, lim);
        assert(items + bools_values(t) =~= acc + bools_values(bs));
        assert(byte_at(src, p1) == Some(0x2cu8));
    }
}

/// An array at the start of `src`: from its `[`, its elements or its `]`.
#[verifier::spinoff_prover]
#[verifier::rlimit(80)]
proof fn lemma_array_start(src: Seq<u8>, lim: Limits)
    requires
        byte_at(src, 0) == Some(0x5bu8),
        ws_len(src, 1) == 0,
    ensures
        value_at(src, 0, 0, lim) == if byte_at(src, 1) == Some(0x5du8) {
            Ok::<(SpecValue, nat), Failure>((SpecValue::Array(Seq::empty()), 2))
        } else {
            match items_at(src, 1, 0, lim, Seq::empty()) {
                Err(f) => Err(f),
                Ok((v, n)) => Ok((v, n + 1)),
            }
        },
{
    reveal_with_fuel(value_at, 2);
    reveal_with_fuel(array_at, 2);
}

/// A document reads back as what it spells: `null` is null, `true` and
/// `false` are the booleans they name, and an array of booleans written out in JSON reads
/// back as exactly those booleans, in order, under any limits that admit
/// one level of nesting and that many items.
pub proof fn law_a_boolean_reads_back_as_written(b: bool, bs: Seq<bool>, limits: Limits)
    ensures
        document(encode_utf8(bool_chars(b)), limits) == Ok::<SpecValue, (nat, nat, Seq<char>)>(
            SpecValue::Bool(b),
        ),
        limits.max_depth >= 1 && bs.len() <= limits.max_items ==> document(
            encode_utf8(bools_json(bs)),
            limits,
        ) == Ok::<SpecValue, (nat, nat, Seq<char>)>(SpecValue::Array(bools_values(bs))),
        document(encode_utf8(seq!['n', 'u', 'l', 'l']), limits) == Ok::<
            SpecValue,
            (nat, nat, Seq<char>),
        >(SpecValue::Null),
{
    let lim = Limits {
        max_depth: if limits.max_depth > MAX_DEPTH {
            MAX_DEPTH
        } else {
            limits.max_depth
        },
        ..limits
    };
    let nl = encode_utf8(seq!['n', 'u', 'l', 'l']);
    vstd::utf8::encode_utf8_valid_utf8(seq!['n', 'u', 'l', 'l']);
    lemma_reads_null(nl, lim);
    assert(vstd::utf8::is_ascii_chars(seq!['n', 'u', 'l', 'l']));
    vstd::utf8::is_ascii_chars_encode_utf8(seq!['n', 'u', 'l', 'l']);
    assert(nl[0] == 'n' as u8);
    assert(ws_len(nl, 0) == 0);
    assert(ws_len(nl, 4) == 0);
    let cs = bool_chars(b);
    assert(vstd::utf8::is_ascii_chars(cs));
    vstd::utf8::is_ascii_chars_encode_utf8(cs);
    vstd::utf8::encode_utf8_valid_utf8(cs);
    let src = encode_utf8(cs);
    assert(src[0] == cs[0] as u8);
    assert(ws_len(src, 0) == 0);
    lemma_reads_literal(src, 0, b, 0, lim);
    assert(ws_len(src, src.len() as int) == 0);
    if limits.max_depth >= 1 && bs.len() <= limits.max_items {
        let j = bools_json(bs);
        let r = bools_rest(bs);
        lemma_bools_rest_ascii(bs);
        assert(vstd::utf8::is_ascii_chars(j)) by {
            assert forall|i: int| 0 <= i < j.len() implies '\0' <= #[trigger] j[i] <= '\u{7f}' by {
                if i > 0 {
                    assert(j[i] == r[i - 1]);
                }
            }
        }
        vstd::utf8::is_ascii_chars_encode_utf8(j);
        vstd::utf8::encode_utf8_valid_utf8(j);
        let t = encode_utf8(j);
        assert(t[0] == j[0] as u8);
        assert(ws_len(t, 0) == 0);
        assert forall|i: int| 0 <= i < r.len() implies t[1 + i] == #[trigger] r[i] as u8 by {
            assert(j[1 + i] == r[i]);
        }
        assert(t[1] == r[0] as u8);
        assert(ws_len(t, 1) == 0) by {
            if bs.len() > 0 {
                assert(r[0] == bool_chars(bs[0])[0]);
            }
        }
        lemma_array_start(t, lim);
        if bs.len() == 0 {
            assert(bools_values(bs) =~= Seq::<SpecValue>::empty());
        } else {
            lemma_reads_bools(t, 1, bs, Seq::empty(), 0, lim);
            assert(Seq::<SpecValue>::empty() + bools_values(bs) =~= bools_values(bs));
        }
        assert(ws_len(t, t.len() as int) == 0);
    }
}

/// The letter JSON writes after a backslash for a character that has a
/// short escape.
pub open spec fn short_escape(c: char) -> Option<u8> {
    if c == '"' {
        Some(0x22u8)
    } else if c == '\\' {
        Some(0x5cu8)
    } else if c == '/' {
        Some(0x2fu8)
    } else if c == '\u{0008}' {
        Some(0x62u8)
    } else if c == '\u{000C}' {
        Some(0x66u8)
    } else if c == '\n' {
        Some(0x6eu8)
    } else if c == '\r' {
        Some(0x72u8)
    } else if c == '\t' {
        Some(0x74u8)
    } else {
        None
    }
}

/// The lowercase hex digit for `k`, below sixteen.
pub open spec fn hex_digit_of(k: nat) -> u8 {
    if k < 10 {
        (48 + k) as u8
    } else {
        (87 + k) as u8
    }
}

/// `u` followed by the four hex digits of `u`, below 0x10000.
pub open spec fn unicode_escape_text(u: nat) -> Seq<u8> {
    seq![
        0x75u8,
        hex_digit_of(u / 4096),
        hex_digit_of(u / 256 % 16),
        hex_digit_of(u / 16 % 16),
        hex_digit_of(u % 16),
    ]
}

/// An escape reads back as the character it was written for: each short
/// escape as its own character, and `\u` with four hex digits as the code
/// point they spell, for every code point of the basic plane that is not a
/// surrogate.
pub proof fn law_an_escape_reads_back_as_written(c: char, u: nat, rest: Seq<u8>)
    ensures
        short_escape(c) matches Some(l) ==> escape(seq![l] + rest, 0) == Ok::<(char, nat), Failure>(
            (c, 1),
        ),
        (u < 0xD800 || (0xE000 <= u < 0x10000)) ==> escape(unicode_escape_text(u) + rest, 0) == Ok::<
            (char, nat),
            Failure,
        >((u as char, 5)),
{
    let t = unicode_escape_text(u) + rest;
    if u < 0xD800 || (0xE000 <= u < 0x10000) {
        assert(t[0] == 0x75u8);
        assert(t[1] == hex_digit_of(u / 4096) && t[2] == hex_digit_of(u / 256 % 16) && t[3] == hex_digit_of(
            u / 16 % 16,
        ) && t[4] == hex_digit_of(u % 16));
        assert(hex_value(t[1]) == u / 4096);
        assert(hex_value(t[2]) == u / 256 % 16);
        assert(hex_value(t[3]) == u / 16 % 16);
        assert(hex_value(t[4]) == u % 16);
        assert(hex4(t, 1) == Ok::<(int, nat), Failure>((u as int, 4)));
    }
    if let Some(l) = short_escape(c) {
        assert((seq![l] + rest)[0] == l);
    }
}

proof fn lemma_run_to(src: Seq<u8>, p: int, e: int)
    requires
        0 <= p <= e < src.len(),
        forall|i: int| p <= i < e ==> #[trigger] src[i] != 0x22 && src[i] != 0x5c,
        src[e] == 0x22,
    ensures
        run_len(src, p) == e - p,
    decreases e - p,
{
    if p < e {
        lemma_run_to(src, p + 1, e);
    }
}

/// Text in quotes, with neither a quote nor a backslash inside.
pub open spec fn quoted(s: Seq<char>) -> Seq<char> {
    seq!['"'] + s + seq!['"']
}

/// A string of ASCII text with no quote or backslash, written in quotes,
/// reads back as exactly that text, under any limits that admit its length.
pub proof fn law_a_plain_string_reads_back_as_written(s: Seq<char>, limits: Limits)
    requires
        vstd::utf8::is_ascii_chars(s),
        forall|i: int| 0 <= i < s.len() ==> #[trigger] s[i] != '"' && s[i] != '\\',
        s.len() <= limits.max_string_bytes,
    ensures
        document(encode_utf8(quoted(s)), limits) == Ok::<SpecValue, (nat, nat, Seq<char>)>(
            SpecValue::Str(s),
        ),
{
    let lim = Limits {
        max_depth: if limits.max_depth > MAX_DEPTH {
            MAX_DEPTH
        } else {
            limits.max_depth
        },
        ..limits
    };
    let j = quoted(s);
    let n = s.len() as int;
    assert(vstd::utf8::is_ascii_chars(j)) by {
        assert forall|i: int| 0 <= i < j.len() implies '\0' <= #[trigger] j[i] <= '\u{7f}' by {
            if 0 < i < j.len() - 1 {
                assert(j[i] == s[i - 1]);
            }
        }
    }
    vstd::utf8::is_ascii_chars_encode_utf8(j);
    vstd::utf8::is_ascii_chars_encode_utf8(s);
    vstd::utf8::encode_utf8_valid_utf8(j);
    vstd::utf8::encode_utf8_valid_utf8(s);
    vstd::utf8::encode_utf8_decode_utf8(s);
    let t = encode_utf8(j);
    assert(t.len() == n + 2);
    assert(t[0] == j[0] as u8);
    assert(t[n + 1] == j[n + 1] as u8);
    assert forall|i: int| 1 <= i < n + 1 implies #[trigger] t[i] != 0x22 && t[i] != 0x5c by {
        assert(t[i] == j[i] as u8);
        assert(j[i] == s[i - 1]);
    }
    lemma_run_to(t, 1, n + 1);
    let chunk = t.subrange(1, n + 1);
    assert(chunk =~= encode_utf8(s)) by {
        assert forall|i: int| 0 <= i < n implies chunk[i] == encode_utf8(s)[i] by {
            assert(t[i + 1] == j[i + 1] as u8);
            assert(j[i + 1] == s[i]);
            assert(encode_utf8(s)[i] == s[i] as u8);
        }
    }
    assert(Seq::<char>::empty() + s =~= s);
    assert(string_body(t, 1, lim, Seq::empty()) == Ok::<(Seq<char>, nat), Failure>((s, (n + 1) as nat)));
    assert(string_at(t, 0, lim) == Ok::<(Seq<char>, nat), Failure>((s, (n + 2) as nat)));
    assert(value_at(t, 0, 0, lim) == Ok::<(SpecValue, nat), Failure>((SpecValue::Str(s), (n + 2) as nat))) by {
        reveal(value_at);
    }
    assert(ws_len(t, 0) == 0);
    assert(ws_len(t, n + 2) == 0);
}

/// An unsigned 64-bit integer written in decimal is read back exactly: it
/// never passes through a float, whatever its size.
pub proof fn law_a_u64_survives_the_boundary(n: u64, limits: Limits)
    ensures
        document(encode_utf8(decimal(n as nat)), limits) == Ok::<SpecValue, (nat, nat, Seq<char>)>(
            SpecValue::Int(int_from_u64(n)),
        ),
{
    let src = decimal_bytes(n as nat);
    lemma_decimal_encoding(n as nat);
    vstd::utf8::encode_utf8_valid_utf8(decimal(n as nat));
    lemma_decimal_bytes(n as nat);
    let lim = Limits {
        max_depth: if limits.max_depth > MAX_DEPTH {
            MAX_DEPTH
        } else {
            limits.max_depth
        },
        ..limits
    };
    assert(ws_len(src, 0) == 0) by {
        assert(is_digit(src[0]));
    }
    assert(src.skip(0) =~= src);
    lemma_reads_digits(src, 0, n as nat, lim);
    assert(ws_len(src, src.len() as int) == 0);
}

/// A signed 64-bit integer written in decimal, with its `-` when negative,
/// is read back exactly.
pub proof fn law_an_i64_survives_the_boundary(n: i64, limits: Limits)
    ensures
        document(encode_utf8(signed_decimal(n as int)), limits) == Ok::<
            SpecValue,
            (nat, nat, Seq<char>),
        >(SpecValue::Int(Int::Signed(n))),
{
    let m: nat = if n < 0 {
        (-n) as nat
    } else {
        n as nat
    };
    let lead: int = if n < 0 {
        1
    } else {
        0
    };
    lemma_decimal_encoding(m);
    lemma_decimal_bytes(m);
    let src = encode_utf8(signed_decimal(n as int));
    vstd::utf8::encode_utf8_valid_utf8(signed_decimal(n as int));
    if n < 0 {
        let cs = signed_decimal(n as int);
        assert(cs =~= seq!['-'] + decimal(m));
        assert(vstd::utf8::is_ascii_chars(cs)) by {
            assert forall|i: int| 0 <= i < cs.len() implies '\0' <= #[trigger] cs[i] <= '\u{7f}' by {
                crate::text::lemma_decimal_ascii(m);
                if i > 0 {
                    assert(cs[i] == decimal(m)[i - 1]);
                }
            }
        }
        vstd::utf8::is_ascii_chars_encode_utf8(cs);
        assert forall|i: int| 0 <= i < decimal_bytes(m).len() implies src[1 + i] == #[trigger] decimal_bytes(m)[i] by {
            assert(cs[1 + i] == decimal(m)[i]);
            assert(cs[1 + i] as u8 == src[1 + i]);
            assert(decimal(m)[i] as u32 == decimal_bytes(m)[i] as u32);
        }
        assert(src[0] == 0x2d) by {
            assert(cs[0] as u8 == src[0]);
        }
        assert(src.skip(1) =~= decimal_bytes(m));
    } else {
        assert(src =~= decimal_bytes(m));
        assert(src.skip(0) =~= src);
    }
    let lim = Limits {
        max_depth: if limits.max_depth > MAX_DEPTH {
            MAX_DEPTH
        } else {
            limits.max_depth
        },
        ..limits
    };
    assert(ws_len(src, 0) == 0) by {
        if n >= 0 {
            assert(is_digit(src[0]));
        }
    }
    lemma_reads_digits(src, lead, m, lim);
    assert(ws_len(src, src.len() as int) == 0);
}

} // verus!
