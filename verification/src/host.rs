//! Decisions a binding makes at its host's edge, stated over plain values so
//! every binding makes them the same way: what limits a caller's options
//! amount to, what kind a host number is, and how an instant is spelled for a
//! host's date parser.

use vstd::prelude::*;

use vstd::string::StringSliceAdditionalSpecFns;

use crate::datetime::{datetime_verdict, leading_digits};
use crate::limits::Limits;
use crate::text::push_char;
use crate::json::integer_value;
use crate::value::{Int, Kind, SpecValue, Value};

verus! {

// ---------------------------------------------------------------- limits

/// Each limit the caller gave, and the conservative default for the others.
pub open spec fn limits_from(
    max_depth: Option<usize>,
    max_items: Option<usize>,
    max_string_bytes: Option<usize>,
    max_object_keys: Option<usize>,
) -> Limits {
    Limits {
        max_depth: match max_depth {
            Some(n) => n,
            None => 64,
        },
        max_items: match max_items {
            Some(n) => n,
            None => 10_000,
        },
        max_string_bytes: match max_string_bytes {
            Some(n) => n,
            None => 1_048_576,
        },
        max_object_keys: match max_object_keys {
            Some(n) => n,
            None => 1_000,
        },
    }
}

impl Limits {
    /// The limits a caller's options amount to: each one given overrides the
    /// default, and an omitted one keeps it.
    pub fn from_options(
        max_depth: Option<usize>,
        max_items: Option<usize>,
        max_string_bytes: Option<usize>,
        max_object_keys: Option<usize>,
    ) -> (r: Limits)
        ensures
            r == limits_from(max_depth, max_items, max_string_bytes, max_object_keys),
    {
        let d = Limits::default();
        Limits {
            max_depth: match max_depth {
                Some(n) => n,
                None => d.max_depth,
            },
            max_items: match max_items {
                Some(n) => n,
                None => d.max_items,
            },
            max_string_bytes: match max_string_bytes {
                Some(n) => n,
                None => d.max_string_bytes,
            },
            max_object_keys: match max_object_keys {
                Some(n) => n,
                None => d.max_object_keys,
            },
        }
    }
}

// --------------------------------------------------------------- numbers

/// The kind of a JavaScript `number`, from three facts about it. One with a
/// fraction, or not finite, is a float. Past 2^53 - 1 in magnitude a `number`
/// no longer holds every integer, so an integral one there is already not the
/// value that was sent.
pub open spec fn js_number_kind_spec(integral: bool, finite: bool, safe: bool) -> Kind {
    if !integral || !finite {
        Kind::Float
    } else if !safe {
        Kind::UnsafeInteger
    } else {
        Kind::Int
    }
}

pub fn js_number_kind(integral: bool, finite: bool, safe: bool) -> (r: Kind)
    ensures
        r == js_number_kind_spec(integral, finite, safe),
{
    if !integral || !finite {
        Kind::Float
    } else if !safe {
        Kind::UnsafeInteger
    } else {
        Kind::Int
    }
}

/// A JavaScript `BigInt`, given its sign, its magnitude and whether that
/// magnitude holds the whole value, as the engine's value: exactly the
/// integer it is, `i64` when that fits, else `u64`, else too wide. One whose
/// magnitude did not fit 128 bits is too wide whatever its sign.
pub fn bigint_value(negative: bool, magnitude: u128, lossless: bool) -> (r: Value)
    ensures
        r.view() == if lossless {
            integer_value(negative, magnitude as nat)
        } else {
            SpecValue::IntTooWide
        },
{
    if !lossless {
        Value::IntTooWide
    } else if negative {
        if magnitude < 0x8000_0000_0000_0000 {
            let m = magnitude as i64;
            Value::Int(Int::Signed(-m))
        } else if magnitude == 0x8000_0000_0000_0000 {
            Value::Int(Int::Signed(i64::MIN))
        } else {
            Value::IntTooWide
        }
    } else if magnitude <= 0x7fff_ffff_ffff_ffff {
        Value::Int(Int::Signed(magnitude as i64))
    } else if magnitude <= 0xffff_ffff_ffff_ffff {
        Value::Int(Int::Unsigned(magnitude as u64))
    } else {
        Value::IntTooWide
    }
}

/// What a Python object is, as far as the engine cares: the checks a binding
/// can make on it, each answered once.
#[derive(Debug, Clone, Copy, PartialEq, Eq)]
pub struct PyFacts {
    pub is_none: bool,
    pub is_bool: bool,
    pub is_int: bool,
    /// For an `int`: whether it fits an `i64` or a `u64`.
    pub int_fits: bool,
    pub is_str: bool,
    pub is_float: bool,
    pub is_dict: bool,
    /// A `list` or a `tuple`.
    pub is_sequence: bool,
    /// A `datetime.date` or `datetime.datetime`, read as its ISO text.
    pub is_date: bool,
}

/// The first check that holds decides. The order is the point: `bool` is a
/// subclass of `int` and `datetime` of `date`, so asking the general question
/// first would turn every `True` into `1`.
pub open spec fn py_kind_spec(f: PyFacts) -> Kind {
    if f.is_none {
        Kind::Null
    } else if f.is_bool {
        Kind::Bool
    } else if f.is_int {
        if f.int_fits {
            Kind::Int
        } else {
            Kind::IntegerTooWide
        }
    } else if f.is_str {
        Kind::String
    } else if f.is_float {
        Kind::Float
    } else if f.is_dict {
        Kind::Object
    } else if f.is_sequence {
        Kind::Array
    } else if f.is_date {
        Kind::String
    } else {
        Kind::Foreign
    }
}

pub fn py_kind(f: PyFacts) -> (r: Kind)
    ensures
        r == py_kind_spec(f),
{
    if f.is_none {
        Kind::Null
    } else if f.is_bool {
        Kind::Bool
    } else if f.is_int {
        if f.int_fits {
            Kind::Int
        } else {
            Kind::IntegerTooWide
        }
    } else if f.is_str {
        Kind::String
    } else if f.is_float {
        Kind::Float
    } else if f.is_dict {
        Kind::Object
    } else if f.is_sequence {
        Kind::Array
    } else if f.is_date {
        Kind::String
    } else {
        Kind::Foreign
    }
}

// -------------------------------------------------------------- instants

/// Bytes that are all ASCII, as characters.
pub open spec fn ascii_chars(b: Seq<u8>) -> Seq<char> {
    Seq::new(b.len(), |i: int| b[i] as char)
}

/// A fraction cut or padded with zeros to exactly six digits: microseconds.
pub open spec fn six_digits(d: Seq<u8>) -> Seq<u8> {
    if d.len() >= 6 {
        d.take(6)
    } else {
        d + Seq::new((6 - d.len()) as nat, |i: int| 48u8)
    }
}

/// A valid RFC 3339 instant respelled for Python's `datetime.fromisoformat`,
/// which before 3.11 wants a numeric offset and exactly six fractional digits:
/// `Z` becomes `+00:00`, and a fraction is cut or padded to microseconds.
pub open spec fn python_iso_bytes(b: Seq<u8>) -> Seq<u8> {
    let rest = b.skip(19);
    let has_frac = rest.len() > 0 && rest[0] == 46;
    let n = if has_frac {
        leading_digits(rest.drop_first())
    } else {
        0
    };
    let zone = if has_frac {
        rest.skip(1 + n as int)
    } else {
        rest
    };
    let offset = if zone == seq![90u8] || zone == seq![122u8] {
        seq![43u8, 48u8, 48u8, 58u8, 48u8, 48u8]
    } else {
        zone
    };
    let frac = if has_frac {
        seq![46u8] + six_digits(rest.subrange(1, 1 + n as int))
    } else {
        Seq::empty()
    };
    b.take(19) + frac + offset
}

proof fn lemma_leading_digits_bound(s: Seq<u8>)
    ensures
        leading_digits(s) <= s.len(),
        forall|i: int| 0 <= i < leading_digits(s) ==> 48 <= #[trigger] s[i] <= 57,
        leading_digits(s) < s.len() ==> !(48 <= s[leading_digits(s) as int] <= 57),
    decreases s.len(),
{
    if s.len() > 0 && 48 <= s[0] <= 57 {
        lemma_leading_digits_bound(s.drop_first());
        assert forall|i: int| 0 <= i < leading_digits(s) implies 48 <= #[trigger] s[i] <= 57 by {
            if i > 0 {
                assert(s[i] == s.drop_first()[i - 1]);
            }
        }
    }
}

/// Appends bytes `from..to` of `b` as characters.
fn push_ascii(out: &mut String, b: &[u8], from: usize, to: usize)
    requires
        from <= to <= b@.len(),
    ensures
        final(out)@ == old(out)@ + ascii_chars(b@.subrange(from as int, to as int)),
{
    let mut i = from;
    while i < to
        invariant
            from <= i <= to <= b@.len(),
            out@ == old(out)@ + ascii_chars(b@.subrange(from as int, i as int)),
        decreases to - i,
    {
        push_char(out, b[i] as char);
        assert(ascii_chars(b@.subrange(from as int, i + 1)) =~= ascii_chars(
            b@.subrange(from as int, i as int),
        ).push(b[i as int] as char));
        i = i + 1;
    }
}

/// [`python_iso_bytes`], for a value that validated as a `DateTime`.
#[verifier::spinoff_prover]
#[verifier::rlimit(40)]
pub fn python_iso(s: &str) -> (r: String)
    requires
        datetime_verdict(s.spec_bytes()) is Ok,
    ensures
        r@ == ascii_chars(python_iso_bytes(s.spec_bytes())),
{
    let b = s.as_bytes();
    let len = b.len();
    let ghost bs = b@;
    assert(bs.len() >= 19);
    let mut out = String::new();
    push_ascii(&mut out, b, 0, 19);
    let ghost rest = bs.skip(19);
    let ghost head = out@;
    assert(head =~= ascii_chars(bs.take(19)));
    let mut p: usize = 19;
    let has_frac = len > 19 && b[19] == 46;
    let ghost mut frac_bytes: Seq<u8> = Seq::empty();
    if has_frac {
        let mut n: usize = 0;
        proof {
            lemma_leading_digits_bound(rest.drop_first());
        }
        while 20 + n < len && b[20 + n] >= 48 && b[20 + n] <= 57
            invariant
                len == bs.len(),
                bs == b@,
                20 <= 20 + n <= len,
                forall|i: int| 20 <= i < 20 + n ==> 48 <= #[trigger] bs[i] <= 57,
            decreases len - n,
        {
            n = n + 1;
        }
        let ghost k = leading_digits(rest.drop_first());
        assert(n == k) by {
            let t = rest.drop_first();
            assert forall|i: int| 0 <= i < n implies 48 <= #[trigger] t[i] <= 57 by {
                assert(t[i] == bs[20 + i]);
            }
            if k < n {
                assert(t[k as int] == bs[20 + k as int]);
            } else if n < k {
                assert(t[n as int] == bs[20 + n]);
            }
        }
        push_char(&mut out, '.');
        let take = if n > 6 {
            6
        } else {
            n
        };
        push_ascii(&mut out, b, 20, 20 + take);
        let ghost digits = out@;
        let mut pad = take;
        while pad < 6
            invariant
                take <= pad <= 6,
                out@ == digits + Seq::new((pad - take) as nat, |i: int| '0'),
            decreases 6 - pad,
        {
            push_char(&mut out, '0');
            assert(Seq::new((pad + 1 - take) as nat, |i: int| '0') =~= Seq::new(
                (pad - take) as nat,
                |i: int| '0',
            ).push('0'));
            pad = pad + 1;
        }
        proof {
            let d = rest.subrange(1, 1 + k as int);
            assert(d =~= bs.subrange(20, 20 + n as int));
            frac_bytes = seq![46u8] + six_digits(d);
            if n >= 6 {
                assert(six_digits(d) =~= bs.subrange(20, 26));
            } else {
                assert(six_digits(d) =~= bs.subrange(20, 20 + n as int) + Seq::new(
                    (6 - n) as nat,
                    |i: int| 48u8,
                ));
            }
            assert(ascii_chars(frac_bytes) =~= seq!['.'] + ascii_chars(
                bs.subrange(20, 20 + take as int),
            ) + Seq::new((6 - take) as nat, |i: int| '0'));
            assert(out@ =~= head + ascii_chars(frac_bytes));
            assert(rest.skip(1 + k as int) =~= bs.skip(20 + n as int));
        }
        p = 20 + n;
    }
    let ghost zone = bs.skip(p as int);
    let ghost before = out@;
    assert(before =~= head + ascii_chars(frac_bytes));
    if len - p == 1 && (b[p] == 90 || b[p] == 122) {
        assert(zone =~= seq![90u8] || zone =~= seq![122u8]);
        out.append("+00:00");
        proof {
            reveal_strlit("+00:00");
        }
        assert(out@ =~= before + ascii_chars(seq![43u8, 48u8, 48u8, 58u8, 48u8, 48u8]));
    } else {
        assert(!(zone =~= seq![90u8]) && !(zone =~= seq![122u8])) by {
            if zone =~= seq![90u8] || zone =~= seq![122u8] {
                assert(zone.len() == 1 && zone[0] == bs[p as int]);
            }
        }
        push_ascii(&mut out, b, p, len);
        assert(bs.subrange(p as int, len as int) =~= zone);
    }
    proof {
        if !has_frac {
            assert(rest =~= zone);
        }
        let offset = if zone == seq![90u8] || zone == seq![122u8] {
            seq![43u8, 48u8, 48u8, 58u8, 48u8, 48u8]
        } else {
            zone
        };
        assert(python_iso_bytes(bs) =~= bs.take(19) + frac_bytes + offset);
        assert(ascii_chars(bs.take(19) + frac_bytes + offset) =~= ascii_chars(bs.take(19))
            + ascii_chars(frac_bytes) + ascii_chars(offset));
    }
    out
}

} // verus!
