//! Named string formats, checked by hand, with no regular expression: a closed
//! set of names costs no unbounded matching time and no dependency, and
//! `@format(uuid)` states what a value is rather than what it looks like.

use vstd::prelude::*;
use vstd::string::StringSliceAdditionalSpecFns;

use crate::text::str_eq;

verus! {

/// A named format a string must satisfy.
#[derive(Debug, Clone, Copy, PartialEq, Eq)]
pub enum Format {
    /// `8-4-4-4-12` hex, either case, any version and variant.
    Uuid,
    /// A structural check only: one `@`, a plain local part, and a domain
    /// that is a hostname with at least one dot.
    Email,
    /// A DNS hostname per RFC 1123: dot-separated labels of letters, digits
    /// and hyphens, each 1 to 63 bytes, not starting or ending with a hyphen,
    /// 253 bytes in total.
    Hostname,
    /// Four decimal octets, with no leading zeros.
    Ipv4,
    /// An IPv6 address, including the `::` short form and a trailing IPv4
    /// part; zone identifiers are rejected.
    Ipv6,
}

// ------------------------------------------------------------- the model

pub open spec fn is_hex(c: u8) -> bool {
    (48 <= c <= 57) || (65 <= c <= 70) || (97 <= c <= 102)
}

pub open spec fn is_alnum(c: u8) -> bool {
    (48 <= c <= 57) || (65 <= c <= 90) || (97 <= c <= 122)
}

/// The pieces of `b` between occurrences of `sep`, as `str::split` yields
/// them: one more piece than there are separators, empty pieces included.
pub open spec fn split_bytes(b: Seq<u8>, sep: u8) -> Seq<Seq<u8>>
    decreases b.len(),
{
    if b.len() == 0 {
        seq![Seq::empty()]
    } else {
        let s = split_bytes(b.drop_last(), sep);
        if b.last() == sep {
            s.push(Seq::empty())
        } else {
            s.update(s.len() - 1, s.last().push(b.last()))
        }
    }
}

pub open spec fn uuid_ok(b: Seq<u8>) -> bool {
    &&& b.len() == 36
    &&& forall|i: int|
        0 <= i < 36 ==> if i == 8 || i == 13 || i == 18 || i == 23 {
            b[i] == 45
        } else {
            is_hex(#[trigger] b[i])
        }
}

pub open spec fn label_ok(l: Seq<u8>) -> bool {
    &&& 1 <= l.len() <= 63
    &&& l[0] != 45
    &&& l.last() != 45
    &&& forall|i: int| 0 <= i < l.len() ==> is_alnum(#[trigger] l[i]) || l[i] == 45
}

pub open spec fn hostname_ok(b: Seq<u8>) -> bool {
    &&& 1 <= b.len() <= 253
    &&& forall|k: int|
        0 <= k < split_bytes(b, 46).len() ==> label_ok(#[trigger] split_bytes(b, 46)[k])
}

/// The decimal value of a run of digits.
pub open spec fn digits_value(p: Seq<u8>) -> nat
    decreases p.len(),
{
    if p.len() == 0 {
        0
    } else {
        digits_value(p.drop_last()) * 10 + (p.last() - 48) as nat
    }
}

pub open spec fn octet_ok(p: Seq<u8>) -> bool {
    &&& 1 <= p.len() <= 3
    &&& forall|i: int| 0 <= i < p.len() ==> 48 <= #[trigger] p[i] <= 57
    &&& !(p.len() > 1 && p[0] == 48)
    &&& digits_value(p) <= 255
}

pub open spec fn ipv4_ok(b: Seq<u8>) -> bool {
    &&& split_bytes(b, 46).len() == 4
    &&& forall|k: int| 0 <= k < 4 ==> octet_ok(#[trigger] split_bytes(b, 46)[k])
}

pub open spec fn local_part_ok(l: Seq<u8>) -> bool {
    &&& 1 <= l.len() <= 64
    &&& forall|i: int|
        0 <= i < l.len() ==> {
            let c = #[trigger] l[i];
            c > 32 && c != 34 && c != 92 && c != 64 && c != 127
        }
    &&& l[0] != 46
    &&& l.last() != 46
    &&& forall|i: int| 0 <= i < l.len() - 1 ==> !(#[trigger] l[i] == 46 && l[i + 1] == 46)
}

/// The position of the last `@`, if there is one.
pub open spec fn last_at(b: Seq<u8>) -> Option<int> {
    if exists|i: int| 0 <= i < b.len() && b[i] == 64 {
        Some(choose|i: int| 0 <= i < b.len() && b[i] == 64 && forall|j: int| i < j < b.len() ==> b[j] != 64)
    } else {
        None
    }
}

pub open spec fn email_ok(b: Seq<u8>) -> bool {
    match last_at(b) {
        None => false,
        Some(at) => {
            let domain = b.skip(at + 1);
            local_part_ok(b.take(at)) && hostname_ok(domain) && domain.contains(46)
        },
    }
}

pub open spec fn hex_group(p: Seq<u8>) -> bool {
    &&& 1 <= p.len() <= 4
    &&& forall|i: int| 0 <= i < p.len() ==> is_hex(#[trigger] p[i])
}

/// The number of 16-bit groups a `:`-separated run stands for, and whether it
/// ends in a dotted IPv4 part, which stands for two.
pub open spec fn groups(s: Seq<u8>) -> Option<(nat, bool)> {
    if s.len() == 0 {
        Some((0, false))
    } else {
        let parts = split_bytes(s, 58);
        let n = parts.len();
        let last = parts[n - 1];
        if forall|k: int| 0 <= k < n - 1 ==> hex_group(#[trigger] parts[k]) {
            if last.contains(46) {
                if ipv4_ok(last) {
                    Some((n + 1, true))
                } else {
                    None
                }
            } else if hex_group(last) {
                Some((n, false))
            } else {
                None
            }
        } else {
            None
        }
    }
}

pub open spec fn pair_at(b: Seq<u8>, i: int) -> bool {
    0 <= i && i + 1 < b.len() && b[i] == 58 && b[i + 1] == 58
}

/// Where the first `::` starts, if there is one.
pub open spec fn first_pair(b: Seq<u8>) -> Option<int> {
    if exists|i: int| pair_at(b, i) {
        Some(choose|i: int| pair_at(b, i) && forall|j: int| 0 <= j < i ==> !pair_at(b, j))
    } else {
        None
    }
}

pub open spec fn ipv6_ok(b: Seq<u8>) -> bool {
    &&& !b.contains(37)
    &&& match first_pair(b) {
        None => groups(b) matches Some((n, _)) && n == 8,
        Some(i) => {
            let after = b.skip(i + 2);
            &&& first_pair(after) is None
            &&& groups(b.take(i)) matches Some((l, left_v4))
            &&& !left_v4
            &&& groups(after) matches Some((r, _))
            &&& l + r < 8
        },
    }
}

pub open spec fn format_ok(f: Format, b: Seq<u8>) -> bool {
    match f {
        Format::Uuid => uuid_ok(b),
        Format::Email => email_ok(b),
        Format::Hostname => hostname_ok(b),
        Format::Ipv4 => ipv4_ok(b),
        Format::Ipv6 => ipv6_ok(b),
    }
}

pub open spec fn format_name(f: Format) -> Seq<char> {
    match f {
        Format::Uuid => "uuid"@,
        Format::Email => "email"@,
        Format::Hostname => "hostname"@,
        Format::Ipv4 => "ipv4"@,
        Format::Ipv6 => "ipv6"@,
    }
}

/// The format a schema names, if any.
pub open spec fn format_named(name: Seq<char>) -> Option<Format> {
    if name == "uuid"@ {
        Some(Format::Uuid)
    } else if name == "email"@ {
        Some(Format::Email)
    } else if name == "hostname"@ {
        Some(Format::Hostname)
    } else if name == "ipv4"@ {
        Some(Format::Ipv4)
    } else if name == "ipv6"@ {
        Some(Format::Ipv6)
    } else {
        None
    }
}

/// Every format's name reads back as that format: the names are distinct.
pub proof fn law_format_names_round_trip(f: Format)
    ensures
        format_named(format_name(f)) == Some(f),
{
    reveal_strlit("uuid");
    reveal_strlit("email");
    reveal_strlit("hostname");
    reveal_strlit("ipv4");
    reveal_strlit("ipv6");
    assert("email"@.len() != "uuid"@.len());
    assert("hostname"@.len() != "uuid"@.len() && "hostname"@.len() != "email"@.len());
    assert("ipv4"@[0] != "uuid"@[0] && "ipv4"@.len() != "email"@.len() && "ipv4"@.len()
        != "hostname"@.len());
    assert("ipv6"@[0] != "uuid"@[0] && "ipv6"@.len() != "email"@.len() && "ipv6"@.len()
        != "hostname"@.len() && "ipv6"@[3] != "ipv4"@[3]);
}

proof fn lemma_last_at_exists(b: Seq<u8>, k: int)
    requires
        0 <= k < b.len(),
        b[k] == 64,
    ensures
        exists|i: int| 0 <= i < b.len() && b[i] == 64 && forall|j: int| i < j < b.len() ==> b[j] != 64,
    decreases b.len() - k,
{
    if exists|j: int| k < j < b.len() && b[j] == 64 {
        let j = choose|j: int| k < j < b.len() && b[j] == 64;
        lemma_last_at_exists(b, j);
    }
}

/// An address is an email exactly when it holds one `@`, with before it a
/// local part of 1 to 64 bytes with no control byte, space, `"`, `\` or DEL,
/// not starting or ending with `.` and with no `..`; and after it a hostname
/// with at least one dot.
pub proof fn law_an_email_has_one_at(b: Seq<u8>)
    ensures
        email_ok(b) <==> exists|at: int|
            0 <= at < b.len() && b[at] == 64 && (forall|j: int|
                0 <= j < b.len() && j != at ==> #[trigger] b[j] != 64) && local_part_ok(b.take(at))
                && hostname_ok(b.skip(at + 1)) && b.skip(at + 1).contains(46),
{
    if email_ok(b) {
        let at = last_at(b)->0;
        let k = choose|i: int| 0 <= i < b.len() && b[i] == 64;
        lemma_last_at_exists(b, k);
        let l = b.take(at);
        assert forall|j: int| 0 <= j < b.len() && j != at implies #[trigger] b[j] != 64 by {
            if j < at {
                assert(l[j] == b[j]);
            }
        }
    }
    if exists|at: int|
        0 <= at < b.len() && b[at] == 64 && (forall|j: int|
            0 <= j < b.len() && j != at ==> #[trigger] b[j] != 64) && local_part_ok(b.take(at))
            && hostname_ok(b.skip(at + 1)) && b.skip(at + 1).contains(46) {
        let at = choose|at: int|
            0 <= at < b.len() && b[at] == 64 && (forall|j: int|
                0 <= j < b.len() && j != at ==> #[trigger] b[j] != 64) && local_part_ok(b.take(at))
                && hostname_ok(b.skip(at + 1)) && b.skip(at + 1).contains(46);
        lemma_last_at_exists(b, at);
        assert(last_at(b) == Some(at));
    }
}

proof fn lemma_first_pair_exists(b: Seq<u8>, k: int)
    requires
        pair_at(b, k),
    ensures
        exists|i: int| pair_at(b, i) && forall|j: int| 0 <= j < i ==> !pair_at(b, j),
    decreases k,
{
    if exists|j: int| 0 <= j < k && pair_at(b, j) {
        let j = choose|j: int| 0 <= j < k && pair_at(b, j);
        lemma_first_pair_exists(b, j);
    }
}

/// What `first_pair` says, stated plainly.
proof fn lemma_first_pair(b: Seq<u8>)
    ensures
        first_pair(b) matches Some(i) ==> pair_at(b, i) && forall|j: int| 0 <= j < i ==> !pair_at(b, j),
        first_pair(b) is None ==> forall|i: int| !pair_at(b, i),
{
    if exists|i: int| pair_at(b, i) {
        let k = choose|i: int| pair_at(b, i);
        lemma_first_pair_exists(b, k);
    }
}

/// The pieces of `b` between occurrences of `::`, found left to right without
/// overlap, as `str::split("::")` yields them.
pub open spec fn split_pairs(b: Seq<u8>) -> Seq<Seq<u8>>
    decreases b.len(),
{
    match first_pair(b) {
        Some(i) => if 0 <= i && i + 2 <= b.len() {
            seq![b.take(i)] + split_pairs(b.skip(i + 2))
        } else {
            seq![b]
        },
        None => seq![b],
    }
}

/// An IPv6 address, stated as its halves: no `%`; one or two pieces around
/// `::`; with one piece, eight groups in all; with two, fewer than eight, the
/// `::` standing for at least one, and a dotted IPv4 part only at the end of
/// the address, never before the `::`. A group is 1 to 4 hex digits, and a
/// final dotted IPv4 part counts as two.
pub proof fn law_ipv6_by_its_halves(b: Seq<u8>)
    ensures
        ipv6_ok(b) <==> {
            let h = split_pairs(b);
            &&& !b.contains(37)
            &&& (h.len() == 1 || h.len() == 2)
            &&& h.len() == 1 ==> (groups(h[0]) matches Some((n, _)) && n == 8)
            &&& h.len() == 2 ==> (groups(h[0]) matches Some((l, left_v4)) && !left_v4 && (groups(
                h[1],
            ) matches Some((r, _)) && l + r < 8))
        },
{
    lemma_first_pair(b);
    if let Some(i) = first_pair(b) {
        let after = b.skip(i + 2);
        lemma_first_pair(after);
        if let Some(k) = first_pair(after) {
            lemma_pair_shift(b, i + 2, k);
            let rest = split_pairs(after);
            assert(rest.len() >= 2) by {
                lemma_split_pairs_len(after);
            }
            assert(split_pairs(b).len() == 1 + rest.len());
        } else {
            assert(split_pairs(after) == seq![after]);
            assert(split_pairs(b) =~= seq![b.take(i), after]);
        }
    }
}

proof fn lemma_split_pairs_len(b: Seq<u8>)
    ensures
        split_pairs(b).len() >= 1,
        first_pair(b) is Some ==> split_pairs(b).len() >= 2,
    decreases b.len(),
{
    lemma_first_pair(b);
    if let Some(i) = first_pair(b) {
        lemma_split_pairs_len(b.skip(i + 2));
    }
}

proof fn lemma_split_without_separator(b: Seq<u8>, sep: u8)
    requires
        !b.contains(sep),
    ensures
        split_bytes(b, sep) == seq![b],
    decreases b.len(),
{
    if b.len() > 0 {
        let d = b.drop_last();
        assert(!d.contains(sep)) by {
            if d.contains(sep) {
                let i = choose|i: int| 0 <= i < d.len() && d[i] == sep;
                assert(b[i] == sep);
            }
        }
        lemma_split_without_separator(d, sep);
        assert(b.last() != sep) by {
            assert(b[b.len() - 1] == b.last());
        }
        assert(d.push(b.last()) =~= b);
    } else {
        assert(b =~= Seq::<u8>::empty());
    }
}

/// A hostname label is 1 to 63 bytes, each an ASCII letter, an ASCII digit
/// or a hyphen, and neither starts nor ends with a hyphen: a name without a
/// dot is a hostname exactly when it is such a label.
pub proof fn law_a_label_is_letters_digits_and_hyphens(l: Seq<u8>)
    requires
        !l.contains(46),
    ensures
        hostname_ok(l) <==> {
            &&& 1 <= l.len() <= 63
            &&& l[0] != 45
            &&& l[l.len() - 1] != 45
            &&& forall|i: int|
                0 <= i < l.len() ==> (48 <= #[trigger] l[i] <= 57 || 65 <= l[i] <= 90 || 97 <= l[i]
                    <= 122 || l[i] == 45)
        },
{
    lemma_split_without_separator(l, 46);
    assert(split_bytes(l, 46)[0] == l);
}

/// A UUID is 36 bytes: hex digits, either case, with a `-` at bytes 8, 13,
/// 18 and 23 and nowhere else.
pub proof fn law_a_uuid_is_hex_in_five_groups(b: Seq<u8>)
    ensures
        uuid_ok(b) <==> {
            &&& b.len() == 36
            &&& forall|i: int|
                0 <= i < 36 ==> if i == 8 || i == 13 || i == 18 || i == 23 {
                    b[i] == 45
                } else {
                    48 <= #[trigger] b[i] <= 57 || 65 <= b[i] <= 70 || 97 <= b[i] <= 102
                }
        },
{
}

/// The ASCII digit for `k`, which is below ten.
pub open spec fn digit_of(k: nat) -> u8 {
    (48 + k) as u8
}

/// The decimal text of `n`, below 1000, with no leading zero.
pub open spec fn octet_text(n: nat) -> Seq<u8> {
    if n < 10 {
        seq![digit_of(n)]
    } else if n < 100 {
        seq![digit_of(n / 10), digit_of(n % 10)]
    } else {
        seq![digit_of(n / 100), digit_of(n / 10 % 10), digit_of(n % 10)]
    }
}

/// An IPv4 octet is a decimal number from 0 to 255 written without a
/// leading zero: the plain text of any number below 1000 is an octet exactly
/// when the number is at most 255, and a zero before other digits is never
/// one.
pub proof fn law_an_octet_is_at_most_255(n: nat, d: Seq<u8>)
    requires
        n < 1000,
    ensures
        octet_ok(octet_text(n)) <==> n <= 255,
        d.len() >= 1 ==> !octet_ok(seq![48u8] + d),
{
    let t = octet_text(n);
    if n < 10 {
        assert(t.drop_last() =~= Seq::<u8>::empty());
        assert(digits_value(t) == digits_value(t.drop_last()) * 10 + (t.last() - 48) as nat);
    } else if n < 100 {
        let a = seq![digit_of(n / 10)];
        assert(t.drop_last() =~= a);
        assert(a.drop_last() =~= Seq::<u8>::empty());
        assert(digits_value(Seq::<u8>::empty()) == 0);
        assert(digits_value(a) == digits_value(a.drop_last()) * 10 + (a.last() - 48) as nat);
        assert(digits_value(a) == n / 10);
        assert(digits_value(t) == digits_value(a) * 10 + (t.last() - 48) as nat);
    } else {
        let a = seq![digit_of(n / 100)];
        let ab = seq![digit_of(n / 100), digit_of(n / 10 % 10)];
        assert(t.drop_last() =~= ab);
        assert(ab.drop_last() =~= a);
        assert(a.drop_last() =~= Seq::<u8>::empty());
        assert(digits_value(Seq::<u8>::empty()) == 0);
        assert(digits_value(a) == digits_value(a.drop_last()) * 10 + (a.last() - 48) as nat);
        assert(digits_value(a) == n / 100);
        assert(digits_value(ab) == digits_value(ab.drop_last()) * 10 + (ab.last() - 48) as nat);
        assert(digits_value(ab) == n / 100 * 10 + n / 10 % 10);
        assert(digits_value(t) == digits_value(ab) * 10 + (t.last() - 48) as nat);
    }
    assert(digits_value(t) == n);
    let z = seq![48u8] + d;
    assert(z[0] == 48u8);
}

// ------------------------------------------------------------ the checks

proof fn lemma_split_len(b: Seq<u8>, sep: u8)
    ensures
        split_bytes(b, sep).len() >= 1,
    decreases b.len(),
{
    if b.len() > 0 {
        lemma_split_len(b.drop_last(), sep);
    }
}

/// Extending the scanned prefix by one byte extends its split by that byte.
proof fn lemma_split_step(b: Seq<u8>, lo: int, i: int, sep: u8)
    requires
        0 <= lo <= i < b.len(),
    ensures
        split_bytes(b.subrange(lo, i + 1), sep) == if b[i] == sep {
            split_bytes(b.subrange(lo, i), sep).push(Seq::empty())
        } else {
            let s = split_bytes(b.subrange(lo, i), sep);
            s.update(s.len() - 1, s.last().push(b[i]))
        },
{
    assert(b.subrange(lo, i + 1).drop_last() =~= b.subrange(lo, i));
    lemma_split_len(b.subrange(lo, i), sep);
}

fn is_hex_byte(c: u8) -> (r: bool)
    ensures
        r == is_hex(c),
{
    (c >= 48 && c <= 57) || (c >= 65 && c <= 70) || (c >= 97 && c <= 102)
}

fn is_alnum_byte(c: u8) -> (r: bool)
    ensures
        r == is_alnum(c),
{
    (c >= 48 && c <= 57) || (c >= 65 && c <= 90) || (c >= 97 && c <= 122)
}

fn uuid(b: &[u8]) -> (r: bool)
    ensures
        r == uuid_ok(b@),
{
    if b.len() != 36 {
        return false;
    }
    let mut i: usize = 0;
    while i < 36
        invariant
            b@.len() == 36,
            i <= 36,
            forall|j: int|
                0 <= j < i ==> if j == 8 || j == 13 || j == 18 || j == 23 {
                    b@[j] == 45
                } else {
                    is_hex(#[trigger] b@[j])
                },
        decreases 36 - i,
    {
        let ok = if i == 8 || i == 13 || i == 18 || i == 23 {
            b[i] == 45
        } else {
            is_hex_byte(b[i])
        };
        if !ok {
            return false;
        }
        i = i + 1;
    }
    true
}

/// Whether `b[s..e]` is a hostname label, given whether all of its bytes are
/// letters, digits or hyphens.
fn label_range_ok(b: &[u8], s: usize, e: usize, all_ok: bool) -> (r: bool)
    requires
        s <= e <= b@.len(),
        all_ok == forall|j: int| s <= j < e ==> is_alnum(#[trigger] b@[j]) || b@[j] == 45,
    ensures
        r == label_ok(b@.subrange(s as int, e as int)),
{
    let ghost l = b@.subrange(s as int, e as int);
    if e - s < 1 || e - s > 63 {
        return false;
    }
    assert(l[0] == b@[s as int] && l.last() == b@[e - 1]);
    assert(all_ok == forall|i: int| 0 <= i < l.len() ==> is_alnum(#[trigger] l[i]) || l[i] == 45) by {
        if all_ok {
            assert forall|i: int| 0 <= i < l.len() implies is_alnum(#[trigger] l[i]) || l[i] == 45 by {
                assert(l[i] == b@[s + i]);
            }
        } else {
            let j = choose|j: int| s <= j < e && !(is_alnum(#[trigger] b@[j]) || b@[j] == 45);
            assert(l[j - s] == b@[j]);
        }
    }
    b[s] != 45 && b[e - 1] != 45 && all_ok
}

/// Whether `b[lo..hi]` is a hostname.
fn hostname_range(b: &[u8], lo: usize, hi: usize) -> (r: bool)
    requires
        lo <= hi <= b@.len(),
    ensures
        r == hostname_ok(b@.subrange(lo as int, hi as int)),
{
    let len = hi - lo;
    if len == 0 || len > 253 {
        return false;
    }
    let mut start = lo;
    let mut done_ok = true;
    let mut cur_ok = true;
    let mut i = lo;
    assert(split_bytes(b@.subrange(lo as int, lo as int), 46) =~= seq![Seq::<u8>::empty()]);
    while i < hi
        invariant
            lo <= start <= i <= hi <= b@.len(),
            split_bytes(b@.subrange(lo as int, i as int), 46).len() >= 1,
            split_bytes(b@.subrange(lo as int, i as int), 46).last() =~= b@.subrange(
                start as int,
                i as int,
            ),
            done_ok == forall|k: int|
                0 <= k < split_bytes(b@.subrange(lo as int, i as int), 46).len() - 1 ==> label_ok(
                    #[trigger] split_bytes(b@.subrange(lo as int, i as int), 46)[k],
                ),
            cur_ok == forall|j: int| start <= j < i ==> is_alnum(#[trigger] b@[j]) || b@[j] == 45,
        decreases hi - i,
    {
        proof {
            lemma_split_step(b@, lo as int, i as int, 46);
        }
        let ghost sp = split_bytes(b@.subrange(lo as int, i as int), 46);
        let ghost sp2 = split_bytes(b@.subrange(lo as int, i + 1), 46);
        if b[i] == 46 {
            let lab = label_range_ok(b, start, i, cur_ok);
            assert(sp2.len() == sp.len() + 1);
            assert(forall|k: int| 0 <= k < sp.len() ==> sp2[k] == sp[k]);
            done_ok = done_ok && lab;
            start = i + 1;
            cur_ok = true;
            assert(sp2.last() =~= b@.subrange(start as int, i + 1));
        } else {
            cur_ok = cur_ok && (is_alnum_byte(b[i]) || b[i] == 45);
            assert(sp2.len() == sp.len());
            assert(forall|k: int| 0 <= k < sp.len() - 1 ==> sp2[k] == sp[k]);
            assert(sp2.last() =~= b@.subrange(start as int, i + 1));
        }
        i = i + 1;
    }
    let last = label_range_ok(b, start, hi, cur_ok);
    done_ok && last
}

/// Whether `b[s..e]` is an octet, given whether all its bytes are digits and,
/// when it is at most three long, its value.
fn octet_range_ok(b: &[u8], s: usize, e: usize, all_digits: bool, value: u32) -> (r: bool)
    requires
        s <= e <= b@.len(),
        all_digits == forall|j: int| s <= j < e ==> 48 <= #[trigger] b@[j] <= 57,
        all_digits && e - s <= 3 ==> value == digits_value(b@.subrange(s as int, e as int)),
    ensures
        r == octet_ok(b@.subrange(s as int, e as int)),
{
    let ghost p = b@.subrange(s as int, e as int);
    if e - s < 1 || e - s > 3 {
        return false;
    }
    assert(p[0] == b@[s as int]);
    assert(all_digits == forall|i: int| 0 <= i < p.len() ==> 48 <= #[trigger] p[i] <= 57) by {
        if all_digits {
            assert forall|i: int| 0 <= i < p.len() implies 48 <= #[trigger] p[i] <= 57 by {
                assert(p[i] == b@[s + i]);
            }
        } else {
            let j = choose|j: int| s <= j < e && !(48 <= #[trigger] b@[j] <= 57);
            assert(p[j - s] == b@[j]);
        }
    }
    all_digits && !(e - s > 1 && b[s] == 48) && value <= 255
}

/// Whether `b[lo..hi]` is a dotted IPv4 address.
fn ipv4_range(b: &[u8], lo: usize, hi: usize) -> (r: bool)
    requires
        lo <= hi <= b@.len(),
    ensures
        r == ipv4_ok(b@.subrange(lo as int, hi as int)),
{
    let mut start = lo;
    let mut count: usize = 1;
    let mut done_ok = true;
    let mut cur_digits = true;
    let mut cur_value: u32 = 0;
    let mut i = lo;
    assert(split_bytes(b@.subrange(lo as int, lo as int), 46) =~= seq![Seq::<u8>::empty()]);
    assert(b@.subrange(lo as int, lo as int) =~= Seq::<u8>::empty());
    while i < hi
        invariant
            lo <= start <= i <= hi <= b@.len(),
            count == if split_bytes(b@.subrange(lo as int, i as int), 46).len() <= 5 {
                split_bytes(b@.subrange(lo as int, i as int), 46).len()
            } else {
                5
            },
            count >= 1,
            split_bytes(b@.subrange(lo as int, i as int), 46).last() =~= b@.subrange(
                start as int,
                i as int,
            ),
            count <= 4 ==> (done_ok == forall|k: int|
                0 <= k < count - 1 ==> octet_ok(
                    #[trigger] split_bytes(b@.subrange(lo as int, i as int), 46)[k],
                )),
            cur_digits == forall|j: int| start <= j < i ==> 48 <= #[trigger] b@[j] <= 57,
            cur_digits && i - start <= 3 ==> cur_value == digits_value(
                b@.subrange(start as int, i as int),
            ),
            cur_value <= 999,
            i - start <= 1 ==> cur_value <= 9,
            i - start <= 2 ==> cur_value <= 99,
        decreases hi - i,
    {
        proof {
            lemma_split_step(b@, lo as int, i as int, 46);
        }
        let ghost sp = split_bytes(b@.subrange(lo as int, i as int), 46);
        let ghost sp2 = split_bytes(b@.subrange(lo as int, i + 1), 46);
        if b[i] == 46 {
            let oct = octet_range_ok(b, start, i, cur_digits, cur_value);
            assert(forall|k: int| 0 <= k < sp.len() ==> sp2[k] == sp[k]);
            done_ok = done_ok && oct;
            start = i + 1;
            if count < 5 {
                count = count + 1;
            }
            cur_digits = true;
            cur_value = 0;
            assert(sp2.last() =~= b@.subrange(start as int, i + 1));
            assert(b@.subrange(start as int, i + 1) =~= Seq::<u8>::empty());
        } else {
            let c = b[i];
            let ghost before = b@.subrange(start as int, i as int);
            assert(b@.subrange(start as int, i + 1).drop_last() =~= before);
            if i - start < 3 && c >= 48 && c <= 57 {
                cur_value = cur_value * 10 + (c - 48) as u32;
            }
            cur_digits = cur_digits && c >= 48 && c <= 57;
            assert(forall|k: int| 0 <= k < sp.len() - 1 ==> sp2[k] == sp[k]);
            assert(sp2.last() =~= b@.subrange(start as int, i + 1));
        }
        i = i + 1;
    }
    if count != 4 {
        return false;
    }
    let last = octet_range_ok(b, start, hi, cur_digits, cur_value);
    done_ok && last
}

/// Whether `b[lo..hi]` holds the byte `c`.
fn contains_byte(b: &[u8], lo: usize, hi: usize, c: u8) -> (r: bool)
    requires
        lo <= hi <= b@.len(),
    ensures
        r == b@.subrange(lo as int, hi as int).contains(c),
{
    let ghost sub = b@.subrange(lo as int, hi as int);
    let mut i = lo;
    while i < hi
        invariant
            lo <= i <= hi <= b@.len(),
            sub == b@.subrange(lo as int, hi as int),
            forall|j: int| lo <= j < i ==> b@[j] != c,
        decreases hi - i,
    {
        if b[i] == c {
            assert(sub[i - lo] == c);
            return true;
        }
        i = i + 1;
    }
    assert forall|k: int| 0 <= k < sub.len() implies sub[k] != c by {
        assert(sub[k] == b@[lo + k]);
    }
    false
}

fn local_part_range(b: &[u8], lo: usize, hi: usize) -> (r: bool)
    requires
        lo <= hi <= b@.len(),
    ensures
        r == local_part_ok(b@.subrange(lo as int, hi as int)),
{
    let ghost l = b@.subrange(lo as int, hi as int);
    if hi - lo < 1 || hi - lo > 64 {
        return false;
    }
    assert(l[0] == b@[lo as int] && l.last() == b@[hi - 1]);
    if b[lo] == 46 || b[hi - 1] == 46 {
        return false;
    }
    let mut i = lo;
    while i < hi
        invariant
            lo <= i <= hi <= b@.len(),
            l == b@.subrange(lo as int, hi as int),
            forall|k: int|
                0 <= k < i - lo ==> {
                    let c = #[trigger] l[k];
                    c > 32 && c != 34 && c != 92 && c != 64 && c != 127
                },
            forall|k: int| 0 <= k < i - lo - 1 ==> !(#[trigger] l[k] == 46 && l[k + 1] == 46),
        decreases hi - i,
    {
        let c = b[i];
        assert(l[i - lo] == c);
        if c <= 32 || c == 34 || c == 92 || c == 64 || c == 127 {
            return false;
        }
        if i > lo && c == 46 && b[i - 1] == 46 {
            assert(l[i - lo - 1] == b@[i - 1]);
            return false;
        }
        proof {
            if i > lo {
                assert(l[i - lo - 1] == b@[i - 1]);
            }
        }
        i = i + 1;
    }
    true
}

fn email(b: &[u8]) -> (r: bool)
    ensures
        r == email_ok(b@),
{
    let n = b.len();
    let mut i = n;
    while i > 0 && b[i - 1] != 64
        invariant
            i <= n == b@.len(),
            forall|j: int| i <= j < n ==> b@[j] != 64,
        decreases i,
    {
        i = i - 1;
    }
    if i == 0 {
        assert(!exists|j: int| 0 <= j < b@.len() && b@[j] == 64);
        return false;
    }
    let at = i - 1;
    proof {
        assert(b@[at as int] == 64);
        let c = choose|k: int|
            0 <= k < b@.len() && b@[k] == 64 && forall|j: int| k < j < b@.len() ==> b@[j] != 64;
        assert(c == at);
        assert(last_at(b@) == Some(at as int));
        assert(b@.take(at as int) =~= b@.subrange(0, at as int));
        assert(b@.skip(at + 1) =~= b@.subrange(at + 1, n as int));
    }
    local_part_range(b, 0, at) && hostname_range(b, at + 1, n) && contains_byte(b, at + 1, n, 46)
}

fn hex_group_range(b: &[u8], s: usize, e: usize, all_hex: bool) -> (r: bool)
    requires
        s <= e <= b@.len(),
        all_hex == forall|j: int| s <= j < e ==> is_hex(#[trigger] b@[j]),
    ensures
        r == hex_group(b@.subrange(s as int, e as int)),
{
    let ghost p = b@.subrange(s as int, e as int);
    assert(all_hex == forall|i: int| 0 <= i < p.len() ==> is_hex(#[trigger] p[i])) by {
        if all_hex {
            assert forall|i: int| 0 <= i < p.len() implies is_hex(#[trigger] p[i]) by {
                assert(p[i] == b@[s + i]);
            }
        } else {
            let j = choose|j: int| s <= j < e && !is_hex(#[trigger] b@[j]);
            assert(p[j - s] == b@[j]);
        }
    }
    e - s >= 1 && e - s <= 4 && all_hex
}

pub open spec fn cap9(n: nat) -> nat {
    if n <= 9 {
        n
    } else {
        9
    }
}

/// The groups of `b[lo..hi]`, with the count held at nine: past eight groups
/// nothing about an address depends on how many more there are.
fn groups_range(b: &[u8], lo: usize, hi: usize) -> (r: Option<(usize, bool)>)
    requires
        lo <= hi <= b@.len(),
    ensures
        r matches Some((c, v)) ==> (groups(b@.subrange(lo as int, hi as int)) matches Some((
            n,
            v2,
        )) && v == v2 && c == cap9(n)),
        r is None ==> groups(b@.subrange(lo as int, hi as int)) is None,
{
    if lo == hi {
        assert(b@.subrange(lo as int, hi as int).len() == 0);
        return Some((0, false));
    }
    let mut start = lo;
    let mut count: usize = 1;
    let mut done_ok = true;
    let mut cur_hex = true;
    let mut cur_dot = false;
    let mut i = lo;
    assert(split_bytes(b@.subrange(lo as int, lo as int), 58) =~= seq![Seq::<u8>::empty()]);
    while i < hi
        invariant
            lo <= start <= i <= hi <= b@.len(),
            split_bytes(b@.subrange(lo as int, i as int), 58).len() >= 1,
            count == cap9(split_bytes(b@.subrange(lo as int, i as int), 58).len()),
            split_bytes(b@.subrange(lo as int, i as int), 58).last() =~= b@.subrange(
                start as int,
                i as int,
            ),
            done_ok == forall|k: int|
                0 <= k < split_bytes(b@.subrange(lo as int, i as int), 58).len() - 1 ==> hex_group(
                    #[trigger] split_bytes(b@.subrange(lo as int, i as int), 58)[k],
                ),
            cur_hex == forall|j: int| start <= j < i ==> is_hex(#[trigger] b@[j]),
            cur_dot == b@.subrange(start as int, i as int).contains(46),
        decreases hi - i,
    {
        proof {
            lemma_split_step(b@, lo as int, i as int, 58);
        }
        let ghost sp = split_bytes(b@.subrange(lo as int, i as int), 58);
        let ghost sp2 = split_bytes(b@.subrange(lo as int, i + 1), 58);
        let ghost cur = b@.subrange(start as int, i as int);
        if b[i] == 58 {
            let g = hex_group_range(b, start, i, cur_hex);
            assert(forall|k: int| 0 <= k < sp.len() ==> sp2[k] == sp[k]);
            done_ok = done_ok && g;
            start = i + 1;
            if count < 9 {
                count = count + 1;
            }
            cur_hex = true;
            cur_dot = false;
            assert(sp2.last() =~= b@.subrange(start as int, i + 1));
            assert(b@.subrange(start as int, i + 1) =~= Seq::<u8>::empty());
        } else {
            let c = b[i];
            cur_hex = cur_hex && is_hex_byte(c);
            let ghost cur2 = b@.subrange(start as int, i + 1);
            assert(cur2 =~= cur.push(c));
            proof {
                if cur2.contains(46) {
                    let k = choose|k: int| 0 <= k < cur2.len() && cur2[k] == 46;
                    if k < cur.len() {
                        assert(cur[k] == 46);
                    }
                }
                if cur.contains(46) {
                    let k = choose|k: int| 0 <= k < cur.len() && cur[k] == 46;
                    assert(cur2[k] == 46);
                }
                if c == 46 {
                    assert(cur2[cur.len() as int] == 46);
                }
            }
            cur_dot = cur_dot || c == 46;
            assert(forall|k: int| 0 <= k < sp.len() - 1 ==> sp2[k] == sp[k]);
            assert(sp2.last() =~= cur2);
        }
        i = i + 1;
    }
    if !done_ok {
        return None;
    }
    if cur_dot {
        if ipv4_range(b, start, hi) {
            Some((if count < 9 { count + 1 } else { 9 }, true))
        } else {
            None
        }
    } else if hex_group_range(b, start, hi, cur_hex) {
        Some((count, false))
    } else {
        None
    }
}

/// The first `::` at or after `from`.
fn find_pair(b: &[u8], from: usize) -> (r: Option<usize>)
    ensures
        r matches Some(i) ==> from <= i && pair_at(b@, i as int) && forall|j: int|
            from <= j < i ==> !pair_at(b@, j),
        r is None ==> forall|j: int| from <= j ==> !pair_at(b@, j),
{
    let n = b.len();
    let mut i = from;
    while n > 0 && i < n - 1
        invariant
            n == b@.len(),
            from <= i,
            forall|j: int| from <= j < i ==> !pair_at(b@, j),
        decreases n - i,
    {
        if b[i] == 58 && b[i + 1] == 58 {
            return Some(i);
        }
        i = i + 1;
    }
    None
}

proof fn lemma_pair_shift(b: Seq<u8>, k: int, j: int)
    requires
        0 <= k <= b.len(),
        0 <= j,
    ensures
        pair_at(b.skip(k), j) == pair_at(b, j + k),
{
}

#[verifier::spinoff_prover]
fn ipv6(b: &[u8]) -> (r: bool)
    ensures
        r == ipv6_ok(b@),
{
    let n = b.len();
    assert(b@.subrange(0, n as int) =~= b@);
    if contains_byte(b, 0, n, 37) {
        return false;
    }
    match find_pair(b, 0) {
        None => {
            assert(!exists|i: int| pair_at(b@, i));
            match groups_range(b, 0, n) {
                Some((g, _)) => g == 8,
                None => false,
            }
        },
        Some(i) => {
            proof {
                let c = choose|c: int| pair_at(b@, c) && forall|j: int| 0 <= j < c ==> !pair_at(b@, j);
                assert(c == i);
            }
            let ghost after = b@.skip(i + 2);
            assert(after =~= b@.subrange(i + 2, n as int));
            assert(b@.take(i as int) =~= b@.subrange(0, i as int));
            match find_pair(b, i + 2) {
                Some(k) => {
                    proof {
                        lemma_pair_shift(b@, i + 2, k - (i + 2));
                    }
                    return false;
                },
                None => {
                    assert forall|j: int| pair_at(after, j) implies false by {
                        lemma_pair_shift(b@, i + 2, j);
                    }
                },
            }
            match (groups_range(b, 0, i), groups_range(b, i + 2, n)) {
                (Some((l, left_v4)), Some((r, _))) => !left_v4 && l + r < 8,
                _ => false,
            }
        },
    }
}

impl Format {
    /// The name a schema writes after `@format`.
    pub fn name(self) -> (r: &'static str)
        ensures
            r@ == format_name(self),
    {
        match self {
            Format::Uuid => "uuid",
            Format::Email => "email",
            Format::Hostname => "hostname",
            Format::Ipv4 => "ipv4",
            Format::Ipv6 => "ipv6",
        }
    }

    /// The format a name stands for, if any.
    pub fn parse(name: &str) -> (r: Option<Format>)
        ensures
            r == format_named(name@),
            r matches Some(f) ==> format_name(f) == name@,
            r is None ==> forall|f: Format| format_name(f) != name@,
    {
        if str_eq(name, "uuid") {
            Some(Format::Uuid)
        } else if str_eq(name, "email") {
            Some(Format::Email)
        } else if str_eq(name, "hostname") {
            Some(Format::Hostname)
        } else if str_eq(name, "ipv4") {
            Some(Format::Ipv4)
        } else if str_eq(name, "ipv6") {
            Some(Format::Ipv6)
        } else {
            assert forall|f: Format| format_name(f) != name@ by {
                match f {
                    Format::Uuid => {},
                    Format::Email => {},
                    Format::Hostname => {},
                    Format::Ipv4 => {},
                    Format::Ipv6 => {},
                }
            }
            None
        }
    }

    /// Whether the string satisfies this format.
    pub fn matches(self, value: &str) -> (r: bool)
        ensures
            r == format_ok(self, value.spec_bytes()),
    {
        let b = value.as_bytes();
        match self {
            Format::Uuid => uuid(b),
            Format::Email => email(b),
            Format::Hostname => {
                assert(b@.subrange(0, b@.len() as int) =~= b@);
                hostname_range(b, 0, b.len())
            },
            Format::Ipv4 => {
                assert(b@.subrange(0, b@.len() as int) =~= b@);
                ipv4_range(b, 0, b.len())
            },
            Format::Ipv6 => ipv6(b),
        }
    }
}

impl Format {
    /// Every format, in declaration order, for a message that tells a schema's
    /// author what they could have written instead.
    pub const ALL: [Format; 5] = [
        Format::Uuid,
        Format::Email,
        Format::Hostname,
        Format::Ipv4,
        Format::Ipv6,
    ];
}

} // verus!
