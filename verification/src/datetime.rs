//! Calendar dates and instants, checked by hand. A `Date` is never widened
//! into an instant, and a `DateTime` without an offset is an error rather than
//! a guess about local time.

use vstd::prelude::*;

use vstd::string::StringSliceAdditionalSpecFns;

use crate::error::Code;

verus! {

pub open spec fn is_digit(c: u8) -> bool {
    48 <= c <= 57
}

/// The two-digit decimal number at `at`, if both bytes are digits.
pub open spec fn two_digits_at(b: Seq<u8>, at: int) -> Option<nat> {
    if 0 <= at && at + 1 < b.len() && is_digit(b[at]) && is_digit(b[at + 1]) {
        Some(((b[at] - 48) * 10 + (b[at + 1] - 48)) as nat)
    } else {
        None
    }
}

/// The four-digit decimal number at `at`, if all four bytes are digits.
pub open spec fn four_digits_at(b: Seq<u8>, at: int) -> Option<nat> {
    match (two_digits_at(b, at), two_digits_at(b, at + 2)) {
        (Some(hi), Some(lo)) => Some(hi * 100 + lo),
        _ => None,
    }
}

/// Gregorian: every fourth year, except centuries not divisible by 400.
pub open spec fn is_leap_year(year: nat) -> bool {
    (year % 4 == 0 && year % 100 != 0) || year % 400 == 0
}

pub open spec fn days_in_month(year: nat, month: nat) -> nat {
    if month == 1 || month == 3 || month == 5 || month == 7 || month == 8 || month == 10
        || month == 12 {
        31
    } else if month == 4 || month == 6 || month == 9 || month == 11 {
        30
    } else if month == 2 {
        if is_leap_year(year) {
            29
        } else {
            28
        }
    } else {
        0
    }
}

/// Year, month and day of a strict `YYYY-MM-DD`, when it names a real day.
pub open spec fn date_fields(b: Seq<u8>) -> Option<(nat, nat, nat)> {
    if b.len() != 10 || b[4] != 45 || b[7] != 45 {
        None
    } else {
        match (four_digits_at(b, 0), two_digits_at(b, 5), two_digits_at(b, 8)) {
            (Some(year), Some(month), Some(day)) => {
                if month == 0 || month > 12 || day == 0 || day > days_in_month(year, month) {
                    None
                } else {
                    Some((year, month, day))
                }
            },
            _ => None,
        }
    }
}

/// The verdict on a `Date` value, given its UTF-8 bytes.
pub open spec fn date_verdict(b: Seq<u8>) -> Result<(), Code> {
    if date_fields(b) is Some {
        Ok(())
    } else {
        Err(Code::InvalidDate)
    }
}

/// How many ASCII digits `s` starts with.
pub open spec fn leading_digits(s: Seq<u8>) -> nat
    decreases s.len(),
{
    if s.len() > 0 && is_digit(s[0]) {
        1 + leading_digits(s.drop_first())
    } else {
        0
    }
}

/// Whether `rest` is a numeric UTC offset `±HH:MM` with a valid hour and minute.
pub open spec fn numeric_offset_ok(rest: Seq<u8>) -> bool {
    &&& rest.len() == 6
    &&& (rest[0] == 43 || rest[0] == 45)
    &&& rest[3] == 58
    &&& two_digits_at(rest, 1) matches Some(h) && h <= 23
    &&& two_digits_at(rest, 4) matches Some(m) && m <= 59
}

/// What follows the seconds, once any fractional part is removed; `None`
/// when a `.` is followed by no digit.
pub open spec fn after_fraction(rest: Seq<u8>) -> Option<Seq<u8>> {
    if rest.len() > 0 && rest[0] == 46 {
        let n = leading_digits(rest.drop_first());
        if n == 0 {
            None
        } else {
            Some(rest.skip((1 + n) as int))
        }
    } else {
        Some(rest)
    }
}

/// Whether the clock part `hh:mm:ss` at bytes 11 to 18 is well-formed; the
/// second may be 60, a leap second.
pub open spec fn clock_ok(b: Seq<u8>) -> bool {
    &&& b.len() >= 19
    &&& b[13] == 58 && b[16] == 58
    &&& two_digits_at(b, 11) matches Some(h) && h <= 23
    &&& two_digits_at(b, 14) matches Some(m) && m <= 59
    &&& two_digits_at(b, 17) matches Some(s) && s <= 60
}

/// The verdict on a `DateTime` value, given its UTF-8 bytes: RFC 3339 with a
/// mandatory offset. A well-formed value with no offset is `missing_timezone`.
pub open spec fn datetime_verdict(b: Seq<u8>) -> Result<(), Code> {
    if b.len() < 11 || date_fields(b.take(10)) is None || (b[10] != 84 && b[10] != 116) {
        Err(Code::InvalidDateTime)
    } else if !clock_ok(b) {
        Err(Code::InvalidDateTime)
    } else {
        match after_fraction(b.skip(19)) {
            None => Err(Code::InvalidDateTime),
            Some(rest) => {
                if rest.len() == 0 {
                    Err(Code::MissingTimezone)
                } else if rest =~= seq![90u8] || rest =~= seq![122u8] {
                    Ok(())
                } else if numeric_offset_ok(rest) {
                    Ok(())
                } else {
                    Err(Code::InvalidDateTime)
                }
            },
        }
    }
}

fn digit_at(b: &[u8], at: usize) -> (r: Option<u32>)
    ensures
        r matches Some(d) ==> at < b@.len() && is_digit(b@[at as int]) && d == b@[at as int] - 48,
        r is None ==> !(at < b@.len() && is_digit(b@[at as int])),
{
    if at < b.len() && b[at] >= 48 && b[at] <= 57 {
        Some((b[at] - 48) as u32)
    } else {
        None
    }
}

fn two_digits(b: &[u8], at: usize) -> (r: Option<u32>)
    requires
        at < usize::MAX,
    ensures
        r matches Some(v) ==> two_digits_at(b@, at as int) == Some(v as nat),
        r is None ==> two_digits_at(b@, at as int) is None,
{
    match (digit_at(b, at), digit_at(b, at + 1)) {
        (Some(d0), Some(d1)) => Some(d0 * 10 + d1),
        _ => None,
    }
}

fn four_digits(b: &[u8], at: usize) -> (r: Option<u32>)
    requires
        at < usize::MAX - 3,
    ensures
        r matches Some(v) ==> four_digits_at(b@, at as int) == Some(v as nat),
        r is None ==> four_digits_at(b@, at as int) is None,
{
    match (two_digits(b, at), two_digits(b, at + 2)) {
        (Some(hi), Some(lo)) => Some(hi * 100 + lo),
        _ => None,
    }
}

fn is_leap(year: u32) -> (r: bool)
    ensures
        r == is_leap_year(year as nat),
{
    (year % 4 == 0 && year % 100 != 0) || year % 400 == 0
}

fn month_length(year: u32, month: u32) -> (r: u32)
    ensures
        r == days_in_month(year as nat, month as nat),
{
    if month == 1 || month == 3 || month == 5 || month == 7 || month == 8 || month == 10
        || month == 12 {
        31
    } else if month == 4 || month == 6 || month == 9 || month == 11 {
        30
    } else if month == 2 {
        if is_leap(year) {
            29
        } else {
            28
        }
    } else {
        0
    }
}

/// Whether the first ten bytes of `b`, taken alone, are a real `YYYY-MM-DD`.
fn date_prefix_ok(b: &[u8], len: usize) -> (r: bool)
    requires
        len == 10,
        b@.len() >= 10,
    ensures
        r == (date_fields(b@.take(10)) is Some),
{
    let ghost d = b@.take(10);
    assert(forall|i: int| 0 <= i < 10 ==> d[i] == b@[i]);
    if b[4] != 45 || b[7] != 45 {
        return false;
    }
    let year = four_digits(b, 0);
    let month = two_digits(b, 5);
    let day = two_digits(b, 8);
    assert(four_digits_at(d, 0) == four_digits_at(b@, 0));
    assert(two_digits_at(d, 5) == two_digits_at(b@, 5));
    assert(two_digits_at(d, 8) == two_digits_at(b@, 8));
    match (year, month, day) {
        (Some(year), Some(month), Some(day)) => {
            !(month == 0 || month > 12 || day == 0 || day > month_length(year, month))
        },
        _ => false,
    }
}

/// Strict `YYYY-MM-DD`, including month lengths and leap years.
pub fn validate_date(s: &str) -> (r: Result<(), Code>)
    ensures
        r == date_verdict(s.spec_bytes()),
{
    let b = s.as_bytes();
    if b.len() != 10 {
        return Err(Code::InvalidDate);
    }
    assert(b@.take(10) =~= b@);
    if date_prefix_ok(b, 10) {
        Ok(())
    } else {
        Err(Code::InvalidDate)
    }
}

/// How many ASCII digits `b` holds from `from` on, before anything else.
fn count_digits(b: &[u8], from: usize) -> (n: usize)
    requires
        from <= b@.len(),
    ensures
        n == leading_digits(b@.skip(from as int)),
        from + n <= b@.len(),
{
    let mut i = b.len();
    let mut n: usize = 0;
    // Counted from the end back to `from`, so the count always describes a suffix.
    while i > from
        invariant
            from <= i <= b@.len(),
            n == leading_digits(b@.skip(i as int)),
            i + n <= b@.len(),
        decreases i,
    {
        let ghost tail = b@.skip(i as int);
        assert(b@.skip(i - 1).drop_first() =~= tail);
        if b[i - 1] >= 48 && b[i - 1] <= 57 {
            n = n + 1;
        } else {
            n = 0;
        }
        i = i - 1;
    }
    n
}

/// RFC 3339 with a mandatory offset. Returns [`Code::MissingTimezone`] when the
/// value is well-formed but unzoned, since that is the common mistake.
pub fn validate_datetime(s: &str) -> (r: Result<(), Code>)
    ensures
        r == datetime_verdict(s.spec_bytes()),
{
    let b = s.as_bytes();
    let len = b.len();
    if len < 11 || !date_prefix_ok(b, 10) || (b[10] != 84 && b[10] != 116) {
        return Err(Code::InvalidDateTime);
    }
    if len < 19 || b[13] != 58 || b[16] != 58 {
        return Err(Code::InvalidDateTime);
    }
    let hour = two_digits(b, 11);
    let minute = two_digits(b, 14);
    let second = two_digits(b, 17);
    match (hour, minute, second) {
        (Some(h), Some(m), Some(sec)) => {
            if h > 23 || m > 59 || sec > 60 {
                return Err(Code::InvalidDateTime);
            }
        },
        _ => {
            return Err(Code::InvalidDateTime);
        },
    }
    let mut start: usize = 19;
    if len > 19 && b[19] == 46 {
        let n = count_digits(b, 20);
        assert(b@.skip(19).drop_first() =~= b@.skip(20));
        if n == 0 {
            return Err(Code::InvalidDateTime);
        }
        assert(b@.skip(19).skip(1 + n) =~= b@.skip(20 + n));
        start = 20 + n;
    }
    let ghost rest = b@.skip(start as int);
    assert(after_fraction(b@.skip(19)) == Some(rest));
    let rlen = len - start;
    if rlen == 0 {
        return Err(Code::MissingTimezone);
    }
    if rlen == 1 && (b[start] == 90 || b[start] == 122) {
        assert(rest =~= seq![90u8] || rest =~= seq![122u8]);
        return Ok(());
    }
    assert(rest.len() == rlen && rest[0] == b@[start as int]);
    proof {
        if rest =~= seq![90u8] || rest =~= seq![122u8] {
            assert(rest[0] == seq![90u8][0] || rest[0] == seq![122u8][0]);
        }
    }
    if rlen != 6 || (b[start] != 43 && b[start] != 45) || b[start + 3] != 58 {
        return Err(Code::InvalidDateTime);
    }
    let off_h = two_digits(b, start + 1);
    let off_m = two_digits(b, start + 4);
    assert(two_digits_at(rest, 1) == two_digits_at(b@, start + 1));
    assert(two_digits_at(rest, 4) == two_digits_at(b@, start + 4));
    match (off_h, off_m) {
        (Some(oh), Some(om)) => {
            if oh > 23 || om > 59 {
                Err(Code::InvalidDateTime)
            } else {
                Ok(())
            }
        },
        _ => Err(Code::InvalidDateTime),
    }
}


// ------------------------------------------------------------------ laws

/// A `Date` is exactly ten bytes, so an instant never passes as one.
pub proof fn law_a_date_is_never_an_instant(b: Seq<u8>)
    requires
        b.len() != 10,
    ensures
        date_verdict(b) == Err::<(), Code>(Code::InvalidDate),
{
}

proof fn lemma_leading_digits_all(s: Seq<u8>, x: u8)
    requires
        leading_digits(s) == s.len(),
        !is_digit(x),
    ensures
        leading_digits(s.push(x)) == s.len(),
    decreases s.len(),
{
    if s.len() > 0 {
        assert(s.push(x).drop_first() =~= s.drop_first().push(x));
        lemma_leading_digits_all(s.drop_first(), x);
    } else {
        assert(s.push(x)[0] == x);
    }
}

proof fn lemma_leading_digits_bound(s: Seq<u8>)
    ensures
        leading_digits(s) <= s.len(),
    decreases s.len(),
{
    if s.len() > 0 && is_digit(s[0]) {
        lemma_leading_digits_bound(s.drop_first());
    }
}

/// An instant reported as `missing_timezone` lacks nothing else: the same
/// text with a `Z` appended is valid.
pub proof fn law_a_missing_offset_is_all_that_is_missing(b: Seq<u8>)
    requires
        datetime_verdict(b) == Err::<(), Code>(Code::MissingTimezone),
    ensures
        datetime_verdict(b.push(90u8)) == Ok::<(), Code>(()),
{
    let z = b.push(90u8);
    assert(z.take(10) =~= b.take(10));
    assert forall|i: int| 0 <= i < b.len() implies z[i] == b[i] by {}
    assert(two_digits_at(z, 11) == two_digits_at(b, 11));
    assert(two_digits_at(z, 14) == two_digits_at(b, 14));
    assert(two_digits_at(z, 17) == two_digits_at(b, 17));
    assert(clock_ok(z));
    let rest = b.skip(19);
    let zrest = z.skip(19);
    assert(zrest =~= rest.push(90u8));
    if rest.len() > 0 && rest[0] == 46 {
        let t = rest.drop_first();
        let n = leading_digits(t);
        lemma_leading_digits_bound(t);
        assert(rest.skip((1 + n) as int).len() == 0);
        assert(n == t.len());
        assert(zrest.drop_first() =~= t.push(90u8));
        lemma_leading_digits_all(t, 90u8);
        assert(zrest.skip((1 + n) as int) =~= seq![90u8]);
    } else {
        assert(rest.len() == 0);
        assert(zrest =~= seq![90u8]);
    }
}

proof fn lemma_leading_digits_stop(s: Seq<u8>, x: u8)
    requires
        leading_digits(s) < s.len(),
    ensures
        leading_digits(s.push(x)) == leading_digits(s),
    decreases s.len(),
{
    if is_digit(s[0]) {
        assert(s.push(x).drop_first() =~= s.drop_first().push(x));
        lemma_leading_digits_stop(s.drop_first(), x);
    } else {
        assert(s.push(x)[0] == s[0]);
    }
}

/// What follows the seconds can end in a `Z` only as the whole offset: a
/// numeric offset ends in a digit.
proof fn lemma_no_offset_ends_in_z(r: Seq<u8>)
    requires
        r.len() >= 2,
        r.last() == 90u8,
    ensures
        !(r =~= seq![90u8] || r =~= seq![122u8]),
        !numeric_offset_ok(r),
{
    if r =~= seq![90u8] || r =~= seq![122u8] {
        assert(r.len() == 1);
    }
    if numeric_offset_ok(r) {
        assert(is_digit(r[5]));
    }
}

/// `missing_timezone` means that the offset, and nothing else, is missing:
/// an instant is reported so exactly when the same text with a `Z` appended
/// is valid.
pub proof fn law_only_the_offset_is_missing(b: Seq<u8>)
    ensures
        datetime_verdict(b) == Err::<(), Code>(Code::MissingTimezone) <==> datetime_verdict(
            b.push(90u8),
        ) == Ok::<(), Code>(()),
{
    if datetime_verdict(b) == Err::<(), Code>(Code::MissingTimezone) {
        law_a_missing_offset_is_all_that_is_missing(b);
    }
    let z = b.push(90u8);
    if datetime_verdict(z) == Ok::<(), Code>(()) {
        assert(clock_ok(z));
        if b.len() == 18 {
            assert(is_digit(z[18]));
        }
        assert(b.len() >= 19);
        assert(z.take(10) =~= b.take(10));
        assert(z[10] == b[10]);
        assert(two_digits_at(z, 11) == two_digits_at(b, 11));
        assert(two_digits_at(z, 14) == two_digits_at(b, 14));
        assert(two_digits_at(z, 17) == two_digits_at(b, 17));
        assert(clock_ok(b));
        let rest = b.skip(19);
        let zrest = z.skip(19);
        assert(zrest =~= rest.push(90u8));
        if rest.len() > 0 && rest[0] == 46 {
            let t = rest.drop_first();
            assert(zrest.drop_first() =~= t.push(90u8));
            lemma_leading_digits_bound(t);
            if leading_digits(t) < t.len() {
                let n = leading_digits(t);
                lemma_leading_digits_stop(t, 90u8);
                if n > 0 {
                    let r = zrest.skip((1 + n) as int);
                    assert(r =~= rest.skip((1 + n) as int).push(90u8));
                    lemma_no_offset_ends_in_z(r);
                }
            } else {
                lemma_leading_digits_all(t, 90u8);
                assert(rest.skip((1 + t.len()) as int).len() == 0);
            }
        } else if rest.len() > 0 {
            lemma_no_offset_ends_in_z(zrest);
        }
    }
}

/// An instant is judged valid, `invalid_datetime` or `missing_timezone`, and
/// nothing else; and a valid one starts with a valid `Date`.
pub proof fn law_a_valid_instant_starts_with_a_valid_date(b: Seq<u8>)
    ensures
        datetime_verdict(b) == Ok::<(), Code>(()) || datetime_verdict(b) == Err::<(), Code>(
            Code::InvalidDateTime,
        ) || datetime_verdict(b) == Err::<(), Code>(Code::MissingTimezone),
        datetime_verdict(b) == Ok::<(), Code>(()) ==> date_verdict(b.take(10)) == Ok::<(), Code>(
            (),
        ),
{
}

/// The ASCII digit for `k`, which is below ten.
pub open spec fn digit_byte(k: nat) -> u8 {
    (48 + k) as u8
}

/// The text `YYYY-MM-DD` of a year below 10000 and a month and day below 100.
pub open spec fn date_text(y: nat, m: nat, d: nat) -> Seq<u8> {
    seq![
        digit_byte(y / 1000),
        digit_byte(y / 100 % 10),
        digit_byte(y / 10 % 10),
        digit_byte(y % 10),
        45u8,
        digit_byte(m / 10),
        digit_byte(m % 10),
        45u8,
        digit_byte(d / 10),
        digit_byte(d % 10),
    ]
}

/// Midnight UTC after a date: `T00:00:00Z`.
pub open spec fn midnight_utc() -> Seq<u8> {
    seq![84u8, 48u8, 48u8, 58u8, 48u8, 48u8, 58u8, 48u8, 48u8, 90u8]
}

/// The Gregorian calendar decides which dates exist: January, March, May,
/// July, August, October and December have 31 days; April, June, September
/// and November exactly 30; February 28, and 29 in a year divisible by 4
/// but not by 100, or by 400. A written date is valid exactly when it names
/// such a day, and an instant on that date exactly then too. The parts are
/// separated by `-` and nothing else.
pub proof fn law_the_calendar_fixes_month_lengths(y: nat, m: nat, d: nat, c: u8)
    requires
        y < 10000,
        m < 100,
        d < 100,
    ensures
        c != 45u8 ==> date_verdict(date_text(y, m, d).update(4, c)) == Err::<(), Code>(Code::InvalidDate)
            && date_verdict(date_text(y, m, d).update(7, c)) == Err::<(), Code>(Code::InvalidDate),
        ({
            let named_day = 1 <= m <= 12 && 1 <= d && if m == 4 || m == 6 || m == 9 || m == 11 {
                d <= 30
            } else if m == 2 {
                d <= 28 || (d == 29 && ((y % 4 == 0 && y % 100 != 0) || y % 400 == 0))
            } else {
                d <= 31
            };
            &&& date_verdict(date_text(y, m, d)) == if named_day {
                Ok::<(), Code>(())
            } else {
                Err(Code::InvalidDate)
            }
            &&& datetime_verdict(date_text(y, m, d) + midnight_utc()) == if named_day {
                Ok::<(), Code>(())
            } else {
                Err(Code::InvalidDateTime)
            }
        }),
{
    let b = date_text(y, m, d);
    assert(b.update(4, c)[4] == c && b.update(7, c)[7] == c);
    assert(four_digits_at(b, 0) == Some(y));
    assert(two_digits_at(b, 5) == Some(m));
    assert(two_digits_at(b, 8) == Some(d));
    let t = b + midnight_utc();
    assert(t.take(10) =~= b);
    assert(t[10] == 84u8);
    assert(two_digits_at(t, 11) == Some(0nat));
    assert(two_digits_at(t, 14) == Some(0nat));
    assert(two_digits_at(t, 17) == Some(0nat));
    assert(clock_ok(t));
    assert(t.skip(19) =~= seq![90u8]);
}

/// The clock after a date, `Thh:mm:ssZ`, for numbers below 100.
pub open spec fn clock_text(h: nat, mi: nat, sec: nat) -> Seq<u8> {
    seq![
        84u8,
        digit_byte(h / 10),
        digit_byte(h % 10),
        58u8,
        digit_byte(mi / 10),
        digit_byte(mi % 10),
        58u8,
        digit_byte(sec / 10),
        digit_byte(sec % 10),
        90u8,
    ]
}

/// On a real date, an instant's clock is valid exactly when its hour is at
/// most 23, its minute at most 59 and its second at most 60, a leap second.
pub proof fn law_the_clock_fixes_its_ranges(y: nat, m: nat, d: nat, h: nat, mi: nat, sec: nat)
    requires
        y < 10000,
        m < 100,
        d < 100,
        date_verdict(date_text(y, m, d)) == Ok::<(), Code>(()),
        h < 100,
        mi < 100,
        sec < 100,
    ensures
        datetime_verdict(date_text(y, m, d) + clock_text(h, mi, sec)) == if h <= 23 && mi <= 59 && sec
            <= 60 {
            Ok::<(), Code>(())
        } else {
            Err(Code::InvalidDateTime)
        },
{
    let b = date_text(y, m, d);
    let t = b + clock_text(h, mi, sec);
    assert(t.take(10) =~= b);
    assert(t[10] == 84u8);
    assert(two_digits_at(t, 11) == Some(h));
    assert(two_digits_at(t, 14) == Some(mi));
    assert(two_digits_at(t, 17) == Some(sec));
    assert(t.skip(19) =~= seq![90u8]);
}

} // verus!
