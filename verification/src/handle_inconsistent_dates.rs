//! Reading dates that are written in more than one way: `2010-12-11`,
//! `1999/Mar/02`, `01.Mar.2021`, `Apr.05.2021`.
//!
//! The text is cut into fields at `/`, `-`, `.` and blanks. A field of four
//! digits is the year. The first field that begins with the name of a month
//! gives the month; where there is none, the first other number does. The
//! last other field that is read after the month is known gives the day, and
//! without a day the first of the month is meant.

use crate::text::{
    chars_of, decimal_digit, digit_value, is_digit, lowercase_of, texts, to_lowercase, trim,
    trimmed,
};
use chrono::NaiveDate;
use vstd::prelude::*;
use vstd::utf8::{encode_utf8, is_ascii_chars};

verus! {

#[verifier::external_type_specification]
#[verifier::external_body]
pub struct ExNaiveDate(NaiveDate);

/// The year, month and day of a date, as `Datelike::year`, `month` and `day`
/// give them.
pub uninterp spec fn calendar_day_of(date: NaiveDate) -> (int, int, int);

/// The first year that a date can lie in.
pub const MIN_YEAR: i32 = -262143;

/// The last year that a date can lie in.
pub const MAX_YEAR: i32 = 262142;

/// Whether the year has a 29th of February.
pub open spec fn is_leap_year(year: int) -> bool {
    year % 4 == 0 && (year % 100 != 0 || year % 400 == 0)
}

/// The number of days of the month in that year.
pub open spec fn days_in_month(year: int, month: int) -> int {
    if month == 2 {
        if is_leap_year(year) {
            29
        } else {
            28
        }
    } else if month == 4 || month == 6 || month == 9 || month == 11 {
        30
    } else {
        31
    }
}

/// Whether the calendar has that day, in a year that a date can lie in.
pub open spec fn is_calendar_day(year: int, month: int, day: int) -> bool {
    &&& MIN_YEAR <= year <= MAX_YEAR
    &&& 1 <= month <= 12
    &&& 1 <= day <= days_in_month(year, month)
}

/// `NaiveDate::from_ymd_opt` makes the date of the given year, month and
/// day. It returns `None` exactly where the calendar has no such day or the
/// year is out of the range of dates.
#[verifier::external_body]
fn from_ymd_opt(year: i32, month: u32, day: u32) -> (date: Option<NaiveDate>)
    ensures
        date is Some <==> is_calendar_day(year as int, month as int, day as int),
        date matches Some(d) ==> calendar_day_of(d) == (year as int, month as int, day as int),
{
    NaiveDate::from_ymd_opt(year, month, day)
}

/// Whether `c` parts two fields of a date.
pub open spec fn is_separator(c: char) -> bool {
    c == '/' || c == '-' || c == '.' || c == ' '
}

/// The fields of `s`: what stands before, between and behind its
/// separators. There is always one field more than there are separators.
pub open spec fn fields_of(s: Seq<char>) -> Seq<Seq<char>>
    decreases s.len(),
{
    if s.len() == 0 {
        seq![Seq::<char>::empty()]
    } else {
        let before = fields_of(s.drop_last());
        if is_separator(s.last()) {
            before.push(Seq::empty())
        } else {
            before.drop_last().push(before.last().push(s.last()))
        }
    }
}

/// Every character of `s` is a decimal digit.
pub open spec fn all_digits(s: Seq<char>) -> bool {
    forall|i: int| 0 <= i < s.len() ==> is_digit(#[trigger] s[i])
}

/// Some character of `s` is a decimal digit.
pub open spec fn has_digit(s: Seq<char>) -> bool {
    exists|i: int| 0 <= i < s.len() && is_digit(#[trigger] s[i])
}

/// The number that the decimal digits of `s` write.
pub open spec fn digits_value(s: Seq<char>) -> nat
    decreases s.len(),
{
    if s.len() == 0 {
        0
    } else {
        digits_value(s.drop_last()) * 10 + digit_value(s.last())
    }
}

/// The number that `s` writes, if it writes one that fits 32 bits: decimal
/// digits, at least one, which a `+` may precede.
pub open spec fn number_of(s: Seq<char>) -> Option<u32> {
    let digits = if s.len() > 0 && s[0] == '+' {
        s.skip(1)
    } else {
        s
    };
    if digits.len() == 0 || !all_digits(digits) || digits_value(digits) > u32::MAX {
        None
    } else {
        Some(digits_value(digits) as u32)
    }
}

/// Whether `field` is a year: four decimal digits.
pub open spec fn is_year_text(field: Seq<char>) -> bool {
    field.len() == 4 && all_digits(field)
}

/// The month whose English name begins with the letters `a`, `b`, `c`.
pub open spec fn month_of(a: char, b: char, c: char) -> Option<u32> {
    if a == 'j' && b == 'a' && c == 'n' {
        Some(1)
    } else if a == 'f' && b == 'e' && c == 'b' {
        Some(2)
    } else if a == 'm' && b == 'a' && c == 'r' {
        Some(3)
    } else if a == 'a' && b == 'p' && c == 'r' {
        Some(4)
    } else if a == 'm' && b == 'a' && c == 'y' {
        Some(5)
    } else if a == 'j' && b == 'u' && c == 'n' {
        Some(6)
    } else if a == 'j' && b == 'u' && c == 'l' {
        Some(7)
    } else if a == 'a' && b == 'u' && c == 'g' {
        Some(8)
    } else if a == 's' && b == 'e' && c == 'p' {
        Some(9)
    } else if a == 'o' && b == 'c' && c == 't' {
        Some(10)
    } else if a == 'n' && b == 'o' && c == 'v' {
        Some(11)
    } else if a == 'd' && b == 'e' && c == 'c' {
        Some(12)
    } else {
        None
    }
}

/// The month that the lower-case text `lower` names by its first three
/// letters.
pub open spec fn month_named(lower: Seq<char>) -> Option<u32> {
    if lower.len() < 3 {
        None
    } else {
        month_of(lower[0], lower[1], lower[2])
    }
}

/// The month that `field` names: a field of at least three bytes whose
/// lower-case form begins with the first three letters of a month's name.
pub open spec fn month_in(field: Seq<char>) -> Option<u32> {
    if encode_utf8(field).len() < 3 {
        None
    } else {
        month_named(lowercase_of(field))
    }
}

/// The month that the first of `fields` to name one names.
pub open spec fn first_named_month(fields: Seq<Seq<char>>) -> Option<u32>
    decreases fields.len(),
{
    if fields.len() == 0 {
        None
    } else {
        match first_named_month(fields.drop_last()) {
            Some(m) => Some(m),
            None => month_in(fields.last()),
        }
    }
}

/// What has been read of a date.
pub struct DateParts {
    pub year: Option<i32>,
    pub month: Option<u32>,
    pub day: Option<u32>,
}

/// What is known of a date after `field` was read: a year sets the year;
/// any other field sets the day where the month is known, and the month
/// where it is not. A field that is no number leaves "unknown" behind.
pub open spec fn read_field(parts: DateParts, field: Seq<char>) -> DateParts {
    if is_year_text(field) {
        DateParts { year: Some(digits_value(field) as i32), month: parts.month, day: parts.day }
    } else if parts.month is Some {
        DateParts { year: parts.year, month: parts.month, day: number_of(field) }
    } else {
        DateParts { year: parts.year, month: number_of(field), day: parts.day }
    }
}

/// What is known of a date after all of `fields` were read, one after the
/// other, beginning with `parts`.
pub open spec fn read_fields(parts: DateParts, fields: Seq<Seq<char>>) -> DateParts
    decreases fields.len(),
{
    if fields.len() == 0 {
        parts
    } else {
        read_field(read_fields(parts, fields.drop_last()), fields.last())
    }
}

/// The year, month and day that the text `t` gives, if it gives a year and
/// a month. White space around `t` is not passed over.
pub open spec fn date_parts(t: Seq<char>) -> Option<(i32, u32, u32)> {
    if !has_digit(t) {
        None
    } else {
        let fields = fields_of(t);
        let named = DateParts { year: None, month: first_named_month(fields), day: None };
        let parts = read_fields(named, fields);
        match (parts.year, parts.month, parts.day) {
            (Some(y), Some(m), Some(d)) => Some((y, m, d)),
            (Some(y), Some(m), None) => Some((y, m, 1u32)),
            _ => None,
        }
    }
}

/// Text made of decimal digits alone takes one byte for each character.
proof fn lemma_digits_are_bytes(s: Seq<char>)
    requires
        all_digits(s),
    ensures
        encode_utf8(s).len() == s.len(),
{
    assert(is_ascii_chars(s)) by {
        assert forall|i: int| 0 <= i < s.len() implies '\0' <= #[trigger] s[i] <= '\u{7f}' by {
            assert(is_digit(s[i]));
        }
    }
    vstd::utf8::is_ascii_chars_encode_utf8(s);
}

/// The number that digits write does not shrink when more digits follow.
proof fn lemma_digits_value_grows(s: Seq<char>, n: int)
    requires
        0 <= n <= s.len(),
    ensures
        digits_value(s.take(n)) <= digits_value(s),
    decreases s.len() - n,
{
    if n == s.len() {
        assert(s.take(n) =~= s);
    } else {
        let longer = s.take(n + 1);
        assert(longer.drop_last() =~= s.take(n));
        assert(digits_value(longer) == digits_value(s.take(n)) * 10 + digit_value(longer.last()));
        lemma_digits_value_grows(s, n + 1);
    }
}

/// Four digits write a number below ten thousand.
proof fn lemma_year_value(s: Seq<char>)
    requires
        is_year_text(s),
    ensures
        digits_value(s) <= 9999,
{
    let s3 = s.drop_last();
    let s2 = s3.drop_last();
    let s1 = s2.drop_last();
    let s0 = s1.drop_last();
    assert(is_digit(s[0]) && is_digit(s[1]) && is_digit(s[2]) && is_digit(s[3]));
    assert(s3.last() == s[2] && s2.last() == s[1] && s1.last() == s[0]);
    assert(digits_value(s0) == 0);
    assert(digits_value(s1) <= 9);
    assert(digits_value(s2) <= 99);
    assert(digits_value(s3) <= 999);
}

/// Whether every character of `chars` is a decimal digit.
fn only_digits(chars: &Vec<char>) -> (r: bool)
    ensures
        r == all_digits(chars@),
{
    for i in 0..chars.len()
        invariant
            forall|j: int| 0 <= j < i ==> is_digit(#[trigger] chars@[j]),
    {
        if decimal_digit(chars[i]).is_none() {
            assert(!is_digit(chars@[i as int]));
            return false;
        }
    }
    true
}

/// Whether `field` is a year: four characters, all of them decimal digits.
pub fn is_year(field: &str) -> (r: bool)
    ensures
        r == is_year_text(field@),
{
    let chars = chars_of(field);
    let digits = only_digits(&chars);
    proof {
        if digits {
            lemma_digits_are_bytes(field@);
        }
    }
    field.as_bytes().len() == 4 && digits
}

/// Reads `field` as a number: decimal digits, at least one, which a `+` may
/// precede. A number that does not fit 32 bits is none.
pub fn parse_number(field: &str) -> (number: Option<u32>)
    ensures
        number == number_of(field@),
{
    let chars = chars_of(field);
    let begin: usize = if chars.len() > 0 && chars[0] == '+' {
        1
    } else {
        0
    };
    let ghost digits = if begin == 1 {
        field@.skip(1)
    } else {
        field@
    };
    proof {
        assert(field@.skip(0) =~= field@);
        assert(digits =~= field@.skip(begin as int));
    }
    if chars.len() == begin {
        return None;
    }
    let mut value: u64 = 0;
    let mut i: usize = begin;
    proof {
        assert(digits.take(0) =~= Seq::<char>::empty());
    }
    while i < chars.len()
        invariant
            chars@ == field@,
            digits == field@.skip(begin as int),
            digits == (if field@.len() > 0 && field@[0] == '+' {
                field@.skip(1)
            } else {
                field@
            }),
            digits.len() > 0,
            begin <= i <= chars.len(),
            all_digits(digits.take(i - begin)),
            value == digits_value(digits.take(i - begin)),
            value <= u32::MAX,
        decreases chars.len() - i,
    {
        let ghost seen = digits.take(i - begin);
        let ghost now = digits.take(i - begin + 1);
        proof {
            assert(now.drop_last() =~= seen);
            assert(now.last() == chars@[i as int]);
        }
        match decimal_digit(chars[i]) {
            Some(d) => {
                value = value * 10 + d as u64;
                proof {
                    assert forall|j: int| 0 <= j < now.len() implies is_digit(#[trigger] now[j]) by {
                        if j < seen.len() {
                            assert(seen[j] == now[j]);
                        }
                    }
                }
                if value > u32::MAX as u64 {
                    proof {
                        lemma_digits_value_grows(digits, i - begin + 1);
                    }
                    return None;
                }
            },
            None => {
                proof {
                    assert(!is_digit(digits[i - begin]));
                }
                return None;
            },
        }
        i = i + 1;
    }
    proof {
        assert(digits.take(digits.len() as int) =~= digits);
    }
    Some(value as u32)
}

/// The month whose English name begins with the letters `a`, `b`, `c`,
/// already in lower case.
pub fn month_from_letters(a: char, b: char, c: char) -> (month: Option<u32>)
    ensures
        month == month_of(a, b, c),
{
    if a == 'j' && b == 'a' && c == 'n' {
        Some(1)
    } else if a == 'f' && b == 'e' && c == 'b' {
        Some(2)
    } else if a == 'm' && b == 'a' && c == 'r' {
        Some(3)
    } else if a == 'a' && b == 'p' && c == 'r' {
        Some(4)
    } else if a == 'm' && b == 'a' && c == 'y' {
        Some(5)
    } else if a == 'j' && b == 'u' && c == 'n' {
        Some(6)
    } else if a == 'j' && b == 'u' && c == 'l' {
        Some(7)
    } else if a == 'a' && b == 'u' && c == 'g' {
        Some(8)
    } else if a == 's' && b == 'e' && c == 'p' {
        Some(9)
    } else if a == 'o' && b == 'c' && c == 't' {
        Some(10)
    } else if a == 'n' && b == 'o' && c == 'v' {
        Some(11)
    } else if a == 'd' && b == 'e' && c == 'c' {
        Some(12)
    } else {
        None
    }
}

/// The month that the lower-case text `lower` names by its first three
/// letters, if it names one.
pub fn month_from_name(lower: &str) -> (month: Option<u32>)
    ensures
        month == month_named(lower@),
{
    let chars = chars_of(lower);
    if chars.len() < 3 {
        None
    } else {
        month_from_letters(chars[0], chars[1], chars[2])
    }
}

/// The month that `field` names, whatever the case of its letters, if it
/// names one.
pub fn month_of_field(field: &str) -> (month: Option<u32>)
    ensures
        month == month_in(field@),
{
    if field.as_bytes().len() < 3 {
        None
    } else {
        let lower = to_lowercase(field);
        month_from_name(lower.as_str())
    }
}

/// Cuts `text` into its fields.
pub fn split_fields(text: &str) -> (fields: Vec<String>)
    ensures
        texts(fields@) == fields_of(text@),
{
    let chars = chars_of(text);
    let mut fields: Vec<String> = Vec::new();
    let mut current = String::new();
    proof {
        assert(text@.take(0) =~= Seq::<char>::empty());
        assert(texts(fields@).push(current@) =~= fields_of(text@.take(0)));
    }
    for i in 0..chars.len()
        invariant
            chars@ == text@,
            texts(fields@).push(current@) == fields_of(text@.take(i as int)),
    {
        let c = chars[i];
        let ghost before = texts(fields@).push(current@);
        proof {
            assert(text@.take(i + 1).drop_last() =~= text@.take(i as int));
            assert(text@.take(i + 1).last() == c);
            assert(before.last() == current@);
            assert(before.drop_last() =~= texts(fields@));
        }
        if c == '/' || c == '-' || c == '.' || c == ' ' {
            fields.push(current);
            current = String::new();
            proof {
                assert(texts(fields@) =~= before);
            }
        } else {
            current.push(c);
        }
    }
    fields.push(current);
    proof {
        assert(text@.take(text@.len() as int) =~= text@);
        assert(texts(fields@) =~= fields_of(text@));
    }
    fields
}

/// Reads the year, month and day that `t` gives, if it gives a year and a
/// month; without a day the first of the month is meant. White space around
/// `t` is not passed over.
pub fn read_date_parts(t: &str) -> (parts: Option<(i32, u32, u32)>)
    ensures
        parts == date_parts(t@),
{
    let chars = chars_of(t);
    let mut digit_seen = false;
    for i in 0..chars.len()
        invariant
            chars@ == t@,
            digit_seen == has_digit(t@.take(i as int)),
    {
        let ghost seen = t@.take(i as int);
        let ghost now = t@.take(i + 1);
        proof {
            if has_digit(seen) {
                let k = choose|k: int| 0 <= k < seen.len() && is_digit(#[trigger] seen[k]);
                assert(is_digit(now[k]));
            }
            if has_digit(now) && !is_digit(chars@[i as int]) {
                let k = choose|k: int| 0 <= k < now.len() && is_digit(#[trigger] now[k]);
                assert(is_digit(seen[k]));
            }
            if is_digit(chars@[i as int]) {
                assert(is_digit(now[i as int]));
            }
        }
        if decimal_digit(chars[i]).is_some() {
            digit_seen = true;
        }
    }
    proof {
        assert(t@.take(t@.len() as int) =~= t@);
    }
    if !digit_seen {
        return None;
    }
    let fields = split_fields(t);
    let ghost all = fields_of(t@);
    let mut month: Option<u32> = None;
    proof {
        assert(all.take(0) =~= Seq::<Seq<char>>::empty());
    }
    for i in 0..fields.len()
        invariant
            texts(fields@) == all,
            month == first_named_month(all.take(i as int)),
    {
        proof {
            assert(all.take(i + 1).drop_last() =~= all.take(i as int));
            assert(all.take(i + 1).last() == fields@[i as int]@);
        }
        if month.is_none() {
            month = month_of_field(fields[i].as_str());
        }
    }
    proof {
        assert(all.take(all.len() as int) =~= all);
    }
    let ghost named = DateParts { year: None, month, day: None };
    let mut year: Option<i32> = None;
    let mut day: Option<u32> = None;
    proof {
        assert(all.take(0) =~= Seq::<Seq<char>>::empty());
    }
    for i in 0..fields.len()
        invariant
            texts(fields@) == all,
            (DateParts { year, month, day }) == read_fields(named, all.take(i as int)),
    {
        proof {
            assert(all.take(i + 1).drop_last() =~= all.take(i as int));
            assert(all.take(i + 1).last() == fields@[i as int]@);
        }
        let field = fields[i].as_str();
        if is_year(field) {
            proof {
                lemma_year_value(field@);
                assert(field@.len() > 0 && field@[0] != '+') by {
                    assert(is_digit(field@[0]));
                }
            }
            year = match parse_number(field) {
                Some(y) => Some(y as i32),
                None => None,
            };
        } else if month.is_some() {
            day = parse_number(field);
        } else {
            month = parse_number(field);
        }
    }
    proof {
        assert(all.take(all.len() as int) =~= all);
    }
    match (year, month, day) {
        (Some(y), Some(m), Some(d)) => Some((y, m, d)),
        (Some(y), Some(m), None) => Some((y, m, 1)),
        _ => None,
    }
}

/// Reads a date from `text`, which may be written year first or year last,
/// with the month as a number or by its English name, and with `/`, `-`,
/// `.` or blanks between the fields. Returns `None` where the text gives no
/// year or no month, or gives a day that the calendar does not have.
pub fn flexible_date_parse(text: &str) -> (date: Option<NaiveDate>)
    ensures
        match date {
            Some(date) => match date_parts(trimmed(text@)) {
                Some((y, m, d)) => is_calendar_day(y as int, m as int, d as int) && calendar_day_of(
                    date,
                ) == (y as int, m as int, d as int),
                None => false,
            },
            None => match date_parts(trimmed(text@)) {
                Some((y, m, d)) => !is_calendar_day(y as int, m as int, d as int),
                None => true,
            },
        },
{
    match read_date_parts(trim(text)) {
        Some((y, m, d)) => from_ymd_opt(y, m, d),
        None => None,
    }
}

} // verus!
