//! Colours written as `#rrggbb`, two hexadecimal digits for each of red,
//! green and blue.

use crate::text::{chars_of, strip_prefix, trim, trimmed};
use vstd::prelude::*;
use vstd::utf8::{encode_utf8, is_ascii_chars};

verus! {

/// A colour by its red, green and blue parts.
#[derive(Debug, PartialEq, Eq, Structural)]
pub struct Rgb {
    pub r: u8,
    pub g: u8,
    pub b: u8,
}

/// Why a text is not a colour.
#[derive(Debug)]
pub enum InvalidRgb {
    /// It does not begin with `#`.
    MissingLeadingHash,
    /// What follows the `#` is not six bytes long.
    InvalidLength,
    /// What follows the `#` holds a character that is no hexadecimal digit.
    InvalidHexDigit,
}

/// The three parts of a colour.
pub trait RgbChannels {
    fn r(&self) -> u8;

    fn g(&self) -> u8;

    fn b(&self) -> u8;
}

impl RgbChannels for Rgb {
    fn r(&self) -> (r: u8)
        ensures
            r == self.r,
    {
        self.r
    }

    fn g(&self) -> (g: u8)
        ensures
            g == self.g,
    {
        self.g
    }

    fn b(&self) -> (b: u8)
        ensures
            b == self.b,
    {
        self.b
    }
}

/// Whether `c` is a hexadecimal digit, in either case.
pub open spec fn is_hex_digit(c: char) -> bool {
    ('0' <= c && c <= '9') || ('a' <= c && c <= 'f') || ('A' <= c && c <= 'F')
}

/// The number that the hexadecimal digit `c` stands for.
pub open spec fn hex_value(c: char) -> int {
    if '0' <= c && c <= '9' {
        c as u32 - 48
    } else if 'a' <= c && c <= 'f' {
        c as u32 - 87
    } else {
        c as u32 - 55
    }
}

/// The lower-case hexadecimal digit for `n`, which is below sixteen.
pub open spec fn hex_char(n: int) -> char {
    if n < 10 {
        ((48 + n) as u8) as char
    } else {
        ((87 + n) as u8) as char
    }
}

/// The number that the two hexadecimal digits `high` and `low` stand for.
pub open spec fn hex_pair(high: char, low: char) -> int {
    16 * hex_value(high) + hex_value(low)
}

/// Every character of `s` is a hexadecimal digit.
pub open spec fn all_hex_digits(s: Seq<char>) -> bool {
    forall|i: int| 0 <= i < s.len() ==> is_hex_digit(#[trigger] s[i])
}

/// The colour that the text `t` stands for, or why it stands for none. The
/// text is taken as it is: white space around it is not passed over.
pub open spec fn parsed_rgb(t: Seq<char>) -> Result<Rgb, InvalidRgb> {
    if t.len() == 0 || t[0] != '#' {
        Err(InvalidRgb::MissingLeadingHash)
    } else {
        let digits = t.skip(1);
        if encode_utf8(digits).len() != 6 {
            Err(InvalidRgb::InvalidLength)
        } else if !all_hex_digits(digits) {
            Err(InvalidRgb::InvalidHexDigit)
        } else {
            Ok(
                Rgb {
                    r: hex_pair(digits[0], digits[1]) as u8,
                    g: hex_pair(digits[2], digits[3]) as u8,
                    b: hex_pair(digits[4], digits[5]) as u8,
                },
            )
        }
    }
}

/// The text of a colour: `#` and two lower-case hexadecimal digits for each
/// part.
pub open spec fn rgb_text(colour: Rgb) -> Seq<char> {
    seq![
        '#',
        hex_char(colour.r as int / 16),
        hex_char(colour.r as int % 16),
        hex_char(colour.g as int / 16),
        hex_char(colour.g as int % 16),
        hex_char(colour.b as int / 16),
        hex_char(colour.b as int % 16),
    ]
}

/// A number below sixteen comes back from its hexadecimal digit.
pub proof fn lemma_hex_round_trip(n: int)
    requires
        0 <= n < 16,
    ensures
        is_hex_digit(hex_char(n)),
        hex_value(hex_char(n)) == n,
        (hex_char(n) as u32) < 128,
{
    if n < 10 {
        assert(hex_char(n) as u32 == 48 + n);
    } else {
        assert(hex_char(n) as u32 == 87 + n);
    }
    assert('0' as u32 == 48 && '9' as u32 == 57 && 'a' as u32 == 97 && 'f' as u32 == 102);
}

/// Text made of hexadecimal digits alone takes one byte for each character.
pub proof fn lemma_hex_digits_are_bytes(s: Seq<char>)
    requires
        all_hex_digits(s),
    ensures
        encode_utf8(s).len() == s.len(),
{
    assert(is_ascii_chars(s)) by {
        assert forall|i: int| 0 <= i < s.len() implies (#[trigger] s[i] as u32) < 128 by {
            assert(is_hex_digit(s[i]));
            assert('9' as u32 == 57 && 'f' as u32 == 102 && 'F' as u32 == 70);
        }
    }
    vstd::utf8::is_ascii_chars_encode_utf8(s);
}

/// The text of a colour stands for that colour.
pub proof fn lemma_rgb_text_parses(colour: Rgb)
    ensures
        parsed_rgb(rgb_text(colour)) == Ok::<Rgb, InvalidRgb>(colour),
{
    let t = rgb_text(colour);
    let digits = t.skip(1);
    let r = colour.r as int;
    let g = colour.g as int;
    let b = colour.b as int;
    lemma_hex_round_trip(r / 16);
    lemma_hex_round_trip(r % 16);
    lemma_hex_round_trip(g / 16);
    lemma_hex_round_trip(g % 16);
    lemma_hex_round_trip(b / 16);
    lemma_hex_round_trip(b % 16);
    assert(digits.len() == 6);
    assert(digits[0] == t[1] && digits[1] == t[2] && digits[2] == t[3] && digits[3] == t[4]
        && digits[4] == t[5] && digits[5] == t[6]);
    assert(all_hex_digits(digits));
    lemma_hex_digits_are_bytes(digits);
    assert(hex_pair(digits[0], digits[1]) == r);
    assert(hex_pair(digits[2], digits[3]) == g);
    assert(hex_pair(digits[4], digits[5]) == b);
}

/// The text of a colour is read back as that colour, white space around it
/// or none.
pub proof fn lemma_rgb_text_round_trip(colour: Rgb)
    ensures
        parsed_rgb(trimmed(rgb_text(colour))) == Ok::<Rgb, InvalidRgb>(colour),
{
    let t = rgb_text(colour);
    lemma_hex_round_trip(colour.b as int % 16);
    assert(t[0] == '#');
    assert(t.last() == hex_char(colour.b as int % 16));
    assert(is_hex_digit(t.last()));
    crate::text::lemma_trimmed_keeps(t);
    lemma_rgb_text_parses(colour);
}

/// The value of `c` as a hexadecimal digit, if it is one.
pub fn hex_digit(c: char) -> (n: Option<u8>)
    ensures
        n == (if is_hex_digit(c) {
            Some(hex_value(c) as u8)
        } else {
            None
        }),
        n matches Some(v) ==> v < 16,
{
    if '0' <= c && c <= '9' {
        Some((c as u32 - 48) as u8)
    } else if 'a' <= c && c <= 'f' {
        Some((c as u32 - 87) as u8)
    } else if 'A' <= c && c <= 'F' {
        Some((c as u32 - 55) as u8)
    } else {
        None
    }
}

/// The lower-case hexadecimal digit for `n`.
fn hex_digit_char(n: u8) -> (c: char)
    requires
        n < 16,
    ensures
        c == hex_char(n as int),
{
    if n < 10 {
        (48 + n) as char
    } else {
        (87 + n) as char
    }
}

/// Appends the two hexadecimal digits of `part`.
fn push_hex(text: &mut String, part: u8)
    ensures
        final(text)@ == old(text)@.push(hex_char(part as int / 16)).push(
            hex_char(part as int % 16),
        ),
{
    text.push(hex_digit_char(part / 16));
    text.push(hex_digit_char(part % 16));
}

impl Rgb {
    /// Reads a colour from `s`, which may have white space around it: a `#`
    /// followed by six hexadecimal digits, in either case.
    pub fn from_str(s: &str) -> (result: Result<Rgb, InvalidRgb>)
        ensures
            result == parsed_rgb(trimmed(s@)),
    {
        Rgb::from_trimmed(trim(s))
    }

    /// Reads a colour from `t`, which is taken as it is: a `#` followed by
    /// six hexadecimal digits, in either case. Without the `#` the text is
    /// refused for that; if what follows is not six bytes long, for its
    /// length; and if a character of it is no hexadecimal digit, for that.
    pub fn from_trimmed(t: &str) -> (result: Result<Rgb, InvalidRgb>)
        ensures
            result == parsed_rgb(t@),
    {
        let digits = match strip_prefix(t, '#') {
            Some(stripped) => stripped,
            None => {
                return Err(InvalidRgb::MissingLeadingHash);
            },
        };
        if digits.as_bytes().len() != 6 {
            return Err(InvalidRgb::InvalidLength);
        }
        let chars = chars_of(digits);
        let mut values: Vec<u8> = Vec::new();
        for i in 0..chars.len()
            invariant
                t@.len() > 0 && t@[0] == '#',
                digits@ == t@.skip(1),
                encode_utf8(digits@).len() == 6,
                chars@ == digits@,
                values@.len() == i,
                forall|j: int| 0 <= j < i ==> is_hex_digit(#[trigger] chars@[j]),
                forall|j: int| 0 <= j < i ==> values@[j] == hex_value(chars@[j]) && values@[j] < 16,
        {
            match hex_digit(chars[i]) {
                Some(v) => values.push(v),
                None => {
                    proof {
                        assert(!is_hex_digit(digits@[i as int]));
                        assert(!all_hex_digits(digits@));
                    }
                    return Err(InvalidRgb::InvalidHexDigit);
                },
            }
        }
        proof {
            assert(all_hex_digits(digits@));
            lemma_hex_digits_are_bytes(digits@);
        }
        Ok(
            Rgb {
                r: values[0] * 16 + values[1],
                g: values[2] * 16 + values[3],
                b: values[4] * 16 + values[5],
            },
        )
    }

    /// The colour as text: `#` and two lower-case hexadecimal digits for each
    /// part.
    pub fn to_string(&self) -> (text: String)
        ensures
            text@ == rgb_text(*self),
            parsed_rgb(text@) == Ok::<Rgb, InvalidRgb>(*self),
            parsed_rgb(trimmed(text@)) == Ok::<Rgb, InvalidRgb>(*self),
    {
        let mut text = String::new();
        text.push('#');
        push_hex(&mut text, self.r);
        push_hex(&mut text, self.g);
        push_hex(&mut text, self.b);
        proof {
            assert(text@ =~= rgb_text(*self));
            lemma_rgb_text_parses(*self);
            lemma_rgb_text_round_trip(*self);
        }
        text
    }
}

impl std::str::FromStr for Rgb {
    type Err = InvalidRgb;

    /// Reads a colour from `s` as [`Rgb::from_str`] does, so that `parse`
    /// gives the same colour, and refuses the same texts for the same reason.
    fn from_str(s: &str) -> (result: Result<Rgb, InvalidRgb>)
        ensures
            result == parsed_rgb(trimmed(s@)),
    {
        Rgb::from_str(s)
    }
}

} // verus!
