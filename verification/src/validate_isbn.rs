//! ISBN-13 numbers: thirteen digits, the last of which checks the others.

use crate::text::{chars_of, decimal_digit, digit_value, is_digit};
use vstd::prelude::*;
use vstd::utf8::{encode_utf8, is_ascii_chars};

verus! {

/// The number of digits in an ISBN-13, check digit included.
pub const ISBN_LENGTH: usize = 13;

/// Why a text is not an ISBN-13.
#[derive(Debug)]
pub enum InvalidIsbn {
    /// It holds more than thirteen digits.
    TooLong,
    /// It holds fewer than thirteen digits.
    TooShort,
    /// Its last digit is not the check digit of the twelve before it.
    FailedChecksum,
    /// It holds, at this place, this character, which is neither a digit nor
    /// a hyphen.
    InvalidCharacter(usize, char),
}

/// Whether `c` may stand in an ISBN: a digit, or a hyphen between groups.
pub open spec fn is_isbn_char(c: char) -> bool {
    c == '-' || is_digit(c)
}

/// The place of the first character of `s` that may not stand in an ISBN.
pub open spec fn first_invalid(s: Seq<char>) -> Option<int>
    decreases s.len(),
{
    if s.len() == 0 {
        None
    } else {
        match first_invalid(s.drop_last()) {
            Some(i) => Some(i),
            None => if is_isbn_char(s.last()) {
                None
            } else {
                Some(s.len() - 1)
            },
        }
    }
}

/// The digits of `s` in order, whatever stands between them.
pub open spec fn isbn_digits(s: Seq<char>) -> Seq<u8>
    decreases s.len(),
{
    if s.len() == 0 {
        Seq::empty()
    } else if is_digit(s.last()) {
        isbn_digits(s.drop_last()).push(digit_value(s.last()) as u8)
    } else {
        isbn_digits(s.drop_last())
    }
}

/// The weight of the digit at place `i`: 1 and 3 in turn.
pub open spec fn weight(i: int) -> int {
    if i % 2 == 0 {
        1
    } else {
        3
    }
}

/// The sum of the digits, each multiplied by its weight.
pub open spec fn weighted_sum(digits: Seq<u8>) -> int
    decreases digits.len(),
{
    if digits.len() == 0 {
        0
    } else {
        weighted_sum(digits.drop_last()) + weight(digits.len() - 1) * digits.last()
    }
}

/// The check digit of `digits`: what the weighted sum lacks to the next
/// multiple of ten.
pub open spec fn check_digit_of(digits: Seq<u8>) -> int {
    let remainder = weighted_sum(digits) % 10;
    if remainder == 0 {
        0
    } else {
        10 - remainder
    }
}

/// The digits of the ISBN-13 that `s` holds, or why it holds none.
pub open spec fn parsed_isbn(s: Seq<char>) -> Result<Seq<u8>, InvalidIsbn> {
    match first_invalid(s) {
        Some(i) => Err(InvalidIsbn::InvalidCharacter(i as usize, s[i])),
        None => {
            let digits = isbn_digits(s);
            if digits.len() > ISBN_LENGTH {
                Err(InvalidIsbn::TooLong)
            } else if digits.len() < ISBN_LENGTH {
                Err(InvalidIsbn::TooShort)
            } else if digits[12] != check_digit_of(digits.take(12)) {
                Err(InvalidIsbn::FailedChecksum)
            } else {
                Ok(digits)
            }
        },
    }
}

/// The first invalid character lies in the text, may not stand in an ISBN,
/// and everything before it may; where there is none, every character may.
pub proof fn lemma_first_invalid(s: Seq<char>)
    ensures
        match first_invalid(s) {
            Some(i) => {
                &&& 0 <= i < s.len()
                &&& !is_isbn_char(s[i])
                &&& forall|j: int| 0 <= j < i ==> is_isbn_char(s[j])
            },
            None => forall|j: int| 0 <= j < s.len() ==> is_isbn_char(s[j]),
        },
    decreases s.len(),
{
    if s.len() > 0 {
        lemma_first_invalid(s.drop_last());
        assert forall|j: int| 0 <= j < s.len() - 1 implies s[j] == s.drop_last()[j] by {}
    }
}

/// A sum of `n` weighted digits is at most `n` times the largest digit
/// times the largest weight.
proof fn lemma_weighted_sum_bound(digits: Seq<u8>)
    ensures
        0 <= weighted_sum(digits) <= 765 * digits.len(),
    decreases digits.len(),
{
    if digits.len() > 0 {
        lemma_weighted_sum_bound(digits.drop_last());
    }
}

/// Computes the check digit of the first twelve digits of an ISBN-13: the
/// digits are multiplied by 1 and 3 in turn and added up, and the check
/// digit is what the sum lacks to the next multiple of ten.
pub fn calculate_check_digit(digits: &[u8]) -> (check: u8)
    requires
        digits@.len() == 12,
    ensures
        check == check_digit_of(digits@),
        check <= 9,
{
    let mut sum: u32 = 0;
    for i in 0..12usize
        invariant
            digits@.len() == 12,
            sum == weighted_sum(digits@.take(i as int)),
            sum <= 765 * i,
    {
        let digit: u32 = digits[i] as u32;
        proof {
            assert(digits@.take(i + 1).drop_last() =~= digits@.take(i as int));
            assert(digits@.take(i + 1).last() == digits@[i as int]);
        }
        if i % 2 == 0 {
            sum = sum + digit;
        } else {
            sum = sum + digit * 3;
        }
    }
    proof {
        assert(digits@.take(12) =~= digits@);
    }
    let remainder: u8 = (sum % 10) as u8;
    if remainder == 0 {
        0
    } else {
        10 - remainder
    }
}

/// A valid ISBN-13, with the text it was read from.
pub struct Isbn {
    raw: String,
    digits: Vec<u8>,
}

impl Isbn {
    #[verifier::type_invariant]
    pub open spec fn valid(self) -> bool {
        parsed_isbn(self.text()) == Ok::<Seq<u8>, InvalidIsbn>(self.digit_seq())
    }

    /// The text the ISBN was read from.
    pub closed spec fn text(self) -> Seq<char> {
        self.raw@
    }

    /// The thirteen digits of the ISBN.
    pub closed spec fn digit_seq(self) -> Seq<u8> {
        self.digits@
    }

    /// Reads an ISBN-13 from `s`. Hyphens are passed over wherever they
    /// stand; any other character that is not a digit is refused, with its
    /// place in `s`. There must be thirteen digits, and the last must be the
    /// check digit of the others.
    ///
    /// The place of a refused character is the same whether characters or
    /// bytes are counted: every character before it takes one byte.
    pub fn from_str(s: &str) -> (result: Result<Isbn, InvalidIsbn>)
        ensures
            match result {
                Ok(isbn) => parsed_isbn(s@) == Ok::<Seq<u8>, InvalidIsbn>(isbn.digit_seq())
                    && isbn.text() == s@,
                Err(e) => parsed_isbn(s@) == Err::<Seq<u8>, InvalidIsbn>(e),
            },
            result matches Err(InvalidIsbn::InvalidCharacter(at, _)) ==> encode_utf8(
                s@.take(at as int),
            ).len() == at,
    {
        let chars = chars_of(s);
        let mut digits: Vec<u8> = Vec::with_capacity(13);
        for i in 0..chars.len()
            invariant
                chars@ == s@,
                first_invalid(s@.take(i as int)) is None,
                digits@ == isbn_digits(s@.take(i as int)),
        {
            let c = chars[i];
            proof {
                assert(s@.take(i + 1).drop_last() =~= s@.take(i as int));
                assert(s@.take(i + 1).last() == c);
            }
            if c != '-' {
                match decimal_digit(c) {
                    Some(d) => digits.push(d),
                    None => {
                        proof {
                            lemma_invalid_found(s@, i as int);
                            lemma_isbn_chars_are_bytes(s@.take(i as int));
                        }
                        return Err(InvalidIsbn::InvalidCharacter(i, c));
                    },
                }
            }
        }
        proof {
            assert(s@.take(s@.len() as int) =~= s@);
        }
        if digits.len() > 13 {
            return Err(InvalidIsbn::TooLong);
        }
        if digits.len() < 13 {
            return Err(InvalidIsbn::TooShort);
        }
        let check_digit = digits[12];
        let first_twelve = vstd::slice::slice_subrange(digits.as_slice(), 0, 12);
        proof {
            assert(first_twelve@ =~= digits@.take(12));
        }
        if check_digit != calculate_check_digit(first_twelve) {
            return Err(InvalidIsbn::FailedChecksum);
        }
        Ok(Isbn { digits, raw: s.to_owned() })
    }

    /// The text the ISBN was read from, hyphens and all.
    pub fn to_string(&self) -> (text: String)
        ensures
            text@ == self.text(),
    {
        self.raw.clone()
    }

    /// The thirteen digits of the ISBN.
    pub fn digits(&self) -> (digits: &Vec<u8>)
        ensures
            digits@ == self.digit_seq(),
            digits@.len() == ISBN_LENGTH,
    {
        proof {
            use_type_invariant(self);
        }
        &self.digits
    }
}

/// Text in which every character may stand in an ISBN takes one byte for
/// each character.
proof fn lemma_isbn_chars_are_bytes(s: Seq<char>)
    requires
        first_invalid(s) is None,
    ensures
        encode_utf8(s).len() == s.len(),
{
    lemma_first_invalid(s);
    assert(is_ascii_chars(s)) by {
        assert forall|i: int| 0 <= i < s.len() implies '\0' <= #[trigger] s[i] <= '\u{7f}' by {
            assert(is_isbn_char(s[i]));
        }
    }
    vstd::utf8::is_ascii_chars_encode_utf8(s);
}

/// Where the text up to place `i` is free of invalid characters and the
/// character at `i` is invalid, `i` is the place of the first invalid one.
proof fn lemma_invalid_found(s: Seq<char>, i: int)
    requires
        0 <= i < s.len(),
        first_invalid(s.take(i)) is None,
        !is_isbn_char(s[i]),
    ensures
        first_invalid(s) == Some(i),
    decreases s.len() - i,
{
    let upto = s.take(i + 1);
    assert(upto.drop_last() =~= s.take(i));
    assert(upto.last() == s[i]);
    assert(first_invalid(upto) == Some(i));
    lemma_first_invalid_stays(s, i + 1, i);
}

/// A first invalid character found in a beginning of the text is the first
/// of the whole text.
proof fn lemma_first_invalid_stays(s: Seq<char>, n: int, i: int)
    requires
        0 <= n <= s.len(),
        first_invalid(s.take(n)) == Some(i),
    ensures
        first_invalid(s) == Some(i),
    decreases s.len() - n,
{
    if n == s.len() {
        assert(s.take(n) =~= s);
    } else {
        assert(s.take(n + 1).drop_last() =~= s.take(n));
        lemma_first_invalid_stays(s, n + 1, i);
    }
}

impl std::str::FromStr for Isbn {
    type Err = InvalidIsbn;

    /// Reads an ISBN-13 from `s` as [`Isbn::from_str`] does, so that `parse`
    /// gives the same ISBN, and refuses the same texts for the same reason.
    fn from_str(s: &str) -> (result: Result<Isbn, InvalidIsbn>)
        ensures
            match result {
                Ok(isbn) => parsed_isbn(s@) == Ok::<Seq<u8>, InvalidIsbn>(isbn.digit_seq())
                    && isbn.text() == s@,
                Err(e) => parsed_isbn(s@) == Err::<Seq<u8>, InvalidIsbn>(e),
            },
            result matches Err(InvalidIsbn::InvalidCharacter(at, _)) ==> encode_utf8(
                s@.take(at as int),
            ).len() == at,
    {
        Isbn::from_str(s)
    }
}

} // verus!
