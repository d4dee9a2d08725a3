//! What the text utilities share: the characters of a string, and what they
//! need of `str` and `String` beyond what is specified for them.

use vstd::prelude::*;

verus! {

/// `String::push` appends the character to the end of the string and
/// leaves the rest of it as it was.
pub assume_specification[ String::push ](s: &mut String, ch: char)
    ensures
        final(s)@ == old(s)@.push(ch),
;

/// Whether `c` is white space: one of the twenty-five characters that have
/// the Unicode property `White_Space`.
pub open spec fn is_white_space(c: char) -> bool {
    ||| ('\u{9}' <= c && c <= '\u{d}')
    ||| c == ' '
    ||| c == '\u{85}'
    ||| c == '\u{a0}'
    ||| c == '\u{1680}'
    ||| ('\u{2000}' <= c && c <= '\u{200a}')
    ||| c == '\u{2028}'
    ||| c == '\u{2029}'
    ||| c == '\u{202f}'
    ||| c == '\u{205f}'
    ||| c == '\u{3000}'
}

/// `s` from its first character that is no white space.
pub open spec fn without_leading_white_space(s: Seq<char>) -> Seq<char>
    decreases s.len(),
{
    if s.len() > 0 && is_white_space(s[0]) {
        without_leading_white_space(s.drop_first())
    } else {
        s
    }
}

/// `s` up to its last character that is no white space.
pub open spec fn without_trailing_white_space(s: Seq<char>) -> Seq<char>
    decreases s.len(),
{
    if s.len() > 0 && is_white_space(s.last()) {
        without_trailing_white_space(s.drop_last())
    } else {
        s
    }
}

/// The text without the white space at its beginning and at its end.
pub open spec fn trimmed(s: Seq<char>) -> Seq<char> {
    without_trailing_white_space(without_leading_white_space(s))
}

/// A text that neither begins nor ends with white space is left as it is.
pub proof fn lemma_trimmed_keeps(s: Seq<char>)
    requires
        s.len() > 0 ==> !is_white_space(s[0]) && !is_white_space(s.last()),
    ensures
        trimmed(s) == s,
{
}

/// What is left of a text neither begins nor ends with white space, and
/// nothing but white space was taken away: the text is some white space,
/// what is left, and some white space again.
pub proof fn lemma_trimmed_is_the_middle(s: Seq<char>)
    ensures
        trimmed(s).len() > 0 ==> !is_white_space(trimmed(s)[0]) && !is_white_space(
            trimmed(s).last(),
        ),
        exists|before: Seq<char>, after: Seq<char>|
            #![trigger before + trimmed(s) + after]
            s == before + trimmed(s) + after && (forall|i: int|
                0 <= i < before.len() ==> is_white_space(#[trigger] before[i])) && (forall|i: int|
                0 <= i < after.len() ==> is_white_space(#[trigger] after[i])),
{
    let front = without_leading_white_space(s);
    let middle = trimmed(s);
    lemma_leading_white_space(s);
    lemma_trailing_white_space(front);
    let before = choose|before: Seq<char>|
        s == before + front && (forall|i: int|
            0 <= i < before.len() ==> is_white_space(#[trigger] before[i]));
    let after = choose|after: Seq<char>|
        front == middle + after && (forall|i: int|
            0 <= i < after.len() ==> is_white_space(#[trigger] after[i]));
    assert(s =~= before + middle + after);
    if middle.len() > 0 {
        assert(middle[0] == front[0]);
    }
}

/// What stands before the first character that is no white space is white
/// space, and what follows does not begin with white space.
proof fn lemma_leading_white_space(s: Seq<char>)
    ensures
        without_leading_white_space(s).len() > 0 ==> !is_white_space(
            without_leading_white_space(s)[0],
        ),
        exists|before: Seq<char>|
            s == before + without_leading_white_space(s) && (forall|i: int|
                0 <= i < before.len() ==> is_white_space(#[trigger] before[i])),
    decreases s.len(),
{
    let rest = without_leading_white_space(s);
    if s.len() > 0 && is_white_space(s[0]) {
        lemma_leading_white_space(s.drop_first());
        let inner = choose|before: Seq<char>|
            s.drop_first() == before + rest && (forall|i: int|
                0 <= i < before.len() ==> is_white_space(#[trigger] before[i]));
        let before = seq![s[0]] + inner;
        assert(s =~= before + rest) by {
            assert(s =~= seq![s[0]] + s.drop_first());
        }
        assert forall|i: int| 0 <= i < before.len() implies is_white_space(
            #[trigger] before[i],
        ) by {
            if i > 0 {
                assert(before[i] == inner[i - 1]);
            }
        }
    } else {
        let before = Seq::<char>::empty();
        assert(s =~= before + rest);
    }
}

/// What stands behind the last character that is no white space is white
/// space, and what precedes does not end with white space.
proof fn lemma_trailing_white_space(s: Seq<char>)
    ensures
        without_trailing_white_space(s).len() > 0 ==> !is_white_space(
            without_trailing_white_space(s).last(),
        ),
        without_trailing_white_space(s).len() > 0 ==> without_trailing_white_space(s)[0] == s[0],
        exists|after: Seq<char>|
            s == without_trailing_white_space(s) + after && (forall|i: int|
                0 <= i < after.len() ==> is_white_space(#[trigger] after[i])),
    decreases s.len(),
{
    let rest = without_trailing_white_space(s);
    if s.len() > 0 && is_white_space(s.last()) {
        lemma_trailing_white_space(s.drop_last());
        let inner = choose|after: Seq<char>|
            s.drop_last() == rest + after && (forall|i: int|
                0 <= i < after.len() ==> is_white_space(#[trigger] after[i]));
        let after = inner.push(s.last());
        assert(s =~= rest + after) by {
            assert(s =~= s.drop_last().push(s.last()));
        }
        assert forall|i: int| 0 <= i < after.len() implies is_white_space(
            #[trigger] after[i],
        ) by {
            if i < inner.len() {
                assert(after[i] == inner[i]);
            }
        }
        if rest.len() > 0 {
            assert(s.drop_last()[0] == s[0]);
        }
    } else {
        let after = Seq::<char>::empty();
        assert(s =~= rest + after);
    }
}

/// `str::trim` returns the slice of `s` that is left when the white space at
/// its beginning and at its end is taken away, white space being the
/// characters with the Unicode property `White_Space`.
#[verifier::external_body]
pub(crate) fn trim(s: &str) -> (t: &str)
    ensures
        t@ == trimmed(s@),
{
    s.trim()
}

/// `str::strip_prefix` with a character as the pattern: where `s` begins
/// with `prefix`, the rest of `s` behind it; otherwise `None`.
#[verifier::external_body]
pub(crate) fn strip_prefix(s: &str, prefix: char) -> (rest: Option<&str>)
    ensures
        match rest {
            Some(rest) => s@.len() > 0 && s@[0] == prefix && rest@ == s@.skip(1),
            None => s@.len() == 0 || s@[0] != prefix,
        },
{
    s.strip_prefix(prefix)
}

/// What `str::to_lowercase` makes of a text: its lower-case equivalent, by
/// the Unicode rules for lower case.
pub uninterp spec fn lowercase_of(s: Seq<char>) -> Seq<char>;

/// `str::to_lowercase` returns, as a new `String`, the text that
/// [`lowercase_of`] names.
#[verifier::external_body]
pub(crate) fn to_lowercase(s: &str) -> (lower: String)
    ensures
        lower@ == lowercase_of(s@),
{
    s.to_lowercase()
}

/// The texts of a list of strings.
pub open spec fn texts(list: Seq<String>) -> Seq<Seq<char>> {
    list.map_values(|s: String| s@)
}

/// Whether `c` is one of `'0'` to `'9'`.
pub open spec fn is_digit(c: char) -> bool {
    '0' <= c && c <= '9'
}

/// The number that the decimal digit `c` stands for.
pub open spec fn digit_value(c: char) -> nat {
    (c as u32 - 48) as nat
}

/// The value of `c` as a decimal digit, if it is one.
pub fn decimal_digit(c: char) -> (n: Option<u8>)
    ensures
        n == (if is_digit(c) {
            Some(digit_value(c) as u8)
        } else {
            None
        }),
        n matches Some(d) ==> d <= 9,
{
    if '0' <= c && c <= '9' {
        Some((c as u32 - 48) as u8)
    } else {
        None
    }
}

/// The characters of `s`, one by one.
pub fn chars_of(s: &str) -> (chars: Vec<char>)
    ensures
        chars@ == s@,
{
    let mut chars: Vec<char> = Vec::new();
    for c in it: s.chars()
        invariant
            it.seq() == s@,
            chars@ == s@.take(it.index()),
    {
        chars.push(c);
        proof {
            assert(s@.take(it.index()).push(c) =~= s@.take(it.index() + 1));
        }
    }
    proof {
        assert(s@.take(s@.len() as int) =~= s@);
    }
    chars
}

} // verus!
