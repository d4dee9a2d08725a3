//! Run-length encoding of text: each run of up to nine equal characters
//! becomes its length, as one decimal digit, followed by the character.

use crate::text::{decimal_digit, digit_value, is_digit};
use vstd::prelude::*;
use vstd::std_specs::iter::IteratorSpec;

verus! {

/// The longest a single run may be: its length has to fit one digit.
pub const MAX_RUN: u8 = 9;

/// The decimal digit for `n`, which is below ten.
pub open spec fn digit_char(n: nat) -> char {
    ((48 + n) as u8) as char
}

/// The number of characters at the beginning of `s` that equal `c`, counted
/// up to `cap`.
pub open spec fn run_of(s: Seq<char>, c: char, cap: nat) -> nat
    decreases s.len(),
{
    if cap == 0 || s.len() == 0 || s[0] != c {
        0
    } else {
        1 + run_of(s.drop_first(), c, (cap - 1) as nat)
    }
}

/// `n` times the character `c`.
pub open spec fn repeated(c: char, n: nat) -> Seq<char> {
    Seq::new(n, |i: int| c)
}

/// The run-length encoding of `s`.
pub open spec fn encoding(s: Seq<char>) -> Seq<char>
    decreases s.len(),
{
    if s.len() == 0 {
        Seq::empty()
    } else {
        let n = run_of(s, s[0], MAX_RUN as nat);
        if 0 < n <= s.len() {
            seq![digit_char(n), s[0]] + encoding(s.skip(n as int))
        } else {
            Seq::empty()
        }
    }
}

/// The text that `t` encodes: each pair of a digit and a character stands
/// for that many copies of the character. Reading ends where a pair does not
/// begin with a digit, or is cut short.
pub open spec fn decoding(t: Seq<char>) -> Seq<char>
    decreases t.len(),
{
    if t.len() < 2 || !is_digit(t[0]) {
        Seq::empty()
    } else {
        repeated(t[1], digit_value(t[0])) + decoding(t.skip(2))
    }
}

/// A run is never longer than its cap nor than the text, and it consists of
/// the character it counts.
pub proof fn lemma_run_of_bounds(s: Seq<char>, c: char, cap: nat)
    ensures
        run_of(s, c, cap) <= cap,
        run_of(s, c, cap) <= s.len(),
        forall|i: int| 0 <= i < run_of(s, c, cap) ==> s[i] == c,
        s.len() > 0 && cap > 0 && s[0] == c ==> run_of(s, c, cap) >= 1,
    decreases s.len(),
{
    if !(cap == 0 || s.len() == 0 || s[0] != c) {
        let rest = s.drop_first();
        lemma_run_of_bounds(rest, c, (cap - 1) as nat);
        assert forall|i: int| 0 <= i < run_of(s, c, cap) implies s[i] == c by {
            if i > 0 {
                assert(rest[i - 1] == s[i]);
            }
        }
    }
}

/// A run that is cut off by the cap, by the end of the text or by another
/// character has exactly the length up to there.
pub proof fn lemma_run_of_exact(s: Seq<char>, c: char, cap: nat, k: nat)
    requires
        k <= cap,
        k <= s.len(),
        forall|i: int| 0 <= i < k ==> s[i] == c,
        k == cap || k == s.len() || s[k as int] != c,
    ensures
        run_of(s, c, cap) == k,
    decreases k,
{
    if k > 0 {
        let rest = s.drop_first();
        assert forall|i: int| 0 <= i < k - 1 implies rest[i] == c by {
            assert(rest[i] == s[i + 1]);
        }
        if k < s.len() {
            assert(rest[k - 1] == s[k as int]);
        }
        lemma_run_of_exact(rest, c, (cap - 1) as nat, (k - 1) as nat);
    }
}

/// Decoding undoes encoding: every text comes back from its encoding.
pub proof fn lemma_decoding_inverts_encoding(s: Seq<char>)
    ensures
        decoding(encoding(s)) == s,
    decreases s.len(),
{
    if s.len() == 0 {
        assert(decoding(encoding(s)) =~= s);
    } else {
        let n = run_of(s, s[0], MAX_RUN as nat);
        lemma_run_of_bounds(s, s[0], MAX_RUN as nat);
        let rest = s.skip(n as int);
        let t = encoding(s);
        lemma_decoding_inverts_encoding(rest);
        assert(t == seq![digit_char(n), s[0]] + encoding(rest));
        assert(t[0] == digit_char(n));
        assert(t[1] == s[0]);
        assert(is_digit(t[0]) && digit_value(t[0]) == n) by {
            lemma_digit_round_trip(n);
        }
        assert(t.skip(2) =~= encoding(rest));
        assert(repeated(s[0], n) + rest =~= s);
    }
}

/// A number below ten comes back from its decimal digit.
pub proof fn lemma_digit_round_trip(n: nat)
    requires
        n <= 9,
    ensures
        is_digit(digit_char(n)),
        digit_value(digit_char(n)) == n,
{
    assert(digit_char(n) as u32 == 48 + n);
    assert('0' as u32 == 48 && '9' as u32 == 57);
}

/// Appends the encoding of one run: its length as a digit, then its
/// character.
fn push_run(encoded: &mut String, count: u8, c: char)
    requires
        count <= MAX_RUN,
    ensures
        final(encoded)@ == old(encoded)@ + seq![digit_char(count as nat), c],
{
    let digit = (48 + count) as char;
    encoded.push(digit);
    encoded.push(c);
    assert(encoded@ =~= old(encoded)@ + seq![digit_char(count as nat), c]);
}

/// Encodes `text`: each run of equal characters, cut into pieces of at most
/// nine, is written as the length of the piece followed by the character.
pub fn encode(text: &str) -> (encoded: String)
    ensures
        encoded@ == encoding(text@),
        decoding(encoded@) == text@,
{
    let mut encoded = String::new();
    let mut count: u8 = 0;
    let mut prev: Option<char> = None;
    let ghost s = text@;
    proof {
        assert(s.skip(0) =~= s);
        assert(encoded@ + encoding(s) =~= encoding(s));
    }
    for c in it: text.chars()
        invariant
            it.seq() == s,
            count <= MAX_RUN,
            count as int <= it.index(),
            it.index() > 0 ==> count > 0 && prev is Some,
            it.index() == 0 ==> count == 0 && prev is None,
            forall|j: int| it.index() - count <= j < it.index() ==> prev == Some(s[j]),
            encoded@ + encoding(s.skip(it.index() - count)) == encoding(s),
    {
        let ghost begin = it.index() - count;
        let ghost i = it.index();
        if prev.is_none() {
            prev = Some(c);
        }
        if prev.unwrap() == c && count < 9 {
            count += 1;
        } else {
            proof {
                let run = s.skip(begin);
                assert(run[0] == s[begin]);
                assert forall|j: int| 0 <= j < count implies run[j] == prev.unwrap() by {
                    assert(run[j] == s[begin + j]);
                }
                assert(run[count as int] == s[i]);
                lemma_run_of_exact(run, prev.unwrap(), MAX_RUN as nat, count as nat);
                assert(run.skip(count as int) =~= s.skip(i));
                assert(encoded@ + (seq![digit_char(count as nat), prev.unwrap()] + encoding(
                    s.skip(i),
                )) =~= encoded@ + seq![digit_char(count as nat), prev.unwrap()] + encoding(
                    s.skip(i),
                ));
            }
            push_run(&mut encoded, count, prev.unwrap());
            prev = Some(c);
            count = 1;
        }
    }
    if prev.is_some() {
        proof {
            let begin = s.len() - count;
            let run = s.skip(begin);
            assert(run[0] == s[begin]);
            assert forall|j: int| 0 <= j < count implies run[j] == prev.unwrap() by {
                assert(run[j] == s[begin + j]);
            }
            lemma_run_of_exact(run, prev.unwrap(), MAX_RUN as nat, count as nat);
            assert(run.skip(count as int) =~= Seq::<char>::empty());
            assert(encoding(Seq::<char>::empty()) =~= Seq::<char>::empty());
            assert(encoded@ + (seq![digit_char(count as nat), prev.unwrap()] + Seq::<
                char,
            >::empty()) =~= encoded@ + seq![digit_char(count as nat), prev.unwrap()]);
        }
        push_run(&mut encoded, count, prev.unwrap());
    } else {
        proof {
            assert(s.skip(0) =~= s);
            assert(encoded@ + encoding(s) == encoding(s));
            assert(encoded@ =~= Seq::<char>::empty());
            assert(s.len() == 0);
        }
    }
    proof {
        lemma_decoding_inverts_encoding(s);
    }
    encoded
}

/// Decodes `text`: each digit is followed by the character that it repeats.
/// Reading ends at the first pair that does not begin with a digit, or that
/// the end of the text cuts short.
pub fn decode(text: &str) -> (decoded: String)
    ensures
        decoded@ == decoding(text@),
{
    let mut decoded = String::new();
    let mut chars = text.chars();
    let ghost s = text@;
    let ghost mut at: int = 0;
    proof {
        assert(s.skip(0) =~= s);
        assert(decoded@ + decoding(s) =~= decoding(s));
    }
    loop
        invariant_except_break
            0 <= at <= s.len(),
            chars.remaining() == s.skip(at),
            decoded@ + decoding(s.skip(at)) == decoding(s),
        ensures
            decoded@ == decoding(s),
        decreases s.len() - at,
    {
        let ghost rest = s.skip(at);
        let n = match chars.next() {
            Some(d) => decimal_digit(d),
            None => None,
        };
        let c = chars.next();
        match (n, c) {
            (Some(n), Some(c)) => {
                let ghost before = decoded@;
                for k in 0..n
                    invariant
                        decoded@ == before + repeated(c, k as nat),
                {
                    decoded.push(c);
                    proof {
                        assert(before + repeated(c, k as nat).push(c) =~= before + repeated(
                            c,
                            (k + 1) as nat,
                        ));
                    }
                }
                proof {
                    assert(rest.skip(2) =~= s.skip(at + 2));
                    assert(before + (repeated(c, n as nat) + decoding(rest.skip(2))) =~= before
                        + repeated(c, n as nat) + decoding(rest.skip(2)));
                    at = at + 2;
                }
            },
            _ => {
                proof {
                    assert(decoding(rest) =~= Seq::<char>::empty());
                    assert(decoded@ + Seq::<char>::empty() =~= decoded@);
                }
                break ;
            },
        }
    }
    decoded
}

} // verus!
