//! The score of the global optima, kept as the decimal text that stands in
//! a problem file.
//!
//! A score is a floating-point number. It is held here as its text, and this
//! module says which texts are numbers: an optional sign, then `inf`,
//! `infinity` or `nan` in either case, or digits with at most one point and
//! an optional exponent.

use vstd::prelude::*;
use crate::decimal::{all_digits, is_digit};
use crate::text::is_plain;

verus! {

/// `+` or `-`.
pub open spec fn is_sign(c: u8) -> bool {
    c == '+' as u8 || c == '-' as u8
}

/// The text less one leading sign.
pub open spec fn without_sign(s: Seq<u8>) -> Seq<u8> {
    if s.len() > 0 && is_sign(s[0]) {
        s.skip(1)
    } else {
        s
    }
}

/// An ASCII letter in lower case; any other byte unchanged.
pub open spec fn lower(c: u8) -> u8 {
    if c >= 'A' as u8 && c <= 'Z' as u8 {
        (c - 'A' as u8 + 'a' as u8) as u8
    } else {
        c
    }
}

/// The text with its ASCII letters in lower case.
pub open spec fn lowered(s: Seq<u8>) -> Seq<u8> {
    Seq::new(s.len(), |i: int| lower(s[i]))
}

/// The word `inf`.
pub open spec fn inf_word() -> Seq<u8> {
    seq!['i' as u8, 'n' as u8, 'f' as u8]
}

/// The word `infinity`.
pub open spec fn infinity_word() -> Seq<u8> {
    seq!['i' as u8, 'n' as u8, 'f' as u8, 'i' as u8, 'n' as u8, 'i' as u8, 't' as u8, 'y' as u8]
}

/// The word `nan`.
pub open spec fn nan_word() -> Seq<u8> {
    seq!['n' as u8, 'a' as u8, 'n' as u8]
}

/// `inf`, `infinity` or `nan`, in either case.
pub open spec fn is_special(s: Seq<u8>) -> bool {
    ||| lowered(s) == inf_word()
    ||| lowered(s) == infinity_word()
    ||| lowered(s) == nan_word()
}

/// Number of digits that `s` starts with.
pub open spec fn leading_digits(s: Seq<u8>) -> nat
    decreases s.len(),
{
    if s.len() == 0 || !is_digit(s[0]) {
        0
    } else {
        1 + leading_digits(s.skip(1))
    }
}

/// An exponent: `e` or `E`, an optional sign, one or more digits.
pub open spec fn is_exponent(s: Seq<u8>) -> bool {
    &&& s.len() > 0
    &&& lower(s[0]) == 'e' as u8
    &&& without_sign(s.skip(1)).len() > 0
    &&& all_digits(without_sign(s.skip(1)))
}

/// An unsigned number: digits, with at most one point among them, before
/// or behind it at least one digit, and then an optional exponent.
pub open spec fn is_number(s: Seq<u8>) -> bool {
    let whole = leading_digits(s);
    let behind = s.skip(whole as int);
    if behind.len() > 0 && behind[0] == '.' as u8 {
        let fraction = leading_digits(behind.skip(1));
        let rest = behind.skip(1 + fraction as int);
        whole + fraction >= 1 && (rest.len() == 0 || is_exponent(rest))
    } else {
        whole >= 1 && (behind.len() == 0 || is_exponent(behind))
    }
}

/// The text of a floating-point number.
pub open spec fn is_float_token(s: Seq<u8>) -> bool {
    is_special(without_sign(s)) || is_number(without_sign(s))
}

/// `s` starts with exactly `n` digits.
pub proof fn lemma_leading_digits(s: Seq<u8>, n: int)
    requires
        0 <= n <= s.len(),
        forall|j: int| 0 <= j < n ==> is_digit(#[trigger] s[j]),
        n == s.len() || !is_digit(s[n]),
    ensures
        leading_digits(s) == n,
    decreases n,
{
    if n > 0 {
        let t = s.skip(1);
        assert forall|j: int| 0 <= j < n - 1 implies is_digit(#[trigger] t[j]) by {
            assert(t[j] == s[j + 1]);
        }
        lemma_leading_digits(t, n - 1);
    }
}

/// The digits that `s` starts with are digits, and they end where `s`
/// ends or at a byte that is none.
pub proof fn lemma_leading_digits_are_digits(s: Seq<u8>)
    ensures
        leading_digits(s) <= s.len(),
        forall|j: int| 0 <= j < leading_digits(s) ==> is_digit(#[trigger] s[j]),
        leading_digits(s) == s.len() || !is_digit(s[leading_digits(s) as int]),
    decreases s.len(),
{
    if s.len() == 0 || !is_digit(s[0]) {
    } else {
        let t = s.skip(1);
        lemma_leading_digits_are_digits(t);
        assert forall|j: int| 0 <= j < leading_digits(s) implies is_digit(#[trigger] s[j]) by {
            if j > 0 {
                assert(s[j] == t[j - 1]);
            }
        }
        if leading_digits(s) < s.len() {
            assert(s[leading_digits(s) as int] == t[leading_digits(t) as int]);
        }
    }
}

proof fn lemma_exponent_plain(s: Seq<u8>)
    requires
        is_exponent(s),
    ensures
        is_plain(s),
{
    let t = s.skip(1);
    let d = without_sign(t);
    assert forall|i: int| 0 <= i < s.len() implies #[trigger] s[i] != '\n' as u8 && s[i]
        != '\r' as u8 by {
        if i > 0 {
            assert(s[i] == t[i - 1]);
            if d.len() < t.len() {
                if i > 1 {
                    assert(t[i - 1] == d[i - 2]);
                    assert(is_digit(d[i - 2]));
                }
            } else {
                assert(is_digit(d[i - 1]));
            }
        }
    }
}

proof fn lemma_number_plain(s: Seq<u8>)
    requires
        is_number(s),
    ensures
        s.len() > 0,
        is_plain(s),
{
    let whole = leading_digits(s);
    lemma_leading_digits_are_digits(s);
    let behind = s.skip(whole as int);
    if behind.len() > 0 && behind[0] == '.' as u8 {
        let after_point = behind.skip(1);
        let fraction = leading_digits(after_point);
        lemma_leading_digits_are_digits(after_point);
        let rest = behind.skip(1 + fraction as int);
        if rest.len() > 0 {
            lemma_exponent_plain(rest);
        }
        assert forall|i: int| 0 <= i < s.len() implies #[trigger] s[i] != '\n' as u8 && s[i]
            != '\r' as u8 by {
            if i < whole {
                assert(is_digit(s[i]));
            } else if i == whole {
                assert(s[i] == behind[0]);
            } else if i < whole + 1 + fraction {
                assert(s[i] == after_point[i - whole - 1]);
                assert(is_digit(after_point[i - whole - 1]));
            } else {
                assert(s[i] == rest[i - whole - 1 - fraction]);
            }
        }
    } else {
        if behind.len() > 0 {
            lemma_exponent_plain(behind);
        }
        assert forall|i: int| 0 <= i < s.len() implies #[trigger] s[i] != '\n' as u8 && s[i]
            != '\r' as u8 by {
            if i < whole {
                assert(is_digit(s[i]));
            } else {
                assert(s[i] == behind[i - whole]);
            }
        }
    }
}

/// A float token is not empty and holds neither line feed nor carriage
/// return, so it can stand on a line of its own.
pub proof fn lemma_float_token_plain(s: Seq<u8>)
    requires
        is_float_token(s),
    ensures
        s.len() > 0,
        is_plain(s),
{
    let body = without_sign(s);
    if is_special(body) {
        let l = lowered(body);
        assert(body.len() == l.len());
        assert forall|i: int| 0 <= i < body.len() implies #[trigger] body[i] != '\n' as u8
            && body[i] != '\r' as u8 by {
            assert(l[i] == lower(body[i]));
        }
    } else {
        lemma_number_plain(body);
    }
    assert forall|i: int| 0 <= i < s.len() implies #[trigger] s[i] != '\n' as u8 && s[i]
        != '\r' as u8 by {
        if body.len() < s.len() {
            if i > 0 {
                assert(s[i] == body[i - 1]);
            }
        }
    }
}

/// Counts the digits that stand at `from` and behind it.
fn count_digits(s: &[u8], from: usize) -> (n: usize)
    requires
        from <= s@.len(),
    ensures
        from + n <= s@.len(),
        n == leading_digits(s@.skip(from as int)),
{
    let len: usize = s.len();
    let mut end: usize = from;
    while end < len && s[end] >= '0' as u8 && s[end] <= '9' as u8
        invariant
            from <= end <= len,
            len == s@.len(),
            forall|j: int| from <= j < end ==> is_digit(#[trigger] s@[j]),
        decreases len - end,
    {
        end += 1;
    }
    proof {
        let t = s@.skip(from as int);
        assert forall|j: int| 0 <= j < end - from implies is_digit(#[trigger] t[j]) by {
            assert(t[j] == s@[from + j]);
        }
        lemma_leading_digits(t, end - from);
    }
    end - from
}

fn lower_byte(c: u8) -> (r: u8)
    ensures
        r == lower(c),
{
    if c >= 'A' as u8 && c <= 'Z' as u8 {
        c - 'A' as u8 + 'a' as u8
    } else {
        c
    }
}

/// Whether what stands at `from` and behind it is `word`, in either case.
fn spells(s: &[u8], from: usize, word: &Vec<u8>) -> (b: bool)
    requires
        from <= s@.len(),
    ensures
        b == (lowered(s@.skip(from as int)) == word@),
{
    let ghost l = lowered(s@.skip(from as int));
    let len: usize = s.len();
    if len - from != word.len() {
        return false;
    }
    let mut i: usize = 0;
    while i < word.len()
        invariant
            i <= word@.len(),
            len == s@.len(),
            from + word@.len() == len,
            l == lowered(s@.skip(from as int)),
            forall|j: int| 0 <= j < i ==> l[j] == word@[j],
        decreases word@.len() - i,
    {
        assert(l[i as int] == lower(s@[from + i]));
        if lower_byte(s[from + i]) != word[i] {
            return false;
        }
        i += 1;
    }
    assert(l =~= word@);
    true
}

/// Whether `inf`, `infinity` or `nan` stands at `from` and ends the text.
fn check_special(s: &[u8], from: usize) -> (b: bool)
    requires
        from <= s@.len(),
    ensures
        b == is_special(s@.skip(from as int)),
{
    let inf: Vec<u8> = vec!['i' as u8, 'n' as u8, 'f' as u8];
    let infinity: Vec<u8> = vec![
        'i' as u8,
        'n' as u8,
        'f' as u8,
        'i' as u8,
        'n' as u8,
        'i' as u8,
        't' as u8,
        'y' as u8,
    ];
    let nan: Vec<u8> = vec!['n' as u8, 'a' as u8, 'n' as u8];
    assert(inf@ =~= inf_word());
    assert(infinity@ =~= infinity_word());
    assert(nan@ =~= nan_word());
    spells(s, from, &inf) || spells(s, from, &infinity) || spells(s, from, &nan)
}

/// Whether an exponent stands at `from` and ends the text.
fn check_exponent(s: &[u8], from: usize) -> (b: bool)
    requires
        from < s@.len(),
    ensures
        b == is_exponent(s@.skip(from as int)),
{
    let len: usize = s.len();
    let ghost e = s@.skip(from as int);
    assert(e[0] == s@[from as int]);
    if lower_byte(s[from]) != 'e' as u8 {
        return false;
    }
    let mut at: usize = from + 1;
    assert(e.skip(1) =~= s@.skip(at as int));
    if at < len && (s[at] == '+' as u8 || s[at] == '-' as u8) {
        assert(s@.skip(at as int)[0] == s@[at as int]);
        assert(s@.skip(at as int).skip(1) =~= s@.skip(at + 1));
        at += 1;
    } else {
        if at < len {
            assert(s@.skip(at as int)[0] == s@[at as int]);
        }
    }
    let ghost d = s@.skip(at as int);
    assert(d == without_sign(e.skip(1)));
    let n: usize = count_digits(s, at);
    proof {
        lemma_leading_digits_are_digits(d);
        if all_digits(d) {
            lemma_leading_digits(d, d.len() as int);
        }
    }
    n > 0 && at + n == len
}

/// Whether an unsigned number stands at `from` and ends the text.
fn check_number(s: &[u8], from: usize) -> (b: bool)
    requires
        from <= s@.len(),
    ensures
        b == is_number(s@.skip(from as int)),
{
    let len: usize = s.len();
    let ghost t = s@.skip(from as int);
    let whole: usize = count_digits(s, from);
    let at: usize = from + whole;
    let ghost behind = t.skip(whole as int);
    assert(behind =~= s@.skip(at as int));
    if at < len && s[at] == '.' as u8 {
        assert(behind[0] == s@[at as int]);
        assert(behind.skip(1) =~= s@.skip(at + 1));
        let fraction: usize = count_digits(s, at + 1);
        let rest: usize = at + 1 + fraction;
        assert(behind.skip(1 + fraction) =~= s@.skip(rest as int));
        if whole == 0 && fraction == 0 {
            return false;
        }
        if rest == len {
            true
        } else {
            check_exponent(s, rest)
        }
    } else {
        if at < len {
            assert(behind[0] == s@[at as int]);
        }
        if whole == 0 {
            return false;
        }
        if at == len {
            true
        } else {
            check_exponent(s, at)
        }
    }
}

/// Whether a text is that of a floating-point number.
pub fn check_float_token(s: &[u8]) -> (b: bool)
    ensures
        b == is_float_token(s@),
{
    let from: usize = if s.len() > 0 && (s[0] == '+' as u8 || s[0] == '-' as u8) {
        1
    } else {
        0
    };
    assert(without_sign(s@) =~= s@.skip(from as int));
    check_special(s, from) || check_number(s, from)
}

} // verus!
