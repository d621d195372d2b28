//! Unsigned integers as decimal text: how they are written and how a token
//! is read back.

use vstd::prelude::*;

verus! {

/// An ASCII digit, `0` to `9`.
pub open spec fn is_digit(c: u8) -> bool {
    c >= '0' as u8 && c <= '9' as u8
}

/// Every byte is an ASCII digit.
pub open spec fn all_digits(s: Seq<u8>) -> bool {
    forall|i: int| 0 <= i < s.len() ==> is_digit(#[trigger] s[i])
}

/// The number that a string of digits denotes, most significant digit first.
pub open spec fn digits_value(s: Seq<u8>) -> nat
    decreases s.len(),
{
    if s.len() == 0 {
        0
    } else {
        digits_value(s.drop_last()) * 10 + (s.last() - '0' as u8) as nat
    }
}

/// The decimal digits of `n`, without leading zeros.
pub open spec fn decimal(n: nat) -> Seq<u8>
    decreases n,
{
    if n < 10 {
        seq![('0' as u8 + n) as u8]
    } else {
        decimal(n / 10).push(('0' as u8 + n % 10) as u8)
    }
}

/// The digits of an unsigned token: the token itself, less one leading `+`.
pub open spec fn unsigned_digits(token: Seq<u8>) -> Seq<u8> {
    if token.len() > 0 && token[0] == '+' as u8 {
        token.skip(1)
    } else {
        token
    }
}

/// What a token denotes as an unsigned integer no larger than `max`: an
/// optional `+`, then one or more digits and nothing else. `None` for any
/// other token and for a number above `max`.
pub open spec fn parse_unsigned_spec(token: Seq<u8>, max: nat) -> Option<nat> {
    let d = unsigned_digits(token);
    if d.len() > 0 && all_digits(d) && digits_value(d) <= max {
        Some(digits_value(d))
    } else {
        None
    }
}

/// A longer string of digits denotes no smaller a number than its prefix.
pub proof fn lemma_digits_value_prefix(s: Seq<u8>, n: int)
    requires
        all_digits(s),
        0 <= n <= s.len(),
    ensures
        digits_value(s.take(n)) <= digits_value(s),
    decreases s.len() - n,
{
    if n < s.len() {
        lemma_digits_value_prefix(s, n + 1);
        assert(s.take(n + 1).drop_last() =~= s.take(n));
    } else {
        assert(s.take(n) =~= s);
    }
}

/// The decimal form of a number is a non-empty string of digits that
/// denotes the number.
pub proof fn lemma_decimal_value(n: nat)
    ensures
        decimal(n).len() >= 1,
        all_digits(decimal(n)),
        digits_value(decimal(n)) == n,
    decreases n,
{
    let s = decimal(n);
    if n < 10 {
        assert(s.drop_last() =~= Seq::<u8>::empty());
        assert(digits_value(s.drop_last()) == 0);
    } else {
        lemma_decimal_value(n / 10);
        assert(s.drop_last() =~= decimal(n / 10));
    }
}

/// Reading back what was written gives the number, whenever it is within
/// the bound.
pub proof fn lemma_parse_decimal(n: nat, max: nat)
    requires
        n <= max,
    ensures
        parse_unsigned_spec(decimal(n), max) == Some(n),
{
    lemma_decimal_value(n);
    assert(is_digit(decimal(n)[0]));
}

/// Appends the decimal digits of `n` to `out`.
pub fn push_decimal(out: &mut Vec<u8>, n: u64)
    ensures
        final(out)@ == old(out)@ + decimal(n as nat),
    decreases n,
{
    if n >= 10 {
        push_decimal(out, n / 10);
    }
    let digit: u8 = (n % 10) as u8;
    out.push('0' as u8 + digit);
    assert(out@ =~= old(out)@ + decimal(n as nat));
}

/// Reads a token as an unsigned decimal integer no larger than `max`.
pub fn parse_unsigned(token: &[u8], max: u64) -> (r: Option<u64>)
    ensures
        match parse_unsigned_spec(token@, max as nat) {
            Some(v) => r == Some(v as u64),
            None => r is None,
        },
{
    let n: usize = token.len();
    let start: usize = if n > 0 && token[0] == '+' as u8 {
        1
    } else {
        0
    };
    if start == n {
        return None;
    }
    let ghost d = unsigned_digits(token@);
    assert(d =~= token@.skip(start as int));
    let mut value: u64 = 0;
    let mut i: usize = start;
    assert(d.take(0) =~= Seq::<u8>::empty());
    while i < n
        invariant
            start <= i <= n,
            n == token@.len(),
            d == token@.skip(start as int),
            d == unsigned_digits(token@),
            all_digits(d.take(i - start)),
            value == digits_value(d.take(i - start)),
            value <= max,
        decreases n - i,
    {
        let c: u8 = token[i];
        assert(c == d[i - start]);
        if c < '0' as u8 || c > '9' as u8 {
            assert(!is_digit(d[i - start]));
            return None;
        }
        let digit: u64 = (c - '0' as u8) as u64;
        assert(d.take(i + 1 - start).drop_last() =~= d.take(i - start));
        assert(all_digits(d.take(i + 1 - start))) by {
            assert forall|j: int| 0 <= j < i + 1 - start implies is_digit(
                #[trigger] d.take(i + 1 - start)[j],
            ) by {
                if j < i - start {
                    assert(d.take(i + 1 - start)[j] == d.take(i - start)[j]);
                }
            }
        }
        if digit > max || value > (max - digit) / 10 {
            proof {
                if all_digits(d) {
                    lemma_digits_value_prefix(d, i + 1 - start);
                }
            }
            return None;
        }
        value = value * 10 + digit;
        i += 1;
    }
    assert(d.take(n - start) =~= d);
    Some(value)
}

} // verus!
