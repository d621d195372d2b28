//! Lines and tokens: how the bytes of a text file fall apart.

use vstd::prelude::*;
use vstd::slice::slice_subrange;

verus! {

/// Line feed, which ends a line.
pub open spec fn is_newline(c: u8) -> bool {
    c == '\n' as u8
}

/// ASCII white space: space, tab, line feed, form feed, carriage return.
pub open spec fn is_space(c: u8) -> bool {
    c == ' ' as u8 || c == '\t' as u8 || c == '\n' as u8 || c == '\x0c' as u8 || c == '\r' as u8
}

/// Neither line feed nor carriage return stands in the text, so that it
/// can be a line.
pub open spec fn is_plain(s: Seq<u8>) -> bool {
    forall|i: int| 0 <= i < s.len() ==> #[trigger] s[i] != '\n' as u8 && s[i] != '\r' as u8
}

/// Number of bytes before the first line feed, or all of them where there
/// is none.
pub open spec fn first_line_len(s: Seq<u8>) -> nat
    decreases s.len(),
{
    if s.len() == 0 || is_newline(s[0]) {
        0
    } else {
        1 + first_line_len(s.skip(1))
    }
}

/// A line as it was cut off before its line feed, less the carriage return
/// that may end it.
pub open spec fn without_carriage_return(line: Seq<u8>) -> Seq<u8> {
    if line.len() > 0 && line.last() == '\r' as u8 {
        line.drop_last()
    } else {
        line
    }
}

/// The lines of a text. A line ends with a line feed, or a carriage return
/// and a line feed, neither of which belongs to it; what follows the last
/// line feed is a line too, unless it is empty.
pub open spec fn split_lines(s: Seq<u8>) -> Seq<Seq<u8>>
    decreases s.len(),
{
    if s.len() == 0 {
        Seq::empty()
    } else {
        let n = first_line_len(s);
        if n < s.len() {
            seq![without_carriage_return(s.take(n as int))] + split_lines(s.skip(n as int + 1))
        } else {
            seq![s]
        }
    }
}

/// Number of bytes before the first white space, or all of them where
/// there is none.
pub open spec fn token_len(s: Seq<u8>) -> nat
    decreases s.len(),
{
    if s.len() == 0 || is_space(s[0]) {
        0
    } else {
        1 + token_len(s.skip(1))
    }
}

/// The tokens of a line: its maximal runs of bytes other than white space,
/// from left to right.
pub open spec fn tokens(s: Seq<u8>) -> Seq<Seq<u8>>
    decreases s.len(),
{
    if s.len() == 0 {
        Seq::empty()
    } else if is_space(s[0]) {
        tokens(s.skip(1))
    } else {
        proof {
            lemma_token_len_bound(s);
        }
        seq![s.take(token_len(s) as int)] + tokens(s.skip(token_len(s) as int))
    }
}

/// The byte strings behind a sequence of slices.
pub open spec fn slice_views(v: Seq<&[u8]>) -> Seq<Seq<u8>> {
    Seq::new(v.len(), |i: int| v[i]@)
}

/// A token is no longer than the text that it starts.
pub proof fn lemma_token_len_bound(s: Seq<u8>)
    ensures
        token_len(s) <= s.len(),
    decreases s.len(),
{
    if s.len() > 0 && !is_space(s[0]) {
        lemma_token_len_bound(s.skip(1));
    }
}

/// The first line feed of `s` is at `n`: no byte before it is one, and
/// either `s` ends there or a line feed stands there.
pub proof fn lemma_first_line_len(s: Seq<u8>, n: int)
    requires
        0 <= n <= s.len(),
        forall|j: int| 0 <= j < n ==> !is_newline(#[trigger] s[j]),
        n == s.len() || is_newline(s[n]),
    ensures
        first_line_len(s) == n,
    decreases n,
{
    if n > 0 {
        let t = s.skip(1);
        assert forall|j: int| 0 <= j < n - 1 implies !is_newline(#[trigger] t[j]) by {
            assert(t[j] == s[j + 1]);
        }
        lemma_first_line_len(t, n - 1);
    }
}

/// The first token of `s` ends at `n`: no byte before it is white space,
/// and either `s` ends there or white space stands there.
pub proof fn lemma_token_len(s: Seq<u8>, n: int)
    requires
        0 <= n <= s.len(),
        forall|j: int| 0 <= j < n ==> !is_space(#[trigger] s[j]),
        n == s.len() || is_space(s[n]),
    ensures
        token_len(s) == n,
    decreases n,
{
    if n > 0 {
        let t = s.skip(1);
        assert forall|j: int| 0 <= j < n - 1 implies !is_space(#[trigger] t[j]) by {
            assert(t[j] == s[j + 1]);
        }
        lemma_token_len(t, n - 1);
    }
}

/// Whether a byte is ASCII white space.
pub fn is_white_space(c: u8) -> (b: bool)
    ensures
        b == is_space(c),
{
    c == ' ' as u8 || c == '\t' as u8 || c == '\n' as u8 || c == '\x0c' as u8 || c == '\r' as u8
}

/// Takes the line that starts at `*pos` and moves `*pos` to the start of
/// the next one. `None`, and `*pos` as it was, where the text ends at
/// `*pos` or before it.
pub fn next_line<'a>(content: &'a [u8], pos: &mut usize) -> (r: Option<&'a [u8]>)
    ensures
        match r {
            None => *old(pos) >= content@.len() && *final(pos) == *old(pos),
            Some(line) => {
                let rest = split_lines(content@.skip(*old(pos) as int));
                &&& *old(pos) < *final(pos) <= content@.len()
                &&& rest.len() > 0
                &&& line@ == rest[0]
                &&& split_lines(content@.skip(*final(pos) as int)) == rest.skip(1)
            },
        },
{
    let n: usize = content.len();
    let start: usize = *pos;
    if start >= n {
        return None;
    }
    let ghost s = content@.skip(start as int);
    let mut end: usize = start;
    while end < n && content[end] != '\n' as u8
        invariant
            start <= end <= n,
            n == content@.len(),
            forall|j: int| start <= j < end ==> !is_newline(#[trigger] content@[j]),
        decreases n - end,
    {
        end += 1;
    }
    proof {
        assert forall|j: int| 0 <= j < end - start implies !is_newline(#[trigger] s[j]) by {
            assert(s[j] == content@[start + j]);
        }
        lemma_first_line_len(s, end - start);
        assert(s.take(end - start) =~= content@.subrange(start as int, end as int));
    }
    if end == n {
        *pos = n;
        let line = slice_subrange(content, start, end);
        proof {
            assert(line@ =~= s);
            assert(split_lines(content@.skip(n as int)) =~= Seq::<Seq<u8>>::empty());
            assert(split_lines(s).skip(1) =~= Seq::<Seq<u8>>::empty());
        }
        Some(line)
    } else {
        *pos = end + 1;
        let cut: usize = if end > start && content[end - 1] == '\r' as u8 {
            end - 1
        } else {
            end
        };
        let line = slice_subrange(content, start, cut);
        proof {
            assert(line@ =~= without_carriage_return(s.take(end - start)));
            assert(s.skip(end - start + 1) =~= content@.skip(end + 1));
            assert(split_lines(s).skip(1) =~= split_lines(s.skip(end - start + 1)));
        }
        Some(line)
    }
}

/// Cuts a line into its tokens.
pub fn split_tokens<'a>(line: &'a [u8]) -> (r: Vec<&'a [u8]>)
    ensures
        slice_views(r@) == tokens(line@),
{
    let n: usize = line.len();
    let mut out: Vec<&'a [u8]> = Vec::new();
    let mut pos: usize = 0;
    assert(line@.skip(0) =~= line@);
    assert(slice_views(out@) =~= Seq::<Seq<u8>>::empty());
    while pos < n
        invariant
            pos <= n,
            n == line@.len(),
            tokens(line@) == slice_views(out@) + tokens(line@.skip(pos as int)),
        decreases n - pos,
    {
        let ghost s = line@.skip(pos as int);
        assert(line@[pos as int] == s[0]);
        if is_white_space(line[pos]) {
            assert(s.skip(1) =~= line@.skip(pos + 1));
            pos += 1;
        } else {
            let start: usize = pos;
            let mut end: usize = pos + 1;
            while end < n && !is_white_space(line[end])
                invariant
                    start < end <= n,
                    n == line@.len(),
                    forall|j: int| start <= j < end ==> !is_space(#[trigger] line@[j]),
                decreases n - end,
            {
                end += 1;
            }
            let token = slice_subrange(line, start, end);
            proof {
                assert forall|j: int| 0 <= j < end - start implies !is_space(#[trigger] s[j]) by {
                    assert(s[j] == line@[start + j]);
                }
                lemma_token_len(s, end - start);
                assert(token@ =~= s.take(end - start));
                assert(s.skip(end - start) =~= line@.skip(end as int));
                assert(slice_views(out@.push(token)) =~= slice_views(out@) + seq![token@]);
                assert(tokens(line@) =~= slice_views(out@.push(token)) + tokens(
                    line@.skip(end as int),
                ));
            }
            out.push(token);
            pos = end;
        }
    }
    assert(tokens(line@.skip(n as int)) =~= Seq::<Seq<u8>>::empty());
    assert(slice_views(out@) =~= tokens(line@));
    out
}

} // verus!
