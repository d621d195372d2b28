//! Reading a problem file, strictly.

use vstd::prelude::*;
use vstd::slice::slice_to_vec;
use crate::decimal::{is_digit, parse_unsigned, parse_unsigned_spec};
use crate::format::{
    parse_digits,
    parse_numbers,
    parse_parameters,
    parse_row,
    parse_rows,
    prepend_rows,
    read_problem,
    token_values,
    ReadError,
    RowStyle,
};
use crate::laws::lemma_read_problem_well_formed;
use crate::parameters::InputParameters;
use crate::problem::{rows_view, Problem, ProblemView};
use crate::score::check_float_token;
use crate::text::{next_line, slice_views, split_lines, split_tokens};

verus! {

/// Reads each token as an unsigned 32-bit integer.
fn read_token_values(t: &Vec<&[u8]>) -> (r: Option<Vec<u32>>)
    ensures
        match token_values(slice_views(t@)) {
            Some(v) => r is Some && r.unwrap()@ == v,
            None => r is None,
        },
{
    let ghost views = slice_views(t@);
    let mut out: Vec<u32> = Vec::new();
    let mut i: usize = 0;
    while i < t.len()
        invariant
            i <= t@.len(),
            views == slice_views(t@),
            out@.len() == i,
            forall|j: int|
                0 <= j < i ==> parse_unsigned_spec(#[trigger] views[j], u32::MAX as nat) == Some(
                    out@[j] as nat,
                ),
        decreases t@.len() - i,
    {
        let token: &[u8] = t[i];
        assert(token@ == views[i as int]);
        match parse_unsigned(token, u32::MAX as u64) {
            None => {
                return None;
            },
            Some(v) => {
                out.push(v as u32);
            },
        }
        i += 1;
    }
    assert(out@ =~= token_values(views).unwrap());
    Some(out)
}

/// Reads the first line.
fn read_parameters(line: &[u8]) -> (r: Result<InputParameters, ReadError>)
    ensures
        r == parse_parameters(line@),
{
    let t = split_tokens(line);
    assert(slice_views(t@).len() == t@.len());
    if t.len() != 4 {
        return Err(ReadError::WrongParameterCount);
    }
    match read_token_values(&t) {
        None => Err(ReadError::InvalidParameter),
        Some(v) => {
            let p = InputParameters::new_from_primitives(v[0], v[1], v[2], v[3]);
            if p.is_valid() {
                Ok(p)
            } else {
                Err(ReadError::ParametersOutOfRange)
            }
        },
    }
}

/// Reads the line of an optimum over `width` variables.
fn read_digits(line: &[u8], width: u32) -> (r: Result<Vec<u32>, ReadError>)
    ensures
        match r {
            Ok(row) => parse_digits(line@, width as nat) == Ok::<Seq<u32>, ReadError>(row@),
            Err(e) => parse_digits(line@, width as nat) == Err::<Seq<u32>, ReadError>(e),
        },
{
    let n: usize = width as usize;
    let mut out: Vec<u32> = Vec::new();
    let mut j: usize = 0;
    while j < n
        invariant
            j <= n,
            n == width,
            j <= line@.len(),
            out@.len() == j,
            forall|t: int| 0 <= t < j ==> is_digit(#[trigger] line@[t]),
            forall|t: int| 0 <= t < j ==> out@[t] == (line@[t] - '0' as u8) as u32,
        decreases n - j,
    {
        if j >= line.len() {
            return Err(ReadError::OptimumTooShort);
        }
        let c: u8 = line[j];
        if c < '0' as u8 || c > '9' as u8 {
            assert(!is_digit(line@[j as int]));
            return Err(ReadError::InvalidOptimumDigit);
        }
        out.push((c - '0' as u8) as u32);
        j += 1;
    }
    if line.len() > n {
        return Err(ReadError::OptimumTooLong);
    }
    assert(out@ =~= Seq::new(width as nat, |j: int| (line@[j] - '0' as u8) as u32));
    Ok(out)
}

/// Reads the line of a clique of `width` variables.
fn read_numbers(line: &[u8], width: u32) -> (r: Result<Vec<u32>, ReadError>)
    ensures
        match r {
            Ok(row) => parse_numbers(line@, width as nat) == Ok::<Seq<u32>, ReadError>(row@),
            Err(e) => parse_numbers(line@, width as nat) == Err::<Seq<u32>, ReadError>(e),
        },
{
    let t = split_tokens(line);
    assert(slice_views(t@).len() == t@.len());
    if t.len() != width as usize {
        return Err(ReadError::WrongCliqueLength);
    }
    match read_token_values(&t) {
        None => Err(ReadError::InvalidCliqueIndex),
        Some(v) => Ok(v),
    }
}

/// Reads `count` rows from `*pos` on, one from each line, and leaves
/// `*pos` behind the last of them.
fn read_rows(content: &[u8], pos: &mut usize, style: RowStyle, width: u32, count: usize) -> (r:
    Result<Vec<Vec<u32>>, ReadError>)
    requires
        *old(pos) <= content@.len(),
    ensures
        *final(pos) <= content@.len(),
        ({
            let lines = split_lines(content@.skip(*old(pos) as int));
            match r {
                Ok(rows) => {
                    &&& parse_rows(style, width as nat, lines, count as nat) == Ok::<
                        Seq<Seq<u32>>,
                        ReadError,
                    >(rows_view(rows@))
                    &&& count <= lines.len()
                    &&& split_lines(content@.skip(*final(pos) as int)) == lines.skip(count as int)
                },
                Err(e) => parse_rows(style, width as nat, lines, count as nat) == Err::<
                    Seq<Seq<u32>>,
                    ReadError,
                >(e),
            }
        }),
{
    let ghost start = *pos;
    let ghost lines = split_lines(content@.skip(start as int));
    let mut out: Vec<Vec<u32>> = Vec::new();
    let mut i: usize = 0;
    assert(lines.skip(0) =~= lines);
    assert(rows_view(out@) =~= Seq::<Seq<u32>>::empty());
    assert(prepend_rows(rows_view(out@), parse_rows(style, width as nat, lines, count as nat))
        == parse_rows(style, width as nat, lines, count as nat)) by {
        match parse_rows(style, width as nat, lines, count as nat) {
            Ok(rows) => {
                assert(rows_view(out@) + rows =~= rows);
            },
            Err(e) => {},
        }
    }
    while i < count
        invariant
            i <= count,
            *pos <= content@.len(),
            start == *old(pos),
            lines == split_lines(content@.skip(start as int)),
            i <= lines.len(),
            split_lines(content@.skip(*pos as int)) == lines.skip(i as int),
            parse_rows(style, width as nat, lines, count as nat) == prepend_rows(
                rows_view(out@),
                parse_rows(style, width as nat, lines.skip(i as int), (count - i) as nat),
            ),
        decreases count - i,
    {
        let ghost rest = lines.skip(i as int);
        let ghost before = rows_view(out@);
        match next_line(content, pos) {
            None => {
                return Err(
                    match style {
                        RowStyle::Digits => ReadError::MissingOptimum,
                        RowStyle::Numbers => ReadError::MissingClique,
                    },
                );
            },
            Some(line) => {
                let row = match style {
                    RowStyle::Digits => read_digits(line, width),
                    RowStyle::Numbers => read_numbers(line, width),
                };
                match row {
                    Err(e) => {
                        return Err(e);
                    },
                    Ok(row) => {
                        proof {
                            assert(rest.skip(1) =~= lines.skip(i + 1));
                            assert(parse_row(style, width as nat, rest[0]) == Ok::<
                                Seq<u32>,
                                ReadError,
                            >(row@));
                            let tail = parse_rows(
                                style,
                                width as nat,
                                lines.skip(i + 1),
                                (count - i - 1) as nat,
                            );
                            assert(rows_view(out@.push(row)) =~= before.push(row@));
                            match tail {
                                Ok(rows) => {
                                    assert(before + (seq![row@] + rows) =~= before.push(row@)
                                        + rows);
                                },
                                Err(e) => {},
                            }
                        }
                        out.push(row);
                    },
                }
            },
        }
        i += 1;
    }
    proof {
        assert(rows_view(out@) + Seq::<Seq<u32>>::empty() =~= rows_view(out@));
    }
    Ok(out)
}

/// Reads a problem from the text of a problem file.
///
/// The text is read from the top, and the first thing that is wrong with it
/// is the error. Lines behind the last clique are not looked at.
pub fn read_problem_from_file(content: &[u8]) -> (r: Result<Problem, ReadError>)
    ensures
        match r {
            Ok(p) => read_problem(content@) == Ok::<ProblemView, ReadError>(p@) && p@.well_formed(),
            Err(e) => read_problem(content@) == Err::<ProblemView, ReadError>(e),
        },
{
    let ghost lines = split_lines(content@);
    let mut pos: usize = 0;
    assert(content@.skip(0) =~= content@);
    let first = match next_line(content, &mut pos) {
        None => {
            return Err(ReadError::EmptyFile);
        },
        Some(line) => line,
    };
    let input_parameters = match read_parameters(first) {
        Err(e) => {
            return Err(e);
        },
        Ok(p) => p,
    };
    let second = match next_line(content, &mut pos) {
        None => {
            return Err(ReadError::MissingScore);
        },
        Some(line) => line,
    };
    assert(second@ == lines[1]);
    assert(lines.skip(1).skip(1) =~= lines.skip(2));
    if !check_float_token(second) {
        return Err(ReadError::InvalidScore);
    }
    let third = match next_line(content, &mut pos) {
        None => {
            return Err(ReadError::MissingOptimaCount);
        },
        Some(line) => line,
    };
    assert(third@ == lines[2]);
    assert(lines.skip(2).skip(1) =~= lines.skip(3));
    let count: usize = match parse_unsigned(third, usize::MAX as u64) {
        None => {
            return Err(ReadError::InvalidOptimaCount);
        },
        Some(n) => n as usize,
    };
    let size: u32 = input_parameters.problem_size();
    let glob_optima_strings = match read_rows(content, &mut pos, RowStyle::Digits, size, count) {
        Err(e) => {
            return Err(e);
        },
        Ok(rows) => rows,
    };
    assert(lines.skip(3).skip(count as int) =~= lines.skip(3 + count));
    let cliques = match read_rows(
        content,
        &mut pos,
        RowStyle::Numbers,
        input_parameters.k,
        input_parameters.m as usize,
    ) {
        Err(e) => {
            return Err(e);
        },
        Ok(rows) => rows,
    };
    let problem = Problem {
        input_parameters,
        glob_optima_score: slice_to_vec(second),
        glob_optima_strings,
        cliques,
    };
    proof {
        assert(read_problem(content@) == Ok::<ProblemView, ReadError>(problem@));
        lemma_read_problem_well_formed(content@);
    }
    Ok(problem)
}

} // verus!
