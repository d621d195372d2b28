//! The problem file, line by line: what its text is for a given problem,
//! and what a given text means.
//!
//! A problem file holds, in this order: one line with `m k o b`; one line
//! with the score of the global optima; one line with their number; one
//! line for each optimum, a digit for each variable; one line for each
//! clique, its variable indices with single spaces between them.

use vstd::prelude::*;
use crate::decimal::{decimal, is_digit, parse_unsigned_spec};
use crate::parameters::InputParameters;
use crate::problem::ProblemView;
use crate::score::is_float_token;
use crate::text::{split_lines, tokens};

verus! {

/// Why a text is no problem file.
#[derive(Clone, Copy, Debug, PartialEq, Eq, Structural)]
pub enum ReadError {
    /// There is no line at all.
    EmptyFile,
    /// The first line does not hold four tokens.
    WrongParameterCount,
    /// A token of the first line is no unsigned 32-bit integer.
    InvalidParameter,
    /// The parameters describe no landscape: no clique, an overlap larger
    /// than a clique, or more variables than 32 bits can count.
    ParametersOutOfRange,
    /// There is no second line.
    MissingScore,
    /// The second line is no floating-point number.
    InvalidScore,
    /// There is no third line.
    MissingOptimaCount,
    /// The third line is no unsigned integer of the machine's word size.
    InvalidOptimaCount,
    /// The text ends before all optima were read.
    MissingOptimum,
    /// An optimum has fewer digits than there are variables.
    OptimumTooShort,
    /// An optimum has more bytes than there are variables.
    OptimumTooLong,
    /// An optimum holds a byte that is no digit.
    InvalidOptimumDigit,
    /// The text ends before all cliques were read.
    MissingClique,
    /// A clique line does not hold `k` tokens.
    WrongCliqueLength,
    /// A token of a clique line is no unsigned 32-bit integer.
    InvalidCliqueIndex,
}

impl ReadError {
    /// The words that name what was expected and not found.
    pub open spec fn spec_message(self) -> Seq<char> {
        match self {
            ReadError::EmptyFile => "Empty problem file"@,
            ReadError::WrongParameterCount => "not enough input parameters on first line of input file"@,
            ReadError::InvalidParameter => "input parameter is not an unsigned 32-bit integer"@,
            ReadError::ParametersOutOfRange => "input parameters describe no landscape"@,
            ReadError::MissingScore => "No global optimum score in problem file"@,
            ReadError::InvalidScore => "global optimum score is not a number"@,
            ReadError::MissingOptimaCount => "No number_of_global_optima line in problem file"@,
            ReadError::InvalidOptimaCount => "number_of_global_optima is not an unsigned integer"@,
            ReadError::MissingOptimum => "Not enough global optima strings in problem file"@,
            ReadError::OptimumTooShort => "global optimum in problem file does not contain enough bits"@,
            ReadError::OptimumTooLong => "global optimum in problem file contains too many bits"@,
            ReadError::InvalidOptimumDigit => "Could not convert global optimum bit from char to u32"@,
            ReadError::MissingClique => "Not enough cliques in problem file"@,
            ReadError::WrongCliqueLength => "not enough variable indices in clique indices"@,
            ReadError::InvalidCliqueIndex => "variable index is not an unsigned 32-bit integer"@,
        }
    }

    /// The words for the error, to show to whoever asked for the file.
    pub fn message(&self) -> (s: &'static str)
        ensures
            s@ == self.spec_message(),
    {
        match self {
            ReadError::EmptyFile => "Empty problem file",
            ReadError::WrongParameterCount => "not enough input parameters on first line of input file",
            ReadError::InvalidParameter => "input parameter is not an unsigned 32-bit integer",
            ReadError::ParametersOutOfRange => "input parameters describe no landscape",
            ReadError::MissingScore => "No global optimum score in problem file",
            ReadError::InvalidScore => "global optimum score is not a number",
            ReadError::MissingOptimaCount => "No number_of_global_optima line in problem file",
            ReadError::InvalidOptimaCount => "number_of_global_optima is not an unsigned integer",
            ReadError::MissingOptimum => "Not enough global optima strings in problem file",
            ReadError::OptimumTooShort => "global optimum in problem file does not contain enough bits",
            ReadError::OptimumTooLong => "global optimum in problem file contains too many bits",
            ReadError::InvalidOptimumDigit => "Could not convert global optimum bit from char to u32",
            ReadError::MissingClique => "Not enough cliques in problem file",
            ReadError::WrongCliqueLength => "not enough variable indices in clique indices",
            ReadError::InvalidCliqueIndex => "variable index is not an unsigned 32-bit integer",
        }
    }
}

/// How the numbers of a row stand on its line.
#[derive(Clone, Copy, Debug, PartialEq, Eq, Structural)]
pub enum RowStyle {
    /// One after another with nothing between them: an optimum.
    Digits,
    /// With single spaces between them: a clique.
    Numbers,
}

/// Decimal forms with single spaces between them.
pub open spec fn join_decimals(values: Seq<u32>) -> Seq<u8>
    decreases values.len(),
{
    if values.len() == 0 {
        Seq::empty()
    } else if values.len() == 1 {
        decimal(values[0] as nat)
    } else {
        decimal(values[0] as nat) + seq![' ' as u8] + join_decimals(values.skip(1))
    }
}

/// Decimal forms with nothing between them.
pub open spec fn concat_decimals(values: Seq<u32>) -> Seq<u8>
    decreases values.len(),
{
    if values.len() == 0 {
        Seq::empty()
    } else {
        decimal(values[0] as nat) + concat_decimals(values.skip(1))
    }
}

/// The line of a row.
pub open spec fn render_row(style: RowStyle, row: Seq<u32>) -> Seq<u8> {
    match style {
        RowStyle::Digits => concat_decimals(row),
        RowStyle::Numbers => join_decimals(row),
    }
}

/// The lines of some rows, each ended by a line feed.
pub open spec fn render_rows(style: RowStyle, rows: Seq<Seq<u32>>) -> Seq<u8>
    decreases rows.len(),
{
    if rows.len() == 0 {
        Seq::empty()
    } else {
        render_row(style, rows[0]) + seq!['\n' as u8] + render_rows(style, rows.skip(1))
    }
}

/// The four parameters as they stand on the first line.
pub open spec fn parameter_values(p: InputParameters) -> Seq<u32> {
    seq![p.m, p.k, p.o, p.b]
}

/// The text of a problem file.
pub open spec fn render_problem(p: ProblemView) -> Seq<u8> {
    join_decimals(parameter_values(p.input_parameters)) + seq!['\n' as u8] + p.glob_optima_score
        + seq!['\n' as u8] + decimal(p.glob_optima_strings.len()) + seq!['\n' as u8] + render_rows(
        RowStyle::Digits,
        p.glob_optima_strings,
    ) + render_rows(RowStyle::Numbers, p.cliques)
}

/// The numbers that some tokens denote, where each of them is an unsigned
/// 32-bit integer.
pub open spec fn token_values(t: Seq<Seq<u8>>) -> Option<Seq<u32>> {
    if forall|i: int| 0 <= i < t.len() ==> parse_unsigned_spec(#[trigger] t[i], u32::MAX as nat)
        is Some {
        Some(Seq::new(t.len(), |i: int| parse_unsigned_spec(t[i], u32::MAX as nat).unwrap() as u32))
    } else {
        None
    }
}

/// What the first line means.
pub open spec fn parse_parameters(line: Seq<u8>) -> Result<InputParameters, ReadError> {
    let t = tokens(line);
    if t.len() != 4 {
        Err(ReadError::WrongParameterCount)
    } else {
        match token_values(t) {
            None => Err(ReadError::InvalidParameter),
            Some(v) => {
                let p = InputParameters { m: v[0], k: v[1], o: v[2], b: v[3] };
                if p.valid() {
                    Ok(p)
                } else {
                    Err(ReadError::ParametersOutOfRange)
                }
            },
        }
    }
}

/// What the line of an optimum over `width` variables means: exactly
/// `width` bytes, each a digit.
pub open spec fn parse_digits(line: Seq<u8>, width: nat) -> Result<Seq<u32>, ReadError> {
    if exists|j: int| 0 <= j < line.len() && j < width && !is_digit(#[trigger] line[j]) {
        Err(ReadError::InvalidOptimumDigit)
    } else if line.len() < width {
        Err(ReadError::OptimumTooShort)
    } else if line.len() > width {
        Err(ReadError::OptimumTooLong)
    } else {
        Ok(Seq::new(width, |j: int| (line[j] - '0' as u8) as u32))
    }
}

/// What the line of a clique of `width` variables means: exactly `width`
/// tokens, each an unsigned 32-bit integer.
pub open spec fn parse_numbers(line: Seq<u8>, width: nat) -> Result<Seq<u32>, ReadError> {
    let t = tokens(line);
    if t.len() != width {
        Err(ReadError::WrongCliqueLength)
    } else {
        match token_values(t) {
            None => Err(ReadError::InvalidCliqueIndex),
            Some(v) => Ok(v),
        }
    }
}

/// What the line of a row means.
pub open spec fn parse_row(style: RowStyle, width: nat, line: Seq<u8>) -> Result<
    Seq<u32>,
    ReadError,
> {
    match style {
        RowStyle::Digits => parse_digits(line, width),
        RowStyle::Numbers => parse_numbers(line, width),
    }
}

/// The error for a row whose line is not there.
pub open spec fn missing_row(style: RowStyle) -> ReadError {
    match style {
        RowStyle::Digits => ReadError::MissingOptimum,
        RowStyle::Numbers => ReadError::MissingClique,
    }
}

/// What the first `count` of some lines mean as rows: the rows, or the
/// error of the first line that is missing or is no row.
pub open spec fn parse_rows(style: RowStyle, width: nat, lines: Seq<Seq<u8>>, count: nat) -> Result<
    Seq<Seq<u32>>,
    ReadError,
>
    decreases count,
{
    if count == 0 {
        Ok(Seq::empty())
    } else if lines.len() == 0 {
        Err(missing_row(style))
    } else {
        match parse_row(style, width, lines[0]) {
            Err(e) => Err(e),
            Ok(row) => prepend_rows(
                seq![row],
                parse_rows(style, width, lines.skip(1), (count - 1) as nat),
            ),
        }
    }
}

/// The rows that were read before, then those of `r`; the error of `r`
/// where it is one.
pub open spec fn prepend_rows(before: Seq<Seq<u32>>, r: Result<Seq<Seq<u32>>, ReadError>) -> Result<
    Seq<Seq<u32>>,
    ReadError,
> {
    match r {
        Ok(rows) => Ok(before + rows),
        Err(e) => Err(e),
    }
}

/// What the lines of a problem file mean: the problem, or the first thing
/// that is wrong with them, going from the top.
pub open spec fn parse_problem(lines: Seq<Seq<u8>>) -> Result<ProblemView, ReadError> {
    if lines.len() < 1 {
        Err(ReadError::EmptyFile)
    } else {
        match parse_parameters(lines[0]) {
            Err(e) => Err(e),
            Ok(p) => if lines.len() < 2 {
                Err(ReadError::MissingScore)
            } else if !is_float_token(lines[1]) {
                Err(ReadError::InvalidScore)
            } else if lines.len() < 3 {
                Err(ReadError::MissingOptimaCount)
            } else {
                match parse_unsigned_spec(lines[2], usize::MAX as nat) {
                    None => Err(ReadError::InvalidOptimaCount),
                    Some(count) => match parse_rows(
                        RowStyle::Digits,
                        p.spec_problem_size() as nat,
                        lines.skip(3),
                        count,
                    ) {
                        Err(e) => Err(e),
                        Ok(optima) => match parse_rows(
                            RowStyle::Numbers,
                            p.k as nat,
                            lines.skip(3 + count as int),
                            p.m as nat,
                        ) {
                            Err(e) => Err(e),
                            Ok(cliques) => Ok(
                                ProblemView {
                                    input_parameters: p,
                                    glob_optima_score: lines[1],
                                    glob_optima_strings: optima,
                                    cliques,
                                },
                            ),
                        },
                    },
                }
            },
        }
    }
}

/// What the text of a problem file means.
pub open spec fn read_problem(content: Seq<u8>) -> Result<ProblemView, ReadError> {
    parse_problem(split_lines(content))
}

} // verus!
