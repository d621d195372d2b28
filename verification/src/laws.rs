//! What holds of the problem file: a problem that was read is well formed,
//! a line of the wrong length is never read, and what was written is read
//! back unchanged.

use vstd::prelude::*;
use crate::decimal::{
    decimal,
    is_digit,
    lemma_decimal_value,
    lemma_parse_decimal,
    parse_unsigned_spec,
};
use crate::format::{
    concat_decimals,
    join_decimals,
    parameter_values,
    parse_digits,
    parse_parameters,
    parse_problem,
    parse_row,
    parse_rows,
    read_problem,
    render_problem,
    render_row,
    render_rows,
    token_values,
    ReadError,
    RowStyle,
};
use crate::parameters::InputParameters;
use crate::problem::{is_optimum, ProblemView};
use crate::score::lemma_float_token_plain;
use crate::text::{
    is_newline,
    is_plain,
    is_space,
    lemma_first_line_len,
    lemma_token_len,
    split_lines,
    tokens,
};

verus! {

/// The decimal forms of some numbers.
pub open spec fn decimals(values: Seq<u32>) -> Seq<Seq<u8>> {
    Seq::new(values.len(), |i: int| decimal(values[i] as nat))
}

/// A row has the shape that its style and width ask for: an optimum holds
/// `width` digits, a clique `width` indices.
pub open spec fn row_fits(style: RowStyle, width: nat, row: Seq<u32>) -> bool {
    match style {
        RowStyle::Digits => is_optimum(row, width as int),
        RowStyle::Numbers => row.len() == width,
    }
}

/// A plain text that is followed by a line feed is the first line, and the
/// lines behind it are those of the rest.
pub proof fn lemma_split_first_line(line: Seq<u8>, rest: Seq<u8>)
    requires
        is_plain(line),
    ensures
        split_lines(line + seq!['\n' as u8] + rest) == seq![line] + split_lines(rest),
{
    let s = line + seq!['\n' as u8] + rest;
    let n = line.len() as int;
    assert forall|j: int| 0 <= j < n implies !is_newline(#[trigger] s[j]) by {
        assert(s[j] == line[j]);
    }
    assert(s[n] == '\n' as u8);
    lemma_first_line_len(s, n);
    assert(s.take(n) =~= line);
    assert(s.skip(n + 1) =~= rest);
    if n > 0 {
        assert(line.last() == line[n - 1]);
    }
}

/// A run of bytes other than white space, with white space or nothing
/// behind it, is the first token.
pub proof fn lemma_tokens_first(token: Seq<u8>, rest: Seq<u8>)
    requires
        token.len() > 0,
        forall|i: int| 0 <= i < token.len() ==> !is_space(#[trigger] token[i]),
        rest.len() == 0 || is_space(rest[0]),
    ensures
        tokens(token + rest) == seq![token] + tokens(rest),
{
    let s = token + rest;
    let n = token.len() as int;
    assert forall|j: int| 0 <= j < n implies !is_space(#[trigger] s[j]) by {
        assert(s[j] == token[j]);
    }
    if rest.len() > 0 {
        assert(s[n] == rest[0]);
    }
    assert(s[0] == token[0]);
    lemma_token_len(s, n);
    assert(s.take(n) =~= token);
    assert(s.skip(n) =~= rest);
}

/// The decimal form of a number is a run of digits.
pub proof fn lemma_decimal_digits(n: nat)
    ensures
        decimal(n).len() > 0,
        forall|i: int| 0 <= i < decimal(n).len() ==> is_digit(#[trigger] decimal(n)[i]),
{
    lemma_decimal_value(n);
}

/// The tokens of a spaced line are the decimal forms of its numbers.
pub proof fn lemma_tokens_join_decimals(values: Seq<u32>)
    ensures
        tokens(join_decimals(values)) == decimals(values),
    decreases values.len(),
{
    let line = join_decimals(values);
    if values.len() == 0 {
        assert(tokens(line) =~= decimals(values));
    } else {
        let first = decimal(values[0] as nat);
        lemma_decimal_digits(values[0] as nat);
        assert forall|i: int| 0 <= i < first.len() implies !is_space(#[trigger] first[i]) by {
            assert(is_digit(first[i]));
        }
        if values.len() == 1 {
            let nothing = Seq::<u8>::empty();
            lemma_tokens_first(first, nothing);
            assert(first + nothing =~= first);
            assert(tokens(nothing) =~= Seq::<Seq<u8>>::empty());
            assert(tokens(line) =~= decimals(values));
        } else {
            let tail = values.skip(1);
            let rest = seq![' ' as u8] + join_decimals(tail);
            assert(line =~= first + rest);
            assert(rest[0] == ' ' as u8);
            lemma_tokens_first(first, rest);
            assert(rest.skip(1) =~= join_decimals(tail));
            assert(tokens(rest) == tokens(join_decimals(tail)));
            lemma_tokens_join_decimals(tail);
            assert(tokens(line) =~= decimals(values)) by {
                assert(tokens(line).len() == values.len());
                assert forall|i: int| 0 <= i < values.len() implies tokens(line)[i] == decimals(
                    values,
                )[i] by {
                    if i > 0 {
                        assert(tokens(line)[i] == decimals(tail)[i - 1]);
                        assert(tail[i - 1] == values[i]);
                    }
                }
            }
        }
    }
}

/// The decimal forms of 32-bit numbers denote these numbers.
pub proof fn lemma_token_values_decimals(values: Seq<u32>)
    ensures
        token_values(decimals(values)) == Some(values),
{
    let t = decimals(values);
    assert forall|i: int| 0 <= i < t.len() implies parse_unsigned_spec(
        #[trigger] t[i],
        u32::MAX as nat,
    ) == Some(values[i] as nat) by {
        lemma_parse_decimal(values[i] as nat, u32::MAX as nat);
    }
    assert(token_values(t).unwrap() =~= values);
}

/// A spaced line holds digits and spaces only.
pub proof fn lemma_join_decimals_plain(values: Seq<u32>)
    ensures
        is_plain(join_decimals(values)),
    decreases values.len(),
{
    let line = join_decimals(values);
    if values.len() == 0 {
    } else {
        let first = decimal(values[0] as nat);
        lemma_decimal_digits(values[0] as nat);
        if values.len() == 1 {
            assert forall|i: int| 0 <= i < line.len() implies #[trigger] line[i] != '\n' as u8
                && line[i] != '\r' as u8 by {
                assert(is_digit(first[i]));
            }
        } else {
            let tail = join_decimals(values.skip(1));
            lemma_join_decimals_plain(values.skip(1));
            assert forall|i: int| 0 <= i < line.len() implies #[trigger] line[i] != '\n' as u8
                && line[i] != '\r' as u8 by {
                if i < first.len() {
                    assert(line[i] == first[i]);
                    assert(is_digit(first[i]));
                } else if i == first.len() {
                    assert(line[i] == ' ' as u8);
                } else {
                    assert(line[i] == tail[i - first.len() - 1]);
                }
            }
        }
    }
}

/// A line of numbers without spaces holds digits only.
pub proof fn lemma_concat_decimals_plain(values: Seq<u32>)
    ensures
        is_plain(concat_decimals(values)),
    decreases values.len(),
{
    let line = concat_decimals(values);
    if values.len() == 0 {
    } else {
        let first = decimal(values[0] as nat);
        lemma_decimal_digits(values[0] as nat);
        let tail = concat_decimals(values.skip(1));
        lemma_concat_decimals_plain(values.skip(1));
        assert forall|i: int| 0 <= i < line.len() implies #[trigger] line[i] != '\n' as u8
            && line[i] != '\r' as u8 by {
            if i < first.len() {
                assert(line[i] == first[i]);
                assert(is_digit(first[i]));
            } else {
                assert(line[i] == tail[i - first.len()]);
            }
        }
    }
}

/// The line of an optimum holds one digit for each of its entries.
pub proof fn lemma_concat_digits(row: Seq<u32>)
    requires
        forall|j: int| 0 <= j < row.len() ==> #[trigger] row[j] <= 9,
    ensures
        concat_decimals(row) == Seq::new(row.len(), |j: int| ('0' as u8 + row[j]) as u8),
    decreases row.len(),
{
    let line = concat_decimals(row);
    let digits = Seq::new(row.len(), |j: int| ('0' as u8 + row[j]) as u8);
    if row.len() == 0 {
        assert(line =~= digits);
    } else {
        let tail = row.skip(1);
        assert forall|j: int| 0 <= j < tail.len() implies #[trigger] tail[j] <= 9 by {
            assert(tail[j] == row[j + 1]);
        }
        lemma_concat_digits(tail);
        assert(row[0] <= 9);
        assert(decimal(row[0] as nat) =~= seq![('0' as u8 + row[0]) as u8]);
        assert(line =~= digits) by {
            assert(line.len() == digits.len());
            assert forall|j: int| 0 <= j < line.len() implies line[j] == digits[j] by {
                if j > 0 {
                    assert(line[j] == concat_decimals(tail)[j - 1]);
                    assert(tail[j - 1] == row[j]);
                }
            }
        }
    }
}

/// The line of a row is plain text.
pub proof fn lemma_render_row_plain(style: RowStyle, row: Seq<u32>)
    ensures
        is_plain(render_row(style, row)),
{
    match style {
        RowStyle::Digits => lemma_concat_decimals_plain(row),
        RowStyle::Numbers => lemma_join_decimals_plain(row),
    }
}

/// Reading the line of a row that fits gives the row.
pub proof fn lemma_parse_rendered_row(style: RowStyle, width: nat, row: Seq<u32>)
    requires
        row_fits(style, width, row),
    ensures
        parse_row(style, width, render_row(style, row)) == Ok::<Seq<u32>, ReadError>(row),
{
    match style {
        RowStyle::Digits => {
            lemma_concat_digits(row);
            let line = concat_decimals(row);
            assert forall|j: int| 0 <= j < line.len() implies is_digit(#[trigger] line[j]) by {
                assert(row[j] <= 9);
            }
            assert(Seq::new(width, |j: int| (line[j] - '0' as u8) as u32) =~= row) by {
                assert forall|j: int| 0 <= j < width implies (line[j] - '0' as u8) as u32
                    == row[j] by {
                    assert(row[j] <= 9);
                }
            }
        },
        RowStyle::Numbers => {
            lemma_tokens_join_decimals(row);
            lemma_token_values_decimals(row);
        },
    }
}

/// Rows that were written one line each, with any text behind them, are
/// read back as they were, and the lines behind them are those of that
/// text.
pub proof fn lemma_rendered_rows(style: RowStyle, width: nat, rows: Seq<Seq<u32>>, behind: Seq<u8>)
    requires
        forall|i: int| 0 <= i < rows.len() ==> row_fits(style, width, #[trigger] rows[i]),
    ensures
        ({
            let lines = split_lines(render_rows(style, rows) + behind);
            &&& rows.len() <= lines.len()
            &&& parse_rows(style, width, lines, rows.len()) == Ok::<Seq<Seq<u32>>, ReadError>(rows)
            &&& lines.skip(rows.len() as int) == split_lines(behind)
        }),
    decreases rows.len(),
{
    let text = render_rows(style, rows) + behind;
    let lines = split_lines(text);
    if rows.len() == 0 {
        assert(text =~= behind);
        assert(lines.skip(0) =~= lines);
        assert(rows =~= Seq::<Seq<u32>>::empty());
    } else {
        let line = render_row(style, rows[0]);
        let tail = rows.skip(1);
        let rest = render_rows(style, tail) + behind;
        assert(text =~= line + seq!['\n' as u8] + rest);
        lemma_render_row_plain(style, rows[0]);
        lemma_split_first_line(line, rest);
        assert forall|i: int| 0 <= i < tail.len() implies row_fits(
            style,
            width,
            #[trigger] tail[i],
        ) by {
            assert(tail[i] == rows[i + 1]);
        }
        lemma_rendered_rows(style, width, tail, behind);
        lemma_parse_rendered_row(style, width, rows[0]);
        let more = split_lines(rest);
        assert(lines.skip(1) =~= more);
        assert(lines[0] == line);
        assert(seq![rows[0]] + tail =~= rows);
        assert(lines.skip(rows.len() as int) =~= more.skip(tail.len() as int));
    }
}

/// Reading what was written gives the problem back, field for field, for
/// every well-formed problem.
pub proof fn lemma_read_what_was_written(p: ProblemView)
    requires
        p.well_formed(),
    ensures
        read_problem(render_problem(p)) == Ok::<ProblemView, ReadError>(p),
{
    let params = p.input_parameters;
    let header = join_decimals(parameter_values(params));
    let score = p.glob_optima_score;
    let count = p.glob_optima_strings.len();
    let count_line = decimal(count);
    let optima_text = render_rows(RowStyle::Digits, p.glob_optima_strings);
    let cliques_text = render_rows(RowStyle::Numbers, p.cliques);
    let nothing = Seq::<u8>::empty();
    let behind_count = optima_text + cliques_text;
    let behind_score = count_line + seq!['\n' as u8] + behind_count;
    let behind_header = score + seq!['\n' as u8] + behind_score;
    let text = render_problem(p);
    assert(text =~= header + seq!['\n' as u8] + behind_header);

    lemma_join_decimals_plain(parameter_values(params));
    lemma_split_first_line(header, behind_header);
    lemma_float_token_plain(score);
    lemma_split_first_line(score, behind_score);
    lemma_decimal_digits(count);
    assert forall|i: int| 0 <= i < count_line.len() implies #[trigger] count_line[i]
        != '\n' as u8 && count_line[i] != '\r' as u8 by {
        assert(is_digit(count_line[i]));
    }
    lemma_split_first_line(count_line, behind_count);

    let lines = split_lines(text);
    let optima_lines = split_lines(behind_count);
    assert(lines =~= seq![header] + (seq![score] + (seq![count_line] + optima_lines)));
    assert(lines[0] == header);
    assert(lines[1] == score);
    assert(lines[2] == count_line);
    assert(lines.skip(3) =~= optima_lines);

    lemma_tokens_join_decimals(parameter_values(params));
    lemma_token_values_decimals(parameter_values(params));
    assert(parse_parameters(header) == Ok::<InputParameters, ReadError>(params));

    lemma_parse_decimal(count, usize::MAX as nat);

    let size = params.spec_problem_size() as nat;
    lemma_rendered_rows(RowStyle::Digits, size, p.glob_optima_strings, cliques_text);
    assert(lines.skip(3 + count as int) =~= optima_lines.skip(count as int));
    assert(cliques_text + nothing =~= cliques_text);
    lemma_rendered_rows(RowStyle::Numbers, params.k as nat, p.cliques, nothing);
}

/// Rows that were read stand on the first lines, one on each, and each
/// line means its row.
pub proof fn lemma_parsed_rows(style: RowStyle, width: nat, lines: Seq<Seq<u8>>, count: nat)
    requires
        parse_rows(style, width, lines, count) is Ok,
    ensures
        ({
            let rows = parse_rows(style, width, lines, count).unwrap();
            &&& rows.len() == count
            &&& count <= lines.len()
            &&& forall|i: int|
                0 <= i < count ==> parse_row(style, width, #[trigger] lines[i]) == Ok::<
                    Seq<u32>,
                    ReadError,
                >(rows[i])
        }),
    decreases count,
{
    if count > 0 {
        let rest = lines.skip(1);
        let less = (count - 1) as nat;
        lemma_parsed_rows(style, width, rest, less);
        let rows = parse_rows(style, width, lines, count).unwrap();
        let tail = parse_rows(style, width, rest, less).unwrap();
        let first = parse_row(style, width, lines[0]).unwrap();
        assert(rows =~= seq![first] + tail);
        assert forall|i: int| 0 <= i < count implies parse_row(style, width, #[trigger] lines[i])
            == Ok::<Seq<u32>, ReadError>(rows[i]) by {
            if i > 0 {
                assert(lines[i] == rest[i - 1]);
                assert(rows[i] == tail[i - 1]);
            }
        }
    }
}

/// Lines behind the rows that are asked for play no part in reading them.
pub proof fn lemma_parse_rows_more_lines(
    style: RowStyle,
    width: nat,
    lines: Seq<Seq<u8>>,
    count: nat,
    more: Seq<Seq<u8>>,
)
    requires
        parse_rows(style, width, lines, count) is Ok,
    ensures
        parse_rows(style, width, lines + more, count) == parse_rows(style, width, lines, count),
    decreases count,
{
    if count > 0 {
        assert((lines + more)[0] == lines[0]);
        assert((lines + more).skip(1) =~= lines.skip(1) + more);
        lemma_parse_rows_more_lines(style, width, lines.skip(1), (count - 1) as nat, more);
    }
}

/// What stands behind the last clique is not looked at: lines that are
/// read as a problem are read as the same problem with more lines behind
/// them.
pub proof fn lemma_trailing_lines_ignored(lines: Seq<Seq<u8>>, more: Seq<Seq<u8>>)
    requires
        parse_problem(lines) is Ok,
    ensures
        parse_problem(lines + more) == parse_problem(lines),
{
    let all = lines + more;
    let p = parse_problem(lines).unwrap();
    let params = p.input_parameters;
    let count = parse_unsigned_spec(lines[2], usize::MAX as nat).unwrap();
    let size = params.spec_problem_size() as nat;
    assert(all[0] == lines[0]);
    assert(all[1] == lines[1]);
    assert(all[2] == lines[2]);
    assert(all.skip(3) =~= lines.skip(3) + more);
    lemma_parse_rows_more_lines(RowStyle::Digits, size, lines.skip(3), count, more);
    lemma_parsed_rows(RowStyle::Digits, size, lines.skip(3), count);
    assert(all.skip(3 + count as int) =~= lines.skip(3 + count as int) + more);
    lemma_parse_rows_more_lines(
        RowStyle::Numbers,
        params.k as nat,
        lines.skip(3 + count as int),
        params.m as nat,
        more,
    );
}

/// A row that was read has the shape that its style and width ask for.
pub proof fn lemma_parsed_row_fits(style: RowStyle, width: nat, line: Seq<u8>)
    requires
        parse_row(style, width, line) is Ok,
    ensures
        row_fits(style, width, parse_row(style, width, line).unwrap()),
{
    match style {
        RowStyle::Digits => {
            let row = parse_digits(line, width).unwrap();
            assert forall|j: int| 0 <= j < row.len() implies #[trigger] row[j] <= 9 by {
                assert(is_digit(line[j]));
            }
        },
        RowStyle::Numbers => {},
    }
}

/// A problem that was read is well formed: it has `m` cliques of `k`
/// indices, and each of its optima has one digit for each of the
/// `(m - 1) * (k - o) + k` variables.
pub proof fn lemma_read_problem_well_formed(content: Seq<u8>)
    requires
        read_problem(content) is Ok,
    ensures
        read_problem(content).unwrap().well_formed(),
{
    let lines = split_lines(content);
    let p = parse_problem(lines).unwrap();
    let params = p.input_parameters;
    let count = parse_unsigned_spec(lines[2], usize::MAX as nat).unwrap();
    let size = params.spec_problem_size() as nat;
    let optima_lines = lines.skip(3);
    let clique_lines = lines.skip(3 + count as int);
    lemma_parsed_rows(RowStyle::Digits, size, optima_lines, count);
    lemma_parsed_rows(RowStyle::Numbers, params.k as nat, clique_lines, params.m as nat);
    assert forall|i: int| 0 <= i < p.glob_optima_strings.len() implies is_optimum(
        #[trigger] p.glob_optima_strings[i],
        params.spec_problem_size(),
    ) by {
        lemma_parsed_row_fits(RowStyle::Digits, size, optima_lines[i]);
    }
    assert forall|i: int| 0 <= i < p.cliques.len() implies (#[trigger] p.cliques[i]).len()
        == params.k by {
        lemma_parsed_row_fits(RowStyle::Numbers, params.k as nat, clique_lines[i]);
    }
}

/// Reading is strict about the length of every line: where a text is read
/// as a problem, each of its optimum lines holds exactly as many bytes as
/// there are variables, and each of its clique lines exactly `k` tokens.
/// A line with one index less or one more is never cut or filled up.
pub proof fn lemma_read_problem_strict(content: Seq<u8>)
    requires
        read_problem(content) is Ok,
    ensures
        ({
            let lines = split_lines(content);
            let p = read_problem(content).unwrap();
            let count = p.glob_optima_strings.len();
            &&& 3 + count + p.input_parameters.m <= lines.len()
            &&& forall|i: int|
                0 <= i < count ==> (#[trigger] lines[3 + i]).len()
                    == p.input_parameters.spec_problem_size()
            &&& forall|i: int|
                0 <= i < p.input_parameters.m ==> tokens(#[trigger] lines[3 + count + i]).len()
                    == p.input_parameters.k
        }),
{
    let lines = split_lines(content);
    let p = parse_problem(lines).unwrap();
    let params = p.input_parameters;
    let count = parse_unsigned_spec(lines[2], usize::MAX as nat).unwrap();
    let size = params.spec_problem_size() as nat;
    let optima_lines = lines.skip(3);
    let clique_lines = lines.skip(3 + count as int);
    lemma_parsed_rows(RowStyle::Digits, size, optima_lines, count);
    lemma_parsed_rows(RowStyle::Numbers, params.k as nat, clique_lines, params.m as nat);
    assert(p.glob_optima_strings.len() == count);
    assert forall|i: int| 0 <= i < count implies (#[trigger] lines[3 + i]).len() == size by {
        assert(lines[3 + i] == optima_lines[i]);
        assert(parse_row(RowStyle::Digits, size, optima_lines[i]) is Ok);
    }
    assert forall|i: int| 0 <= i < params.m implies tokens(#[trigger] lines[3 + count + i]).len()
        == params.k by {
        assert(lines[3 + count + i] == clique_lines[i]);
        assert(parse_row(RowStyle::Numbers, params.k as nat, clique_lines[i]) is Ok);
    }
}

} // verus!
