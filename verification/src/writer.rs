//! Writing a problem file.

use vstd::prelude::*;
use crate::decimal::{decimal, push_decimal};
use crate::format::{
    concat_decimals,
    join_decimals,
    parameter_values,
    read_problem,
    render_problem,
    render_row,
    render_rows,
    ReadError,
    RowStyle,
};
use crate::laws::lemma_read_what_was_written;
use crate::problem::{rows_view, Problem, ProblemView};

verus! {

/// One more number behind a spaced line: a space and the number, or the
/// number alone where the line was empty.
pub proof fn lemma_join_decimals_push(values: Seq<u32>, x: u32)
    ensures
        join_decimals(values.push(x)) == if values.len() == 0 {
            decimal(x as nat)
        } else {
            join_decimals(values) + seq![' ' as u8] + decimal(x as nat)
        },
    decreases values.len(),
{
    let all = values.push(x);
    if values.len() == 0 {
    } else {
        let tail = values.skip(1);
        assert(all.skip(1) =~= tail.push(x));
        assert(all[0] == values[0]);
        lemma_join_decimals_push(tail, x);
        assert(join_decimals(all) =~= join_decimals(values) + seq![' ' as u8] + decimal(
            x as nat,
        ));
    }
}

/// One more number behind a line without spaces.
pub proof fn lemma_concat_decimals_push(values: Seq<u32>, x: u32)
    ensures
        concat_decimals(values.push(x)) == concat_decimals(values) + decimal(x as nat),
    decreases values.len(),
{
    let all = values.push(x);
    if values.len() == 0 {
        assert(all.skip(1) =~= Seq::<u32>::empty());
        assert(concat_decimals(all.skip(1)) =~= Seq::<u8>::empty());
        assert(concat_decimals(values) =~= Seq::<u8>::empty());
        assert(concat_decimals(all) =~= concat_decimals(values) + decimal(x as nat));
    } else {
        let tail = values.skip(1);
        assert(all.skip(1) =~= tail.push(x));
        assert(all[0] == values[0]);
        lemma_concat_decimals_push(tail, x);
        assert(concat_decimals(all) =~= concat_decimals(values) + decimal(x as nat));
    }
}

/// One more row behind some rows: its line and a line feed.
pub proof fn lemma_render_rows_push(style: RowStyle, rows: Seq<Seq<u32>>, row: Seq<u32>)
    ensures
        render_rows(style, rows.push(row)) == render_rows(style, rows) + render_row(style, row)
            + seq!['\n' as u8],
    decreases rows.len(),
{
    let all = rows.push(row);
    if rows.len() == 0 {
        assert(all.skip(1) =~= Seq::<Seq<u32>>::empty());
        assert(render_rows(style, all.skip(1)) =~= Seq::<u8>::empty());
        assert(render_rows(style, rows) =~= Seq::<u8>::empty());
        assert(render_rows(style, all) =~= render_rows(style, rows) + render_row(style, row)
            + seq!['\n' as u8]);
    } else {
        let tail = rows.skip(1);
        assert(all.skip(1) =~= tail.push(row));
        assert(all[0] == rows[0]);
        lemma_render_rows_push(style, tail, row);
        assert(render_rows(style, all) =~= render_rows(style, rows) + render_row(style, row)
            + seq!['\n' as u8]);
    }
}

/// Appends the numbers with single spaces between them.
fn push_joined(out: &mut Vec<u8>, values: &Vec<u32>)
    ensures
        final(out)@ == old(out)@ + join_decimals(values@),
{
    let mut i: usize = 0;
    assert(values@.take(0) =~= Seq::<u32>::empty());
    assert(out@ =~= old(out)@ + join_decimals(values@.take(0)));
    while i < values.len()
        invariant
            i <= values@.len(),
            out@ == old(out)@ + join_decimals(values@.take(i as int)),
        decreases values@.len() - i,
    {
        let ghost before = out@;
        if i > 0 {
            out.push(' ' as u8);
        }
        push_decimal(out, values[i] as u64);
        proof {
            let done = values@.take(i as int);
            assert(values@.take(i + 1) =~= done.push(values@[i as int]));
            lemma_join_decimals_push(done, values@[i as int]);
            if i > 0 {
                assert(out@ =~= before + seq![' ' as u8] + decimal(values@[i as int] as nat));
            }
            assert(out@ =~= old(out)@ + join_decimals(values@.take(i + 1)));
        }
        i += 1;
    }
    assert(values@.take(values@.len() as int) =~= values@);
}

/// Appends the numbers with nothing between them.
fn push_concatenated(out: &mut Vec<u8>, values: &Vec<u32>)
    ensures
        final(out)@ == old(out)@ + concat_decimals(values@),
{
    let mut i: usize = 0;
    assert(values@.take(0) =~= Seq::<u32>::empty());
    assert(out@ =~= old(out)@ + concat_decimals(values@.take(0)));
    while i < values.len()
        invariant
            i <= values@.len(),
            out@ == old(out)@ + concat_decimals(values@.take(i as int)),
        decreases values@.len() - i,
    {
        push_decimal(out, values[i] as u64);
        proof {
            let done = values@.take(i as int);
            assert(values@.take(i + 1) =~= done.push(values@[i as int]));
            lemma_concat_decimals_push(done, values@[i as int]);
            assert(out@ =~= old(out)@ + concat_decimals(values@.take(i + 1)));
        }
        i += 1;
    }
    assert(values@.take(values@.len() as int) =~= values@);
}

/// Appends a line for each row.
fn push_rows(out: &mut Vec<u8>, style: RowStyle, rows: &Vec<Vec<u32>>)
    ensures
        final(out)@ == old(out)@ + render_rows(style, rows_view(rows@)),
{
    let ghost all = rows_view(rows@);
    let mut i: usize = 0;
    assert(all.take(0) =~= Seq::<Seq<u32>>::empty());
    assert(out@ =~= old(out)@ + render_rows(style, all.take(0)));
    while i < rows.len()
        invariant
            i <= rows@.len(),
            all == rows_view(rows@),
            out@ == old(out)@ + render_rows(style, all.take(i as int)),
        decreases rows@.len() - i,
    {
        let ghost before = out@;
        match style {
            RowStyle::Digits => push_concatenated(out, &rows[i]),
            RowStyle::Numbers => push_joined(out, &rows[i]),
        }
        out.push('\n' as u8);
        proof {
            let done = all.take(i as int);
            assert(all.take(i + 1) =~= done.push(all[i as int]));
            lemma_render_rows_push(style, done, all[i as int]);
            assert(out@ =~= before + render_row(style, all[i as int]) + seq!['\n' as u8]);
            assert(out@ =~= old(out)@ + render_rows(style, all.take(i + 1)));
        }
        i += 1;
    }
    assert(all.take(all.len() as int) =~= all);
}

/// The text of the problem file for a problem.
///
/// Every problem has a text. Reading it gives the problem back where the
/// problem is well formed.
pub fn write_problem_to_file(problem: &Problem) -> (out: Vec<u8>)
    ensures
        out@ == render_problem(problem@),
        problem@.well_formed() ==> read_problem(out@) == Ok::<ProblemView, ReadError>(problem@),
{
    proof {
        if problem@.well_formed() {
            lemma_read_what_was_written(problem@);
        }
    }
    let p = problem.input_parameters;
    let header: Vec<u32> = vec![p.m, p.k, p.o, p.b];
    assert(header@ =~= parameter_values(p));
    let mut out: Vec<u8> = Vec::new();
    push_joined(&mut out, &header);
    out.push('\n' as u8);
    out.extend_from_slice(problem.glob_optima_score.as_slice());
    out.push('\n' as u8);
    push_decimal(&mut out, problem.glob_optima_strings.len() as u64);
    out.push('\n' as u8);
    push_rows(&mut out, RowStyle::Digits, &problem.glob_optima_strings);
    push_rows(&mut out, RowStyle::Numbers, &problem.cliques);
    assert(out@ =~= render_problem(problem@));
    out
}

} // verus!
