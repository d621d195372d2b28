//! A problem: what of a landscape is kept in a problem file.

use vstd::prelude::*;
use crate::parameters::InputParameters;
use crate::score::{check_float_token, is_float_token};

verus! {

/// A landscape without its codomain: the shape, the score of the global
/// optima as decimal text, the optima themselves, one digit for each
/// variable, and the cliques, each a list of variable indices.
#[derive(Clone, Debug, PartialEq, Eq)]
pub struct Problem {
    pub input_parameters: InputParameters,
    pub glob_optima_score: Vec<u8>,
    pub glob_optima_strings: Vec<Vec<u32>>,
    pub cliques: Vec<Vec<u32>>,
}

/// How deep a problem nests when it is written out as a structure: the
/// problem, its fields, their rows, the numbers in a row. A structured file
/// is laid out with line breaks down to this depth.
pub const STRUCTURED_DEPTH_LIMIT: usize = 4;

/// What a problem holds, as mathematical sequences.
pub struct ProblemView {
    pub input_parameters: InputParameters,
    pub glob_optima_score: Seq<u8>,
    pub glob_optima_strings: Seq<Seq<u32>>,
    pub cliques: Seq<Seq<u32>>,
}

/// The rows of a table of numbers, each as a sequence.
pub open spec fn rows_view(v: Seq<Vec<u32>>) -> Seq<Seq<u32>> {
    Seq::new(v.len(), |i: int| v[i]@)
}

/// An optimum over `size` variables: one decimal digit for each.
pub open spec fn is_optimum(row: Seq<u32>, size: int) -> bool {
    &&& row.len() == size
    &&& forall|j: int| 0 <= j < row.len() ==> #[trigger] row[j] <= 9
}

impl View for Problem {
    type V = ProblemView;

    open spec fn view(&self) -> ProblemView {
        ProblemView {
            input_parameters: self.input_parameters,
            glob_optima_score: self.glob_optima_score@,
            glob_optima_strings: rows_view(self.glob_optima_strings@),
            cliques: rows_view(self.cliques@),
        }
    }
}

impl ProblemView {
    /// The shape that every problem in a file has: valid parameters, a
    /// score that is a number, optima of one digit for each variable, and
    /// `m` cliques of `k` indices each.
    pub open spec fn well_formed(&self) -> bool {
        &&& self.input_parameters.valid()
        &&& is_float_token(self.glob_optima_score)
        &&& self.glob_optima_strings.len() <= usize::MAX
        &&& forall|i: int|
            0 <= i < self.glob_optima_strings.len() ==> is_optimum(
                #[trigger] self.glob_optima_strings[i],
                self.input_parameters.spec_problem_size(),
            )
        &&& self.cliques.len() == self.input_parameters.m
        &&& forall|i: int|
            0 <= i < self.cliques.len() ==> (#[trigger] self.cliques[i]).len()
                == self.input_parameters.k
    }
}

/// Whether a row is an optimum over `size` variables.
fn check_optimum(row: &Vec<u32>, size: u32) -> (b: bool)
    ensures
        b == is_optimum(row@, size as int),
{
    if row.len() != size as usize {
        return false;
    }
    let mut j: usize = 0;
    while j < row.len()
        invariant
            j <= row@.len(),
            forall|t: int| 0 <= t < j ==> #[trigger] row@[t] <= 9,
        decreases row@.len() - j,
    {
        if row[j] > 9 {
            return false;
        }
        j += 1;
    }
    true
}

impl Problem {
    /// Whether the problem has the shape that a problem file can hold.
    pub fn is_well_formed(&self) -> (b: bool)
        ensures
            b == self@.well_formed(),
    {
        if !self.input_parameters.is_valid() {
            return false;
        }
        if !check_float_token(self.glob_optima_score.as_slice()) {
            return false;
        }
        let size: u32 = self.input_parameters.problem_size();
        let mut i: usize = 0;
        while i < self.glob_optima_strings.len()
            invariant
                i <= self.glob_optima_strings@.len(),
                size == self.input_parameters.spec_problem_size(),
                forall|t: int|
                    0 <= t < i ==> is_optimum(
                        #[trigger] self@.glob_optima_strings[t],
                        size as int,
                    ),
            decreases self.glob_optima_strings@.len() - i,
        {
            if !check_optimum(&self.glob_optima_strings[i], size) {
                assert(!is_optimum(self@.glob_optima_strings[i as int], size as int));
                return false;
            }
            i += 1;
        }
        if self.cliques.len() != self.input_parameters.m as usize {
            return false;
        }
        let mut c: usize = 0;
        while c < self.cliques.len()
            invariant
                c <= self.cliques@.len(),
                forall|t: int|
                    0 <= t < c ==> (#[trigger] self@.cliques[t]).len() == self.input_parameters.k,
            decreases self.cliques@.len() - c,
        {
            if self.cliques[c].len() != self.input_parameters.k as usize {
                assert(self@.cliques[c as int].len() != self.input_parameters.k);
                return false;
            }
            c += 1;
        }
        true
    }
}

} // verus!
