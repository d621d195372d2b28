//! Reading landscapes back: a problem file together with its codomain file,
//! and the files of two folders pair by pair.

use vstd::prelude::*;
use crate::format::{read_problem, ReadError};
use crate::listing::{is_sorted_listing, names_view, sort_listing};
use crate::problem::{Problem, ProblemView};
use crate::reader::read_problem_from_file;

verus! {

/// Number of lines that stand before the values in a codomain file: two
/// where the file was generated, and so names its codomain function on a
/// line of its own, else one.
pub open spec fn header_lines(generated: bool) -> nat {
    if generated {
        2
    } else {
        1
    }
}

/// What is needed to read the codomain that belongs to a problem: the
/// problem itself, for its shape, and the number of lines to skip.
#[derive(Clone, Debug, PartialEq, Eq)]
pub struct CodomainReading {
    pub problem: Problem,
    pub skip_lines: usize,
}

/// Reads the problem of a landscape and says how its codomain file is to
/// be read.
///
/// `problem_content` is the text of the problem file. The codomain file is
/// read by the caller, who then puts the two together.
pub fn read_clique_tree_from_files(problem_content: &[u8], generated: bool) -> (r: Result<
    CodomainReading,
    ReadError,
>)
    ensures
        match r {
            Ok(reading) => {
                &&& read_problem(problem_content@) == Ok::<ProblemView, ReadError>(
                    reading.problem@,
                )
                &&& reading.problem@.well_formed()
                &&& reading.skip_lines == header_lines(generated)
            },
            Err(e) => read_problem(problem_content@) == Err::<ProblemView, ReadError>(e),
        },
{
    match read_problem_from_file(problem_content) {
        Err(e) => Err(e),
        Ok(problem) => {
            let skip_lines: usize = if generated {
                2
            } else {
                1
            };
            Ok(CodomainReading { problem, skip_lines })
        },
    }
}

/// A codomain file and the problem file that is read with it.
#[derive(Clone, Debug, PartialEq, Eq)]
pub struct FilePair {
    pub codomain_file: Vec<u8>,
    pub problem_file: Vec<u8>,
}

/// The codomain files of some pairs.
pub open spec fn codomain_files_of(pairs: Seq<FilePair>) -> Seq<Seq<u8>> {
    Seq::new(pairs.len(), |i: int| pairs[i].codomain_file@)
}

/// The problem files of some pairs.
pub open spec fn problem_files_of(pairs: Seq<FilePair>) -> Seq<Seq<u8>> {
    Seq::new(pairs.len(), |i: int| pairs[i].problem_file@)
}

/// Pairs the files of a folder of codomains with those of a folder of
/// problems.
///
/// The entries of each folder are put in lexicographic order, and the
/// first of the one is paired with the first of the other, the second with
/// the second, and so on. The names play no part in the pairing: where the
/// two folders do not hold files of the same names, files that do not
/// belong together are paired, and nothing says so.
pub fn read_clique_trees_paths_from_folders(
    codomain_file_names: Vec<Vec<u8>>,
    problem_file_names: Vec<Vec<u8>>,
) -> (pairs: Vec<FilePair>)
    requires
        codomain_file_names@.len() == problem_file_names@.len(),
    ensures
        pairs@.len() == codomain_file_names@.len(),
        is_sorted_listing(codomain_files_of(pairs@), names_view(codomain_file_names@)),
        is_sorted_listing(problem_files_of(pairs@), names_view(problem_file_names@)),
{
    let codomains = sort_listing(codomain_file_names);
    let problems = sort_listing(problem_file_names);
    let mut pairs: Vec<FilePair> = Vec::new();
    let mut i: usize = 0;
    while i < codomains.len()
        invariant
            i <= codomains@.len(),
            codomains@.len() == problems@.len(),
            pairs@.len() == i,
            forall|t: int|
                0 <= t < i ==> (#[trigger] pairs@[t]).codomain_file@ == codomains@[t]@
                    && pairs@[t].problem_file@ == problems@[t]@,
        decreases codomains@.len() - i,
    {
        pairs.push(
            FilePair { codomain_file: codomains[i].clone(), problem_file: problems[i].clone() },
        );
        i += 1;
    }
    assert(codomain_files_of(pairs@) =~= names_view(codomains@));
    assert(problem_files_of(pairs@) =~= names_view(problems@));
    pairs
}

} // verus!
