//! The four integers that give a landscape its shape.

use vstd::prelude::*;

verus! {

/// Shape of a landscape: `m` cliques of `k` variables each, consecutive
/// cliques sharing `o` variables; `b` is carried along uninterpreted.
#[derive(Clone, Copy, Debug, PartialEq, Eq, Structural)]
pub struct InputParameters {
    pub m: u32,
    pub k: u32,
    pub o: u32,
    pub b: u32,
}

/// Number of binary variables of a landscape with `m` cliques of size `k`
/// and overlap `o`.
pub open spec fn problem_size_of(m: int, k: int, o: int) -> int {
    (m - 1) * (k - o) + k
}

impl InputParameters {
    /// At least one clique, an overlap no larger than a clique, and a number
    /// of variables that fits in 32 bits.
    pub open spec fn valid(&self) -> bool {
        &&& self.m >= 1
        &&& self.k >= self.o
        &&& problem_size_of(self.m as int, self.k as int, self.o as int) <= u32::MAX
    }

    /// The number of binary variables, `(m - 1) * (k - o) + k`.
    pub open spec fn spec_problem_size(&self) -> int {
        problem_size_of(self.m as int, self.k as int, self.o as int)
    }

    /// The parameters with the given values, whatever they are.
    pub fn new_from_primitives(m: u32, k: u32, o: u32, b: u32) -> (r: InputParameters)
        ensures
            r == (InputParameters { m, k, o, b }),
    {
        InputParameters { m, k, o, b }
    }

    /// Whether the parameters describe a landscape.
    pub fn is_valid(&self) -> (b: bool)
        ensures
            b == self.valid(),
    {
        if self.m < 1 || self.k < self.o {
            return false;
        }
        let cliques: u64 = (self.m - 1) as u64;
        let fresh: u64 = (self.k - self.o) as u64;
        assert(cliques * fresh <= 0xffff_ffff * 0xffff_ffff) by (nonlinear_arith)
            requires
                cliques <= 0xffff_ffff,
                fresh <= 0xffff_ffff,
        ;
        cliques * fresh + self.k as u64 <= 0xffff_ffff
    }

    /// The number of binary variables.
    pub fn problem_size(&self) -> (size: u32)
        requires
            self.valid(),
        ensures
            size == self.spec_problem_size(),
    {
        let cliques: u64 = (self.m - 1) as u64;
        let fresh: u64 = (self.k - self.o) as u64;
        assert(0 <= cliques * fresh) by (nonlinear_arith)
            requires
                0 <= cliques,
                0 <= fresh,
        ;
        (cliques * fresh + self.k as u64) as u32
    }
}

} // verus!
