//! Latin squares: every symbol once on each line and in each column.
use crate::domain::InvalidStateError;
use crate::grid::{column_of, line_of};
use crate::pairwise::{
    admits, admitted, compatible, lemma_admitted, lemma_pruned, prune, pruned_state, Pairwise,
};
use crate::search::Searchable;
use crate::state::State;
use vstd::prelude::*;

verus! {

/// A symbol of the square.
pub type Symbol = u32;

/// The rules of a Latin square of a given side, over the cells of a board
/// numbered line by line.
#[derive(Debug, Clone, Copy)]
pub struct LatinSquare {
    /// The number of lines, and of columns.
    pub side: usize,
}

impl LatinSquare {
    /// The rules for a square of the given side.
    pub fn new(side: usize) -> (rules: Self)
        ensures
            rules.side == side,
    {
        LatinSquare { side }
    }

    /// Two distinct cells on one line or in one column.
    pub open spec fn related(&self, a: usize, b: usize) -> bool {
        &&& self.side > 0
        &&& a != b
        &&& (line_of(a, self.side) == line_of(b, self.side) || column_of(a, self.side)
            == column_of(b, self.side))
    }

    /// Computes `related`.
    pub fn is_related(&self, a: usize, b: usize) -> (r: bool)
        ensures
            r == self.related(a, b),
    {
        self.side > 0 && a != b && (a / self.side == b / self.side || a % self.side == b
            % self.side)
    }
}

impl Pairwise<usize, Symbol> for LatinSquare {
    /// Related cells may not hold the same symbol.
    open spec fn forbids(&self, a: usize, x: Symbol, b: usize, y: Symbol) -> bool {
        self.related(a, b) && x == y
    }

    fn is_forbidden(&self, a: &usize, x: Symbol, b: &usize, y: Symbol) -> (r: bool) {
        x == y && self.is_related(*a, *b)
    }
}

impl Searchable<usize, Symbol> for LatinSquare {
    /// No symbol stands twice on a line or in a column.
    open spec fn consistent(&self, assignment: Map<usize, Symbol>) -> bool {
        compatible(self, assignment)
    }

    open spec fn exact(&self) -> bool {
        true
    }

    /// The symbol just placed differs from every symbol already placed on
    /// the same line or in the same column.
    fn check_constraints(&self, state: &State<usize, Symbol>, variable: &usize, value: Symbol) -> (feasible:
        bool)
        ensures
            feasible == admitted(self, state@, *variable, value),
    {
        proof {
            lemma_admitted(self, state@, *variable, value);
        }
        admits(self, state, variable, value)
    }

    /// The symbol just placed is no longer possible on the same line or in
    /// the same column.
    fn simplify(&self, state: &mut State<usize, Symbol>, variable: &usize, value: Symbol) -> (r:
        Result<(), InvalidStateError>)
        ensures
            r is Ok ==> final(state)@ == pruned_state(self, old(state)@, *variable, value),
    {
        proof {
            lemma_pruned(self, state@, *variable, value);
        }
        prune(self, state, variable, value)
    }
}

} // verus!
