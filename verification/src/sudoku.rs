//! Sudoku: every digit once on each line, in each column and in each block.
use crate::domain::InvalidStateError;
use crate::pairwise::{
    admits, admitted, compatible, is_solution, lemma_admitted, lemma_pruned, prune, pruned_state,
    Pairwise,
};
use crate::search::Searchable;
use crate::state::{assignment, solved, State};
use vstd::prelude::*;

verus! {

/// A digit of the puzzle.
pub type Digit = u32;

/// The rules of a Sudoku whose blocks have the given side, over the cells
/// of a board numbered line by line. The board has as many lines as a block
/// has cells.
#[derive(Debug, Clone, Copy)]
pub struct Sudoku {
    /// The number of lines, and of columns, of a block.
    pub block: usize,
}

impl Sudoku {
    /// The rules for blocks of the given side.
    pub fn new(block: usize) -> (rules: Self)
        ensures
            rules.block == block,
    {
        Sudoku { block }
    }

    /// The number of lines, and of columns, of the board.
    pub open spec fn side(&self) -> int {
        self.block as int * self.block as int
    }

    /// Two distinct cells on one line, in one column or in one block.
    pub open spec fn adjacent(&self, a: usize, b: usize) -> bool {
        let line_a = a as int / self.side();
        let line_b = b as int / self.side();
        let column_a = a as int % self.side();
        let column_b = b as int % self.side();
        &&& self.block > 0
        &&& a != b
        &&& (line_a == line_b || column_a == column_b || (line_a / self.block as int == line_b
            / self.block as int && column_a / self.block as int == column_b / self.block as int))
    }

    /// Computes `adjacent`.
    pub fn is_adjacent(&self, a: usize, b: usize) -> (r: bool)
        ensures
            r == self.adjacent(a, b),
    {
        if self.block == 0 || a == b {
            return false;
        }
        match self.block.checked_mul(self.block) {
            Some(side) => {
                assert(side > 0) by (nonlinear_arith)
                    requires
                        side == self.block * self.block,
                        self.block > 0,
                ;
                let line_a = a / side;
                let line_b = b / side;
                let column_a = a % side;
                let column_b = b % side;
                line_a == line_b || column_a == column_b || (line_a / self.block == line_b
                    / self.block && column_a / self.block == column_b / self.block)
            },
            None => {
                proof {
                    vstd::arithmetic::div_mod::lemma_basic_div(a as int, self.side());
                    vstd::arithmetic::div_mod::lemma_basic_div(b as int, self.side());
                }
                true
            },
        }
    }

    /// The cells of `state` that are adjacent to `position`, each once, in
    /// no particular order.
    pub fn adjacent_cells(&self, state: &State<usize, Digit>, position: usize) -> (cells: Vec<
        usize,
    >)
        requires
            state.wf(),
        ensures
            cells@.no_duplicates(),
            forall|k: usize|
                cells@.contains(k) <==> state@.contains_key(k) && self.adjacent(position, k),
    {
        let keys = state.variables();
        let mut cells: Vec<usize> = Vec::new();
        let mut i: usize = 0;
        while i < keys.len()
            invariant
                i <= keys.len(),
                keys@.no_duplicates(),
                keys@.to_set() == state@.dom(),
                cells@.no_duplicates(),
                forall|j: int|
                    0 <= j < cells@.len() ==> self.adjacent(position, #[trigger] cells@[j])
                        && exists|a: int| 0 <= a < i && keys@[a] == cells@[j],
                forall|a: int|
                    0 <= a < i && self.adjacent(position, #[trigger] keys@[a])
                        ==> cells@.contains(keys@[a]),
            decreases keys.len() - i,
        {
            let k = keys[i];
            let ghost held = cells@;
            if self.is_adjacent(position, k) {
                proof {
                    assert forall|j: int| 0 <= j < held.len() implies held[j] != k by {
                        let a = choose|a: int| 0 <= a < i && keys@[a] == held[j];
                        assert(keys@[a] != keys@[i as int]);
                    }
                }
                cells.push(k);
                proof {
                    assert(cells@[held.len() as int] == k);
                    assert forall|j: int| 0 <= j < cells@.len() implies self.adjacent(
                        position,
                        #[trigger] cells@[j],
                    ) && exists|a: int| 0 <= a < i + 1 && keys@[a] == cells@[j] by {
                        if j < held.len() {
                            let a = choose|a: int| 0 <= a < i && keys@[a] == held[j];
                            assert(keys@[a] == cells@[j]);
                        } else {
                            assert(keys@[i as int] == cells@[j]);
                        }
                    }
                    assert forall|a: int|
                        0 <= a < i + 1 && self.adjacent(
                            position,
                            #[trigger] keys@[a],
                        ) implies cells@.contains(keys@[a]) by {
                        if a < i {
                            let j = choose|j: int| 0 <= j < held.len() && held[j] == keys@[a];
                            assert(cells@[j] == keys@[a]);
                        }
                    }
                }
            }
            i = i + 1;
        }
        proof {
            assert forall|k: usize| cells@.contains(k) <==> state@.contains_key(k)
                && self.adjacent(position, k) by {
                if cells@.contains(k) {
                    let j = choose|j: int| 0 <= j < cells@.len() && cells@[j] == k;
                    let a = choose|a: int| 0 <= a < i && keys@[a] == cells@[j];
                    assert(keys@.to_set().contains(keys@[a]));
                }
                if state@.contains_key(k) && self.adjacent(position, k) {
                    assert(keys@.to_set().contains(k));
                    let a = choose|a: int| 0 <= a < keys@.len() && keys@[a] == k;
                    assert(cells@.contains(keys@[a]));
                }
            }
        }
        cells
    }

    /// Whether every cell of `state` holds a digit and no digit stands
    /// twice on a line, in a column or in a block.
    pub fn is_solution(&self, state: &State<usize, Digit>) -> (r: bool)
        requires
            state.wf(),
        ensures
            r == (solved(state@) && compatible(self, assignment(state@))),
    {
        is_solution(self, state)
    }
}

impl Pairwise<usize, Digit> for Sudoku {
    /// Adjacent cells may not hold the same digit.
    open spec fn forbids(&self, a: usize, x: Digit, b: usize, y: Digit) -> bool {
        self.adjacent(a, b) && x == y
    }

    fn is_forbidden(&self, a: &usize, x: Digit, b: &usize, y: Digit) -> (r: bool) {
        x == y && self.is_adjacent(*a, *b)
    }
}

impl Searchable<usize, Digit> for Sudoku {
    /// No digit stands twice on a line, in a column or in a block.
    open spec fn consistent(&self, assignment: Map<usize, Digit>) -> bool {
        compatible(self, assignment)
    }

    open spec fn exact(&self) -> bool {
        true
    }

    /// The digit just placed differs from every digit already placed in an
    /// adjacent cell.
    fn check_constraints(&self, state: &State<usize, Digit>, variable: &usize, value: Digit) -> (feasible:
        bool)
        ensures
            feasible == admitted(self, state@, *variable, value),
    {
        proof {
            lemma_admitted(self, state@, *variable, value);
        }
        admits(self, state, variable, value)
    }

    /// The digit just placed is no longer possible in the adjacent cells.
    fn simplify(&self, state: &mut State<usize, Digit>, variable: &usize, value: Digit) -> (r:
        Result<(), InvalidStateError>)
        ensures
            r is Ok ==> final(state)@ == pruned_state(self, old(state)@, *variable, value),
    {
        proof {
            lemma_pruned(self, state@, *variable, value);
        }
        prune(self, state, variable, value)
    }
}

} // verus!
