//! Square boards whose cells are numbered line by line.
use crate::domain::DomainView;
use crate::state::{ConfigurationError, State};
use std::collections::HashSet;
use std::hash::Hash;
use vstd::prelude::*;
use vstd::std_specs::hash::obeys_key_model;

verus! {

broadcast use vstd::std_specs::hash::group_hash_axioms;

/// The line of `cell` on a board of the given side.
pub open spec fn line_of(cell: usize, side: usize) -> int {
    cell as int / side as int
}

/// The column of `cell` on a board of the given side.
pub open spec fn column_of(cell: usize, side: usize) -> int {
    cell as int % side as int
}

/// The number of the cell at `line` and `column`.
pub fn cell_at(side: usize, line: usize, column: usize) -> (cell: usize)
    requires
        line < side,
        column < side,
        side * side <= usize::MAX,
    ensures
        cell == line * side + column,
        cell < side * side,
        line_of(cell, side) == line,
        column_of(cell, side) == column,
{
    proof {
        assert(line * side + column < side * side) by (nonlinear_arith)
            requires
                line < side,
                column < side,
        ;
        assert(line * side <= line * side + column);
        vstd::arithmetic::div_mod::lemma_fundamental_div_mod_converse(
            line * side + column,
            side as int,
            line as int,
            column as int,
        );
    }
    line * side + column
}

/// The cells of a board, in order.
pub fn cells(side: usize) -> (cells: Vec<usize>)
    requires
        side * side <= usize::MAX,
    ensures
        cells@.len() == side * side,
        forall|i: int| 0 <= i < cells@.len() ==> cells@[i] == i,
        cells@.no_duplicates(),
{
    let count = side * side;
    let mut cells: Vec<usize> = Vec::new();
    let mut i: usize = 0;
    while i < count
        invariant
            i <= count,
            cells@.len() == i,
            forall|j: int| 0 <= j < i ==> cells@[j] == j,
        decreases count - i,
    {
        cells.push(i);
        i = i + 1;
    }
    cells
}

/// A state with one open variable for every cell of the board, each with
/// the candidates of `domain`. Fails when `domain` is empty.
pub fn board<D: Eq + Hash + Copy>(side: usize, domain: &HashSet<D>) -> (r: Result<
    State<usize, D>,
    ConfigurationError,
>)
    requires
        side * side <= usize::MAX,
        obeys_key_model::<D>(),
    ensures
        match r {
            Ok(state) => {
                &&& domain@.len() > 0
                &&& state.wf()
                &&& forall|cell: usize| state@.contains_key(cell) <==> cell < side * side
                &&& forall|cell: usize|
                    state@.contains_key(cell) ==> #[trigger] state@[cell]
                        == DomainView::Undetermined(domain@)
            },
            Err(e) => e == ConfigurationError::EmptyDomain && domain@.len() == 0,
        },
{
    let cells = cells(side);
    let r = State::new(cells.as_slice(), domain);
    proof {
        if r is Ok {
            let state = r->Ok_0;
            assert forall|cell: usize| state@.contains_key(cell) <==> cell < side * side by {
                if cell < side * side {
                    assert(cells@[cell as int] == cell);
                    assert(cells@.to_set().contains(cell));
                }
                if state@.contains_key(cell) {
                    assert(cells@.to_set().contains(cell));
                }
            }
        }
    }
    r
}

} // verus!
