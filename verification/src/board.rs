//! A nine-by-nine Sudoku board that keeps, for every cell, the digits that
//! are still possible, and propagates each assignment along the row, the
//! column and the block of the cell.
use rand::seq::SliceRandom;
use std::collections::HashSet;
use vstd::prelude::*;

verus! {

broadcast use vstd::std_specs::hash::group_hash_axioms;

/// Why a cell could not take or give up a digit.
#[derive(Debug, Clone, Copy, PartialEq, Eq)]
pub enum InvalidCell {
    /// No digit is possible for the cell any more.
    EmptyValueSet,
    /// The digit is not among the possible ones.
    ImpossibleValue,
}

/// The digits of the puzzle, one to nine.
pub open spec fn digits() -> Set<u8> {
    Set::new(|v: u8| 1 <= v <= 9)
}

/// One cell of the board.
pub struct Cell {
    line: usize,
    column: usize,
    possible: HashSet<u8>,
}

impl Clone for Cell {
    fn clone(&self) -> (copy: Self)
        ensures
            copy.line() == self.line(),
            copy.column() == self.column(),
            copy.possible() == self.possible(),
    {
        Cell {
            line: self.line,
            column: self.column,
            possible: crate::domain::copy_set(&self.possible),
        }
    }
}

impl Cell {
    /// The line the cell is on.
    pub closed spec fn line(&self) -> usize {
        self.line
    }

    /// The column the cell is in.
    pub closed spec fn column(&self) -> usize {
        self.column
    }

    /// The digits that are still possible.
    pub closed spec fn possible(&self) -> Set<u8> {
        self.possible@
    }

    /// A cell for which every digit is possible.
    pub fn new(line: usize, column: usize) -> (cell: Self)
        ensures
            cell.line() == line,
            cell.column() == column,
            cell.possible() == digits(),
    {
        let mut possible: HashSet<u8> = HashSet::new();
        let mut value: u8 = 1;
        while value < 10
            invariant
                1 <= value <= 10,
                forall|v: u8| possible@.contains(v) <==> 1 <= v < value,
            decreases 10 - value,
        {
            possible.insert(value);
            value = value + 1;
        }
        assert(possible@ =~= digits());
        Cell { line, column, possible }
    }

    /// The position of the cell.
    pub fn position(&self) -> (r: (usize, usize))
        ensures
            r == (self.line(), self.column()),
    {
        (self.line, self.column)
    }

    /// How many digits are still possible.
    pub fn count(&self) -> (n: usize)
        ensures
            n == self.possible().len(),
    {
        self.possible.len()
    }

    /// The digits that are still possible, each once, in no particular
    /// order.
    pub fn values(&self) -> (values: Vec<u8>)
        ensures
            values@.no_duplicates(),
            values@.to_set() == self.possible(),
    {
        crate::domain::members(&self.possible)
    }

    /// Makes `value` the only possible digit, if it is possible at all.
    pub fn set(&mut self, value: u8) -> (r: Result<(), InvalidCell>)
        ensures
            final(self).line() == old(self).line(),
            final(self).column() == old(self).column(),
            old(self).possible().contains(value) ==> r is Ok && final(self).possible()
                == set![value],
            !old(self).possible().contains(value) ==> r == Err::<(), InvalidCell>(
                InvalidCell::ImpossibleValue,
            ) && final(self).possible() == old(self).possible(),
    {
        if self.possible.contains(&value) {
            self.possible.clear();
            self.possible.insert(value);
            assert(self.possible@ =~= set![value]);
            Ok(())
        } else {
            Err(InvalidCell::ImpossibleValue)
        }
    }

    /// Strikes `value` out of the possible digits, and reports a cell that
    /// is left without any.
    pub fn remove(&mut self, value: u8) -> (r: Result<(), InvalidCell>)
        ensures
            final(self).line() == old(self).line(),
            final(self).column() == old(self).column(),
            final(self).possible() == old(self).possible().remove(value),
            final(self).possible().len() == 0 ==> r == Err::<(), InvalidCell>(
                InvalidCell::EmptyValueSet,
            ),
            final(self).possible().len() > 0 ==> r is Ok,
    {
        self.possible.remove(&value);
        if self.possible.is_empty() {
            Err(InvalidCell::EmptyValueSet)
        } else {
            proof {
                crate::domain::lemma_hash_set_finite(&self.possible);
                if self.possible@.len() == 0 {
                    self.possible@.lemma_len0_is_empty();
                }
            }
            Ok(())
        }
    }
}

/// The cells that an assignment at `line` and `column` constrains: those
/// on the same line, in the same column or in the same block.
pub open spec fn peers(line: int, column: int, l: int, c: int) -> bool {
    &&& l != line || c != column
    &&& l == line || c == column || (l / 3 == line / 3 && c / 3 == column / 3)
}

/// The board: nine lines of nine cells.
pub struct Board {
    cells: Vec<Vec<Cell>>,
}

impl Clone for Board {
    fn clone(&self) -> (copy: Self)
        ensures
            self.wf() ==> copy.wf() && forall|l: int, c: int|
                0 <= l < 9 && 0 <= c < 9 ==> copy.possible(l, c) == self.possible(l, c),
    {
        let mut cells: Vec<Vec<Cell>> = Vec::new();
        let mut line: usize = 0;
        while line < self.cells.len()
            invariant
                line <= self.cells@.len(),
                cells@.len() == line,
                forall|l: int|
                    0 <= l < line ==> {
                        &&& (#[trigger] cells@[l])@.len() == self.cells@[l]@.len()
                        &&& forall|c: int|
                            0 <= c < self.cells@[l]@.len() ==> (#[trigger] cells@[l]@[c]).line()
                                == self.cells@[l]@[c].line() && cells@[l]@[c].column()
                                == self.cells@[l]@[c].column() && cells@[l]@[c].possible()
                                == self.cells@[l]@[c].possible()
                    },
            decreases self.cells@.len() - line,
        {
            let mut row: Vec<Cell> = Vec::new();
            let mut column: usize = 0;
            while column < self.cells[line].len()
                invariant
                    line < self.cells@.len(),
                    column <= self.cells@[line as int]@.len(),
                    row@.len() == column,
                    forall|c: int|
                        0 <= c < column ==> (#[trigger] row@[c]).line()
                            == self.cells@[line as int]@[c].line() && row@[c].column()
                            == self.cells@[line as int]@[c].column() && row@[c].possible()
                            == self.cells@[line as int]@[c].possible(),
                decreases self.cells@[line as int]@.len() - column,
            {
                row.push(self.cells[line][column].clone());
                column = column + 1;
            }
            cells.push(row);
            line = line + 1;
        }
        Board { cells }
    }
}

impl Board {
    /// Nine lines of nine cells, each cell at its own position.
    pub closed spec fn wf(&self) -> bool {
        &&& self.cells@.len() == 9
        &&& forall|l: int|
            0 <= l < 9 ==> {
                &&& (#[trigger] self.cells@[l])@.len() == 9
                &&& forall|c: int|
                    0 <= c < 9 ==> (#[trigger] self.cells@[l]@[c]).line() == l
                        && self.cells@[l]@[c].column() == c
            }
    }

    /// What is possible at `l` and `c` once `value` has been assigned at
    /// `line` and `column` and struck out of the peers of that cell. A value
    /// that was not possible at `line` and `column` leaves that cell as it
    /// was.
    pub open spec fn after(&self, line: int, column: int, value: u8, l: int, c: int) -> Set<u8> {
        if l == line && c == column {
            if self.possible(l, c).contains(value) {
                set![value]
            } else {
                self.possible(l, c)
            }
        } else if peers(line, column, l, c) {
            self.possible(l, c).remove(value)
        } else {
            self.possible(l, c)
        }
    }

    /// An assignment of `value` at `line` and `column` would leave some peer
    /// of that cell without a possible digit.
    pub open spec fn starves(&self, line: int, column: int, value: u8) -> bool {
        exists|l: int, c: int|
            0 <= l < 9 && 0 <= c < 9 && peers(line, column, l, c) && (#[trigger] self.possible(
                l,
                c,
            )).remove(value).len() == 0
    }

    /// A board on which every digit is possible everywhere.
    pub fn new() -> (board: Self)
        ensures
            board.wf(),
            forall|l: int, c: int| 0 <= l < 9 && 0 <= c < 9 ==> board.possible(l, c) == digits(),
    {
        let mut cells: Vec<Vec<Cell>> = Vec::new();
        let mut line: usize = 0;
        while line < 9
            invariant
                line <= 9,
                cells@.len() == line,
                forall|l: int|
                    0 <= l < line ==> {
                        &&& (#[trigger] cells@[l])@.len() == 9
                        &&& forall|c: int|
                            0 <= c < 9 ==> (#[trigger] cells@[l]@[c]).line() == l
                                && cells@[l]@[c].column() == c && cells@[l]@[c].possible()
                                == digits()
                    },
            decreases 9 - line,
        {
            let mut row: Vec<Cell> = Vec::new();
            let mut column: usize = 0;
            while column < 9
                invariant
                    column <= 9,
                    row@.len() == column,
                    forall|c: int|
                        0 <= c < column ==> (#[trigger] row@[c]).line() == line
                            && row@[c].column() == c && row@[c].possible() == digits(),
                decreases 9 - column,
            {
                row.push(Cell::new(line, column));
                column = column + 1;
            }
            cells.push(row);
            line = line + 1;
        }
        Board { cells }
    }

    /// The cell at `l` and `c` is still undecided: more than one digit is
    /// possible there.
    pub open spec fn free(&self, l: int, c: int) -> bool {
        self.possible(l, c).len() > 1
    }

    /// Some cell is still undecided.
    pub open spec fn has_free_cell(&self) -> bool {
        exists|l: int, c: int| 0 <= l < 9 && 0 <= c < 9 && #[trigger] self.free(l, c)
    }

    /// The cell at `l` and `c` is undecided and no undecided cell has fewer
    /// possible digits.
    pub open spec fn most_constrained(&self, l: int, c: int) -> bool {
        &&& 0 <= l < 9 && 0 <= c < 9
        &&& self.free(l, c)
        &&& forall|l2: int, c2: int|
            0 <= l2 < 9 && 0 <= c2 < 9 && #[trigger] self.free(l2, c2) ==> self.possible(
                l,
                c,
            ).len() <= self.possible(l2, c2).len()
    }

    /// Every set of possible digits is finite.
    pub proof fn lemma_finite(&self, l: int, c: int)
        ensures
            self.possible(l, c).finite(),
    {
        crate::domain::lemma_hash_set_finite(&self.cells@[l]@[c].possible);
    }

    /// The positions of the undecided cells with the fewest possible
    /// digits, line by line; none when every cell is decided.
    pub fn most_constrained_cells(&self) -> (targets: Vec<(usize, usize)>)
        requires
            self.wf(),
        ensures
            forall|i: int|
                0 <= i < targets@.len() ==> self.most_constrained(
                    (#[trigger] targets@[i]).0 as int,
                    targets@[i].1 as int,
                ),
            forall|l: int, c: int|
                self.most_constrained(l, c) ==> targets@.contains((l as usize, c as usize)),
            targets@.len() > 0 <==> self.has_free_cell(),
    {
        let mut least: Option<usize> = None;
        let mut k: usize = 0;
        while k < 81
            invariant
                k <= 81,
                self.wf(),
                match least {
                    Some(n) => n > 1 && (exists|k2: int|
                        0 <= k2 < k && #[trigger] self.possible(k2 / 9, k2 % 9).len() == n)
                        && forall|k2: int|
                        0 <= k2 < k && #[trigger] self.free(k2 / 9, k2 % 9) ==> n
                            <= self.possible(k2 / 9, k2 % 9).len(),
                    None => forall|k2: int| 0 <= k2 < k ==> !#[trigger] self.free(k2 / 9, k2 % 9),
                },
            decreases 81 - k,
        {
            let n = self.count(k / 9, k % 9);
            if n > 1 {
                match least {
                    Some(m) => {
                        if n < m {
                            least = Some(n);
                        }
                    },
                    None => {
                        least = Some(n);
                    },
                }
            }
            k = k + 1;
        }
        let mut targets: Vec<(usize, usize)> = Vec::new();
        match least {
            None => {
                proof {
                    assert forall|l: int, c: int| 0 <= l < 9 && 0 <= c < 9 implies !#[trigger] self.free(
                        l,
                        c,
                    ) by {
                        let k2 = l * 9 + c;
                        assert(k2 / 9 == l && k2 % 9 == c);
                        assert(!self.free(k2 / 9, k2 % 9));
                    }
                }
            },
            Some(n) => {
                proof {
                    assert forall|l: int, c: int|
                        0 <= l < 9 && 0 <= c < 9 && #[trigger] self.free(l, c) implies n
                        <= self.possible(l, c).len() by {
                        let k2 = l * 9 + c;
                        assert(k2 / 9 == l && k2 % 9 == c);
                        assert(self.free(k2 / 9, k2 % 9));
                    }
                    let k0 = choose|k2: int|
                        0 <= k2 < 81 && #[trigger] self.possible(k2 / 9, k2 % 9).len() == n;
                    assert(self.free(k0 / 9, k0 % 9));
                }
                let mut k: usize = 0;
                while k < 81
                    invariant
                        k <= 81,
                        self.wf(),
                        n > 1,
                        forall|l: int, c: int|
                            0 <= l < 9 && 0 <= c < 9 && #[trigger] self.free(l, c) ==> n
                                <= self.possible(l, c).len(),
                        forall|i: int|
                            0 <= i < targets@.len() ==> (#[trigger] targets@[i]).0 < 9
                                && targets@[i].1 < 9 && self.possible(
                                targets@[i].0 as int,
                                targets@[i].1 as int,
                            ).len() == n,
                        forall|k2: int|
                            0 <= k2 < k && #[trigger] self.possible(k2 / 9, k2 % 9).len() == n
                                ==> targets@.contains(((k2 / 9) as usize, (k2 % 9) as usize)),
                    decreases 81 - k,
                {
                    let ghost held = targets@;
                    if self.count(k / 9, k % 9) == n {
                        targets.push((k / 9, k % 9));
                        proof {
                            assert(targets@[held.len() as int] == (k / 9, k % 9));
                        }
                    }
                    proof {
                        assert forall|k2: int|
                            0 <= k2 < k + 1 && #[trigger] self.possible(k2 / 9, k2 % 9).len()
                                == n implies targets@.contains(
                            ((k2 / 9) as usize, (k2 % 9) as usize),
                        ) by {
                            if k2 < k {
                                let i = choose|i: int|
                                    0 <= i < held.len() && held[i] == (
                                        (k2 / 9) as usize,
                                        (k2 % 9) as usize,
                                    );
                                assert(targets@[i] == held[i]);
                            }
                        }
                    }
                    k = k + 1;
                }
                proof {
                    let k0 = choose|k2: int|
                        0 <= k2 < 81 && #[trigger] self.possible(k2 / 9, k2 % 9).len() == n;
                    assert(targets@.contains(((k0 / 9) as usize, (k0 % 9) as usize)));
                    assert forall|l: int, c: int| self.most_constrained(l, c) implies targets@.contains(
                        (l as usize, c as usize),
                    ) by {
                        let k2 = l * 9 + c;
                        assert(k2 / 9 == l && k2 % 9 == c);
                        assert(self.free(k0 / 9, k0 % 9));
                        assert(self.possible(l, c).len() <= n);
                        assert(self.possible(k2 / 9, k2 % 9).len() == n);
                    }
                }
            },
        }
        targets
    }

    /// How many digits are still possible at `line` and `column`.
    pub fn count(&self, line: usize, column: usize) -> (n: usize)
        requires
            self.wf(),
            line < 9,
            column < 9,
        ensures
            n == self.possible(line as int, column as int).len(),
    {
        self.cells[line][column].count()
    }

    /// The digits that are still possible at `line` and `column`, each
    /// once, in no particular order.
    pub fn values(&self, line: usize, column: usize) -> (values: Vec<u8>)
        requires
            self.wf(),
            line < 9,
            column < 9,
        ensures
            values@.no_duplicates(),
            values@.to_set() == self.possible(line as int, column as int),
    {
        self.cells[line][column].values()
    }

    /// The digits that are still possible at `line` and `column`.
    pub closed spec fn possible(&self, line: int, column: int) -> Set<u8> {
        self.cells@[line]@[column].possible()
    }

    /// Strikes `value` out of the cell at `l` and `c`.
    fn strike(&mut self, l: usize, c: usize, value: u8) -> (r: Result<(), InvalidCell>)
        requires
            old(self).wf(),
            l < 9,
            c < 9,
        ensures
            final(self).wf(),
            final(self).possible(l as int, c as int) == old(self).possible(
                l as int,
                c as int,
            ).remove(value),
            forall|l2: int, c2: int|
                0 <= l2 < 9 && 0 <= c2 < 9 && (l2 != l || c2 != c) ==> final(self).possible(l2, c2)
                    == old(self).possible(l2, c2),
            final(self).possible(l as int, c as int).len() == 0 ==> r == Err::<(), InvalidCell>(
                InvalidCell::EmptyValueSet,
            ),
            final(self).possible(l as int, c as int).len() > 0 ==> r is Ok,
    {
        self.cells[l][c].remove(value)
    }

    /// Assigns `value` at `line` and `column` and strikes it out of the
    /// cells on the same line, in the same column and in the same block.
    ///
    /// Fails as soon as a cell is left without a possible digit; what was
    /// struck until then stays struck. A value that is not possible at
    /// `line` and `column` leaves that cell as it was and is struck out of
    /// its peers all the same.
    pub fn set_cell_value(&mut self, line: usize, column: usize, value: u8) -> (r: Result<
        (),
        InvalidCell,
    >)
        requires
            old(self).wf(),
            line < 9,
            column < 9,
        ensures
            final(self).wf(),
            forall|l: int, c: int|
                0 <= l < 9 && 0 <= c < 9 ==> (#[trigger] final(self).possible(l, c)).subset_of(
                    old(self).possible(l, c),
                ),
            r is Err <==> old(self).starves(line as int, column as int, value),
            r is Err ==> r == Err::<(), InvalidCell>(InvalidCell::EmptyValueSet),
            r is Ok ==> forall|l: int, c: int|
                0 <= l < 9 && 0 <= c < 9 ==> #[trigger] final(self).possible(l, c) == old(
                    self,
                ).after(line as int, column as int, value, l, c),
    {
        let ghost start = *self;
        let ghost mut done: Set<(int, int)> = Set::empty();
        let _ = self.cells[line][column].set(value);
        let mut c: usize = 0;
        while c < 9
            invariant
                c <= 9,
                line < 9,
                column < 9,
                self.wf(),
                start.wf(),
                start == *old(self),
                start.marks(*self, line as int, column as int, value, done),
                forall|c2: int| 0 <= c2 < c && c2 != column ==> done.contains((line as int, c2)),
            decreases 9 - c,
        {
            if c != column {
                let ghost before = *self;
                let r = self.strike(line, c, value);
                proof {
                    start.lemma_marks_strike(
                        before,
                        *self,
                        line as int,
                        column as int,
                        value,
                        done,
                        line as int,
                        c as int,
                    );
                    if r is Ok {
                        done = done.insert((line as int, c as int));
                    }
                }
                if r.is_err() {
                    return r;
                }
            }
            c = c + 1;
        }
        let mut l: usize = 0;
        while l < 9
            invariant
                l <= 9,
                line < 9,
                column < 9,
                self.wf(),
                start.wf(),
                start == *old(self),
                start.marks(*self, line as int, column as int, value, done),
                forall|c2: int| 0 <= c2 < 9 && c2 != column ==> done.contains((line as int, c2)),
                forall|l2: int| 0 <= l2 < l && l2 != line ==> done.contains((l2, column as int)),
            decreases 9 - l,
        {
            if l != line {
                let ghost before = *self;
                let r = self.strike(l, column, value);
                proof {
                    start.lemma_marks_strike(
                        before,
                        *self,
                        line as int,
                        column as int,
                        value,
                        done,
                        l as int,
                        column as int,
                    );
                    if r is Ok {
                        done = done.insert((l as int, column as int));
                    }
                }
                if r.is_err() {
                    return r;
                }
            }
            l = l + 1;
        }
        let top = (line / 3) * 3;
        let left = (column / 3) * 3;
        let mut k: usize = 0;
        while k < 9
            invariant
                k <= 9,
                line < 9,
                column < 9,
                top == (line / 3) * 3,
                left == (column / 3) * 3,
                self.wf(),
                start.wf(),
                start == *old(self),
                start.marks(*self, line as int, column as int, value, done),
                forall|c2: int| 0 <= c2 < 9 && c2 != column ==> done.contains((line as int, c2)),
                forall|l2: int| 0 <= l2 < 9 && l2 != line ==> done.contains((l2, column as int)),
                forall|l2: int, c2: int|
                    #![trigger done.contains((l2, c2))]
                    top <= l2 < top + 3 && left <= c2 < left + 3 && (l2 - top) * 3 + (c2 - left)
                        < k && (l2 != line || c2 != column) ==> done.contains((l2, c2)),
            decreases 9 - k,
        {
            let l = top + k / 3;
            let c = left + k % 3;
            if l != line || c != column {
                let ghost before = *self;
                let r = self.strike(l, c, value);
                proof {
                    start.lemma_marks_strike(
                        before,
                        *self,
                        line as int,
                        column as int,
                        value,
                        done,
                        l as int,
                        c as int,
                    );
                    if r is Ok {
                        done = done.insert((l as int, c as int));
                    }
                }
                if r.is_err() {
                    return r;
                }
            }
            k = k + 1;
        }
        proof {
            assert forall|l: int, c: int|
                0 <= l < 9 && 0 <= c < 9 && peers(
                    line as int,
                    column as int,
                    l,
                    c,
                ) implies done.contains((l, c)) by {
                if l != line && c != column {
                    assert(top <= l < top + 3 && left <= c < left + 3);
                }
            }
            assert forall|l: int, c: int|
                0 <= l < 9 && 0 <= c < 9 && peers(line as int, column as int, l, c) implies (
            #[trigger] start.possible(l, c)).remove(value).len() != 0 by {
                assert(done.contains((l, c)));
            }
        }
        Ok(())
    }

    /// `now` is what propagation has made of `self` so far: the cell at
    /// `line` and `column` holds the assignment, the cells of `done` have
    /// lost `value` and kept some digit, and the others are untouched.
    pub closed spec fn marks(
        &self,
        now: Board,
        line: int,
        column: int,
        value: u8,
        done: Set<(int, int)>,
    ) -> bool {
        &&& forall|l: int, c: int|
            0 <= l < 9 && 0 <= c < 9 ==> #[trigger] now.possible(l, c) == if l == line && c
                == column {
                self.after(line, column, value, l, c)
            } else if done.contains((l, c)) {
                self.possible(l, c).remove(value)
            } else {
                self.possible(l, c)
            }
        &&& forall|l: int, c: int|
            #![trigger done.contains((l, c))]
            done.contains((l, c)) ==> 0 <= l < 9 && 0 <= c < 9 && peers(line, column, l, c)
                && self.possible(l, c).remove(value).len() > 0
    }

    /// Striking one more peer keeps the marks, with that peer added if it
    /// kept a digit; if it did not, the assignment starves it.
    proof fn lemma_marks_strike(
        &self,
        before: Board,
        now: Board,
        line: int,
        column: int,
        value: u8,
        done: Set<(int, int)>,
        l: int,
        c: int,
    )
        requires
            self.marks(before, line, column, value, done),
            0 <= l < 9,
            0 <= c < 9,
            peers(line, column, l, c),
            now.possible(l, c) == before.possible(l, c).remove(value),
            forall|l2: int, c2: int|
                0 <= l2 < 9 && 0 <= c2 < 9 && (l2 != l || c2 != c) ==> now.possible(l2, c2)
                    == before.possible(l2, c2),
        ensures
            now.possible(l, c) == self.possible(l, c).remove(value),
            now.possible(l, c).len() > 0 ==> self.marks(
                now,
                line,
                column,
                value,
                done.insert((l, c)),
            ),
            now.possible(l, c).len() == 0 ==> self.starves(line, column, value),
            forall|l2: int, c2: int|
                0 <= l2 < 9 && 0 <= c2 < 9 ==> (#[trigger] now.possible(l2, c2)).subset_of(
                    self.possible(l2, c2),
                ),
    {
        assert(before.possible(l, c) == if done.contains((l, c)) {
            self.possible(l, c).remove(value)
        } else {
            self.possible(l, c)
        });
        assert(now.possible(l, c) =~= self.possible(l, c).remove(value));
        assert forall|l2: int, c2: int| 0 <= l2 < 9 && 0 <= c2 < 9 implies (
        #[trigger] now.possible(l2, c2)).subset_of(self.possible(l2, c2)) by {
            if l2 != l || c2 != c {
                assert(now.possible(l2, c2) == before.possible(l2, c2));
            }
        }
        if now.possible(l, c).len() > 0 {
            let more = done.insert((l, c));
            assert forall|l2: int, c2: int|
                0 <= l2 < 9 && 0 <= c2 < 9 implies #[trigger] now.possible(l2, c2) == if l2
                == line && c2 == column {
                self.after(line, column, value, l2, c2)
            } else if more.contains((l2, c2)) {
                self.possible(l2, c2).remove(value)
            } else {
                self.possible(l2, c2)
            } by {
                if l2 != l || c2 != c {
                    assert(now.possible(l2, c2) == before.possible(l2, c2));
                }
            }
        }
    }
}

/// One of `items`, picked at random; `None` when there is none.
///
/// Calls `SliceRandom::choose` with the generator of the running thread
/// (`rand::thread_rng`). Which item comes back is left open: the contract
/// says only that it is one of them. The generator is seeded by the system
/// and gives up, with a panic, on a system that offers no randomness.
#[verifier::external_body]
fn pick(items: &Vec<(usize, usize)>) -> (r: Option<(usize, usize)>)
    ensures
        items@.len() == 0 ==> r is None,
        items@.len() > 0 ==> r is Some && items@.contains(r->0),
{
    items.choose(&mut rand::thread_rng()).copied()
}

impl Board {
    /// `child` is this board after `value`, one of the digits possible at
    /// `line` and `column`, was assigned there without starving a peer.
    pub open spec fn assigned(&self, child: Board, line: int, column: int, value: u8) -> bool {
        &&& child.wf()
        &&& self.possible(line, column).contains(value)
        &&& !self.starves(line, column, value)
        &&& forall|l: int, c: int|
            0 <= l < 9 && 0 <= c < 9 ==> #[trigger] child.possible(l, c) == self.after(
                line,
                column,
                value,
                l,
                c,
            )
    }

    /// `child` is this board after some digit was assigned at `line` and
    /// `column`.
    pub open spec fn child_of(&self, child: Board, line: int, column: int) -> bool {
        exists|value: u8| #[trigger] self.assigned(child, line, column, value)
    }

    /// `children` are the boards that arise from this one by the digits
    /// possible at `line` and `column`: each of them arose by one such
    /// digit, no two by the same, and every digit that starves no peer gave
    /// one.
    #[verifier::opaque]
    pub open spec fn expands_to(&self, children: Seq<Board>, line: int, column: int) -> bool {
        &&& forall|i: int|
            0 <= i < children.len() ==> self.child_of(#[trigger] children[i], line, column)
        &&& forall|i: int, j: int|
            #![trigger children[i], children[j]]
            0 <= i < j < children.len() ==> children[i].possible(line, column)
                != children[j].possible(line, column)
        &&& forall|value: u8|
            self.possible(line, column).contains(value) && !self.starves(line, column, value)
                ==> exists|i: int|
                0 <= i < children.len() && #[trigger] self.assigned(
                    children[i],
                    line,
                    column,
                    value,
                )
    }

    /// `next` is the one board that arises from this one at some undecided
    /// cell with the fewest possible digits: every other digit of that cell
    /// starves a peer.
    pub open spec fn forces(&self, next: Board) -> bool {
        exists|l: int, c: int|
            #[trigger] self.most_constrained(l, c) && self.expands_to(seq![next], l, c)
    }

    /// `chain` starts with a board on which the same digits are possible as
    /// on this one, and each of its boards forces the one after it.
    pub open spec fn follows(&self, chain: Seq<Board>) -> bool {
        &&& chain.len() > 0
        &&& chain[0].wf()
        &&& forall|l: int, c: int|
            0 <= l < 9 && 0 <= c < 9 ==> #[trigger] chain[0].possible(l, c) == self.possible(l, c)
        &&& forall|i: int| 0 <= i < chain.len() - 1 ==> (#[trigger] chain[i]).forces(chain[i + 1])
    }

    /// `children` are what a walk along `chain` ends with: the boards that
    /// arise from the last board of the chain at `line` and `column`, an
    /// undecided cell of that board with the fewest possible digits. The
    /// walk stops there because they are several or none, or because the
    /// only one has no undecided cell left.
    pub open spec fn reaches(
        &self,
        chain: Seq<Board>,
        line: int,
        column: int,
        children: Seq<Board>,
    ) -> bool {
        &&& self.follows(chain)
        &&& chain.last().most_constrained(line, column)
        &&& chain.last().expands_to(children, line, column)
        &&& children.len() == 1 ==> !children[0].has_free_cell()
    }

    /// `later` is a board on which nothing is possible that is not possible
    /// on this one.
    pub open spec fn contains(&self, later: Board) -> bool {
        &&& later.wf()
        &&& forall|l: int, c: int|
            0 <= l < 9 && 0 <= c < 9 ==> (#[trigger] later.possible(l, c)).subset_of(
                self.possible(l, c),
            )
    }

    /// The number of possible digits, summed over the first `n` cells.
    pub open spec fn weight_upto(&self, n: nat) -> nat
        decreases n,
    {
        if n == 0 {
            0
        } else {
            self.weight_upto((n - 1) as nat) + self.possible((n - 1) / 9, (n - 1) % 9).len()
        }
    }

    /// The number of possible digits, summed over the board.
    pub open spec fn weight(&self) -> nat {
        self.weight_upto(81)
    }

    /// A board within this one weighs no more, and less if some cell has
    /// lost a digit.
    pub proof fn lemma_weight(&self, later: Board, n: nat)
        requires
            self.contains(later),
            n <= 81,
        ensures
            later.weight_upto(n) <= self.weight_upto(n),
            (exists|k: int|
                0 <= k < n && (#[trigger] later.possible(k / 9, k % 9)).len() < self.possible(
                    k / 9,
                    k % 9,
                ).len()) ==> later.weight_upto(n) < self.weight_upto(n),
        decreases n,
    {
        if n > 0 {
            let m = n - 1;
            self.lemma_weight(later, m as nat);
            self.lemma_finite(m / 9, m % 9);
            assert(later.possible(m / 9, m % 9).subset_of(self.possible(m / 9, m % 9)));
            vstd::set_lib::lemma_len_subset(
                later.possible(m / 9, m % 9),
                self.possible(m / 9, m % 9),
            );
            if exists|k: int|
                0 <= k < n && (#[trigger] later.possible(k / 9, k % 9)).len() < self.possible(
                    k / 9,
                    k % 9,
                ).len() {
                let k = choose|k: int|
                    0 <= k < n && (#[trigger] later.possible(k / 9, k % 9)).len() < self.possible(
                        k / 9,
                        k % 9,
                    ).len();
                if k < m {
                    assert(later.possible(k / 9, k % 9).len() < self.possible(k / 9, k % 9).len());
                }
            }
        }
    }

    /// Whether some cell is still undecided.
    pub fn has_free(&self) -> (r: bool)
        requires
            self.wf(),
        ensures
            r == self.has_free_cell(),
    {
        self.most_constrained_cells().len() > 0
    }

    /// A copy of this board on which `value` is assigned at `line` and
    /// `column`; `None` when the assignment starves a peer of that cell.
    pub fn assign(&self, line: usize, column: usize, value: u8) -> (r: Option<Board>)
        requires
            self.wf(),
            line < 9,
            column < 9,
        ensures
            r is None <==> self.starves(line as int, column as int, value),
            r matches Some(child) ==> child.wf() && forall|l: int, c: int|
                0 <= l < 9 && 0 <= c < 9 ==> #[trigger] child.possible(l, c) == self.after(
                    line as int,
                    column as int,
                    value,
                    l,
                    c,
                ),
            r matches Some(child) ==> (self.possible(line as int, column as int).contains(value)
                ==> self.assigned(child, line as int, column as int, value)),
    {
        let mut child = self.clone();
        let ghost copy = child;
        let outcome = child.set_cell_value(line, column, value);
        proof {
            if copy.starves(line as int, column as int, value) {
                let (l, c) = choose|l: int, c: int|
                    0 <= l < 9 && 0 <= c < 9 && peers(line as int, column as int, l, c) && (
                    #[trigger] copy.possible(l, c)).remove(value).len() == 0;
                assert(self.possible(l, c).remove(value).len() == 0);
            }
            if self.starves(line as int, column as int, value) {
                let (l, c) = choose|l: int, c: int|
                    0 <= l < 9 && 0 <= c < 9 && peers(line as int, column as int, l, c) && (
                    #[trigger] self.possible(l, c)).remove(value).len() == 0;
                assert(copy.possible(l, c).remove(value).len() == 0);
            }
        }
        match outcome {
            Err(_) => None,
            Ok(()) => {
                proof {
                    assert forall|l: int, c: int|
                        0 <= l < 9 && 0 <= c < 9 implies #[trigger] child.possible(l, c)
                        == self.after(line as int, column as int, value, l, c) by {
                        assert(child.possible(l, c) == copy.after(
                            line as int,
                            column as int,
                            value,
                            l,
                            c,
                        ));
                        assert(copy.possible(l, c) == self.possible(l, c));
                    }
                }
                Some(child)
            },
        }
    }

    /// The boards that arise from this one by assigning, at `line` and
    /// `column`, each digit that is possible there: one board for every
    /// digit whose assignment starves no peer, in no particular order.
    pub fn children_at(&self, line: usize, column: usize) -> (children: Vec<Board>)
        requires
            self.wf(),
            line < 9,
            column < 9,
        ensures
            forall|i: int|
                0 <= i < children@.len() ==> self.child_of(
                    #[trigger] children@[i],
                    line as int,
                    column as int,
                ),
            forall|i: int, j: int|
                #![trigger children@[i], children@[j]]
                0 <= i < j < children@.len() ==> children@[i].possible(line as int, column as int)
                    != children@[j].possible(line as int, column as int),
            forall|value: u8|
                self.possible(line as int, column as int).contains(value) && !self.starves(
                    line as int,
                    column as int,
                    value,
                ) ==> exists|i: int|
                    0 <= i < children@.len() && #[trigger] self.assigned(
                        children@[i],
                        line as int,
                        column as int,
                        value,
                    ),
            self.expands_to(children@, line as int, column as int),
    {
        let values = self.values(line, column);
        let mut children: Vec<Board> = Vec::new();
        let ghost mut origin: Seq<int> = Seq::empty();
        let mut i: usize = 0;
        while i < values.len()
            invariant
                i <= values.len(),
                self.wf(),
                line < 9,
                column < 9,
                values@.no_duplicates(),
                values@.to_set() == self.possible(line as int, column as int),
                origin.len() == children@.len(),
                forall|c: int|
                    0 <= c < origin.len() ==> 0 <= #[trigger] origin[c] < i && self.assigned(
                        children@[c],
                        line as int,
                        column as int,
                        values@[origin[c]],
                    ),
                forall|c: int, d: int|
                    0 <= c < d < origin.len() ==> #[trigger] origin[c] < #[trigger] origin[d],
                forall|a: int|
                    #![trigger values@[a]]
                    0 <= a < i && !self.starves(line as int, column as int, values@[a])
                        ==> exists|c: int| 0 <= c < origin.len() && #[trigger] origin[c] == a,
            decreases values.len() - i,
        {
            let value = values[i];
            let ghost held = origin;
            proof {
                assert(values@.to_set().contains(values@[i as int]));
            }
            match self.assign(line, column, value) {
                None => {},
                Some(child) => {
                    children.push(child);
                    proof {
                        origin = origin.push(i as int);
                    }
                },
            }
            proof {
                assert forall|a: int|
                    #![trigger values@[a]]
                    0 <= a < i + 1 && !self.starves(
                        line as int,
                        column as int,
                        values@[a],
                    ) implies exists|c: int| 0 <= c < origin.len() && #[trigger] origin[c] == a by {
                    if a < i {
                        let c = choose|c: int| 0 <= c < held.len() && #[trigger] held[c] == a;
                        assert(origin[c] == a);
                    } else {
                        assert(origin[held.len() as int] == a);
                    }
                }
            }
            i = i + 1;
        }
        proof {
            assert forall|value: u8|
                self.possible(line as int, column as int).contains(value) && !self.starves(
                    line as int,
                    column as int,
                    value,
                ) implies exists|c: int|
                0 <= c < children@.len() && #[trigger] self.assigned(
                    children@[c],
                    line as int,
                    column as int,
                    value,
                ) by {
                assert(values@.to_set().contains(value));
                let a = choose|a: int| 0 <= a < values@.len() && values@[a] == value;
                assert(!self.starves(line as int, column as int, values@[a]));
                let c = choose|c: int| 0 <= c < origin.len() && #[trigger] origin[c] == a;
                assert(self.assigned(children@[c], line as int, column as int, values@[origin[c]]));
            }
            assert forall|c: int| 0 <= c < children@.len() implies self.child_of(
                #[trigger] children@[c],
                line as int,
                column as int,
            ) by {
                assert(self.assigned(children@[c], line as int, column as int, values@[origin[c]]));
            }
            assert forall|c: int, d: int|
                #![trigger children@[c], children@[d]]
                0 <= c < d < children@.len() implies children@[c].possible(
                line as int,
                column as int,
            ) != children@[d].possible(line as int, column as int) by {
                let x = values@[origin[c]];
                let y = values@[origin[d]];
                assert(origin[c] < origin[d]);
                self.lemma_assigned_target(children@[c], line as int, column as int, x);
                self.lemma_assigned_target(children@[d], line as int, column as int, y);
                assert(x != y);
                assert(set![x].contains(x));
                assert(!set![y].contains(x));
            }
            reveal(Board::expands_to);
        }
        children
    }

    /// The boards one decision below this one.
    ///
    /// One of the undecided cells with the fewest possible digits is picked
    /// at random and every digit possible there is tried. When exactly one
    /// digit can stand, nothing was decided: the search goes on from the
    /// board with that digit, until a board is reached that offers several
    /// digits, none, or has no undecided cell left. So what comes back is
    /// empty (a dead end), a single board on which every cell is decided, or
    /// two boards or more.
    ///
    /// Which cell is picked is left to chance; whichever it is, the boards
    /// that come back are all the boards that arise at one such cell of the
    /// last board that the forced digits led to.
    pub fn children(&self) -> (children: Vec<Board>)
        requires
            self.wf(),
            self.has_free_cell(),
        ensures
            forall|i: int| 0 <= i < children@.len() ==> self.contains(#[trigger] children@[i]),
            children@.len() == 1 ==> !children@[0].has_free_cell(),
            exists|chain: Seq<Board>, line: int, column: int|
                #[trigger] self.reaches(chain, line, column, children@),
    {
        let mut current = self.clone();
        let ghost mut chain: Seq<Board> = seq![current];
        proof {
            let (l, c) = choose|l: int, c: int|
                0 <= l < 9 && 0 <= c < 9 && #[trigger] self.free(l, c);
            assert(current.free(l, c));
            assert(chain[0] == current);
        }
        loop
            invariant
                self.wf(),
                self.contains(current),
                current.has_free_cell(),
                self.follows(chain),
                chain.last() == current,
            decreases current.weight(),
        {
            let targets = current.most_constrained_cells();
            match pick(&targets) {
                None => {
                    return Vec::new();
                },
                Some((line, column)) => {
                    proof {
                        let at = choose|at: int|
                            0 <= at < targets@.len() && targets@[at] == (line, column);
                        assert(current.most_constrained(
                            targets@[at].0 as int,
                            targets@[at].1 as int,
                        ));
                    }
                    let mut children = current.children_at(line, column);
                    proof {
                        assert forall|i: int| 0 <= i < children@.len() implies self.contains(
                            #[trigger] children@[i],
                        ) && children@[i].weight() < current.weight() by {
                            assert(current.child_of(children@[i], line as int, column as int));
                            let value = choose|value: u8|
                                #[trigger] current.assigned(
                                    children@[i],
                                    line as int,
                                    column as int,
                                    value,
                                );
                            current.lemma_assigned_within(
                                children@[i],
                                line as int,
                                column as int,
                                value,
                            );
                            self.lemma_contains_transitive(current, children@[i]);
                        }
                    }
                    if children.len() != 1 {
                        proof {
                            assert(self.reaches(chain, line as int, column as int, children@));
                        }
                        return children;
                    }
                    let ghost all = children@;
                    match children.pop() {
                        None => {
                            return children;
                        },
                        Some(only) => {
                            assert(only == all[0]);
                            assert(all =~= seq![only]);
                            if !only.has_free() {
                                let mut last: Vec<Board> = Vec::new();
                                last.push(only);
                                proof {
                                    assert(last@ =~= all);
                                    assert(self.reaches(chain, line as int, column as int, last@));
                                }
                                return last;
                            }
                            proof {
                                self.lemma_follows_push(
                                    chain,
                                    only,
                                    line as int,
                                    column as int,
                                );
                                chain = chain.push(only);
                            }
                            current = only;
                        },
                    }
                },
            }
        }
    }

    /// A chain can be followed one board further when its last board
    /// forces that board.
    pub proof fn lemma_follows_push(&self, chain: Seq<Board>, next: Board, line: int, column: int)
        requires
            self.follows(chain),
            chain.last().most_constrained(line, column),
            chain.last().expands_to(seq![next], line, column),
        ensures
            self.follows(chain.push(next)),
            chain.push(next).last() == next,
    {
        let longer = chain.push(next);
        assert(chain.last().forces(next));
        assert(longer[0] == chain[0]);
        assert forall|i: int| 0 <= i < longer.len() - 1 implies (#[trigger] longer[i]).forces(
            longer[i + 1],
        ) by {
            if i < chain.len() - 1 {
                assert(longer[i] == chain[i]);
                assert(longer[i + 1] == chain[i + 1]);
                assert(chain[i].forces(chain[i + 1]));
            } else {
                assert(longer[i] == chain.last());
                assert(longer[i + 1] == next);
            }
        }
    }

    /// A board that arose by an assignment at an undecided cell lies within
    /// the board it arose from and weighs less.
    pub proof fn lemma_assigned_within(&self, child: Board, line: int, column: int, value: u8)
        requires
            0 <= line < 9,
            0 <= column < 9,
            self.assigned(child, line, column, value),
        ensures
            self.contains(child),
            self.free(line, column) ==> child.weight() < self.weight(),
    {
        assert forall|l: int, c: int| 0 <= l < 9 && 0 <= c < 9 implies (
        #[trigger] child.possible(l, c)).subset_of(self.possible(l, c)) by {
            assert(child.possible(l, c) == self.after(line, column, value, l, c));
        }
        self.lemma_weight(child, 81);
        if self.free(line, column) {
            let k = line * 9 + column;
            assert(k / 9 == line && k % 9 == column);
            assert(child.possible(k / 9, k % 9) == set![value]);
            assert(set![value].len() == 1);
            assert(child.possible(k / 9, k % 9).len() < self.possible(k / 9, k % 9).len());
        }
    }

    /// What lies within a board that lies within this one lies within this
    /// one.
    pub proof fn lemma_contains_transitive(&self, middle: Board, later: Board)
        requires
            self.contains(middle),
            middle.contains(later),
        ensures
            self.contains(later),
    {
        assert forall|l: int, c: int| 0 <= l < 9 && 0 <= c < 9 implies (
        #[trigger] later.possible(l, c)).subset_of(self.possible(l, c)) by {
            assert(later.possible(l, c).subset_of(middle.possible(l, c)));
            assert(middle.possible(l, c).subset_of(self.possible(l, c)));
        }
    }

    /// On a board that arose by an assignment, the assigned digit alone is
    /// possible in the cell that took it.
    pub proof fn lemma_assigned_target(&self, child: Board, line: int, column: int, value: u8)
        requires
            0 <= line < 9,
            0 <= column < 9,
            self.assigned(child, line, column, value),
        ensures
            child.possible(line, column) == set![value],
    {
    }
}

} // verus!
