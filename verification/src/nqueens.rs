//! N queens: as many queens as the board has lines, none attacking another.
//!
//! Every square of the board is a variable that says whether a queen stands
//! on it.
use crate::domain::{DomainView, InvalidStateError};
use crate::grid::{column_of, line_of};
use crate::pairwise::{
    admits, admitted, compatible, lemma_admitted, lemma_pruned, prune, pruned_state, Pairwise,
};
use crate::search::Searchable;
use crate::state::{assignment, determined_keys, keys_of, narrows, solved, within, State};
use itertools::Itertools;
use vstd::prelude::*;

verus! {

/// The squares to which `t` gives the value `wanted`.
pub open spec fn holders(t: Map<usize, bool>, wanted: bool) -> Set<usize> {
    Set::new(|k: usize| t.contains_key(k) && t[k] == wanted)
}

/// All pairs of two items of `s`, the earlier item first, ordered by the
/// places of the two items.
pub open spec fn pair_seq(s: Seq<usize>) -> Seq<(usize, usize)>
    decreases s.len(),
{
    if s.len() == 0 {
        Seq::empty()
    } else {
        Seq::new((s.len() - 1) as nat, |j: int| (s[0], s[j + 1])) + pair_seq(s.drop_first())
    }
}

/// Every pair of `pair_seq(s)` is made of an item of `s` and a later one.
pub proof fn lemma_pair_seq_from(s: Seq<usize>, k: int)
    requires
        0 <= k < pair_seq(s).len(),
    ensures
        exists|i: int, j: int| 0 <= i < j < s.len() && pair_seq(s)[k] == (s[i], s[j]),
    decreases s.len(),
{
    if s.len() > 0 {
        let head = Seq::new((s.len() - 1) as nat, |j: int| (s[0], s[j + 1]));
        if k < head.len() {
            assert(pair_seq(s)[k] == (s[0], s[k + 1]));
        } else {
            lemma_pair_seq_from(s.drop_first(), k - head.len());
            let (i, j) = choose|i: int, j: int|
                0 <= i < j < s.drop_first().len() && pair_seq(s.drop_first())[k - head.len()] == (
                    s.drop_first()[i],
                    s.drop_first()[j],
                );
            assert(pair_seq(s)[k] == (s[i + 1], s[j + 1]));
        }
    }
}

/// Every item of `s` stands in `pair_seq(s)` with every later one.
pub proof fn lemma_pair_seq_has(s: Seq<usize>, i: int, j: int)
    requires
        0 <= i < j < s.len(),
    ensures
        exists|k: int| 0 <= k < pair_seq(s).len() && pair_seq(s)[k] == (s[i], s[j]),
    decreases s.len(),
{
    let head = Seq::new((s.len() - 1) as nat, |j: int| (s[0], s[j + 1]));
    if i == 0 {
        assert(pair_seq(s)[j - 1] == (s[0], s[j]));
    } else {
        lemma_pair_seq_has(s.drop_first(), i - 1, j - 1);
        let k = choose|k: int|
            0 <= k < pair_seq(s.drop_first()).len() && pair_seq(s.drop_first())[k] == (
                s.drop_first()[i - 1],
                s.drop_first()[j - 1],
            );
        assert(pair_seq(s)[head.len() + k] == (s[i], s[j]));
    }
}

/// The combinations of two items of `items`.
///
/// Calls `Itertools::combinations` with a length of two. It yields each
/// choice of two places once, the places in increasing order, the choices
/// in the lexicographic order of their places; the contract says so.
#[verifier::external_body]
fn combinations(items: &Vec<usize>) -> (pairs: Vec<(usize, usize)>)
    ensures
        pairs@ == pair_seq(items@),
{
    items.iter().combinations(2).map(|pair| (*pair[0], *pair[1])).collect()
}

/// The rules of the puzzle for a board of a given side, over the squares of
/// a board numbered line by line.
#[derive(Debug, Clone, Copy)]
pub struct NQueens {
    /// The number of lines, and of columns, and of queens.
    pub side: usize,
}

impl NQueens {
    /// The rules for a board of the given side.
    pub fn new(side: usize) -> (rules: Self)
        ensures
            rules.side == side,
    {
        NQueens { side }
    }

    /// Two distinct squares on one line, in one column or on one diagonal.
    pub open spec fn attacks(&self, a: usize, b: usize) -> bool {
        let line_a = line_of(a, self.side);
        let line_b = line_of(b, self.side);
        let column_a = column_of(a, self.side);
        let column_b = column_of(b, self.side);
        &&& self.side > 0
        &&& a != b
        &&& (line_a == line_b || column_a == column_b || line_a + column_b == line_b + column_a
            || line_a + column_a == line_b + column_b)
    }

    /// Computes `attacks`.
    pub fn is_attacking(&self, a: usize, b: usize) -> (r: bool)
        ensures
            r == self.attacks(a, b),
    {
        if self.side == 0 || a == b {
            return false;
        }
        let line_a = (a / self.side) as u128;
        let line_b = (b / self.side) as u128;
        let column_a = (a % self.side) as u128;
        let column_b = (b % self.side) as u128;
        line_a == line_b || column_a == column_b || line_a + column_b == line_b + column_a
            || line_a + column_a == line_b + column_b
    }

    /// The squares that `state` has committed to `wanted`, each once.
    pub fn holding(&self, state: &State<usize, bool>, wanted: bool) -> (squares: Vec<usize>)
        requires
            state.wf(),
        ensures
            squares@.no_duplicates(),
            squares@.to_set() == holders(assignment(state@), wanted),
            squares@.len() == holders(assignment(state@), wanted).len(),
    {
        let pairs = state.determined();
        let ghost keys = keys_of(pairs@);
        let mut squares: Vec<usize> = Vec::new();
        let mut i: usize = 0;
        while i < pairs.len()
            invariant
                i <= pairs.len(),
                keys == keys_of(pairs@),
                keys.no_duplicates(),
                squares@.no_duplicates(),
                forall|j: int|
                    0 <= j < squares@.len() ==> exists|a: int|
                        0 <= a < i && pairs@[a] == (#[trigger] squares@[j], wanted),
                forall|a: int|
                    0 <= a < i && (#[trigger] pairs@[a]).1 == wanted ==> squares@.contains(
                        pairs@[a].0,
                    ),
            decreases pairs.len() - i,
        {
            let (k, value) = pairs[i];
            let ghost held = squares@;
            if value == wanted {
                proof {
                    assert forall|j: int| 0 <= j < held.len() implies held[j] != k by {
                        let a = choose|a: int| 0 <= a < i && pairs@[a] == (held[j], wanted);
                        assert(keys[a] == held[j] && keys[i as int] == k);
                    }
                }
                squares.push(k);
                proof {
                    assert(squares@[held.len() as int] == k);
                    assert forall|j: int| 0 <= j < squares@.len() implies exists|a: int|
                        0 <= a < i + 1 && pairs@[a] == (#[trigger] squares@[j], wanted) by {
                        if j < held.len() {
                            let a = choose|a: int| 0 <= a < i && pairs@[a] == (held[j], wanted);
                            assert(pairs@[a] == (squares@[j], wanted));
                        } else {
                            assert(pairs@[i as int] == (squares@[j], wanted));
                        }
                    }
                    assert forall|a: int|
                        0 <= a < i + 1 && (#[trigger] pairs@[a]).1
                            == wanted implies squares@.contains(pairs@[a].0) by {
                        if a < i {
                            let j = choose|j: int| 0 <= j < held.len() && held[j] == pairs@[a].0;
                            assert(squares@[j] == pairs@[a].0);
                        }
                    }
                }
            }
            i = i + 1;
        }
        proof {
            let t = assignment(state@);
            assert forall|k: usize| squares@.to_set().contains(k) <==> holders(t, wanted).contains(
                k,
            ) by {
                if squares@.to_set().contains(k) {
                    let j = choose|j: int| 0 <= j < squares@.len() && squares@[j] == k;
                    let a = choose|a: int| 0 <= a < i && pairs@[a] == (squares@[j], wanted);
                    assert(state@[pairs@[a].0] == DomainView::Determined(pairs@[a].1));
                    assert(keys[a] == k);
                    assert(keys.to_set().contains(k));
                }
                if holders(t, wanted).contains(k) {
                    assert(determined_keys(state@).contains(k));
                    assert(keys.to_set().contains(k));
                    let a = choose|a: int| 0 <= a < keys.len() && keys[a] == k;
                    assert(pairs@[a].0 == k);
                    assert(state@[pairs@[a].0] == DomainView::Determined(pairs@[a].1));
                }
            }
            assert(squares@.to_set() =~= holders(t, wanted));
            squares@.unique_seq_to_set();
        }
        squares
    }

    /// Whether every square of `state` is decided, exactly as many queens
    /// stand on the board as it has lines, and no queen attacks another.
    pub fn is_solution(&self, state: &State<usize, bool>) -> (r: bool)
        requires
            state.wf(),
        ensures
            r == (solved(state@) && holders(assignment(state@), true).len() == self.side
                && compatible(self, assignment(state@))),
    {
        if !state.is_solved() {
            return false;
        }
        let queens = self.holding(state, true);
        if queens.len() != self.side {
            return false;
        }
        let ghost t = assignment(state@);
        let pairs = combinations(&queens);
        let mut k: usize = 0;
        while k < pairs.len()
            invariant
                k <= pairs.len(),
                t == assignment(state@),
                pairs@ == pair_seq(queens@),
                queens@.to_set() == holders(t, true),
                forall|j: int|
                    0 <= j < k ==> !self.attacks((#[trigger] pairs@[j]).0, pairs@[j].1),
            decreases pairs.len() - k,
        {
            let (a, b) = pairs[k];
            if self.is_attacking(a, b) {
                proof {
                    lemma_pair_seq_from(queens@, k as int);
                    let (i, j) = choose|i: int, j: int|
                        0 <= i < j < queens@.len() && pair_seq(queens@)[k as int] == (
                            queens@[i],
                            queens@[j],
                        );
                    assert(queens@.to_set().contains(queens@[i]));
                    assert(queens@.to_set().contains(queens@[j]));
                    assert(holders(t, true).contains(a) && holders(t, true).contains(b));
                    assert(self.forbids(a, t[a], b, t[b]));
                }
                return false;
            }
            k = k + 1;
        }
        proof {
            assert forall|a: usize, b: usize|
                t.contains_key(a) && t.contains_key(b) implies !#[trigger] self.forbids(
                a,
                t[a],
                b,
                t[b],
            ) by {
                if t[a] && t[b] && a != b {
                    assert(queens@.to_set().contains(a));
                    assert(queens@.to_set().contains(b));
                    let i = choose|i: int| 0 <= i < queens@.len() && queens@[i] == a;
                    let j = choose|j: int| 0 <= j < queens@.len() && queens@[j] == b;
                    if i < j {
                        lemma_pair_seq_has(queens@, i, j);
                        let k = choose|k: int|
                            0 <= k < pair_seq(queens@).len() && pair_seq(queens@)[k] == (
                                queens@[i],
                                queens@[j],
                            );
                        assert(!self.attacks(pairs@[k].0, pairs@[k].1));
                    } else {
                        lemma_pair_seq_has(queens@, j, i);
                        let k = choose|k: int|
                            0 <= k < pair_seq(queens@).len() && pair_seq(queens@)[k] == (
                                queens@[j],
                                queens@[i],
                            );
                        assert(!self.attacks(pairs@[k].0, pairs@[k].1));
                    }
                }
            }
        }
        true
    }
}

impl Pairwise<usize, bool> for NQueens {
    /// Two queens may not attack each other.
    open spec fn forbids(&self, a: usize, x: bool, b: usize, y: bool) -> bool {
        x && y && self.attacks(a, b)
    }

    fn is_forbidden(&self, a: &usize, x: bool, b: &usize, y: bool) -> (r: bool) {
        x && y && self.is_attacking(*a, *b)
    }
}

/// The squares that hold `wanted` in a state's committed part are among
/// those that hold it in any assignment within the state.
pub proof fn lemma_holders_within(m: Map<usize, DomainView<bool>>, t: Map<usize, bool>, wanted: bool)
    requires
        within(t, m),
        m.dom().finite(),
    ensures
        holders(t, wanted).finite(),
        holders(assignment(m), wanted).len() <= holders(t, wanted).len(),
{
    assert(holders(t, wanted).subset_of(m.dom()));
    vstd::set_lib::lemma_len_subset(holders(t, wanted), m.dom());
    assert forall|k: usize| holders(assignment(m), wanted).contains(k) implies holders(
        t,
        wanted,
    ).contains(k) by {
        assert(m[k].candidates().contains(t[k]));
    }
    vstd::set_lib::lemma_len_subset(holders(assignment(m), wanted), holders(t, wanted));
}

impl Searchable<usize, bool> for NQueens {
    /// No queen attacks another, there are no more queens than lines, and
    /// enough squares are left for the queens that are still to come.
    open spec fn consistent(&self, assignment: Map<usize, bool>) -> bool {
        &&& compatible(self, assignment)
        &&& holders(assignment, true).len() <= self.side
        &&& holders(assignment, false).len() + self.side <= self.side * self.side
    }

    open spec fn exact(&self) -> bool {
        true
    }

    /// A queen may be placed while there are no more queens than lines and
    /// no queen on the board attacks it; a square may be left empty while
    /// enough squares remain for the queens.
    fn check_constraints(&self, state: &State<usize, bool>, variable: &usize, value: bool) -> (feasible:
        bool)
        ensures
            feasible == if value {
                holders(assignment(state@), true).len() <= self.side && admitted(
                    self,
                    state@,
                    *variable,
                    value,
                )
            } else {
                holders(assignment(state@), false).len() + self.side <= self.side * self.side
            },
    {
        let ghost now = assignment(state@);
        let ghost before = now.remove(*variable);
        proof {
            lemma_admitted(self, state@, *variable, value);
            assert(admitted(self, state@, *variable, false));
            assert(holders(before, !value) =~= holders(now, !value));
            assert forall|t: Map<usize, bool>| (#[trigger] within(t, state@)) implies holders(
                now,
                true,
            ).len() <= holders(t, true).len() && holders(now, false).len() <= holders(
                t,
                false,
            ).len() by {
                lemma_holders_within(state@, t, true);
                lemma_holders_within(state@, t, false);
            }
        }
        if value {
            let queens = self.holding(state, true);
            queens.len() <= self.side && admits(self, state, variable, value)
        } else {
            let empty = self.holding(state, false);
            let side = self.side as u128;
            assert(side * side <= u128::MAX) by (nonlinear_arith)
                requires
                    0 <= side <= u64::MAX,
            ;
            empty.len() as u128 + side <= side * side
        }
    }

    /// A queen takes away the squares it attacks; an empty square takes
    /// away nothing.
    fn simplify(&self, state: &mut State<usize, bool>, variable: &usize, value: bool) -> (r: Result<
        (),
        InvalidStateError,
    >)
        ensures
            r is Ok ==> final(state)@ == pruned_state(self, old(state)@, *variable, value),
    {
        proof {
            lemma_pruned(self, state@, *variable, value);
        }
        if value {
            prune(self, state, variable, value)
        } else {
            proof {
                assert(state@ =~= pruned_state(self, state@, *variable, value)) by {
                    assert forall|k: usize| state@.contains_key(k) implies #[trigger] state@[k]
                        == crate::pairwise::pruned(self, state@[k], *variable, value, k) by {
                        if state@[k] is Undetermined {
                            let s = state@[k]->Undetermined_0;
                            assert(s.filter(|y: bool| !self.forbids(*variable, value, k, y))
                                =~= s);
                        }
                    }
                }
                assert forall|k: usize| state@.contains_key(k) implies (
                #[trigger] state@[k]).narrows(state@[k]) by {}
            }
            Ok(())
        }
    }
}

} // verus!
