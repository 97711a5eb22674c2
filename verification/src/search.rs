//! Branching and depth-first traversal.
use crate::domain::{members, DomainView, InvalidStateError};
use crate::state::{
    assignment, most_constrained, narrows, refines, solved, undetermined_keys, valid, within, State,
};
use std::hash::Hash;
use vstd::prelude::*;

verus! {

broadcast use vstd::std_specs::hash::group_hash_axioms;

/// The capability a problem supplies to the engine: a feasibility check for
/// a fresh assignment, and the propagation that follows it.
///
/// Both are called on the state in which `variable` has just been fixed to
/// `value`.
pub trait Searchable<V: Eq + Hash + Copy, D: Eq + Hash + Copy> {
    /// The problem's constraint, read on the committed part of a state. The
    /// engine keeps it true of every state it produces, as far as
    /// `check_constraints` vouches for each new assignment.
    open spec fn consistent(&self, assignment: Map<V, D>) -> bool {
        true
    }

    /// Whether the two operations decide by `consistent` and by nothing
    /// else: the check never refuses, and propagation never loses, a
    /// complete assignment that is consistent. A search with such a problem
    /// finds every consistent assignment. Nothing of the kind is claimed by
    /// default.
    open spec fn exact(&self) -> bool {
        false
    }

    /// Whether `value` at `variable` is compatible with what the state has
    /// committed besides. A pure query.
    fn check_constraints(&self, state: &State<V, D>, variable: &V, value: D) -> (feasible: bool)
        requires
            state.wf(),
            state@.contains_key(*variable),
            state@[*variable] == DomainView::Determined(value),
        ensures
            feasible && self.consistent(assignment(state@).remove(*variable)) ==> self.consistent(
                assignment(state@),
            ),
            self.exact() ==> forall|t: Map<V, D>|
                (#[trigger] within(t, state@)) && self.consistent(t) ==> feasible,
    ;

    /// Takes away, from the open variables that `variable` constrains, the
    /// candidates that `value` rules out. It commits nothing and touches no
    /// committed value; it fails when some variable would be left without a
    /// candidate. The default propagates nothing.
    fn simplify(&self, state: &mut State<V, D>, variable: &V, value: D) -> (r: Result<
        (),
        InvalidStateError,
    >)
        requires
            old(state).wf(),
            old(state)@.contains_key(*variable),
            old(state)@[*variable] == DomainView::Determined(value),
        ensures
            final(state).wf(),
            narrows(final(state)@, old(state)@),
            self.exact() ==> forall|t: Map<V, D>|
                (#[trigger] within(t, old(state)@)) && self.consistent(t) ==> r is Ok && within(
                    t,
                    final(state)@,
                ),
    {
        Ok(())
    }
}

/// `t` lies within one of the states of `pending`.
pub open spec fn covered<V, D>(t: Map<V, D>, pending: Seq<Map<V, DomainView<D>>>) -> bool {
    exists|i: int| 0 <= i < pending.len() && within(t, #[trigger] pending[i])
}

/// The views of a sequence of states.
pub open spec fn views<V, D>(states: Seq<State<V, D>>) -> Seq<Map<V, DomainView<D>>> {
    Seq::new(states.len(), |i: int| states[i]@)
}

/// `child` is `parent` with one candidate of the open variable `v`
/// committed, and with no more than propagation done to the other variables.
pub open spec fn branch_of<V, D>(
    child: Map<V, DomainView<D>>,
    parent: Map<V, DomainView<D>>,
    v: V,
) -> bool {
    &&& parent.contains_key(v)
    &&& parent[v] is Undetermined
    &&& child.contains_key(v)
    &&& child[v] is Determined
    &&& parent[v].candidates().contains(child[v]->Determined_0)
    &&& narrows(child, parent.insert(v, child[v]))
}

/// Adds a tentative child to the retained ones if propagation succeeded,
/// and drops it if propagation found the branch infeasible.
pub fn retain<V, D>(
    children: &mut Vec<State<V, D>>,
    child: State<V, D>,
    propagated: Result<(), InvalidStateError>,
)
    ensures
        propagated is Ok ==> final(children)@ == old(children)@.push(child),
        propagated is Err ==> final(children)@ == old(children)@,
{
    match propagated {
        Ok(()) => {
            children.push(child);
        },
        Err(_) => {},
    }
}

/// One round of branching keeps every consistent assignment covered: those
/// that take an earlier candidate stay covered, and those that take the
/// candidate just tried are covered by the child just retained.
proof fn lemma_step_covers<V: Eq + Hash + Copy, D: Eq + Hash + Copy, P: Searchable<V, D>>(
    problem: &P,
    parent: Map<V, DomainView<D>>,
    variable: V,
    values: Seq<D>,
    i: int,
    held: Seq<State<V, D>>,
    children: Seq<State<V, D>>,
    feasible: bool,
    propagated: Result<(), InvalidStateError>,
)
    requires
        0 <= i < values.len(),
        parent.contains_key(variable),
        children == if feasible && propagated is Ok {
            held.push(children.last())
        } else {
            held
        },
        feasible && propagated is Ok ==> children.len() == held.len() + 1,
        problem.exact() ==> forall|t: Map<V, D>|
            (#[trigger] within(t, parent)) && problem.consistent(t) && (exists|a: int|
                0 <= a < i && t[variable] == #[trigger] values[a]) ==> covered(t, views(held)),
        problem.exact() ==> forall|t: Map<V, D>|
            (#[trigger] within(
                t,
                parent.insert(variable, DomainView::Determined(values[i])),
            )) && problem.consistent(t) ==> feasible && propagated is Ok && within(
                t,
                children.last()@,
            ),
    ensures
        problem.exact() ==> forall|t: Map<V, D>|
            (#[trigger] within(t, parent)) && problem.consistent(t) && (exists|a: int|
                0 <= a < i + 1 && t[variable] == #[trigger] values[a]) ==> covered(
                t,
                views(children),
            ),
{
    if problem.exact() {
        assert forall|t: Map<V, D>|
            (#[trigger] within(t, parent)) && problem.consistent(t) && (exists|a: int|
                0 <= a < i + 1 && t[variable] == #[trigger] values[a]) implies covered(
            t,
            views(children),
        ) by {
            let a = choose|a: int| 0 <= a < i + 1 && t[variable] == #[trigger] values[a];
            if a < i {
                assert(covered(t, views(held)));
                let c = choose|c: int|
                    0 <= c < views(held).len() && within(t, #[trigger] views(held)[c]);
                assert(views(children)[c] == views(held)[c]);
            } else {
                let fixed = parent.insert(variable, DomainView::Determined(values[i]));
                assert(fixed.dom() =~= parent.dom());
                assert forall|k: V| fixed.contains_key(k) implies (
                #[trigger] fixed[k]).candidates().contains(t[k]) by {
                    if k != variable {
                        assert(parent[k].candidates().contains(t[k]));
                    }
                }
                assert(within(t, fixed));
                assert(views(children)[held.len() as int] == children.last()@);
            }
        }
    }
}

impl<V: Eq + Hash + Copy, D: Eq + Hash + Copy> State<V, D> {
    /// The states one level below this one.
    ///
    /// A solved state has none. Otherwise the engine picks a most
    /// constrained variable and tries each of its candidates on a copy of
    /// this state: the candidate is committed, `check_constraints` is asked,
    /// and if it agrees `simplify` is run. The copies for which both
    /// succeed are returned, in no particular order.
    pub fn offspring<P: Searchable<V, D>>(&self, problem: &P) -> (children: Vec<State<V, D>>)
        requires
            self.wf(),
        ensures
            solved(self@) ==> children@.len() == 0,
            forall|i: int| 0 <= i < children@.len() ==> (#[trigger] children@[i]).wf(),
            !solved(self@) ==> exists|v: V|
                {
                    &&& most_constrained(self@, v)
                    &&& children@.len() <= self@[v].candidates().len()
                    &&& forall|i: int|
                        0 <= i < children@.len() ==> branch_of((#[trigger] children@[i])@, self@, v)
                    &&& forall|i: int, j: int|
                        0 <= i < j < children@.len() ==> (#[trigger] children@[i])@[v]
                            != (#[trigger] children@[j])@[v]
                },
            problem.consistent(assignment(self@)) ==> forall|i: int|
                0 <= i < children@.len() ==> problem.consistent(
                    assignment((#[trigger] children@[i])@),
                ),
            problem.exact() && !solved(self@) ==> forall|t: Map<V, D>|
                (#[trigger] within(t, self@)) && problem.consistent(t) ==> covered(
                    t,
                    views(children@),
                ),
    {
        let mut children: Vec<State<V, D>> = Vec::new();
        match self.most_constrained_variable() {
            None => {},
            Some((variable, candidates)) => {
                let values = members(&candidates);
                let mut i: usize = 0;
                while i < values.len()
                    invariant
                        self.wf(),
                        i <= values.len(),
                        values@.no_duplicates(),
                        values@.to_set() == self@[variable].candidates(),
                        self@.contains_key(variable),
                        self@[variable] is Undetermined,
                        children@.len() <= i,
                        forall|c: int| 0 <= c < children@.len() ==> (#[trigger] children@[c]).wf(),
                        forall|c: int|
                            0 <= c < children@.len() ==> branch_of(
                                (#[trigger] children@[c])@,
                                self@,
                                variable,
                            ),
                        forall|c: int|
                            0 <= c < children@.len() ==> exists|a: int|
                                0 <= a < i && (#[trigger] children@[c])@[variable]
                                    == DomainView::Determined(values@[a]),
                        forall|c: int, d: int|
                            0 <= c < d < children@.len() ==> (#[trigger] children@[c])@[variable]
                                != (#[trigger] children@[d])@[variable],
                        problem.consistent(assignment(self@)) ==> forall|c: int|
                            0 <= c < children@.len() ==> problem.consistent(
                                assignment((#[trigger] children@[c])@),
                            ),
                        problem.exact() ==> forall|t: Map<V, D>|
                            (#[trigger] within(t, self@)) && problem.consistent(t) && (exists|
                                a: int,
                            |
                                0 <= a < i && t[variable] == #[trigger] values@[a]) ==> covered(
                                t,
                                views(children@),
                            ),
                    decreases values.len() - i,
                {
                    let value = values[i];
                    proof {
                        assert(values@.to_set().contains(values@[i as int]));
                    }
                    let mut child = self.clone();
                    child.fix(&variable, value);
                    let ghost fixed = child@;
                    let ghost held = children@;
                    let feasible = problem.check_constraints(&child, &variable, value);
                    let mut propagated: Result<(), InvalidStateError> = Err(InvalidStateError);
                    if feasible {
                        propagated = problem.simplify(&mut child, &variable, value);
                        let ghost pruned = child@;
                        proof {
                            assert(assignment(fixed).remove(variable) =~= assignment(self@));
                            assert(assignment(pruned) =~= assignment(fixed));
                            assert(pruned[variable].narrows(fixed[variable]));
                        }
                        retain(&mut children, child, propagated);
                    }
                    proof {
                        lemma_step_covers(
                            problem,
                            self@,
                            variable,
                            values@,
                            i as int,
                            held,
                            children@,
                            feasible,
                            propagated,
                        );
                        assert forall|c: int| 0 <= c < children@.len() implies exists|a: int|
                            0 <= a < i + 1 && (#[trigger] children@[c])@[variable]
                                == DomainView::Determined(values@[a]) by {
                            if c < held.len() {
                                let a = choose|a: int|
                                    0 <= a < i && held[c]@[variable] == DomainView::Determined(
                                        values@[a],
                                    );
                                assert(children@[c]@[variable] == DomainView::Determined(
                                    values@[a],
                                ));
                            } else {
                                assert(children@[c]@[variable] == DomainView::Determined(
                                    values@[i as int],
                                ));
                            }
                        }
                        assert forall|c: int, d: int|
                            0 <= c < d < children@.len() implies (#[trigger] children@[c])@[variable]
                            != (#[trigger] children@[d])@[variable] by {
                            if d == held.len() {
                                let a = choose|a: int|
                                    0 <= a < i && held[c]@[variable] == DomainView::Determined(
                                        values@[a],
                                    );
                                assert(values@[a] != values@[i as int]);
                            }
                        }
                    }
                    i = i + 1;
                }
                proof {
                    assert(most_constrained(self@, variable));
                    assert(self@[variable] is Undetermined);
                    assert(!solved(self@));
                    if problem.exact() {
                        assert forall|t: Map<V, D>|
                            (#[trigger] within(t, self@)) && problem.consistent(
                                t,
                            ) implies covered(t, views(children@)) by {
                            assert(self@[variable].candidates().contains(t[variable]));
                            assert(values@.to_set().contains(t[variable]));
                            let a = choose|a: int|
                                0 <= a < values@.len() && values@[a] == t[variable];
                            assert(t[variable] == values@[a]);
                        }
                    }
                }
            },
        }
        children
    }
}


/// The number of variables that are still open.
pub open spec fn open_count<V, D>(m: Map<V, DomainView<D>>) -> nat {
    undetermined_keys(m).len()
}

/// No open variable of `m` has more than `width` candidates.
pub open spec fn bounded<V, D>(m: Map<V, DomainView<D>>, width: nat) -> bool {
    forall|k: V|
        m.contains_key(k) && (#[trigger] m[k]) is Undetermined ==> m[k].candidates().len()
            <= width
}

/// `m` refines one of the states of `pending`.
pub open spec fn descends<V, D>(
    m: Map<V, DomainView<D>>,
    pending: Seq<Map<V, DomainView<D>>>,
) -> bool {
    exists|i: int| 0 <= i < pending.len() && refines(m, #[trigger] pending[i])
}

/// The largest number of states that a search can visit below a state with
/// `open` open variables of at most `width` candidates each, that state
/// included.
pub open spec fn weight(width: nat, open: nat) -> nat
    decreases open,
{
    if open == 0 {
        1
    } else {
        1 + width * weight(width, (open - 1) as nat)
    }
}

/// The sum of the weights of the states of `pending`.
pub open spec fn total_weight<V, D>(width: nat, pending: Seq<Map<V, DomainView<D>>>) -> nat
    decreases pending.len(),
{
    if pending.len() == 0 {
        0
    } else {
        total_weight(width, pending.drop_last()) + weight(width, open_count(pending.last()))
    }
}

/// Refinement is transitive.
pub proof fn lemma_refines_transitive<V, D>(
    a: Map<V, DomainView<D>>,
    b: Map<V, DomainView<D>>,
    c: Map<V, DomainView<D>>,
)
    requires
        refines(a, b),
        refines(b, c),
    ensures
        refines(a, c),
{
    assert forall|k: V| c.contains_key(k) implies {
        &&& (#[trigger] a[k]).candidates().subset_of(c[k].candidates())
        &&& c[k] is Determined ==> a[k] == c[k]
    } by {
        assert(b.contains_key(k));
        assert(a[k].candidates().subset_of(b[k].candidates()));
        assert(b[k].candidates().subset_of(c[k].candidates()));
    }
}

/// A child refines its parent, keeps its candidate sets within the parent's
/// bound, and has exactly one open variable fewer.
pub proof fn lemma_branch<V, D>(
    child: Map<V, DomainView<D>>,
    parent: Map<V, DomainView<D>>,
    v: V,
    width: nat,
)
    requires
        valid(parent),
        bounded(parent, width),
        branch_of(child, parent, v),
    ensures
        refines(child, parent),
        bounded(child, width),
        open_count(child) + 1 == open_count(parent),
{
    let fixed = parent.insert(v, child[v]);
    assert(fixed.dom() =~= parent.dom());
    assert forall|k: V| parent.contains_key(k) implies {
        &&& (#[trigger] child[k]).candidates().subset_of(parent[k].candidates())
        &&& parent[k] is Determined ==> child[k] == parent[k]
    } by {
        assert(child[k].narrows(fixed[k]));
    }
    assert forall|k: V|
        child.contains_key(k) && (#[trigger] child[k]) is Undetermined implies child[k].candidates().len()
        <= width by {
        assert(child[k].narrows(fixed[k]));
        assert(parent[k].valid());
        vstd::set_lib::lemma_len_subset(child[k].candidates(), parent[k].candidates());
    }
    assert(undetermined_keys(child) =~= undetermined_keys(parent).remove(v)) by {
        assert forall|k: V| undetermined_keys(child).contains(k) <==> undetermined_keys(
            parent,
        ).remove(v).contains(k) by {
            if parent.contains_key(k) {
                assert(child[k].narrows(fixed[k]));
            }
        }
    }
    assert(undetermined_keys(parent).subset_of(parent.dom()));
    vstd::set_lib::lemma_len_subset(undetermined_keys(parent), parent.dom());
    assert(undetermined_keys(parent).contains(v));
}

/// Some number bounds the candidate sets of a state with finitely many
/// variables.
pub proof fn lemma_width_exists<V, D>(m: Map<V, DomainView<D>>)
    requires
        m.dom().finite(),
    ensures
        exists|width: nat| bounded(m, width),
    decreases m.dom().len(),
{
    if m.dom().len() == 0 {
        m.dom().lemma_len0_is_empty();
        assert(bounded(m, 0));
    } else {
        let k = m.dom().choose();
        let rest = m.remove(k);
        lemma_width_exists(rest);
        let below = choose|width: nat| bounded(rest, width);
        let here = m[k].candidates().len();
        let width = if here > below {
            here
        } else {
            below
        };
        assert forall|j: V|
            m.contains_key(j) && (#[trigger] m[j]) is Undetermined implies m[j].candidates().len()
            <= width by {
            if j != k {
                assert(rest.contains_key(j) && rest[j] == m[j]);
            }
        }
        assert(bounded(m, width));
    }
}

/// The weight of a concatenation is the sum of the weights.
pub proof fn lemma_total_weight_concat<V, D>(
    width: nat,
    a: Seq<Map<V, DomainView<D>>>,
    b: Seq<Map<V, DomainView<D>>>,
)
    ensures
        total_weight(width, a + b) == total_weight(width, a) + total_weight(width, b),
    decreases b.len(),
{
    if b.len() == 0 {
        assert(a + b =~= a);
    } else {
        assert((a + b).drop_last() =~= a + b.drop_last());
        assert((a + b).last() == b.last());
        lemma_total_weight_concat(width, a, b.drop_last());
    }
}

/// States that all have `open` open variables weigh as much as one of them,
/// times their number.
pub proof fn lemma_total_weight_uniform<V, D>(
    width: nat,
    states: Seq<Map<V, DomainView<D>>>,
    open: nat,
)
    requires
        forall|i: int| 0 <= i < states.len() ==> open_count(#[trigger] states[i]) == open,
    ensures
        total_weight(width, states) == states.len() * weight(width, open),
    decreases states.len(),
{
    if states.len() > 0 {
        lemma_total_weight_uniform(width, states.drop_last(), open);
        let n = states.len() as int;
        let w = weight(width, open) as int;
        assert((n - 1) * w + w == n * w) by (nonlinear_arith);
    }
}

/// The children of a state weigh less than the state itself; each refines
/// it and stays within its bound.
pub proof fn lemma_children_weight<V, D>(
    width: nat,
    parent: Map<V, DomainView<D>>,
    kids: Seq<Map<V, DomainView<D>>>,
    v: V,
)
    requires
        valid(parent),
        bounded(parent, width),
        parent.contains_key(v),
        parent[v] is Undetermined,
        kids.len() <= parent[v].candidates().len(),
        forall|i: int| 0 <= i < kids.len() ==> branch_of(#[trigger] kids[i], parent, v),
    ensures
        total_weight(width, kids) < weight(width, open_count(parent)),
        forall|i: int|
            0 <= i < kids.len() ==> refines(#[trigger] kids[i], parent) && bounded(kids[i], width),
{
    let open = open_count(parent);
    assert(open >= 1) by {
        assert(undetermined_keys(parent).contains(v));
        vstd::set_lib::lemma_len_subset(undetermined_keys(parent), parent.dom());
        if undetermined_keys(parent).len() == 0 {
            undetermined_keys(parent).lemma_len0_is_empty();
        }
    }
    let below = (open - 1) as nat;
    assert forall|i: int| 0 <= i < kids.len() implies refines(#[trigger] kids[i], parent)
        && bounded(kids[i], width) && open_count(kids[i]) == below by {
        lemma_branch(kids[i], parent, v, width);
    }
    lemma_total_weight_uniform(width, kids, below);
    let each = weight(width, below) as int;
    let count = kids.len() as int;
    assert(count <= width);
    assert(count * each <= width * each) by (nonlinear_arith)
        requires
            0 <= count <= width,
            0 <= each,
    ;
    assert(weight(width, open) == 1 + width * weight(width, below));
}

/// An assignment lies within a concatenation exactly when it lies within
/// one of the two parts.
pub proof fn lemma_covered_concat<V, D>(
    t: Map<V, D>,
    a: Seq<Map<V, DomainView<D>>>,
    b: Seq<Map<V, DomainView<D>>>,
)
    ensures
        covered(t, a + b) <==> covered(t, a) || covered(t, b),
{
    if covered(t, a) {
        let i = choose|i: int| 0 <= i < a.len() && within(t, #[trigger] a[i]);
        assert((a + b)[i] == a[i]);
    }
    if covered(t, b) {
        let i = choose|i: int| 0 <= i < b.len() && within(t, #[trigger] b[i]);
        assert((a + b)[a.len() + i] == b[i]);
    }
    if covered(t, a + b) {
        let i = choose|i: int| 0 <= i < (a + b).len() && within(t, #[trigger] (a + b)[i]);
        if i < a.len() {
            assert((a + b)[i] == a[i]);
        } else {
            assert((a + b)[i] == b[i - a.len()]);
        }
    }
}

/// The one assignment within a solved state is its committed part, and it
/// lies within every state that the solved one refines.
pub proof fn lemma_solved_assignment<V, D>(m: Map<V, DomainView<D>>, earlier: Map<V, DomainView<D>>)
    requires
        solved(m),
        refines(m, earlier),
    ensures
        within(assignment(m), m),
        within(assignment(m), earlier),
        forall|t: Map<V, D>| within(t, m) ==> t == assignment(m),
{
    let a = assignment(m);
    assert(a.dom() =~= m.dom());
    assert forall|k: V| m.contains_key(k) implies (#[trigger] m[k]).candidates().contains(
        a[k],
    ) by {
        assert(m[k] is Determined);
    }
    assert forall|k: V| earlier.contains_key(k) implies (
    #[trigger] earlier[k]).candidates().contains(a[k]) by {
        assert(m[k] is Determined);
        assert(m[k].candidates().subset_of(earlier[k].candidates()));
        assert(m[k].candidates().contains(a[k]));
    }
    assert forall|t: Map<V, D>| within(t, m) implies t == a by {
        assert forall|k: V| t.contains_key(k) implies #[trigger] t[k] == a[k] by {
            assert(m[k] is Determined);
            assert(m[k].candidates().contains(t[k]));
        }
        assert(t =~= a);
    }
}

/// What lies within a state lies within every state that it refines.
pub proof fn lemma_within_refined<V, D>(
    t: Map<V, D>,
    m: Map<V, DomainView<D>>,
    earlier: Map<V, DomainView<D>>,
)
    requires
        within(t, m),
        refines(m, earlier),
    ensures
        within(t, earlier),
{
    assert forall|k: V| earlier.contains_key(k) implies (
    #[trigger] earlier[k]).candidates().contains(t[k]) by {
        assert(m[k].candidates().subset_of(earlier[k].candidates()));
        assert(m[k].candidates().contains(t[k]));
    }
}

/// No assignment lies within two states of `pending`, and none of `found`
/// lies within any: the search meets no assignment twice.
pub open spec fn apart<V, D>(found: Set<Map<V, D>>, pending: Seq<Map<V, DomainView<D>>>) -> bool {
    &&& forall|t: Map<V, D>, i: int|
        found.contains(t) && 0 <= i < pending.len() ==> !#[trigger] within(t, pending[i])
    &&& forall|t: Map<V, D>, i: int, j: int|
        0 <= i < j < pending.len() ==> !(#[trigger] within(t, pending[i]) && #[trigger] within(
            t,
            pending[j],
        ))
}

/// Replacing the last pending state by its children keeps the states apart.
pub proof fn lemma_apart_expand<V, D>(
    found: Set<Map<V, D>>,
    rest: Seq<Map<V, DomainView<D>>>,
    parent: Map<V, DomainView<D>>,
    kids: Seq<Map<V, DomainView<D>>>,
    v: V,
)
    requires
        apart(found, rest.push(parent)),
        forall|i: int| 0 <= i < kids.len() ==> refines(#[trigger] kids[i], parent),
        forall|i: int| 0 <= i < kids.len() ==> (#[trigger] kids[i])[v] is Determined,
        parent.contains_key(v),
        forall|i: int, j: int|
            0 <= i < j < kids.len() ==> (#[trigger] kids[i])[v] != (#[trigger] kids[j])[v],
    ensures
        apart(found, rest + kids),
{
    let before = rest.push(parent);
    let after = rest + kids;
    let last = rest.len() as int;
    assert(before[last] == parent);
    assert forall|t: Map<V, D>, i: int|
        found.contains(t) && 0 <= i < after.len() implies !#[trigger] within(t, after[i]) by {
        if i < rest.len() {
            assert(after[i] == before[i]);
        } else {
            assert(after[i] == kids[i - rest.len()]);
            if within(t, after[i]) {
                lemma_within_refined(t, after[i], parent);
                assert(within(t, before[last]));
            }
        }
    }
    assert forall|t: Map<V, D>, i: int, j: int| 0 <= i < j < after.len() implies !(
    #[trigger] within(t, after[i]) && #[trigger] within(t, after[j])) by {
        if within(t, after[i]) && within(t, after[j]) {
            if j < rest.len() {
                assert(after[i] == before[i] && after[j] == before[j]);
            } else if i < rest.len() {
                assert(after[i] == before[i]);
                assert(after[j] == kids[j - rest.len()]);
                lemma_within_refined(t, after[j], parent);
                assert(within(t, before[last]));
            } else {
                let a = kids[i - rest.len()];
                let b = kids[j - rest.len()];
                assert(after[i] == a && after[j] == b);
                assert(a.contains_key(v) && b.contains_key(v));
                assert(a[v].candidates().contains(t[v]));
                assert(b[v].candidates().contains(t[v]));
                assert(a[v] == b[v]);
            }
        }
    }
}

/// Lazy depth-first enumeration of the solved states below a root, on an
/// explicit stack of the states that are still to be explored.
#[verifier::reject_recursive_types(V)]
#[verifier::reject_recursive_types(D)]
pub struct SolutionIterator<V, D, P> {
    stack: Vec<State<V, D>>,
    problem: P,
    root: Ghost<Map<V, DomainView<D>>>,
    width: Ghost<nat>,
    found: Ghost<Set<Map<V, D>>>,
}

impl<V: Eq + Hash + Copy, D: Eq + Hash + Copy, P: Searchable<V, D>> SolutionIterator<V, D, P> {
    /// The states still to be explored, the next one last.
    pub closed spec fn pending(&self) -> Seq<Map<V, DomainView<D>>> {
        views(self.stack@)
    }

    /// The state the search started from.
    pub closed spec fn root(&self) -> Map<V, DomainView<D>> {
        self.root@
    }

    /// The problem whose constraints steer the search.
    pub closed spec fn problem(&self) -> P {
        self.problem
    }

    /// The assignments of the solved states that the search has returned so
    /// far.
    pub closed spec fn found(&self) -> Set<Map<V, D>> {
        self.found@
    }

    /// A bound on the number of states the search has yet to visit.
    pub closed spec fn work(&self) -> nat {
        total_weight(self.width@, self.pending())
    }

    /// Every pending state is well formed, refines the root, and is
    /// consistent if the root is; so is all that was found.
    spec fn sound(&self) -> bool {
        &&& forall|i: int|
            0 <= i < self.stack@.len() ==> {
                &&& (#[trigger] self.stack@[i]).wf()
                &&& refines(self.stack@[i]@, self.root@)
                &&& bounded(self.stack@[i]@, self.width@)
                &&& self.problem.consistent(assignment(self.root@)) ==> self.problem.consistent(
                    assignment(self.stack@[i]@),
                )
            }
        &&& forall|t: Map<V, D>| #[trigger]
            self.found@.contains(t) ==> within(t, self.root@) && (self.problem.consistent(
                assignment(self.root@),
            ) ==> self.problem.consistent(t))
    }

    /// With an exact problem, every consistent assignment within the root
    /// has been found or lies within a pending state or a state of `extra`.
    spec fn complete(&self, extra: Seq<Map<V, DomainView<D>>>) -> bool {
        self.problem.exact() ==> forall|t: Map<V, D>|
            (#[trigger] within(t, self.root@)) && self.problem.consistent(t)
                ==> self.found@.contains(t) || covered(t, self.pending()) || covered(t, extra)
    }

    /// The invariant of the search: what is pending and what was found
    /// descends from the root, no assignment can be met twice, and nothing
    /// that an exact problem admits has been lost on the way.
    pub closed spec fn wf(&self) -> bool {
        &&& self.sound()
        &&& self.complete(Seq::empty())
        &&& apart(self.found@, self.pending())
    }

    /// What was found lies within the root, and is consistent if the root
    /// is.
    pub proof fn lemma_found_sound(&self)
        requires
            self.wf(),
        ensures
            forall|t: Map<V, D>| #[trigger]
                self.found().contains(t) ==> within(t, self.root()) && (self.problem().consistent(
                    assignment(self.root()),
                ) ==> self.problem().consistent(t)),
    {
    }

    /// Once an exact problem has been searched to exhaustion, every
    /// consistent assignment within the root has been found.
    pub proof fn lemma_found_complete(&self)
        requires
            self.wf(),
            self.pending().len() == 0,
            self.problem().exact(),
        ensures
            forall|t: Map<V, D>|
                (#[trigger] within(t, self.root())) && self.problem().consistent(t)
                    ==> self.found().contains(t),
    {
    }

    /// A search that has `state` alone to explore.
    pub fn new(state: State<V, D>, problem: P) -> (search: Self)
        requires
            state.wf(),
        ensures
            search.wf(),
            search.root() == state@,
            search.problem() == problem,
            search.pending() == seq![state@],
            search.found() == Set::<Map<V, D>>::empty(),
    {
        let ghost root = state@;
        proof {
            lemma_width_exists(root);
        }
        let ghost width = choose|width: nat| bounded(root, width);
        let mut stack: Vec<State<V, D>> = Vec::new();
        stack.push(state);
        let search = SolutionIterator {
            stack,
            problem,
            root: Ghost(root),
            width: Ghost(width),
            found: Ghost(Set::empty()),
        };
        proof {
            assert(search.pending() =~= seq![state@]);
            assert(search.pending()[0] == root);
        }
        search
    }

    /// The next solved state, or `None` when the search is exhausted.
    ///
    /// Pending states are taken off the stack until a solved one turns up,
    /// which is returned; the children of each unsolved one take its place.
    /// Once `None` has been returned, nothing is pending and every later
    /// call returns `None` again.
    pub fn next(&mut self) -> (r: Option<State<V, D>>)
        requires
            old(self).wf(),
        ensures
            final(self).wf(),
            final(self).root() == old(self).root(),
            final(self).problem() == old(self).problem(),
            final(self).work() <= old(self).work(),
            r is Some ==> final(self).work() < old(self).work(),
            r is None ==> final(self).pending().len() == 0 && final(self).found() == old(
                self,
            ).found(),
            old(self).pending().len() == 0 ==> r is None,
            old(self).pending().len() > 0 && solved(old(self).pending().last()) ==> r is Some
                && r->0@ == old(self).pending().last() && final(self).pending() == old(
                self,
            ).pending().drop_last(),
            r matches Some(state) ==> {
                &&& state.wf()
                &&& solved(state@)
                &&& refines(state@, old(self).root())
                &&& descends(state@, old(self).pending())
                &&& old(self).problem().consistent(assignment(old(self).root()))
                    ==> old(self).problem().consistent(assignment(state@))
                &&& !old(self).found().contains(assignment(state@))
                &&& final(self).found() == old(self).found().insert(assignment(state@))
            },
            forall|j: int|
                0 <= j < final(self).pending().len() ==> descends(
                    #[trigger] final(self).pending()[j],
                    old(self).pending(),
                ),
    {
        let ghost start = self.pending();
        proof {
            assert forall|j: int| 0 <= j < start.len() implies descends(
                #[trigger] start[j],
                start,
            ) by {
                assert(refines(start[j], start[j]));
            }
        }
        loop
            invariant
                self.wf(),
                self.root() == old(self).root(),
                self.problem() == old(self).problem(),
                self.found() == old(self).found(),
                self.work() <= old(self).work(),
                start == old(self).pending(),
                self.pending() == start || (start.len() > 0 && !solved(start.last())),
                forall|j: int|
                    0 <= j < self.pending().len() ==> descends(#[trigger] self.pending()[j], start),
            decreases self.work(),
        {
            let ghost before = self.pending();
            match self.stack.pop() {
                None => {
                    return None;
                },
                Some(state) => {
                    proof {
                        assert(self.pending() =~= before.drop_last());
                        assert(state@ == before.last());
                        assert(before =~= self.pending() + seq![state@]);
                        assert(descends(before[before.len() - 1], start));
                        assert forall|j: int| 0 <= j < self.pending().len() implies descends(
                            #[trigger] self.pending()[j],
                            start,
                        ) by {
                            assert(self.pending()[j] == before[j]);
                        }
                        assert(self.complete(seq![state@])) by {
                            if self.problem.exact() {
                                assert forall|t: Map<V, D>|
                                    (#[trigger] within(t, self.root@))
                                        && self.problem.consistent(
                                        t,
                                    ) implies self.found@.contains(t) || covered(
                                    t,
                                    self.pending(),
                                ) || covered(t, seq![state@]) by {
                                    lemma_covered_concat(t, self.pending(), seq![state@]);
                                    lemma_covered_concat(
                                        t,
                                        before,
                                        Seq::<Map<V, DomainView<D>>>::empty(),
                                    );
                                }
                            }
                        }
                    }
                    proof {
                        assert(apart(self.found@, self.pending().push(state@))) by {
                            assert(self.pending().push(state@) =~= before);
                        }
                    }
                    if state.is_solved() {
                        proof {
                            lemma_solved_assignment(state@, self.root@);
                            let with_state = self.pending().push(state@);
                            let last = self.pending().len() as int;
                            assert(with_state[last] == state@);
                            assert(!self.found@.contains(assignment(state@)));
                            assert forall|t: Map<V, D>, i: int|
                                self.found@.insert(assignment(state@)).contains(t) && 0 <= i
                                    < self.pending().len() implies !#[trigger] within(
                                t,
                                self.pending()[i],
                            ) by {
                                assert(with_state[i] == self.pending()[i]);
                            }
                            assert forall|t: Map<V, D>, i: int, j: int|
                                0 <= i < j < self.pending().len() implies !(
                            #[trigger] within(t, self.pending()[i]) && #[trigger] within(
                                t,
                                self.pending()[j],
                            )) by {
                                assert(with_state[i] == self.pending()[i]);
                                assert(with_state[j] == self.pending()[j]);
                            }
                            assert forall|t: Map<V, D>| covered(t, seq![state@]) implies t
                                == assignment(state@) by {
                                let i = choose|i: int|
                                    0 <= i < seq![state@].len() && within(
                                        t,
                                        #[trigger] seq![state@][i],
                                    );
                                assert(seq![state@][i] == state@);
                            }
                        }
                        self.found = Ghost(self.found@.insert(assignment(state@)));
                        return Some(state);
                    }
                    let ghost rest = self.pending();
                    self.expand(&state);
                    proof {
                        let origin = choose|i: int|
                            0 <= i < start.len() && refines(state@, #[trigger] start[i]);
                        assert forall|j: int| 0 <= j < self.pending().len() implies descends(
                            #[trigger] self.pending()[j],
                            start,
                        ) by {
                            if j < rest.len() {
                                assert(self.pending()[j] == rest[j]);
                            } else {
                                lemma_refines_transitive(
                                    self.pending()[j],
                                    state@,
                                    start[origin],
                                );
                            }
                        }
                    }
                },
            }
        }
    }

    /// Puts the children of `state` on the stack.
    fn expand(&mut self, state: &State<V, D>)
        requires
            old(self).sound(),
            old(self).complete(seq![state@]),
            apart(old(self).found(), old(self).pending().push(state@)),
            state.wf(),
            !solved(state@),
            refines(state@, old(self).root()),
            bounded(state@, old(self).width@),
            old(self).problem().consistent(assignment(old(self).root()))
                ==> old(self).problem().consistent(assignment(state@)),
        ensures
            final(self).wf(),
            final(self).root() == old(self).root(),
            final(self).problem() == old(self).problem(),
            final(self).found() == old(self).found(),
            final(self).width@ == old(self).width@,
            final(self).work() < old(self).work() + weight(old(self).width@, open_count(state@)),
            final(self).pending().len() >= old(self).pending().len(),
            forall|j: int|
                0 <= j < final(self).pending().len() ==> if j < old(self).pending().len() {
                    #[trigger] final(self).pending()[j] == old(self).pending()[j]
                } else {
                    refines(final(self).pending()[j], state@)
                },
    {
        let ghost rest = self.stack@;
        let mut children = state.offspring(&self.problem);
        let ghost kids = children@;
        proof {
            let v = choose|v: V|
                {
                    &&& most_constrained(state@, v)
                    &&& kids.len() <= state@[v].candidates().len()
                    &&& forall|i: int|
                        0 <= i < kids.len() ==> branch_of((#[trigger] kids[i])@, state@, v)
                    &&& forall|i: int, j: int|
                        0 <= i < j < kids.len() ==> (#[trigger] kids[i])@[v] != (
                        #[trigger] kids[j])@[v]
                };
            assert forall|i: int| 0 <= i < views(kids).len() implies branch_of(
                #[trigger] views(kids)[i],
                state@,
                v,
            ) by {
                assert(views(kids)[i] == kids[i]@);
            }
            lemma_children_weight(self.width@, state@, views(kids), v);
            lemma_total_weight_concat(self.width@, views(rest), views(kids));
            assert(views(rest + kids) =~= views(rest) + views(kids));
            assert forall|i: int| 0 <= i < kids.len() implies refines(
                (#[trigger] kids[i])@,
                self.root@,
            ) && bounded(kids[i]@, self.width@) by {
                assert(views(kids)[i] == kids[i]@);
                lemma_refines_transitive(kids[i]@, state@, self.root@);
            }
            assert forall|i: int| 0 <= i < views(kids).len() implies (
            #[trigger] views(kids)[i])[v] is Determined by {
                assert(views(kids)[i] == kids[i]@);
            }
            assert forall|i: int, j: int| 0 <= i < j < views(kids).len() implies (
            #[trigger] views(kids)[i])[v] != (#[trigger] views(kids)[j])[v] by {
                assert(views(kids)[i] == kids[i]@);
                assert(views(kids)[j] == kids[j]@);
            }
            lemma_apart_expand(self.found@, views(rest), state@, views(kids), v);
            if self.problem.exact() {
                assert forall|t: Map<V, D>|
                    (#[trigger] within(t, self.root@)) && self.problem.consistent(
                        t,
                    ) implies self.found@.contains(t) || covered(
                    t,
                    views(rest) + views(kids),
                ) by {
                    lemma_covered_concat(t, views(rest), views(kids));
                    if covered(t, seq![state@]) {
                        let i = choose|i: int|
                            0 <= i < seq![state@].len() && within(t, #[trigger] seq![state@][i]);
                        assert(seq![state@][i] == state@);
                    }
                }
            }
        }
        self.stack.append(&mut children);
        proof {
            assert(self.stack@ == rest + kids);
            assert forall|j: int| 0 <= j < self.pending().len() implies if j < rest.len() {
                #[trigger] self.pending()[j] == views(rest)[j]
            } else {
                refines(self.pending()[j], state@)
            } by {
                if j >= rest.len() {
                    assert(self.pending()[j] == views(kids)[j - rest.len()]);
                }
            }
        }
    }
}

impl<V: Eq + Hash + Copy, D: Eq + Hash + Copy> State<V, D> {
    /// A lazy search for the solved states below this one.
    pub fn solution_iter<P: Searchable<V, D>>(&self, problem: P) -> (search: SolutionIterator<
        V,
        D,
        P,
    >)
        requires
            self.wf(),
        ensures
            search.wf(),
            search.root() == self@,
            search.problem() == problem,
            search.pending() == seq![self@],
            search.found() == Set::<Map<V, D>>::empty(),
    {
        SolutionIterator::new(self.clone(), problem)
    }
}

/// The committed parts of a sequence of states.
pub open spec fn assignments<V, D>(states: Seq<State<V, D>>) -> Set<Map<V, D>> {
    Set::new(|t: Map<V, D>| exists|i: int| 0 <= i < states.len() && assignment(#[trigger] states[i]@) == t)
}

/// Every solved state that the search finds below `state`, collected at
/// once.
///
/// Each of them refines `state`, and is consistent if `state` is; no two
/// of them agree on every variable. With an exact problem and a consistent
/// `state` they are all there is: their assignments are exactly the
/// consistent assignments within `state`.
pub fn find_all<V: Eq + Hash + Copy, D: Eq + Hash + Copy, P: Searchable<V, D>>(
    state: &State<V, D>,
    problem: P,
) -> (solutions: Vec<State<V, D>>)
    requires
        state.wf(),
    ensures
        forall|i: int|
            0 <= i < solutions@.len() ==> {
                &&& (#[trigger] solutions@[i]).wf()
                &&& solved(solutions@[i]@)
                &&& refines(solutions@[i]@, state@)
                &&& problem.consistent(assignment(state@)) ==> problem.consistent(
                    assignment(solutions@[i]@),
                )
            },
        forall|i: int, j: int|
            0 <= i < j < solutions@.len() ==> assignment((#[trigger] solutions@[i])@)
                != assignment((#[trigger] solutions@[j])@),
        problem.exact() && problem.consistent(assignment(state@)) ==> forall|t: Map<V, D>|
            assignments(solutions@).contains(t) <==> within(t, state@) && problem.consistent(t),
{
    let mut search = state.solution_iter(problem);
    let mut solutions: Vec<State<V, D>> = Vec::new();
    loop
        invariant
            search.wf(),
            search.root() == state@,
            search.problem() == problem,
            search.found() == assignments(solutions@),
            forall|i: int, j: int|
                0 <= i < j < solutions@.len() ==> assignment((#[trigger] solutions@[i])@)
                    != assignment((#[trigger] solutions@[j])@),
            forall|i: int|
                0 <= i < solutions@.len() ==> {
                    &&& (#[trigger] solutions@[i]).wf()
                    &&& solved(solutions@[i]@)
                    &&& refines(solutions@[i]@, state@)
                    &&& problem.consistent(assignment(state@)) ==> problem.consistent(
                        assignment(solutions@[i]@),
                    )
                },
        decreases search.work(),
    {
        let ghost held = solutions@;
        match search.next() {
            Some(solution) => {
                proof {
                    assert forall|i: int| 0 <= i < held.len() implies assignment(
                        (#[trigger] held[i])@,
                    ) != assignment(solution@) by {
                        assert(assignments(held).contains(assignment(held[i]@)));
                    }
                }
                solutions.push(solution);
                proof {
                    assert forall|t: Map<V, D>|
                        assignments(solutions@).contains(t) <==> assignments(held).insert(
                            assignment(solution@),
                        ).contains(t) by {
                        if assignments(solutions@).contains(t) {
                            let i = choose|i: int|
                                0 <= i < solutions@.len() && assignment(
                                    #[trigger] solutions@[i]@,
                                ) == t;
                            if i < held.len() {
                                assert(assignment(held[i]@) == t);
                            }
                        }
                        if assignments(held).contains(t) {
                            let i = choose|i: int|
                                0 <= i < held.len() && assignment(#[trigger] held[i]@) == t;
                            assert(assignment(solutions@[i]@) == t);
                        }
                        if t == assignment(solution@) {
                            assert(assignment(solutions@[held.len() as int]@) == t);
                        }
                    }
                    assert(assignments(solutions@) =~= assignments(held).insert(
                        assignment(solution@),
                    ));
                }
            },
            None => {
                proof {
                    search.lemma_found_sound();
                    if problem.exact() {
                        search.lemma_found_complete();
                    }
                }
                return solutions;
            },
        }
    }
}

/// Two exhaustive searches from the same root with the same exact problem
/// have found the same set of assignments, in whatever order each of them
/// went.
pub proof fn lemma_same_solution_set<V: Eq + Hash + Copy, D: Eq + Hash + Copy, P: Searchable<V, D>>(
    first: &SolutionIterator<V, D, P>,
    second: &SolutionIterator<V, D, P>,
)
    requires
        first.wf(),
        second.wf(),
        first.root() == second.root(),
        first.problem() == second.problem(),
        first.pending().len() == 0,
        second.pending().len() == 0,
        first.problem().exact(),
        first.problem().consistent(assignment(first.root())),
    ensures
        first.found() == second.found(),
{
    first.lemma_found_sound();
    first.lemma_found_complete();
    second.lemma_found_sound();
    second.lemma_found_complete();
    assert(first.found() =~= second.found());
}

} // verus!
