//! Problems whose constraint is a conjunction over pairs of assignments.
//!
//! A [`Pairwise`] relation says which two assignments may not stand
//! together. From it this module derives the feasibility check and the
//! propagation that a search needs, and a test of complete states.
use crate::domain::{members, DomainView, InvalidStateError};
use crate::search::Searchable;
use crate::state::{assignment, determined_keys, narrows, solved, within, State};
use std::collections::HashSet;
use std::hash::Hash;
use vstd::prelude::*;

verus! {

broadcast use vstd::std_specs::hash::group_hash_axioms;

/// A constraint between pairs of assignments.
pub trait Pairwise<V, D> {
    /// Whether `x` at `a` rules out `y` at `b`.
    spec fn forbids(&self, a: V, x: D, b: V, y: D) -> bool;

    /// Computes `forbids`.
    fn is_forbidden(&self, a: &V, x: D, b: &V, y: D) -> (r: bool)
        ensures
            r == self.forbids(*a, x, *b, y),
    ;
}

/// No two assignments of `t` rule each other out.
pub open spec fn compatible<V, D, P: Pairwise<V, D>>(p: &P, t: Map<V, D>) -> bool {
    forall|a: V, b: V|
        t.contains_key(a) && t.contains_key(b) ==> !#[trigger] p.forbids(a, t[a], b, t[b])
}

/// Nothing that `m` has committed rules out `value` at `variable`, nor is
/// ruled out by it.
pub open spec fn admitted<V, D, P: Pairwise<V, D>>(
    p: &P,
    m: Map<V, DomainView<D>>,
    variable: V,
    value: D,
) -> bool {
    forall|k: V|
        m.contains_key(k) && (#[trigger] m[k]) is Determined ==> !p.forbids(
            variable,
            value,
            k,
            m[k]->Determined_0,
        ) && !p.forbids(k, m[k]->Determined_0, variable, value)
}

/// The domain of `k` without the candidates that `value` at `variable`
/// rules out.
pub open spec fn pruned<V, D, P: Pairwise<V, D>>(
    p: &P,
    domain: DomainView<D>,
    variable: V,
    value: D,
    k: V,
) -> DomainView<D> {
    match domain {
        DomainView::Determined(x) => DomainView::Determined(x),
        DomainView::Undetermined(s) => DomainView::Undetermined(
            s.filter(|y: D| !p.forbids(variable, value, k, y)),
        ),
    }
}

/// `value` at `variable` rules out every candidate of the open variable `k`.
pub open spec fn starved<V, D, P: Pairwise<V, D>>(
    p: &P,
    domain: DomainView<D>,
    variable: V,
    value: D,
    k: V,
) -> bool {
    &&& domain is Undetermined
    &&& forall|y: D| domain.candidates().contains(y) ==> p.forbids(variable, value, k, y)
}

/// The state after `value` at `variable` has pruned every open variable.
pub open spec fn pruned_state<V, D, P: Pairwise<V, D>>(
    p: &P,
    m: Map<V, DomainView<D>>,
    variable: V,
    value: D,
) -> Map<V, DomainView<D>> {
    Map::new(|k: V| m.contains_key(k), |k: V| pruned(p, m[k], variable, value, k))
}

/// Whether `value` at `variable` agrees with everything that `state` has
/// committed.
pub fn admits<V: Eq + Hash + Copy, D: Eq + Hash + Copy, P: Pairwise<V, D>>(
    p: &P,
    state: &State<V, D>,
    variable: &V,
    value: D,
) -> (r: bool)
    requires
        state.wf(),
    ensures
        r == admitted(p, state@, *variable, value),
{
    let pairs = state.determined();
    let mut i: usize = 0;
    while i < pairs.len()
        invariant
            i <= pairs.len(),
            forall|j: int|
                0 <= j < i ==> !p.forbids(
                    *variable,
                    value,
                    (#[trigger] pairs@[j]).0,
                    pairs@[j].1,
                ) && !p.forbids(pairs@[j].0, pairs@[j].1, *variable, value),
            forall|j: int|
                0 <= j < pairs@.len() ==> state@[(#[trigger] pairs@[j]).0]
                    == DomainView::Determined(pairs@[j].1),
            crate::state::keys_of(pairs@).to_set() == determined_keys(state@),
        decreases pairs.len() - i,
    {
        let (k, y) = pairs[i];
        if p.is_forbidden(variable, value, &k, y) || p.is_forbidden(&k, y, variable, value) {
            proof {
                assert(crate::state::keys_of(pairs@)[i as int] == k);
                assert(crate::state::keys_of(pairs@).to_set().contains(k));
                assert(state@.contains_key(k) && state@[k] is Determined);
            }
            return false;
        }
        i = i + 1;
    }
    proof {
        assert forall|k: V| state@.contains_key(k) && (#[trigger] state@[k]) is Determined implies !p.forbids(
            *variable,
            value,
            k,
            state@[k]->Determined_0,
        ) && !p.forbids(k, state@[k]->Determined_0, *variable, value) by {
            assert(determined_keys(state@).contains(k));
            let j = choose|j: int|
                0 <= j < crate::state::keys_of(pairs@).len() && crate::state::keys_of(pairs@)[j]
                    == k;
            assert(pairs@[j].0 == k);
        }
    }
    true
}

/// A check that answers by `admitted` keeps a compatible assignment
/// compatible, and refuses none that lies within the state.
pub proof fn lemma_admitted<V, D, P: Pairwise<V, D>>(
    p: &P,
    m: Map<V, DomainView<D>>,
    variable: V,
    value: D,
)
    requires
        m.contains_key(variable),
        m[variable] == DomainView::Determined(value),
    ensures
        admitted(p, m, variable, value) && compatible(p, assignment(m).remove(variable))
            ==> compatible(p, assignment(m)),
        forall|t: Map<V, D>| (#[trigger] within(t, m)) && compatible(p, t) ==> admitted(
            p,
            m,
            variable,
            value,
        ),
{
    let now = assignment(m);
    let before = now.remove(variable);
    if admitted(p, m, variable, value) && compatible(p, before) {
        assert forall|a: V, b: V| now.contains_key(a) && now.contains_key(b) implies !#[trigger] p.forbids(
            a,
            now[a],
            b,
            now[b],
        ) by {
            if a != variable && b != variable {
                assert(before.contains_key(a) && before.contains_key(b));
                assert(!p.forbids(a, before[a], b, before[b]));
            } else if a == variable {
                assert(m[b] is Determined);
            } else {
                assert(m[a] is Determined);
            }
        }
    }
    assert forall|t: Map<V, D>| (#[trigger] within(t, m)) && compatible(p, t) implies admitted(
        p,
        m,
        variable,
        value,
    ) by {
        assert(m[variable].candidates().contains(t[variable]));
        assert forall|k: V| m.contains_key(k) && (#[trigger] m[k]) is Determined implies !p.forbids(
            variable,
            value,
            k,
            m[k]->Determined_0,
        ) && !p.forbids(k, m[k]->Determined_0, variable, value) by {
            assert(m[k].candidates().contains(t[k]));
            assert(!p.forbids(variable, t[variable], k, t[k]));
            assert(!p.forbids(k, t[k], variable, t[variable]));
        }
    }
}

/// Narrowing on narrowing is narrowing.
pub proof fn lemma_narrows_transitive<V, D>(
    a: Map<V, DomainView<D>>,
    b: Map<V, DomainView<D>>,
    c: Map<V, DomainView<D>>,
)
    requires
        narrows(a, b),
        narrows(b, c),
    ensures
        narrows(a, c),
{
    assert forall|k: V| c.contains_key(k) implies (#[trigger] a[k]).narrows(c[k]) by {
        assert(b.contains_key(k));
        assert(a[k].narrows(b[k]));
        assert(b[k].narrows(c[k]));
    }
}

/// Takes from the open variable `k` the candidates that `value` at
/// `variable` rules out, or fails, without taking the last one, when it
/// rules them all out.
fn prune_one<V: Eq + Hash + Copy, D: Eq + Hash + Copy, P: Pairwise<V, D>>(
    p: &P,
    state: &mut State<V, D>,
    variable: &V,
    value: D,
    k: &V,
    candidates: &HashSet<D>,
) -> (r: Result<(), InvalidStateError>)
    requires
        old(state).wf(),
        old(state)@.contains_key(*k),
        old(state)@[*k] == DomainView::Undetermined(candidates@),
    ensures
        final(state).wf(),
        narrows(final(state)@, old(state)@),
        forall|j: V| j != *k && old(state)@.contains_key(j) ==> final(state)@[j] == old(state)@[j],
        r is Err <==> starved(p, old(state)@[*k], *variable, value, *k),
        r is Ok ==> final(state)@[*k] == pruned(p, old(state)@[*k], *variable, value, *k),
{
    let values = members(candidates);
    let ghost start = state@;
    let ghost all = candidates@;
    let mut i: usize = 0;
    proof {
        assert(start[*k].valid());
        assert(all =~= all.filter(
            |y: D| !(p.forbids(*variable, value, *k, y) && exists|b: int|
                0 <= b < 0 && values@[b] == y),
        ));
    }
    while i < values.len()
        invariant
            i <= values.len(),
            state.wf(),
            start == old(state)@,
            start.contains_key(*k),
            start[*k] == DomainView::Undetermined(all),
            all.finite(),
            values@.no_duplicates(),
            values@.to_set() == all,
            narrows(state@, start),
            forall|j: V| j != *k && start.contains_key(j) ==> state@[j] == start[j],
            state@[*k] == DomainView::Undetermined(
                all.filter(
                    |y: D| !(p.forbids(*variable, value, *k, y) && exists|b: int|
                        0 <= b < i && values@[b] == y),
                ),
            ),
        decreases values.len() - i,
    {
        let y = values[i];
        let ghost before = state@;
        let ghost current = all.filter(
            |y: D| !(p.forbids(*variable, value, *k, y) && exists|b: int|
                0 <= b < i && values@[b] == y),
        );
        let ghost next = all.filter(
            |y: D| !(p.forbids(*variable, value, *k, y) && exists|b: int|
                0 <= b < i + 1 && values@[b] == y),
        );
        proof {
            assert(values@.to_set().contains(values@[i as int]));
            assert(current.contains(y)) by {
                if exists|b: int| 0 <= b < i && values@[b] == y {
                    let b = choose|b: int| 0 <= b < i && values@[b] == y;
                    assert(values@[b] == values@[i as int]);
                }
            }
        }
        if p.is_forbidden(variable, value, k, y) {
            let outcome = state.narrow(k, y);
            proof {
                lemma_narrows_transitive(state@, before, start);
                assert(next =~= current.remove(y)) by {
                    assert forall|z: D| next.contains(z) <==> current.remove(y).contains(z) by {
                        if current.contains(z) && z != y {
                            if exists|b: int| 0 <= b < i + 1 && values@[b] == z {
                                let b = choose|b: int| 0 <= b < i + 1 && values@[b] == z;
                                assert(b < i);
                            }
                        }
                        if next.contains(z) {
                            if z == y {
                                assert(values@[i as int] == z);
                            }
                        }
                    }
                }
            }
            match outcome {
                Err(e) => {
                    proof {
                        assert(before[*k].exhausted_by(y));
                        assert forall|z: D| all.contains(z) implies p.forbids(
                            *variable,
                            value,
                            *k,
                            z,
                        ) by {
                            if !p.forbids(*variable, value, *k, z) {
                                assert(current.contains(z));
                            }
                        }
                    }
                    return Err(e);
                },
                Ok(()) => {},
            }
        } else {
            proof {
                assert(next =~= current) by {
                    assert forall|z: D| next.contains(z) <==> current.contains(z) by {
                        if current.contains(z) {
                            if exists|b: int| 0 <= b < i + 1 && values@[b] == z {
                                let b = choose|b: int| 0 <= b < i + 1 && values@[b] == z;
                                if b == i {
                                    assert(z == y);
                                }
                            }
                        }
                    }
                }
            }
        }
        i = i + 1;
    }
    proof {
        let last = all.filter(
            |y: D| !(p.forbids(*variable, value, *k, y) && exists|b: int|
                0 <= b < i && values@[b] == y),
        );
        let goal = all.filter(|y: D| !p.forbids(*variable, value, *k, y));
        assert(last =~= goal) by {
            assert forall|z: D| last.contains(z) <==> goal.contains(z) by {
                if all.contains(z) {
                    assert(values@.to_set().contains(z));
                    let b = choose|b: int| 0 <= b < values@.len() && values@[b] == z;
                    assert(values@[b] == z);
                }
            }
        }
        assert(state@[*k] == DomainView::Undetermined(last));
        assert(state@.contains_key(*k));
        assert(state@[*k].valid());
        assert(goal.len() > 0);
        let kept = goal.choose();
        assert(goal.contains(kept));
        assert(all.contains(kept) && !p.forbids(*variable, value, *k, kept));
        assert(start[*k].candidates().contains(kept));
        assert(!starved(p, start[*k], *variable, value, *k));
    }
    Ok(())
}

/// Takes from every open variable the candidates that `value` at `variable`
/// rules out. Fails as soon as a variable is found for which it rules out
/// every candidate; what was pruned until then stays pruned.
pub fn prune<V: Eq + Hash + Copy, D: Eq + Hash + Copy, P: Pairwise<V, D>>(
    p: &P,
    state: &mut State<V, D>,
    variable: &V,
    value: D,
) -> (r: Result<(), InvalidStateError>)
    requires
        old(state).wf(),
    ensures
        final(state).wf(),
        narrows(final(state)@, old(state)@),
        r is Err <==> exists|k: V|
            old(state)@.contains_key(k) && #[trigger] starved(
                p,
                old(state)@[k],
                *variable,
                value,
                k,
            ),
        r is Ok ==> final(state)@ == pruned_state(p, old(state)@, *variable, value),
{
    let open = state.undetermined();
    let ghost start = state@;
    let ghost keys = crate::state::keys_of(open@);
    let mut i: usize = 0;
    while i < open.len()
        invariant
            i <= open.len(),
            state.wf(),
            start == old(state)@,
            keys == crate::state::keys_of(open@),
            keys.no_duplicates(),
            keys.to_set() == crate::state::undetermined_keys(start),
            forall|j: int|
                0 <= j < open@.len() ==> start[(#[trigger] open@[j]).0]
                    == DomainView::Undetermined(open@[j].1@),
            narrows(state@, start),
            forall|j: int|
                0 <= j < i ==> state@[#[trigger] keys[j]] == pruned(
                    p,
                    start[keys[j]],
                    *variable,
                    value,
                    keys[j],
                ) && !starved(p, start[keys[j]], *variable, value, keys[j]),
            forall|j: int| i <= j < keys.len() ==> state@[#[trigger] keys[j]] == start[keys[j]],
            forall|k: V|
                start.contains_key(k) && (#[trigger] start[k]) is Determined ==> state@[k]
                    == start[k],
        decreases open.len() - i,
    {
        let ghost before = state@;
        proof {
            assert(keys[i as int] == open@[i as int].0);
            assert(keys.to_set().contains(keys[i as int]));
        }
        let k = open[i].0;
        let outcome = prune_one(p, state, variable, value, &k, &open[i].1);
        proof {
            lemma_narrows_transitive(state@, before, start);
            assert forall|j: int| 0 <= j < keys.len() && j != i implies state@[#[trigger] keys[j]]
                == before[keys[j]] by {
                assert(keys[j] != keys[i as int]);
                assert(keys.to_set().contains(keys[j]));
            }
        }
        match outcome {
            Err(e) => {
                return Err(e);
            },
            Ok(()) => {},
        }
        i = i + 1;
    }
    proof {
        assert forall|k: V| start.contains_key(k) implies #[trigger] state@[k] == pruned(
            p,
            start[k],
            *variable,
            value,
            k,
        ) by {
            if start[k] is Undetermined {
                assert(keys.to_set().contains(k));
                let j = choose|j: int| 0 <= j < keys.len() && keys[j] == k;
                assert(state@[keys[j]] == pruned(p, start[keys[j]], *variable, value, keys[j]));
            }
        }
        assert(state@ =~= pruned_state(p, start, *variable, value));
        assert forall|k: V| start.contains_key(k) implies !#[trigger] starved(
            p,
            start[k],
            *variable,
            value,
            k,
        ) by {
            if start[k] is Undetermined {
                assert(keys.to_set().contains(k));
                let j = choose|j: int| 0 <= j < keys.len() && keys[j] == k;
                assert(!starved(p, start[keys[j]], *variable, value, keys[j]));
            }
        }
    }
    Ok(())
}

/// Propagation by `prune` loses no compatible assignment that has `value`
/// at `variable`, and cannot fail while there is one.
pub proof fn lemma_pruned<V, D, P: Pairwise<V, D>>(
    p: &P,
    m: Map<V, DomainView<D>>,
    variable: V,
    value: D,
)
    requires
        m.contains_key(variable),
        m[variable] == DomainView::Determined(value),
    ensures
        forall|t: Map<V, D>|
            (#[trigger] within(t, m)) && compatible(p, t) ==> within(
                t,
                pruned_state(p, m, variable, value),
            ) && !exists|k: V|
                m.contains_key(k) && #[trigger] starved(p, m[k], variable, value, k),
{
    assert forall|t: Map<V, D>| (#[trigger] within(t, m)) && compatible(p, t) implies within(
        t,
        pruned_state(p, m, variable, value),
    ) && !exists|k: V| m.contains_key(k) && #[trigger] starved(p, m[k], variable, value, k) by {
        let after = pruned_state(p, m, variable, value);
        assert(m[variable].candidates().contains(t[variable]));
        assert(after.dom() =~= m.dom());
        assert forall|k: V| after.contains_key(k) implies (
        #[trigger] after[k]).candidates().contains(t[k]) by {
            assert(m[k].candidates().contains(t[k]));
            assert(!p.forbids(variable, t[variable], k, t[k]));
        }
        assert forall|k: V| m.contains_key(k) implies !#[trigger] starved(
            p,
            m[k],
            variable,
            value,
            k,
        ) by {
            assert(m[k].candidates().contains(t[k]));
            assert(!p.forbids(variable, t[variable], k, t[k]));
        }
    }
}

/// Whether no two of the assignments listed in `pairs` rule each other out.
pub fn all_compatible<V: Eq + Hash + Copy, D: Eq + Hash + Copy, P: Pairwise<V, D>>(
    p: &P,
    pairs: &Vec<(V, D)>,
) -> (r: bool)
    ensures
        r == forall|a: int, b: int|
            0 <= a < pairs@.len() && 0 <= b < pairs@.len() ==> !p.forbids(
                (#[trigger] pairs@[a]).0,
                pairs@[a].1,
                (#[trigger] pairs@[b]).0,
                pairs@[b].1,
            ),
{
    let mut i: usize = 0;
    while i < pairs.len()
        invariant
            i <= pairs.len(),
            forall|a: int, b: int|
                0 <= a < i && 0 <= b < pairs@.len() ==> !p.forbids(
                    (#[trigger] pairs@[a]).0,
                    pairs@[a].1,
                    (#[trigger] pairs@[b]).0,
                    pairs@[b].1,
                ),
        decreases pairs.len() - i,
    {
        let (a, x) = pairs[i];
        let mut j: usize = 0;
        while j < pairs.len()
            invariant
                i < pairs.len(),
                j <= pairs.len(),
                (a, x) == pairs@[i as int],
                forall|b: int|
                    0 <= b < j ==> !p.forbids(a, x, (#[trigger] pairs@[b]).0, pairs@[b].1),
            decreases pairs.len() - j,
        {
            let (b, y) = pairs[j];
            if p.is_forbidden(&a, x, &b, y) {
                proof {
                    assert(p.forbids(
                        pairs@[i as int].0,
                        pairs@[i as int].1,
                        pairs@[j as int].0,
                        pairs@[j as int].1,
                    ));
                }
                return false;
            }
            j = j + 1;
        }
        i = i + 1;
    }
    true
}

/// A list of the committed part of a state is compatible pair by pair
/// exactly when the committed part is compatible.
pub proof fn lemma_listed<V, D, P: Pairwise<V, D>>(
    p: &P,
    m: Map<V, DomainView<D>>,
    pairs: Seq<(V, D)>,
)
    requires
        crate::state::keys_of(pairs).to_set() == determined_keys(m),
        forall|i: int|
            0 <= i < pairs.len() ==> m[(#[trigger] pairs[i]).0] == DomainView::Determined(
                pairs[i].1,
            ),
    ensures
        compatible(p, assignment(m)) <==> forall|a: int, b: int|
            0 <= a < pairs.len() && 0 <= b < pairs.len() ==> !p.forbids(
                (#[trigger] pairs[a]).0,
                pairs[a].1,
                (#[trigger] pairs[b]).0,
                pairs[b].1,
            ),
{
    let keys = crate::state::keys_of(pairs);
    let t = assignment(m);
    assert forall|i: int| 0 <= i < pairs.len() implies t.contains_key((#[trigger] pairs[i]).0)
        && t[pairs[i].0] == pairs[i].1 by {
        assert(keys[i] == pairs[i].0);
        assert(keys.to_set().contains(keys[i]));
    }
    if forall|a: int, b: int|
        0 <= a < pairs.len() && 0 <= b < pairs.len() ==> !p.forbids(
            (#[trigger] pairs[a]).0,
            pairs[a].1,
            (#[trigger] pairs[b]).0,
            pairs[b].1,
        ) {
        assert forall|a: V, b: V| t.contains_key(a) && t.contains_key(b) implies !#[trigger] p.forbids(
            a,
            t[a],
            b,
            t[b],
        ) by {
            assert(determined_keys(m).contains(a));
            assert(determined_keys(m).contains(b));
            assert(keys.to_set().contains(a));
            assert(keys.to_set().contains(b));
            let i = choose|i: int| 0 <= i < keys.len() && keys[i] == a;
            let j = choose|j: int| 0 <= j < keys.len() && keys[j] == b;
            assert(pairs[i].0 == a && pairs[j].0 == b);
        }
    }
    if compatible(p, t) {
        assert forall|a: int, b: int|
            0 <= a < pairs.len() && 0 <= b < pairs.len() implies !p.forbids(
            (#[trigger] pairs[a]).0,
            pairs[a].1,
            (#[trigger] pairs[b]).0,
            pairs[b].1,
        ) by {
            assert(t.contains_key(pairs[a].0) && t.contains_key(pairs[b].0));
            assert(!p.forbids(pairs[a].0, t[pairs[a].0], pairs[b].0, t[pairs[b].0]));
        }
    }
}

/// Whether `state` is solved and no two of its assignments rule each other
/// out: a test of the whole state, whatever the way it was arrived at.
pub fn is_solution<V: Eq + Hash + Copy, D: Eq + Hash + Copy, P: Pairwise<V, D>>(
    p: &P,
    state: &State<V, D>,
) -> (r: bool)
    requires
        state.wf(),
    ensures
        r == (solved(state@) && compatible(p, assignment(state@))),
{
    if !state.is_solved() {
        return false;
    }
    let pairs = state.determined();
    proof {
        lemma_listed(p, state@, pairs@);
    }
    all_compatible(p, &pairs)
}

/// A pairwise constraint that is looked at only once as many variables are
/// committed as the problem has: until then every assignment passes, and
/// then the whole state is tested. Each assignment is still propagated.
pub struct WholeState<P> {
    /// The constraint between pairs of assignments.
    pub rules: P,
    /// The number of variables of the problem.
    pub variables: usize,
}

impl<V: Eq + Hash + Copy, D: Eq + Hash + Copy, P: Pairwise<V, D>> Searchable<V, D> for WholeState<
    P,
> {
    /// An assignment of all the variables is compatible.
    open spec fn consistent(&self, assignment: Map<V, D>) -> bool {
        assignment.dom().finite() && assignment.dom().len() == self.variables ==> compatible(
            &self.rules,
            assignment,
        )
    }

    /// Passes while fewer variables are committed than the problem has, and
    /// then tests the whole state.
    fn check_constraints(&self, state: &State<V, D>, variable: &V, value: D) -> (feasible: bool)
        ensures
            feasible == self.consistent(assignment(state@)),
    {
        let pairs = state.determined();
        proof {
            lemma_listed(&self.rules, state@, pairs@);
            crate::state::keys_of(pairs@).unique_seq_to_set();
            assert(assignment(state@).dom() =~= determined_keys(state@));
        }
        if pairs.len() != self.variables {
            true
        } else {
            all_compatible(&self.rules, &pairs)
        }
    }

    /// Takes from every open variable the candidates that the assignment
    /// rules out. Fails exactly when the assignment rules out every
    /// candidate of some open variable.
    fn simplify(&self, state: &mut State<V, D>, variable: &V, value: D) -> (r: Result<
        (),
        InvalidStateError,
    >)
        ensures
            r is Err <==> exists|k: V|
                old(state)@.contains_key(k) && #[trigger] starved(
                    &self.rules,
                    old(state)@[k],
                    *variable,
                    value,
                    k,
                ),
            r is Ok ==> final(state)@ == pruned_state(&self.rules, old(state)@, *variable, value),
    {
        prune(&self.rules, state, variable, value)
    }
}

} // verus!
