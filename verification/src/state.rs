//! One point of the search tree: the domain of every variable.
use crate::domain::{copy_set, lemma_hash_set_finite, Domain, DomainView, InvalidStateError};
use std::collections::HashMap;
use std::collections::HashSet;
use std::hash::Hash;
use vstd::prelude::*;
use vstd::std_specs::hash::obeys_key_model;

verus! {

broadcast use vstd::std_specs::hash::group_hash_axioms;

/// Why a state could not be built from the collaborator's input.
#[derive(Debug, Clone, Copy, PartialEq, Eq)]
pub enum ConfigurationError {
    /// The initial candidate set holds no value.
    EmptyDomain,
    /// A variable is listed more than once.
    DuplicateVariable,
}

/// The domain of every variable at one point of the search.
#[derive(Debug)]
pub struct State<V, D> {
    domains: HashMap<V, Domain<D>>,
}

/// Every domain of `m` is valid and there are finitely many variables.
pub open spec fn valid<V, D>(m: Map<V, DomainView<D>>) -> bool {
    &&& m.dom().finite()
    &&& forall|k: V| m.contains_key(k) ==> (#[trigger] m[k]).valid()
}

/// The variables that hold a committed value.
pub open spec fn determined_keys<V, D>(m: Map<V, DomainView<D>>) -> Set<V> {
    Set::new(|k: V| m.contains_key(k) && m[k] is Determined)
}

/// The variables that are still open.
pub open spec fn undetermined_keys<V, D>(m: Map<V, DomainView<D>>) -> Set<V> {
    Set::new(|k: V| m.contains_key(k) && m[k] is Undetermined)
}

/// No variable is open any more.
pub open spec fn solved<V, D>(m: Map<V, DomainView<D>>) -> bool {
    forall|k: V| m.contains_key(k) ==> #[trigger] m[k] is Determined
}

/// The committed part of a state: each determined variable with its value.
pub open spec fn assignment<V, D>(m: Map<V, DomainView<D>>) -> Map<V, D> {
    Map::new(|k: V| m.contains_key(k) && m[k] is Determined, |k: V| m[k]->Determined_0)
}

/// `later` has the variables of `earlier`, the same committed values, and
/// for each open variable a subset of its candidates: what propagation may
/// do to a state.
pub open spec fn narrows<V, D>(later: Map<V, DomainView<D>>, earlier: Map<V, DomainView<D>>) -> bool {
    &&& later.dom() == earlier.dom()
    &&& forall|k: V| earlier.contains_key(k) ==> (#[trigger] later[k]).narrows(earlier[k])
}

/// `later` has the variables of `earlier` and allows, for each of them, only
/// values that `earlier` allowed; what was committed stays committed. This
/// is how every state of a search relates to the states above it.
pub open spec fn refines<V, D>(later: Map<V, DomainView<D>>, earlier: Map<V, DomainView<D>>) -> bool {
    &&& later.dom() == earlier.dom()
    &&& forall|k: V|
        earlier.contains_key(k) ==> {
            &&& (#[trigger] later[k]).candidates().subset_of(earlier[k].candidates())
            &&& earlier[k] is Determined ==> later[k] == earlier[k]
        }
}

/// `t` gives every variable of `m` one of the values that `m` allows it.
pub open spec fn within<V, D>(t: Map<V, D>, m: Map<V, DomainView<D>>) -> bool {
    &&& t.dom() == m.dom()
    &&& forall|k: V| m.contains_key(k) ==> (#[trigger] m[k]).candidates().contains(t[k])
}

/// `v` is an open variable with as few candidates as any open variable has.
pub open spec fn most_constrained<V, D>(m: Map<V, DomainView<D>>, v: V) -> bool {
    &&& m.contains_key(v)
    &&& m[v] is Undetermined
    &&& forall|k: V|
        m.contains_key(k) && (#[trigger] m[k]) is Undetermined ==> m[v].candidates().len()
            <= m[k].candidates().len()
}

/// The first components of a sequence of pairs.
pub open spec fn keys_of<K, T>(pairs: Seq<(K, T)>) -> Seq<K> {
    Seq::new(pairs.len(), |i: int| pairs[i].0)
}

impl<V, D> View for State<V, D> {
    type V = Map<V, DomainView<D>>;

    closed spec fn view(&self) -> Map<V, DomainView<D>> {
        self.domains@.map_values(|d: Domain<D>| d@)
    }
}

impl<V: Eq + Hash + Copy, D: Eq + Hash + Copy> Clone for State<V, D> {
    /// A deep copy of the whole mapping.
    fn clone(&self) -> (copy: Self)
        ensures
            copy@ == self@,
    {
        State { domains: self.domains.clone() }
    }
}

impl<V: Eq + Hash + Copy, D: Eq + Hash + Copy> State<V, D> {
    /// Keys and values behave as the hash collections expect, there are
    /// finitely many variables, and no open variable is without candidates.
    pub open spec fn wf(&self) -> bool {
        &&& obeys_key_model::<V>()
        &&& obeys_key_model::<D>()
        &&& valid(self@)
    }

    /// A state in which every variable of `variables` is open with the
    /// candidates of `domain`.
    ///
    /// An empty list of variables gives the empty state, which is solved. An
    /// empty `domain` and a variable listed twice are refused.
    pub fn new(variables: &[V], domain: &HashSet<D>) -> (r: Result<Self, ConfigurationError>)
        requires
            obeys_key_model::<V>(),
            obeys_key_model::<D>(),
        ensures
            match r {
                Ok(state) => {
                    &&& domain@.len() > 0
                    &&& variables@.no_duplicates()
                    &&& state.wf()
                    &&& state@.dom() == variables@.to_set()
                    &&& forall|k: V|
                        state@.contains_key(k) ==> #[trigger] state@[k]
                            == DomainView::Undetermined(domain@)
                },
                Err(ConfigurationError::EmptyDomain) => domain@.len() == 0,
                Err(ConfigurationError::DuplicateVariable) => domain@.len() > 0
                    && !variables@.no_duplicates(),
            },
    {
        if domain.len() == 0 {
            return Err(ConfigurationError::EmptyDomain);
        }
        proof {
            lemma_hash_set_finite(domain);
        }
        let mut domains: HashMap<V, Domain<D>> = HashMap::new();
        let mut i: usize = 0;
        while i < variables.len()
            invariant
                obeys_key_model::<V>(),
                obeys_key_model::<D>(),
                i <= variables.len(),
                domain@.finite(),
                domain@.len() > 0,
                forall|a: int, b: int| 0 <= a < b < i ==> variables@[a] != variables@[b],
                forall|k: V|
                    domains@.contains_key(k) <==> exists|j: int|
                        0 <= j < i && #[trigger] variables@[j] == k,
                forall|k: V|
                    domains@.contains_key(k) ==> (#[trigger] domains@[k])@
                        == DomainView::Undetermined(domain@),
            decreases variables.len() - i,
        {
            let variable = variables[i];
            if domains.contains_key(&variable) {
                proof {
                    let j = choose|j: int| 0 <= j < i && #[trigger] variables@[j] == variable;
                    assert(variables@[j] == variables@[i as int]);
                }
                return Err(ConfigurationError::DuplicateVariable);
            }
            let candidates = copy_set(domain);
            domains.insert(variable, Domain::Undetermined(candidates));
            i = i + 1;
        }
        let state = State { domains };
        proof {
            assert(state@.dom() =~= variables@.to_set());
        }
        Ok(state)
    }

    /// The number of variables.
    pub fn len(&self) -> (n: usize)
        requires
            self.wf(),
        ensures
            n == self@.dom().len(),
    {
        proof {
            assert(self@.dom() =~= self.domains@.dom());
        }
        self.domains.len()
    }

    /// Every variable once, in no particular order.
    pub fn variables(&self) -> (keys: Vec<V>)
        requires
            self.wf(),
        ensures
            keys@.no_duplicates(),
            keys@.to_set() == self@.dom(),
    {
        let mut keys: Vec<V> = Vec::new();
        for k in it: self.domains.keys()
            invariant
                it.seq().no_duplicates(),
                it.seq().unref().to_set() == self.domains@.dom(),
                keys@.len() == it.index(),
                forall|j: int| 0 <= j < keys@.len() ==> keys@[j] == *#[trigger] it.seq()[j],
                forall|key: V|
                    self.domains@.contains_key(key) ==> keys@.contains(key) || exists|j: int|
                        it.index() <= j < it.seq().len() && *#[trigger] it.seq()[j] == key,
                forall|j: int| 0 <= j < keys@.len() ==> self.domains@.contains_key(#[trigger] keys@[j]),
                keys@.no_duplicates(),
        {
            proof {
                let at = it.index();
                assert(it.seq().unref()[at] == *k);
                assert(it.seq().unref().to_set().contains(*k));
                assert forall|key: V| self.domains@.contains_key(key) implies keys@.push(
                    *k,
                ).contains(key) || exists|j: int|
                    at + 1 <= j < it.seq().len() && *#[trigger] it.seq()[j] == key by {
                    if keys@.contains(key) {
                        let j = choose|j: int| 0 <= j < keys@.len() && keys@[j] == key;
                        assert(keys@.push(*k)[j] == key);
                    } else if key == *k {
                        assert(keys@.push(*k)[at] == key);
                    } else {
                        let j = choose|j: int|
                            at <= j < it.seq().len() && *#[trigger] it.seq()[j] == key;
                        assert(j != at);
                    }
                }
                assert forall|a: int, b: int|
                    0 <= a < keys@.push(*k).len() && 0 <= b < keys@.push(*k).len() && a
                        != b implies keys@.push(*k)[a] != keys@.push(*k)[b] by {
                    assert(keys@.push(*k)[a] == *it.seq()[a]);
                    assert(keys@.push(*k)[b] == *it.seq()[b]);
                }
            }
            keys.push(*k);
        }
        proof {
            assert(self@.dom() =~= self.domains@.dom());
            assert(keys@.to_set() =~= self.domains@.dom());
        }
        keys
    }

    /// A copy of the domain of `variable`, if the state has that variable.
    pub fn get(&self, variable: &V) -> (r: Option<Domain<D>>)
        requires
            self.wf(),
        ensures
            match r {
                Some(domain) => self@.contains_key(*variable) && domain@ == self@[*variable],
                None => !self@.contains_key(*variable),
            },
    {
        match self.domains.get(variable) {
            Some(domain) => Some(domain.clone()),
            None => None,
        }
    }

    /// The value committed to `variable`, if there is one.
    pub fn value(&self, variable: &V) -> (r: Option<D>)
        requires
            self.wf(),
        ensures
            match r {
                Some(x) => self@.contains_key(*variable) && self@[*variable]
                    == DomainView::Determined(x),
                None => !(self@.contains_key(*variable) && self@[*variable] is Determined),
            },
    {
        match self.domains.get(variable) {
            Some(Domain::Determined(x)) => Some(*x),
            _ => None,
        }
    }

    /// Whether `variable` is open and `value` is one of its candidates.
    pub fn allows(&self, variable: &V, value: D) -> (r: bool)
        requires
            self.wf(),
        ensures
            r == (self@.contains_key(*variable) && self@[*variable] is Undetermined
                && self@[*variable].candidates().contains(value)),
    {
        match self.domains.get(variable) {
            Some(Domain::Undetermined(candidates)) => candidates.contains(&value),
            _ => false,
        }
    }

    /// Every variable with a copy of its domain, in no particular order.
    pub fn iter(&self) -> (pairs: Vec<(V, Domain<D>)>)
        requires
            self.wf(),
        ensures
            keys_of(pairs@).no_duplicates(),
            keys_of(pairs@).to_set() == self@.dom(),
            forall|i: int| 0 <= i < pairs@.len() ==> (#[trigger] pairs@[i]).1@ == self@[pairs@[i].0],
    {
        let keys = self.variables();
        let mut pairs: Vec<(V, Domain<D>)> = Vec::new();
        let mut i: usize = 0;
        while i < keys.len()
            invariant
                self.wf(),
                i <= keys.len(),
                keys@.to_set() == self@.dom(),
                pairs@.len() == i,
                forall|j: int| 0 <= j < i ==> (#[trigger] pairs@[j]).0 == keys@[j],
                forall|j: int| 0 <= j < i ==> (#[trigger] pairs@[j]).1@ == self@[pairs@[j].0],
            decreases keys.len() - i,
        {
            let key = keys[i];
            proof {
                assert(keys@.to_set().contains(keys@[i as int]));
            }
            match self.domains.get(&key) {
                Some(domain) => {
                    pairs.push((key, domain.clone()));
                },
                None => {
                    assert(false);
                },
            }
            i = i + 1;
        }
        proof {
            assert(keys_of(pairs@) =~= keys@);
        }
        pairs
    }

    /// Every variable that holds a committed value, with that value, in no
    /// particular order.
    pub fn determined(&self) -> (pairs: Vec<(V, D)>)
        requires
            self.wf(),
        ensures
            keys_of(pairs@).no_duplicates(),
            keys_of(pairs@).to_set() == determined_keys(self@),
            forall|i: int|
                0 <= i < pairs@.len() ==> self@[(#[trigger] pairs@[i]).0]
                    == DomainView::Determined(pairs@[i].1),
    {
        let keys = self.variables();
        let mut pairs: Vec<(V, D)> = Vec::new();
        let mut i: usize = 0;
        while i < keys.len()
            invariant
                self.wf(),
                i <= keys.len(),
                keys@.no_duplicates(),
                keys@.to_set() == self@.dom(),
                keys_of(pairs@).no_duplicates(),
                forall|j: int|
                    0 <= j < pairs@.len() ==> exists|a: int|
                        0 <= a < i && keys@[a] == (#[trigger] pairs@[j]).0,
                forall|j: int|
                    0 <= j < pairs@.len() ==> self@[(#[trigger] pairs@[j]).0]
                        == DomainView::Determined(pairs@[j].1),
                forall|a: int|
                    0 <= a < i && self@[#[trigger] keys@[a]] is Determined ==> keys_of(
                        pairs@,
                    ).contains(keys@[a]),
            decreases keys.len() - i,
        {
            let key = keys[i];
            proof {
                assert(keys@.to_set().contains(keys@[i as int]));
            }
            let ghost before = pairs@;
            match self.domains.get(&key) {
                Some(Domain::Determined(x)) => {
                    pairs.push((key, *x));
                    proof {
                        lemma_keys_of_push(before, (key, *x));
                        assert forall|j: int| 0 <= j < before.len() implies keys_of(before)[j]
                            != key by {
                            let a = choose|a: int| 0 <= a < i && keys@[a] == before[j].0;
                            assert(keys@[a] != keys@[i as int]);
                        }
                        assert forall|j: int| 0 <= j < pairs@.len() implies exists|a: int|
                            0 <= a < i + 1 && keys@[a] == (#[trigger] pairs@[j]).0 by {
                            if j < before.len() {
                                let a = choose|a: int| 0 <= a < i && keys@[a] == before[j].0;
                                assert(keys@[a] == pairs@[j].0);
                            } else {
                                assert(keys@[i as int] == pairs@[j].0);
                            }
                        }
                        assert forall|a: int|
                            0 <= a < i + 1 && self@[#[trigger] keys@[a]] is Determined implies keys_of(
                            pairs@,
                        ).contains(keys@[a]) by {
                            if a < i {
                                let j = choose|j: int|
                                    0 <= j < keys_of(before).len() && keys_of(before)[j]
                                        == keys@[a];
                                assert(keys_of(pairs@)[j] == keys@[a]);
                            } else {
                                assert(keys_of(pairs@)[before.len() as int] == key);
                            }
                        }
                    }
                },
                _ => {},
            }
            i = i + 1;
        }
        proof {
            assert forall|k: V| keys_of(pairs@).to_set().contains(k) <==> determined_keys(
                self@,
            ).contains(k) by {
                if keys_of(pairs@).to_set().contains(k) {
                    let j = choose|j: int|
                        0 <= j < keys_of(pairs@).len() && keys_of(pairs@)[j] == k;
                    assert(pairs@[j].0 == k);
                    let a = choose|a: int| 0 <= a < i && keys@[a] == pairs@[j].0;
                    assert(keys@.to_set().contains(keys@[a]));
                }
                if determined_keys(self@).contains(k) {
                    assert(keys@.to_set().contains(k));
                    let a = choose|a: int| 0 <= a < keys@.len() && keys@[a] == k;
                    assert(self@[keys@[a]] is Determined);
                }
            }
            assert(keys_of(pairs@).to_set() =~= determined_keys(self@));
        }
        pairs
    }

    /// Every variable that is still open, with a copy of its candidates, in
    /// no particular order.
    pub fn undetermined(&self) -> (pairs: Vec<(V, HashSet<D>)>)
        requires
            self.wf(),
        ensures
            keys_of(pairs@).no_duplicates(),
            keys_of(pairs@).to_set() == undetermined_keys(self@),
            forall|i: int|
                0 <= i < pairs@.len() ==> self@[(#[trigger] pairs@[i]).0]
                    == DomainView::Undetermined(pairs@[i].1@),
    {
        let keys = self.variables();
        let mut pairs: Vec<(V, HashSet<D>)> = Vec::new();
        let mut i: usize = 0;
        while i < keys.len()
            invariant
                self.wf(),
                i <= keys.len(),
                keys@.no_duplicates(),
                keys@.to_set() == self@.dom(),
                keys_of(pairs@).no_duplicates(),
                forall|j: int|
                    0 <= j < pairs@.len() ==> exists|a: int|
                        0 <= a < i && keys@[a] == (#[trigger] pairs@[j]).0,
                forall|j: int|
                    0 <= j < pairs@.len() ==> self@[(#[trigger] pairs@[j]).0]
                        == DomainView::Undetermined(pairs@[j].1@),
                forall|a: int|
                    0 <= a < i && self@[#[trigger] keys@[a]] is Undetermined ==> keys_of(
                        pairs@,
                    ).contains(keys@[a]),
            decreases keys.len() - i,
        {
            let key = keys[i];
            proof {
                assert(keys@.to_set().contains(keys@[i as int]));
            }
            let ghost before = pairs@;
            match self.domains.get(&key) {
                Some(Domain::Undetermined(candidates)) => {
                    let copy = copy_set(candidates);
                    pairs.push((key, copy));
                    proof {
                        lemma_keys_of_push(before, (key, copy));
                        assert forall|j: int| 0 <= j < before.len() implies keys_of(before)[j]
                            != key by {
                            let a = choose|a: int| 0 <= a < i && keys@[a] == before[j].0;
                            assert(keys@[a] != keys@[i as int]);
                        }
                        assert forall|j: int| 0 <= j < pairs@.len() implies exists|a: int|
                            0 <= a < i + 1 && keys@[a] == (#[trigger] pairs@[j]).0 by {
                            if j < before.len() {
                                let a = choose|a: int| 0 <= a < i && keys@[a] == before[j].0;
                                assert(keys@[a] == pairs@[j].0);
                            } else {
                                assert(keys@[i as int] == pairs@[j].0);
                            }
                        }
                        assert forall|a: int|
                            0 <= a < i + 1 && self@[#[trigger] keys@[a]] is Undetermined implies keys_of(
                            pairs@,
                        ).contains(keys@[a]) by {
                            if a < i {
                                let j = choose|j: int|
                                    0 <= j < keys_of(before).len() && keys_of(before)[j]
                                        == keys@[a];
                                assert(keys_of(pairs@)[j] == keys@[a]);
                            } else {
                                assert(keys_of(pairs@)[before.len() as int] == key);
                            }
                        }
                    }
                },
                _ => {},
            }
            i = i + 1;
        }
        proof {
            assert forall|k: V| keys_of(pairs@).to_set().contains(k) <==> undetermined_keys(
                self@,
            ).contains(k) by {
                if keys_of(pairs@).to_set().contains(k) {
                    let j = choose|j: int|
                        0 <= j < keys_of(pairs@).len() && keys_of(pairs@)[j] == k;
                    assert(pairs@[j].0 == k);
                    let a = choose|a: int| 0 <= a < i && keys@[a] == pairs@[j].0;
                    assert(keys@.to_set().contains(keys@[a]));
                }
                if undetermined_keys(self@).contains(k) {
                    assert(keys@.to_set().contains(k));
                    let a = choose|a: int| 0 <= a < keys@.len() && keys@[a] == k;
                    assert(self@[keys@[a]] is Undetermined);
                }
            }
            assert(keys_of(pairs@).to_set() =~= undetermined_keys(self@));
        }
        pairs
    }

    /// Strikes `value` out of the candidates of `variable`.
    ///
    /// Fails, and changes nothing, when `variable` is open and would be left
    /// without a candidate. A variable that is determined, or that the state
    /// does not have, is left alone.
    pub fn narrow(&mut self, variable: &V, value: D) -> (r: Result<(), InvalidStateError>)
        requires
            old(self).wf(),
        ensures
            final(self).wf(),
            r is Err <==> old(self)@.contains_key(*variable) && old(self)@[*variable].exhausted_by(
                value,
            ),
            r is Err ==> final(self)@ == old(self)@,
            r is Ok && old(self)@.contains_key(*variable) ==> final(self)@ == old(self)@.insert(
                *variable,
                old(self)@[*variable].without(value),
            ),
            r is Ok && !old(self)@.contains_key(*variable) ==> final(self)@ == old(self)@,
            narrows(final(self)@, old(self)@),
    {
        let ghost before = self@;
        match self.domains.remove(variable) {
            None => {
                assert(self@ =~= before);
                Ok(())
            },
            Some(domain) => {
                let mut domain = domain;
                let ghost earlier = domain@;
                assert(earlier == before[*variable]);
                let r = domain.narrow(value);
                self.domains.insert(*variable, domain);
                proof {
                    assert(self@ =~= before.insert(*variable, domain@));
                    if r is Err {
                        assert(self@ =~= before);
                    } else {
                        assert(before[*variable].valid());
                        if earlier is Undetermined {
                            let s = earlier->Undetermined_0;
                            assert(!(forall|x: D| s.contains(x) ==> x == value));
                            let other = choose|x: D| s.contains(x) && x != value;
                            assert(s.remove(value).contains(other));
                            assert(s.remove(value).len() > 0);
                        }
                    }
                    assert forall|k: V| before.contains_key(k) implies (#[trigger] self@[k]).narrows(
                        before[k],
                    ) by {
                        assert(before[k].valid());
                    }
                }
                r
            },
        }
    }

    /// Commits `value` to `variable`, which must be open with `value` among
    /// its candidates. Whether the assignment is feasible is for the caller
    /// to decide.
    pub fn fix(&mut self, variable: &V, value: D)
        requires
            old(self).wf(),
            old(self)@.contains_key(*variable),
            old(self)@[*variable] is Undetermined,
            old(self)@[*variable].candidates().contains(value),
        ensures
            final(self).wf(),
            final(self)@ == old(self)@.insert(*variable, DomainView::Determined(value)),
            refines(final(self)@, old(self)@),
    {
        let ghost before = self@;
        self.domains.insert(*variable, Domain::Determined(value));
        proof {
            assert(self@ =~= before.insert(*variable, DomainView::Determined(value)));
            assert forall|k: V| self@.contains_key(k) implies (#[trigger] self@[k]).valid() by {
                if k != *variable {
                    assert(before[k].valid());
                }
            }
            assert(self@.dom() =~= before.dom());
            assert forall|k: V| before.contains_key(k) implies {
                &&& (#[trigger] self@[k]).candidates().subset_of(before[k].candidates())
                &&& before[k] is Determined ==> self@[k] == before[k]
            } by {
                if k == *variable {
                    assert(self@[k].candidates() =~= set![value]);
                }
            }
        }
    }

    /// Whether every variable holds a committed value.
    pub fn is_solved(&self) -> (r: bool)
        requires
            self.wf(),
        ensures
            r == solved(self@),
    {
        let keys = self.variables();
        let mut i: usize = 0;
        while i < keys.len()
            invariant
                self.wf(),
                i <= keys.len(),
                keys@.to_set() == self@.dom(),
                forall|a: int| 0 <= a < i ==> self@[#[trigger] keys@[a]] is Determined,
            decreases keys.len() - i,
        {
            let key = keys[i];
            proof {
                assert(keys@.to_set().contains(keys@[i as int]));
            }
            match self.domains.get(&key) {
                Some(Domain::Determined(_)) => {},
                _ => {
                    return false;
                },
            }
            i = i + 1;
        }
        proof {
            assert forall|k: V| self@.contains_key(k) implies #[trigger] self@[k] is Determined by {
                assert(keys@.to_set().contains(k));
                let a = choose|a: int| 0 <= a < keys@.len() && keys@[a] == k;
                assert(self@[keys@[a]] is Determined);
            }
        }
        true
    }

    /// An open variable with the fewest candidates, and a copy of those
    /// candidates; `None` when no variable is open. Which one it is among
    /// several with equally few candidates is not determined.
    pub fn most_constrained_variable(&self) -> (r: Option<(V, HashSet<D>)>)
        requires
            self.wf(),
        ensures
            match r {
                Some((variable, candidates)) => most_constrained(self@, variable) && self@[variable]
                    == DomainView::Undetermined(candidates@),
                None => solved(self@),
            },
    {
        let keys = self.variables();
        let mut best: Option<(V, usize)> = None;
        let mut i: usize = 0;
        while i < keys.len()
            invariant
                self.wf(),
                i <= keys.len(),
                keys@.to_set() == self@.dom(),
                match best {
                    Some((variable, size)) => {
                        &&& self@.contains_key(variable)
                        &&& self@[variable] is Undetermined
                        &&& size == self@[variable].candidates().len()
                        &&& forall|a: int|
                            0 <= a < i && self@[#[trigger] keys@[a]] is Undetermined ==> size
                                <= self@[keys@[a]].candidates().len()
                    },
                    None => forall|a: int| 0 <= a < i ==> self@[#[trigger] keys@[a]] is Determined,
                },
            decreases keys.len() - i,
        {
            let key = keys[i];
            proof {
                assert(keys@.to_set().contains(keys@[i as int]));
            }
            match self.domains.get(&key) {
                Some(Domain::Undetermined(candidates)) => {
                    let size = candidates.len();
                    match best {
                        Some((_, least)) => {
                            if size < least {
                                best = Some((key, size));
                            }
                        },
                        None => {
                            best = Some((key, size));
                        },
                    }
                },
                _ => {},
            }
            i = i + 1;
        }
        match best {
            Some((variable, _)) => {
                proof {
                    assert forall|k: V|
                        self@.contains_key(k) && (#[trigger] self@[k]) is Undetermined implies self@[variable].candidates().len()
                        <= self@[k].candidates().len() by {
                        assert(keys@.to_set().contains(k));
                        let a = choose|a: int| 0 <= a < keys@.len() && keys@[a] == k;
                        assert(self@[keys@[a]] is Undetermined);
                    }
                }
                match self.domains.get(&variable) {
                    Some(Domain::Undetermined(candidates)) => Some((variable, copy_set(candidates))),
                    _ => {
                        assert(false);
                        None
                    },
                }
            },
            None => {
                proof {
                    assert forall|k: V| self@.contains_key(k) implies #[trigger] self@[k] is Determined by {
                        assert(keys@.to_set().contains(k));
                        let a = choose|a: int| 0 <= a < keys@.len() && keys@[a] == k;
                        assert(self@[keys@[a]] is Determined);
                    }
                }
                None
            },
        }
    }
}

/// The determined and the undetermined variables of a state are all of its
/// variables, and no variable is both.
pub proof fn lemma_partition<V, D>(m: Map<V, DomainView<D>>)
    ensures
        determined_keys(m).union(undetermined_keys(m)) == m.dom(),
        determined_keys(m).disjoint(undetermined_keys(m)),
{
    assert(determined_keys(m).union(undetermined_keys(m)) =~= m.dom());
}

/// The determined and the undetermined variables of a state that refines
/// another are the variables of that other state, and no variable is both:
/// all the states of a search share the variables of its root.
pub proof fn lemma_partition_kept<V, D>(
    later: Map<V, DomainView<D>>,
    earlier: Map<V, DomainView<D>>,
)
    requires
        refines(later, earlier),
    ensures
        determined_keys(later).union(undetermined_keys(later)) == earlier.dom(),
        determined_keys(later).disjoint(undetermined_keys(later)),
        determined_keys(earlier).subset_of(determined_keys(later)),
{
    lemma_partition(later);
    assert forall|k: V| determined_keys(earlier).contains(k) implies determined_keys(
        later,
    ).contains(k) by {
        assert(later.contains_key(k));
        assert(later[k] == earlier[k]);
    }
}

/// Appending a pair appends its first component to the keys.
pub proof fn lemma_keys_of_push<K, T>(pairs: Seq<(K, T)>, pair: (K, T))
    ensures
        keys_of(pairs.push(pair)) == keys_of(pairs).push(pair.0),
{
    assert(keys_of(pairs.push(pair)) =~= keys_of(pairs).push(pair.0));
}

} // verus!
