//! What is known about one variable: a committed value or a set of candidates.
use std::collections::HashSet;
use std::hash::Hash;
use vstd::prelude::*;
use vstd::std_specs::hash::obeys_key_model;
use vstd::std_specs::iter::IteratorSpec;

verus! {

broadcast use vstd::std_specs::hash::group_hash_axioms;

/// Signals that a branch is infeasible: removing a value would leave some
/// variable without any candidate.
#[derive(Debug, Clone, Copy, PartialEq, Eq)]
pub struct InvalidStateError;

/// The knowledge held about one variable.
#[derive(Debug)]
pub enum Domain<T> {
    /// Exactly one value has been committed.
    Determined(T),
    /// The values that are still possible.
    Undetermined(HashSet<T>),
}

/// Mathematical model of a [`Domain`].
#[verifier::reject_recursive_types(T)]
pub enum DomainView<T> {
    /// The committed value.
    Determined(T),
    /// The set of the values that are still possible.
    Undetermined(Set<T>),
}

impl<T> DomainView<T> {
    /// The values the variable may still take: the committed value alone once
    /// it is determined.
    pub open spec fn candidates(self) -> Set<T> {
        match self {
            DomainView::Determined(x) => set![x],
            DomainView::Undetermined(s) => s,
        }
    }

    /// An undetermined domain is a finite, non-empty set.
    pub open spec fn valid(self) -> bool {
        match self {
            DomainView::Determined(_) => true,
            DomainView::Undetermined(s) => s.finite() && s.len() > 0,
        }
    }

    /// Removing `value` would leave no candidate.
    pub open spec fn exhausted_by(self, value: T) -> bool {
        match self {
            DomainView::Determined(_) => false,
            DomainView::Undetermined(s) => forall|x: T| s.contains(x) ==> x == value,
        }
    }

    /// The domain after `value` has been struck out of the candidates.
    pub open spec fn without(self, value: T) -> DomainView<T> {
        match self {
            DomainView::Determined(x) => DomainView::Determined(x),
            DomainView::Undetermined(s) => DomainView::Undetermined(s.remove(value)),
        }
    }

    /// `self` holds no more than `earlier` did: a committed value stays, and
    /// candidates are only ever taken away.
    pub open spec fn narrows(self, earlier: DomainView<T>) -> bool {
        match earlier {
            DomainView::Determined(x) => self == earlier,
            DomainView::Undetermined(s) => self matches DomainView::Undetermined(t) && t.subset_of(s),
        }
    }
}

impl<T> View for Domain<T> {
    type V = DomainView<T>;

    open spec fn view(&self) -> DomainView<T> {
        match self {
            Domain::Determined(x) => DomainView::Determined(*x),
            Domain::Undetermined(s) => DomainView::Undetermined(s@),
        }
    }
}

/// The view of a hash set is a finite set.
pub proof fn lemma_hash_set_finite<T>(s: &HashSet<T>)
    ensures
        s@.finite(),
{
    let items = vstd::std_specs::hash::spec_hash_keys_iter(s).remaining();
    vstd::seq_lib::seq_to_set_is_finite(items.unref());
}

/// Takes the next item off an iterator.
fn advance<I: Iterator>(items: &mut I) -> (r: Option<I::Item>)
    ensures
        (*old(items)).obeys_prophetic_iter_laws() ==> (*final(items)).obeys_prophetic_iter_laws()
            && (if (*old(items)).remaining().len() > 0 {
            (*final(items)).remaining() == (*old(items)).remaining().drop_first() && r == Some(
                (*old(items)).remaining()[0],
            )
        } else {
            (*final(items)).remaining() == (*old(items)).remaining() && r is None
        }),
{
    items.next()
}

/// A copy of `source` that holds the same values, for values that hash and
/// compare as the hash collections expect.
pub fn copy_set<T: Eq + Hash + Copy>(source: &HashSet<T>) -> (copy: HashSet<T>)
    ensures
        obeys_key_model::<T>() ==> copy@ == source@,
{
    let mut copy: HashSet<T> = HashSet::new();
    let mut items = source.iter();
    let mut left: usize = source.len();
    proof {
        if obeys_key_model::<T>() {
            assert forall|y: T| source@.contains(y) implies exists|j: int|
                0 <= j < items.remaining().len() && *#[trigger] items.remaining()[j] == y by {
                assert(items.remaining().unref().to_set().contains(y));
                let j = choose|j: int|
                    0 <= j < items.remaining().unref().len() && items.remaining().unref()[j] == y;
                assert(*items.remaining()[j] == y);
            }
            assert forall|j: int| 0 <= j < items.remaining().len() implies source@.contains(
                *#[trigger] items.remaining()[j],
            ) by {
                assert(items.remaining().unref()[j] == *items.remaining()[j]);
                assert(items.remaining().unref().to_set().contains(*items.remaining()[j]));
            }
        }
    }
    while left > 0
        invariant
            obeys_key_model::<T>() ==> {
                &&& items.remaining().len() == left
                &&& forall|y: T| copy@.contains(y) ==> source@.contains(y)
                &&& forall|j: int|
                    0 <= j < items.remaining().len() ==> source@.contains(
                        *#[trigger] items.remaining()[j],
                    )
                &&& forall|y: T|
                    source@.contains(y) ==> copy@.contains(y) || exists|j: int|
                        0 <= j < items.remaining().len() && *#[trigger] items.remaining()[j] == y
            },
        decreases left,
    {
        let ghost before = items.remaining();
        let ghost held = copy@;
        match advance(&mut items) {
            Some(x) => {
                copy.insert(*x);
            },
            None => {},
        }
        left = left - 1;
        proof {
            if obeys_key_model::<T>() {
                assert(items.remaining() == before.drop_first());
                assert(copy@ == held.insert(*before[0]));
                assert forall|j: int| 0 <= j < items.remaining().len() implies source@.contains(
                    *#[trigger] items.remaining()[j],
                ) by {
                    assert(items.remaining()[j] == before[j + 1]);
                }
                assert forall|y: T| source@.contains(y) implies copy@.contains(y) || exists|j: int|
                    0 <= j < items.remaining().len() && *#[trigger] items.remaining()[j] == y by {
                    if !held.contains(y) && y != *before[0] {
                        let j = choose|j: int|
                            0 <= j < before.len() && *#[trigger] before[j] == y;
                        assert(items.remaining()[j - 1] == before[j]);
                    }
                }
            }
        }
    }
    assert(obeys_key_model::<T>() ==> copy@ =~= source@);
    copy
}

/// The values of `set`, each once, in no particular order.
pub fn members<T: Eq + Hash + Copy>(set: &HashSet<T>) -> (values: Vec<T>)
    requires
        obeys_key_model::<T>(),
    ensures
        values@.no_duplicates(),
        values@.to_set() == set@,
        values@.len() == set@.len(),
{
    let mut values: Vec<T> = Vec::new();
    for x in it: set.iter()
        invariant
            it.seq().no_duplicates(),
            it.seq().unref().to_set() == set@,
            values@.len() == it.index(),
            forall|j: int| 0 <= j < values@.len() ==> values@[j] == *#[trigger] it.seq()[j],
            forall|y: T|
                set@.contains(y) ==> values@.contains(y) || exists|j: int|
                    it.index() <= j < it.seq().len() && *#[trigger] it.seq()[j] == y,
            forall|j: int| 0 <= j < values@.len() ==> set@.contains(#[trigger] values@[j]),
            values@.no_duplicates(),
    {
        proof {
            let at = it.index();
            assert(it.seq().unref()[at] == *x);
            assert(it.seq().unref().to_set().contains(*x));
            assert forall|y: T| set@.contains(y) implies values@.push(*x).contains(y)
                || exists|j: int|
                at + 1 <= j < it.seq().len() && *#[trigger] it.seq()[j] == y by {
                if values@.contains(y) {
                    let j = choose|j: int| 0 <= j < values@.len() && values@[j] == y;
                    assert(values@.push(*x)[j] == y);
                } else if y == *x {
                    assert(values@.push(*x)[at] == y);
                } else {
                    let j = choose|j: int|
                        at <= j < it.seq().len() && *#[trigger] it.seq()[j] == y;
                    assert(j != at);
                }
            }
            assert forall|a: int, b: int|
                0 <= a < values@.push(*x).len() && 0 <= b < values@.push(*x).len() && a
                    != b implies values@.push(*x)[a] != values@.push(*x)[b] by {
                assert(values@.push(*x)[a] == *it.seq()[a]);
                assert(values@.push(*x)[b] == *it.seq()[b]);
            }
        }
        values.push(*x);
    }
    proof {
        assert(values@.to_set() =~= set@);
        values@.unique_seq_to_set();
    }
    values
}

impl<T: Eq + Hash + Copy> Clone for Domain<T> {
    /// A deep copy: the candidates are copied into a set of their own.
    fn clone(&self) -> (r: Self)
        ensures
            obeys_key_model::<T>() ==> r@ == self@,
    {
        match self {
            Domain::Determined(x) => Domain::Determined(*x),
            Domain::Undetermined(s) => Domain::Undetermined(copy_set(s)),
        }
    }
}

impl<T: Eq + Hash + Copy> Domain<T> {
    /// Whether a value has been committed.
    pub fn is_determined(&self) -> (r: bool)
        ensures
            r == (self@ is Determined),
    {
        match self {
            Domain::Determined(_) => true,
            Domain::Undetermined(_) => false,
        }
    }

    /// The values that are still possible; the committed value alone for a
    /// determined domain.
    pub fn candidates(&self) -> (r: HashSet<T>)
        requires
            obeys_key_model::<T>(),
        ensures
            r@ == self@.candidates(),
    {
        match self {
            Domain::Determined(x) => {
                let mut single: HashSet<T> = HashSet::new();
                single.insert(*x);
                assert(single@ =~= set![*x]);
                single
            },
            Domain::Undetermined(s) => copy_set(s),
        }
    }

    /// Strikes `value` out of the candidates of an undetermined domain.
    ///
    /// Fails, and leaves the domain as it was, when no candidate would be
    /// left. A determined domain is never changed.
    pub fn narrow(&mut self, value: T) -> (r: Result<(), InvalidStateError>)
        requires
            obeys_key_model::<T>(),
        ensures
            r is Err <==> old(self)@.exhausted_by(value),
            r is Err ==> final(self)@ == old(self)@,
            r is Ok ==> final(self)@ == old(self)@.without(value),
    {
        match self {
            Domain::Determined(_) => Ok(()),
            Domain::Undetermined(s) => {
                proof {
                    lemma_hash_set_finite(s);
                }
                let n = s.len();
                if n == 0 || (n == 1 && s.contains(&value)) {
                    proof {
                        if n == 1 {
                            assert(s@.remove(value).len() == 0);
                            assert forall|x: T| s@.contains(x) implies x == value by {
                                if x != value {
                                    assert(s@.remove(value).contains(x));
                                }
                            }
                        }
                    }
                    Err(InvalidStateError)
                } else {
                    proof {
                        if s@.contains(value) {
                            assert(s@.remove(value).len() > 0);
                            let other = s@.remove(value).choose();
                            assert(s@.contains(other) && other != value);
                        } else {
                            let other = s@.choose();
                            assert(s@.contains(other) && other != value);
                        }
                    }
                    s.remove(&value);
                    Ok(())
                }
            },
        }
    }

    /// Commits `value`, which must be one of the current candidates.
    pub fn fix(&mut self, value: T)
        requires
            old(self)@ is Undetermined,
            old(self)@.candidates().contains(value),
        ensures
            final(self)@ == DomainView::Determined(value),
    {
        *self = Domain::Determined(value);
    }
}

} // verus!
