use snyder::domain::{copy_set, members};
use snyder::search::retain;
use snyder::{find_all, ConfigurationError, Domain, InvalidStateError, Searchable, State};
use std::collections::HashSet;

#[derive(Clone, Copy, PartialEq, Eq, Hash, Debug)]
struct Position {
    x: usize,
    y: usize,
}

/// A collaborator written against the public interface alone: no symbol
/// twice on a line or in a column.
struct Lines;

impl Searchable<Position, u32> for Lines {
    fn check_constraints(&self, state: &State<Position, u32>, position: &Position, symbol: u32) -> bool {
        !state
            .determined()
            .iter()
            .any(|(k, v)| k != position && (k.x == position.x || k.y == position.y) && *v == symbol)
    }

    fn simplify(
        &self,
        state: &mut State<Position, u32>,
        position: &Position,
        symbol: u32,
    ) -> Result<(), InvalidStateError> {
        for (k, _) in state.undetermined() {
            if k != *position && (k.x == position.x || k.y == position.y) {
                state.narrow(&k, symbol)?;
            }
        }
        Ok(())
    }
}

/// A collaborator that accepts everything and propagates nothing.
struct Anything;

impl Searchable<Position, u32> for Anything {
    fn check_constraints(&self, _: &State<Position, u32>, _: &Position, _: u32) -> bool {
        true
    }
}

/// A collaborator that accepts nothing.
struct Nothing;

impl Searchable<Position, u32> for Nothing {
    fn check_constraints(&self, _: &State<Position, u32>, _: &Position, _: u32) -> bool {
        false
    }
}

fn grid(side: usize) -> Vec<Position> {
    let mut cells = Vec::new();
    for x in 0..side {
        for y in 0..side {
            cells.push(Position { x, y });
        }
    }
    cells
}

#[test]
fn latin_square_of_side_three_has_twelve_solutions() {
    let symbols: HashSet<u32> = HashSet::from([1, 2, 3]);
    let root = State::new(&grid(3), &symbols).unwrap();
    let mut found = Vec::new();
    let mut search = root.solution_iter(Lines);
    while let Some(solution) = search.next() {
        found.push(solution);
    }
    assert_eq!(found.len(), 12);
    for solution in &found {
        assert!(solution.is_solved());
        assert_eq!(solution.determined().len(), 9);
        assert!(solution.undetermined().is_empty());
        for line in 0..3 {
            let row: HashSet<u32> =
                (0..3).map(|y| solution.value(&Position { x: line, y }).unwrap()).collect();
            let column: HashSet<u32> =
                (0..3).map(|x| solution.value(&Position { x, y: line }).unwrap()).collect();
            assert_eq!(row, symbols);
            assert_eq!(column, symbols);
        }
    }
}

#[test]
fn exhausted_search_stays_exhausted() {
    let symbols: HashSet<u32> = HashSet::from([1, 2]);
    let root = State::new(&grid(2), &symbols).unwrap();
    let mut search = root.solution_iter(Lines);
    let mut count = 0;
    while search.next().is_some() {
        count += 1;
    }
    assert_eq!(count, 2);
    for _ in 0..5 {
        assert!(search.next().is_none());
    }
}

#[test]
fn empty_variable_list_has_one_solution() {
    let symbols: HashSet<u32> = HashSet::from([1, 2, 3]);
    let root = State::new(&[], &symbols).unwrap();
    assert!(root.is_solved());
    assert_eq!(root.len(), 0);
    let found = find_all(&root, Anything);
    assert_eq!(found.len(), 1);
    assert!(found[0].is_solved());
    assert_eq!(found[0].len(), 0);
    let none = find_all(&root, Nothing);
    assert_eq!(none.len(), 1);
}

#[test]
fn single_candidate_gives_one_solution_or_none() {
    let only: HashSet<u32> = HashSet::from([7]);
    let one = State::new(&grid(1), &only).unwrap();
    let found = find_all(&one, Lines);
    assert_eq!(found.len(), 1);
    assert_eq!(found[0].value(&Position { x: 0, y: 0 }), Some(7));

    let two = State::new(&grid(2), &only).unwrap();
    assert_eq!(find_all(&two, Lines).len(), 0);
    assert_eq!(find_all(&two, Anything).len(), 1);
    assert_eq!(find_all(&two, Nothing).len(), 0);
}

#[test]
fn construction_refuses_malformed_input() {
    let empty: HashSet<u32> = HashSet::new();
    let symbols: HashSet<u32> = HashSet::from([1, 2]);
    let twice = [Position { x: 0, y: 0 }, Position { x: 1, y: 0 }, Position { x: 0, y: 0 }];
    assert_eq!(State::new(&grid(2), &empty).err(), Some(ConfigurationError::EmptyDomain));
    assert_eq!(State::<Position, u32>::new(&[], &empty).err(), Some(ConfigurationError::EmptyDomain));
    assert_eq!(State::new(&twice, &symbols).err(), Some(ConfigurationError::DuplicateVariable));
    assert_eq!(State::new(&twice, &empty).err(), Some(ConfigurationError::EmptyDomain));
    assert!(State::new(&grid(2), &symbols).is_ok());
}

#[test]
fn determined_and_undetermined_partition_the_variables() {
    let symbols: HashSet<u32> = HashSet::from([1, 2, 3]);
    let cells = grid(2);
    let mut state = State::new(&cells, &symbols).unwrap();
    state.fix(&cells[0], 2);
    state.fix(&cells[3], 1);
    let fixed: Vec<Position> = state.determined().iter().map(|(k, _)| *k).collect();
    let open: Vec<Position> = state.undetermined().iter().map(|(k, _)| *k).collect();
    assert_eq!(fixed.len(), 2);
    assert_eq!(open.len(), 2);
    let mut all: Vec<Position> = fixed.iter().chain(open.iter()).copied().collect();
    all.sort_by_key(|p| (p.x, p.y));
    assert_eq!(all, cells);
    assert_eq!(state.iter().len(), 4);
    assert_eq!(state.variables().len(), 4);
    for child in state.offspring(&Lines) {
        assert_eq!(child.len(), 4);
        assert_eq!(child.determined().len() + child.undetermined().len(), 4);
        assert_eq!(child.determined().len(), 3);
    }
}

#[test]
fn narrow_reports_exhaustion_and_keeps_the_last_candidate() {
    let symbols: HashSet<u32> = HashSet::from([1, 2]);
    let cells = grid(1);
    let mut state = State::new(&cells, &symbols).unwrap();
    assert_eq!(state.narrow(&cells[0], 5), Ok(()));
    assert_eq!(state.narrow(&cells[0], 1), Ok(()));
    assert!(state.allows(&cells[0], 2));
    assert!(!state.allows(&cells[0], 1));
    assert_eq!(state.narrow(&cells[0], 2), Err(InvalidStateError));
    assert!(state.allows(&cells[0], 2));
    assert_eq!(state.narrow(&Position { x: 9, y: 9 }, 2), Ok(()));
    state.fix(&cells[0], 2);
    assert_eq!(state.narrow(&cells[0], 2), Ok(()));
    assert_eq!(state.value(&cells[0]), Some(2));
}

#[test]
fn domain_operations() {
    let mut domain: Domain<u32> = Domain::Undetermined(HashSet::from([4, 5, 6]));
    assert!(!domain.is_determined());
    assert_eq!(domain.candidates(), HashSet::from([4, 5, 6]));
    assert_eq!(domain.narrow(5), Ok(()));
    assert_eq!(domain.candidates(), HashSet::from([4, 6]));
    assert_eq!(domain.narrow(5), Ok(()));
    assert_eq!(domain.narrow(4), Ok(()));
    assert_eq!(domain.narrow(6), Err(InvalidStateError));
    assert_eq!(domain.candidates(), HashSet::from([6]));
    domain.fix(6);
    assert!(domain.is_determined());
    assert_eq!(domain.candidates(), HashSet::from([6]));
    assert_eq!(domain.narrow(6), Ok(()));
    let copy = domain.clone();
    assert!(copy.is_determined());
}

#[test]
fn most_constrained_variable_has_the_fewest_candidates() {
    let symbols: HashSet<u32> = HashSet::from([1, 2, 3]);
    let cells = grid(2);
    let mut state = State::new(&cells, &symbols).unwrap();
    assert_eq!(state.most_constrained_variable().unwrap().1.len(), 3);
    state.narrow(&cells[2], 1).unwrap();
    let (variable, candidates) = state.most_constrained_variable().unwrap();
    assert_eq!(variable, cells[2]);
    assert_eq!(candidates, HashSet::from([2, 3]));
    for cell in &cells {
        let value = if *cell == cells[2] { 2 } else { 1 };
        state.fix(cell, value);
    }
    assert!(state.most_constrained_variable().is_none());
    assert!(state.is_solved());
    assert!(state.offspring(&Anything).is_empty());
}

#[test]
fn two_searches_find_the_same_set() {
    let symbols: HashSet<u32> = HashSet::from([1, 2, 3]);
    let cells = grid(3);
    let assignments = |found: Vec<State<Position, u32>>| -> HashSet<Vec<u32>> {
        found.iter().map(|s| cells.iter().map(|cell| s.value(cell).unwrap()).collect()).collect()
    };
    let first = assignments(find_all(&State::new(&cells, &symbols).unwrap(), Lines));
    let mut reversed = cells.clone();
    reversed.reverse();
    let second = assignments(find_all(&State::new(&reversed, &symbols).unwrap(), Lines));
    let root = State::new(&cells, &symbols).unwrap();
    let mut lazily = Vec::new();
    let mut search = root.clone().solution_iter(Lines);
    while let Some(solution) = search.next() {
        lazily.push(solution);
    }
    let third = assignments(lazily);
    assert_eq!(first.len(), 12);
    assert_eq!(first, second);
    assert_eq!(first, third);
}

#[test]
fn a_search_leaves_its_root_alone() {
    let symbols: HashSet<u32> = HashSet::from([1, 2]);
    let cells = grid(2);
    let root = State::new(&cells, &symbols).unwrap();
    let copy = root.clone();
    assert_eq!(find_all(&root, Lines).len(), 2);
    assert_eq!(root.undetermined().len(), 4);
    assert_eq!(copy.undetermined().len(), 4);
    for cell in &cells {
        assert_eq!(root.get(cell).unwrap().candidates(), symbols);
    }
    assert!(root.get(&Position { x: 5, y: 5 }).is_none());
}

#[test]
fn offspring_are_one_per_feasible_candidate() {
    let symbols: HashSet<u32> = HashSet::from([1, 2, 3]);
    let cells = grid(2);
    let mut state = State::new(&cells, &symbols).unwrap();
    state.fix(&cells[0], 1);
    Lines.simplify(&mut state, &cells[0], 1).unwrap();
    state.narrow(&cells[3], 3).unwrap();
    let children = state.offspring(&Lines);
    assert_eq!(children.len(), 2);
    let mut values: Vec<u32> = Vec::new();
    for child in &children {
        assert_eq!(child.determined().len(), 2);
        let fixed: Vec<(Position, u32)> =
            child.determined().into_iter().filter(|(k, _)| *k != cells[0]).collect();
        assert_eq!(fixed.len(), 1);
        values.push(fixed[0].1);
        assert!(symbols.contains(&fixed[0].1));
        assert_eq!(child.value(&cells[0]), Some(1));
    }
    values.sort();
    assert!(values == vec![2, 3] || values == vec![1, 2]);
    assert!(state.offspring(&Nothing).is_empty());
    assert_eq!(state.offspring(&Anything).len(), 2);
}

#[test]
fn sets_are_copied_and_listed() {
    let source: HashSet<u32> = HashSet::from([3, 1, 4, 5, 9]);
    let mut copy = copy_set(&source);
    assert_eq!(copy, source);
    copy.insert(2);
    assert_eq!(source.len(), 5);
    let mut values = members(&source);
    values.sort();
    assert_eq!(values, vec![1, 3, 4, 5, 9]);
    assert!(members(&HashSet::<u32>::new()).is_empty());
    assert!(copy_set(&HashSet::<u32>::new()).is_empty());
}

#[test]
fn a_child_is_retained_only_after_propagation() {
    let symbols: HashSet<u32> = HashSet::from([1, 2]);
    let cells = grid(1);
    let mut children: Vec<State<Position, u32>> = Vec::new();
    retain(&mut children, State::new(&cells, &symbols).unwrap(), Err(InvalidStateError));
    assert!(children.is_empty());
    retain(&mut children, State::new(&cells, &symbols).unwrap(), Ok(()));
    assert_eq!(children.len(), 1);
    retain(&mut children, State::new(&[], &symbols).unwrap(), Ok(()));
    assert_eq!(children.len(), 2);
    assert_eq!(children[1].len(), 0);
}
