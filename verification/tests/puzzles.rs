use snyder::grid::{board, cell_at, cells};
use snyder::latin_square::LatinSquare;
use snyder::nqueens::NQueens;
use snyder::pairwise::{admits, all_compatible, is_solution, prune, Pairwise, WholeState};
use snyder::sudoku::Sudoku;
use snyder::{find_all, ConfigurationError, InvalidStateError, Searchable, State};
use std::collections::HashSet;

fn letters() -> HashSet<u32> {
    HashSet::from(['A' as u32, 'B' as u32, 'C' as u32])
}

fn queens_of(solution: &State<usize, bool>, side: usize) -> Vec<(usize, usize)> {
    let mut queens: Vec<(usize, usize)> = solution
        .determined()
        .iter()
        .filter(|(_, queen)| *queen)
        .map(|(square, _)| (square / side, square % side))
        .collect();
    queens.sort();
    queens
}

#[test]
fn latin_square_of_three_letters() {
    let rules = LatinSquare::new(3);
    let root = board(3, &letters()).unwrap();
    let found = find_all(&root, rules);
    assert_eq!(found.len(), 12);
    let mut seen: HashSet<Vec<u32>> = HashSet::new();
    for solution in &found {
        assert!(solution.is_solved());
        assert!(is_solution(&rules, solution));
        for line in 0..3 {
            let row: HashSet<u32> =
                (0..3).map(|column| solution.value(&cell_at(3, line, column)).unwrap()).collect();
            let column: HashSet<u32> =
                (0..3).map(|row| solution.value(&cell_at(3, row, line)).unwrap()).collect();
            assert_eq!(row, letters());
            assert_eq!(column, letters());
        }
        let flat: Vec<u32> = (0..9).map(|cell| solution.value(&cell).unwrap()).collect();
        assert!(seen.insert(flat));
    }
}

#[test]
fn four_queens_have_two_solutions() {
    let rules = NQueens::new(4);
    let squares: HashSet<bool> = HashSet::from([true, false]);
    let root = board(4, &squares).unwrap();
    let found = find_all(&root, rules);
    assert_eq!(found.len(), 2);
    let mut boards: Vec<Vec<(usize, usize)>> = found.iter().map(|s| queens_of(s, 4)).collect();
    boards.sort();
    assert_eq!(boards[0], vec![(0, 1), (1, 3), (2, 0), (3, 2)]);
    assert_eq!(boards[1], vec![(0, 2), (1, 0), (2, 3), (3, 1)]);
    for solution in &found {
        assert!(rules.is_solution(solution));
        assert_eq!(rules.holding(solution, true).len(), 4);
        assert_eq!(rules.holding(solution, false).len(), 12);
    }
}

#[test]
fn six_queens_have_four_solutions() {
    let rules = NQueens::new(6);
    let squares: HashSet<bool> = HashSet::from([true, false]);
    let root = board(6, &squares).unwrap();
    let mut search = root.solution_iter(rules);
    let mut count = 0;
    while let Some(solution) = search.next() {
        assert!(rules.is_solution(&solution));
        count += 1;
    }
    assert_eq!(count, 4);
    assert!(search.next().is_none());
}

#[test]
fn sudoku_with_blocks_of_two() {
    let rules = Sudoku::new(2);
    let digits: HashSet<u32> = (1..=4).collect();
    let root = board(4, &digits).unwrap();
    let found = find_all(&root, rules);
    assert_eq!(found.len(), 288);
    let mut seen: HashSet<Vec<u32>> = HashSet::new();
    for solution in &found {
        assert!(solution.is_solved());
        assert_eq!(solution.determined().len(), 16);
        assert!(rules.is_solution(solution));
        for i in 0..4 {
            let row: HashSet<u32> =
                (0..4).map(|c| solution.value(&cell_at(4, i, c)).unwrap()).collect();
            let column: HashSet<u32> =
                (0..4).map(|l| solution.value(&cell_at(4, l, i)).unwrap()).collect();
            let block: HashSet<u32> = (0..4)
                .map(|j| {
                    let line = (i / 2) * 2 + j / 2;
                    let column = (i % 2) * 2 + j % 2;
                    solution.value(&cell_at(4, line, column)).unwrap()
                })
                .collect();
            assert_eq!(row, digits);
            assert_eq!(column, digits);
            assert_eq!(block, digits);
        }
        let flat: Vec<u32> = (0..16).map(|cell| solution.value(&cell).unwrap()).collect();
        assert!(seen.insert(flat));
    }
}

#[test]
fn sudoku_with_givens_has_one_solution() {
    let rules = Sudoku::new(2);
    let digits: HashSet<u32> = (1..=4).collect();
    let mut root = board(4, &digits).unwrap();
    let givens = [(0, 0, 1), (0, 1, 2), (1, 0, 3), (1, 2, 1), (2, 1, 1), (3, 3, 1), (2, 2, 4)];
    for (line, column, digit) in givens {
        let cell = cell_at(4, line, column);
        assert!(root.allows(&cell, digit));
        root.fix(&cell, digit);
        assert!(rules.check_constraints(&root, &cell, digit));
        assert_eq!(rules.simplify(&mut root, &cell, digit), Ok(()));
    }
    let found = find_all(&root, rules);
    assert_eq!(found.len(), 1);
    let flat: Vec<u32> = (0..16).map(|cell| found[0].value(&cell).unwrap()).collect();
    assert_eq!(flat, vec![1, 2, 3, 4, 3, 4, 1, 2, 2, 1, 4, 3, 4, 3, 2, 1]);
}

#[test]
fn adjacency_of_sudoku_cells() {
    let rules = Sudoku::new(3);
    let at = |line: usize, column: usize| cell_at(9, line, column);
    assert!(!rules.is_adjacent(at(4, 4), at(4, 4)));
    assert!(rules.is_adjacent(at(4, 4), at(4, 8)));
    assert!(rules.is_adjacent(at(4, 4), at(0, 4)));
    assert!(rules.is_adjacent(at(4, 4), at(3, 5)));
    assert!(rules.is_adjacent(at(3, 5), at(4, 4)));
    assert!(!rules.is_adjacent(at(4, 4), at(2, 5)));
    assert!(!rules.is_adjacent(at(4, 4), at(6, 6)));
    assert!(!rules.is_adjacent(at(0, 0), at(3, 3)));
    assert!(!Sudoku::new(0).is_adjacent(0, 1));
}

#[test]
fn attacks_of_queens() {
    let rules = NQueens::new(8);
    let at = |line: usize, column: usize| cell_at(8, line, column);
    assert!(!rules.is_attacking(at(3, 3), at(3, 3)));
    assert!(rules.is_attacking(at(3, 3), at(3, 7)));
    assert!(rules.is_attacking(at(3, 3), at(0, 3)));
    assert!(rules.is_attacking(at(3, 3), at(6, 6)));
    assert!(rules.is_attacking(at(3, 3), at(0, 6)));
    assert!(rules.is_attacking(at(0, 6), at(3, 3)));
    assert!(!rules.is_attacking(at(3, 3), at(4, 5)));
    assert!(!rules.is_attacking(at(3, 3), at(5, 4)));
    assert!(rules.is_forbidden(&at(3, 3), true, &at(3, 7), true));
    assert!(!rules.is_forbidden(&at(3, 3), true, &at(3, 7), false));
    assert!(!rules.is_forbidden(&at(3, 3), false, &at(3, 7), true));
    assert!(!NQueens::new(0).is_attacking(0, 1));
}

#[test]
fn relation_of_latin_cells() {
    let rules = LatinSquare::new(3);
    assert!(rules.is_related(0, 1));
    assert!(rules.is_related(0, 6));
    assert!(!rules.is_related(0, 4));
    assert!(!rules.is_related(4, 4));
    assert!(rules.is_forbidden(&0, 7, &2, 7));
    assert!(!rules.is_forbidden(&0, 7, &2, 8));
    assert!(!LatinSquare::new(0).is_related(0, 1));
}

#[test]
fn grid_cells_and_boards() {
    assert_eq!(cells(0), Vec::<usize>::new());
    assert_eq!(cells(2), vec![0, 1, 2, 3]);
    assert_eq!(cell_at(5, 2, 3), 13);
    let none: HashSet<u32> = HashSet::new();
    assert_eq!(board(3, &none).err(), Some(ConfigurationError::EmptyDomain));
    let root = board(3, &letters()).unwrap();
    assert_eq!(root.len(), 9);
    assert_eq!(root.undetermined().len(), 9);
    let empty = board(0, &letters()).unwrap();
    assert_eq!(empty.len(), 0);
    assert_eq!(find_all(&empty, LatinSquare::new(0)).len(), 1);
}

#[test]
fn one_letter_fits_only_the_smallest_square() {
    let only: HashSet<u32> = HashSet::from(['A' as u32]);
    let one = board(1, &only).unwrap();
    assert_eq!(find_all(&one, LatinSquare::new(1)).len(), 1);
    let two = board(2, &only).unwrap();
    assert_eq!(find_all(&two, LatinSquare::new(2)).len(), 0);
}

#[test]
fn check_and_propagation_by_pairs() {
    let rules = LatinSquare::new(2);
    let symbols: HashSet<u32> = HashSet::from([1, 2]);
    let mut state = board(2, &symbols).unwrap();
    state.fix(&0, 1);
    assert!(admits(&rules, &state, &0, 1));
    assert_eq!(prune(&rules, &mut state, &0, 1), Ok(()));
    assert!(!state.allows(&1, 1));
    assert!(!state.allows(&2, 1));
    assert!(state.allows(&3, 1));
    assert!(state.allows(&1, 2));
    state.fix(&3, 2);
    assert!(admits(&rules, &state, &3, 2));
    assert_eq!(prune(&rules, &mut state, &3, 2), Err(InvalidStateError));
    let mut clash = board(2, &symbols).unwrap();
    clash.fix(&0, 1);
    clash.fix(&1, 1);
    assert!(!admits(&rules, &clash, &1, 1));
    assert!(!rules.check_constraints(&clash, &1, 1));
    assert!(!is_solution(&rules, &clash));
}

#[test]
fn whole_state_tests_refuse_wrong_boards() {
    let squares: HashSet<bool> = HashSet::from([true, false]);
    let rules = NQueens::new(2);
    let mut state = board(2, &squares).unwrap();
    assert!(!rules.is_solution(&state));
    for square in 0..4 {
        state.fix(&square, false);
    }
    assert!(!rules.is_solution(&state));
    let mut attacked = board(2, &squares).unwrap();
    for (square, queen) in [(0, true), (1, false), (2, false), (3, true)] {
        attacked.fix(&square, queen);
    }
    assert!(!rules.is_solution(&attacked));
    assert_eq!(find_all(&board(2, &squares).unwrap(), rules).len(), 0);
    assert_eq!(find_all(&board(1, &squares).unwrap(), NQueens::new(1)).len(), 1);

    let digits: HashSet<u32> = (1..=4).collect();
    let sudoku = Sudoku::new(2);
    let mut wrong = board(4, &digits).unwrap();
    for cell in 0..16usize {
        wrong.fix(&cell, (cell % 4) as u32 + 1);
    }
    assert!(!sudoku.is_solution(&wrong));
    assert!(!sudoku.is_solution(&board(4, &digits).unwrap()));
}

#[test]
fn adjacent_cells_of_a_sudoku_state() {
    let rules = Sudoku::new(2);
    let digits: HashSet<u32> = (1..=4).collect();
    let state = board(4, &digits).unwrap();
    let mut cells = rules.adjacent_cells(&state, 5);
    cells.sort();
    assert_eq!(cells, vec![0, 1, 4, 6, 7, 9, 13]);
    assert!(rules.adjacent_cells(&state, 99).iter().all(|cell| *cell < 16));
    assert!(Sudoku::new(0).adjacent_cells(&state, 5).is_empty());
}

#[test]
fn eight_queens_have_ninety_two_solutions() {
    let rules = NQueens::new(8);
    let squares: HashSet<bool> = HashSet::from([true, false]);
    let root = board(8, &squares).unwrap();
    let found = find_all(&root, rules);
    assert_eq!(found.len(), 92);
    let distinct: HashSet<Vec<(usize, usize)>> = found.iter().map(|s| queens_of(s, 8)).collect();
    assert_eq!(distinct.len(), 92);
}

#[test]
fn a_test_of_whole_states_finds_the_same_squares() {
    let rules = LatinSquare::new(3);
    let root = board(3, &letters()).unwrap();
    let gate = WholeState { rules, variables: root.len() };
    let found = find_all(&root, gate);
    assert_eq!(found.len(), 12);
    for solution in &found {
        assert!(is_solution(&rules, solution));
    }
    let mut partial = board(2, &letters()).unwrap();
    partial.fix(&0, 'A' as u32);
    partial.fix(&1, 'A' as u32);
    let small = WholeState { rules: LatinSquare::new(2), variables: 4 };
    assert!(small.check_constraints(&partial, &1, 'A' as u32));
    partial.fix(&2, 'B' as u32);
    partial.fix(&3, 'C' as u32);
    assert!(!small.check_constraints(&partial, &3, 'C' as u32));
    let lax = WholeState { rules: LatinSquare::new(2), variables: 5 };
    assert!(lax.check_constraints(&partial, &3, 'C' as u32));
}

#[test]
fn whole_boards_of_queens_need_the_count_as_well() {
    let squares: HashSet<bool> = HashSet::from([true, false]);
    let rules = NQueens::new(4);
    let root = board(4, &squares).unwrap();
    let gate = WholeState { rules, variables: root.len() };
    let found = find_all(&root, gate);
    assert!(found.len() > 2);
    let full: Vec<&State<usize, bool>> = found.iter().filter(|s| rules.is_solution(s)).collect();
    assert_eq!(full.len(), 2);
}

#[test]
fn lists_of_assignments_are_tested_pair_by_pair() {
    let rules = LatinSquare::new(2);
    assert!(all_compatible(&rules, &vec![]));
    assert!(all_compatible(&rules, &vec![(0, 1), (1, 2), (2, 2), (3, 1)]));
    assert!(!all_compatible(&rules, &vec![(0, 1), (1, 2), (2, 1)]));
    assert!(all_compatible(&rules, &vec![(0, 1), (3, 1)]));
}
