use snyder::board::{Board, Cell, InvalidCell};
use std::collections::HashSet;

fn digits(board: &Board, line: usize, column: usize) -> HashSet<u8> {
    board.values(line, column).into_iter().collect()
}

fn is_peer(line: usize, column: usize, l: usize, c: usize) -> bool {
    (l != line || c != column) && (l == line || c == column || (l / 3 == line / 3 && c / 3 == column / 3))
}

#[test]
fn a_new_cell_allows_every_digit() {
    let cell = Cell::new(2, 3);
    assert_eq!(cell.position(), (2, 3));
    assert_eq!(cell.count(), 9);
    let values: HashSet<u8> = cell.values().into_iter().collect();
    assert_eq!(values, (1..=9).collect::<HashSet<u8>>());
    let copy = cell.clone();
    assert_eq!(copy.position(), (2, 3));
    assert_eq!(copy.count(), 9);
}

#[test]
fn set_keeps_one_digit_or_refuses() {
    let mut cell = Cell::new(0, 0);
    assert_eq!(cell.set(5), Ok(()));
    assert_eq!(cell.values(), vec![5]);
    assert_eq!(cell.set(4), Err(InvalidCell::ImpossibleValue));
    assert_eq!(cell.values(), vec![5]);
    assert_eq!(cell.set(0), Err(InvalidCell::ImpossibleValue));
    assert_eq!(cell.set(5), Ok(()));
    assert_eq!(cell.count(), 1);
}

#[test]
fn remove_reports_the_empty_cell() {
    let mut cell = Cell::new(0, 0);
    for value in 1..9 {
        assert_eq!(cell.remove(value), Ok(()));
        assert_eq!(cell.count(), 9 - value as usize);
    }
    assert_eq!(cell.remove(3), Ok(()));
    assert_eq!(cell.values(), vec![9]);
    assert_eq!(cell.remove(9), Err(InvalidCell::EmptyValueSet));
    assert_eq!(cell.count(), 0);
    assert_eq!(cell.remove(9), Err(InvalidCell::EmptyValueSet));
}

#[test]
fn a_new_board_allows_every_digit_everywhere() {
    let board = Board::new();
    for line in 0..9 {
        for column in 0..9 {
            assert_eq!(board.count(line, column), 9);
        }
    }
    assert!(board.has_free());
    assert_eq!(board.most_constrained_cells().len(), 81);
}

#[test]
fn an_assignment_is_struck_out_of_the_peers() {
    let mut board = Board::new();
    assert_eq!(board.set_cell_value(4, 4, 5), Ok(()));
    let all: HashSet<u8> = (1..=9).collect();
    let without: HashSet<u8> = all.iter().copied().filter(|v| *v != 5).collect();
    for line in 0..9 {
        for column in 0..9 {
            let expected = if (line, column) == (4, 4) {
                HashSet::from([5])
            } else if is_peer(4, 4, line, column) {
                without.clone()
            } else {
                all.clone()
            };
            assert_eq!(digits(&board, line, column), expected);
        }
    }
    let targets = board.most_constrained_cells();
    assert_eq!(targets.len(), 20);
    for (line, column) in targets {
        assert!(is_peer(4, 4, line, column));
    }
}

#[test]
fn an_assignment_that_empties_a_peer_fails() {
    let mut board = Board::new();
    assert_eq!(board.set_cell_value(0, 1, 2), Ok(()));
    assert_eq!(digits(&board, 0, 1), HashSet::from([2]));
    assert!(!digits(&board, 0, 0).contains(&2));
    assert!(board.assign(0, 0, 2).is_none());
    assert_eq!(board.set_cell_value(0, 0, 2), Err(InvalidCell::EmptyValueSet));
    assert_eq!(board.count(0, 1), 0);
    assert_eq!(board.count(0, 0), 8);
}

#[test]
fn assign_leaves_the_board_alone() {
    let board = Board::new();
    let child = board.assign(8, 8, 9).unwrap();
    assert_eq!(board.count(8, 8), 9);
    assert_eq!(board.count(8, 0), 9);
    assert_eq!(child.values(8, 8), vec![9]);
    assert_eq!(child.count(8, 0), 8);
    assert_eq!(child.count(0, 8), 8);
    assert_eq!(child.count(7, 7), 8);
    assert_eq!(child.count(0, 0), 9);
}

#[test]
fn children_at_try_every_digit() {
    let mut board = Board::new();
    board.set_cell_value(0, 0, 1).unwrap();
    board.set_cell_value(0, 1, 2).unwrap();
    let children = board.children_at(0, 2);
    assert_eq!(children.len(), 7);
    let mut tried: HashSet<u8> = HashSet::new();
    for child in &children {
        let values = child.values(0, 2);
        assert_eq!(values.len(), 1);
        assert!(tried.insert(values[0]));
        assert_eq!(child.values(0, 0), vec![1]);
        assert!(!digits(child, 0, 3).contains(&values[0]));
    }
    assert_eq!(tried, (3..=9).collect::<HashSet<u8>>());
}

#[test]
fn children_decide_a_most_constrained_cell() {
    let mut board = Board::new();
    board.set_cell_value(4, 4, 5).unwrap();
    for _ in 0..20 {
        let children = board.children();
        assert_eq!(children.len(), 8);
        let mut decided: HashSet<(usize, usize)> = HashSet::new();
        for child in &children {
            for line in 0..9 {
                for column in 0..9 {
                    assert!(child.count(line, column) <= board.count(line, column));
                    if child.count(line, column) == 1 && (line, column) != (4, 4) {
                        decided.insert((line, column));
                    }
                }
            }
        }
        assert_eq!(decided.len(), 1);
        let (line, column) = decided.into_iter().next().unwrap();
        assert!(is_peer(4, 4, line, column));
    }
}

#[test]
fn children_follow_a_forced_digit() {
    let mut board = Board::new();
    for (column, value) in [(0, 1), (1, 2), (2, 3), (3, 4), (4, 5), (5, 6), (6, 7)] {
        board.set_cell_value(0, column, value).unwrap();
    }
    for (column, value) in [(0, 2), (1, 3), (2, 4), (3, 5), (4, 6), (5, 7), (6, 1), (7, 9)] {
        board.set_cell_value(8, column, value).unwrap();
    }
    assert_eq!(digits(&board, 0, 8), HashSet::from([8, 9]));
    assert_eq!(board.values(0, 7), vec![8]);
    assert_eq!(board.values(8, 8), vec![8]);
    assert_eq!(board.most_constrained_cells(), vec![(0, 8)]);
    assert!(board.assign(0, 8, 8).is_none());
    let forced = board.children_at(0, 8);
    assert_eq!(forced.len(), 1);
    assert_eq!(forced[0].values(0, 8), vec![9]);
    assert!(forced[0].has_free());
    let children = board.children();
    assert!(children.len() != 1 || !children[0].has_free());
    for child in &children {
        assert_eq!(child.values(0, 8), vec![9]);
        let mut decided = 0;
        for line in 0..9 {
            for column in 0..9 {
                assert!(child.count(line, column) <= forced[0].count(line, column));
                if child.count(line, column) < forced[0].count(line, column) {
                    decided += 1;
                }
            }
        }
        assert!(decided > 0);
    }
}
