use queen_board::board::QueenBoard;
use queen_board::cell::CellState;

fn queens_on(board: &QueenBoard) -> Vec<(usize, usize)> {
    let n = board.size();
    let mut found = Vec::new();
    for r in 0..n {
        for c in 0..n {
            if board.cell(r, c).is_queen() {
                found.push((r, c));
            }
        }
    }
    found
}

fn cells_of(board: &QueenBoard) -> Vec<Vec<CellState>> {
    let n = board.size();
    let mut rows = Vec::new();
    for r in 0..n {
        let mut row = Vec::new();
        for c in 0..n {
            row.push(board.cell(r, c));
        }
        rows.push(row);
    }
    rows
}

fn is_solution(queens: &[(usize, usize)], n: usize) -> bool {
    if queens.len() != n {
        return false;
    }
    for (i, a) in queens.iter().enumerate() {
        for b in queens.iter().skip(i + 1) {
            let dr = if a.0 > b.0 { a.0 - b.0 } else { b.0 - a.0 };
            let dc = if a.1 > b.1 { a.1 - b.1 } else { b.1 - a.1 };
            if dr == 0 || dc == 0 || dr == dc {
                return false;
            }
        }
    }
    true
}

#[test]
fn solve_side_one() {
    let mut board = QueenBoard::new(1).unwrap();
    assert!(board.solve(0));
    assert_eq!(queens_on(&board), vec![(0, 0)]);
}

#[test]
fn solve_side_two_fails_and_leaves_the_board_empty() {
    let mut board = QueenBoard::new(2).unwrap();
    assert!(!board.solve(0));
    assert_eq!(cells_of(&board), vec![vec![CellState::QueenSeen(0); 2]; 2]);
}

#[test]
fn solve_side_three_fails_and_leaves_the_board_empty() {
    let mut board = QueenBoard::new(3).unwrap();
    assert!(!board.solve(0));
    assert_eq!(cells_of(&board), vec![vec![CellState::QueenSeen(0); 3]; 3]);
}

#[test]
fn solve_side_four_finds_the_first_solution() {
    let mut board = QueenBoard::new(4).unwrap();
    assert!(board.solve(0));
    assert_eq!(queens_on(&board), vec![(0, 1), (1, 3), (2, 0), (3, 2)]);
    assert!(is_solution(&queens_on(&board), 4));
}

#[test]
fn solve_side_eight_finds_the_first_solution() {
    let mut board = QueenBoard::new(8).unwrap();
    assert!(board.solve(0));
    let expected =
        vec![(0, 0), (1, 4), (2, 7), (3, 5), (4, 2), (5, 6), (6, 1), (7, 3)];
    assert_eq!(queens_on(&board), expected);
}

#[test]
fn solve_succeeds_from_side_four_to_ten() {
    for n in 4..=10 {
        let mut board = QueenBoard::new(n).unwrap();
        assert!(board.solve(0));
        assert!(is_solution(&queens_on(&board), n));
    }
}

#[test]
fn solve_twice_gives_the_same_board() {
    for n in 1..=9 {
        let mut first = QueenBoard::new(n).unwrap();
        let mut second = QueenBoard::new(n).unwrap();
        assert_eq!(first.solve(0), second.solve(0));
        assert_eq!(cells_of(&first), cells_of(&second));
    }
}

#[test]
fn solve_at_the_last_row_plus_one_succeeds_at_once() {
    let mut board = QueenBoard::new(5).unwrap();
    board.add_queen(1, 1);
    let before = cells_of(&board);
    assert!(board.solve(5));
    assert_eq!(cells_of(&board), before);
}

#[test]
fn solve_keeps_the_queens_already_placed() {
    let mut board = QueenBoard::new(4).unwrap();
    board.add_queen(0, 2);
    assert!(board.solve(1));
    assert_eq!(queens_on(&board), vec![(0, 2), (1, 0), (2, 3), (3, 1)]);
}

#[test]
fn solve_fails_behind_a_corner_queen_and_restores_the_board() {
    let mut board = QueenBoard::new(4).unwrap();
    board.add_queen(0, 0);
    let before = cells_of(&board);
    assert!(!board.solve(1));
    assert_eq!(cells_of(&board), before);
}

#[test]
fn solve_fails_on_a_row_that_holds_a_queen() {
    let mut board = QueenBoard::new(4).unwrap();
    board.add_queen(0, 1);
    let before = cells_of(&board);
    assert!(!board.solve(0));
    assert_eq!(cells_of(&board), before);
}

#[test]
fn solved_board_counts_are_exact() {
    let mut board = QueenBoard::new(6).unwrap();
    assert!(board.solve(0));
    let queens = queens_on(&board);
    for r in 0..6usize {
        for c in 0..6usize {
            if !queens.contains(&(r, c)) {
                let k = queens
                    .iter()
                    .filter(|q| {
                        let dr = if q.0 > r { q.0 - r } else { r - q.0 };
                        let dc = if q.1 > c { q.1 - c } else { c - q.1 };
                        dr == 0 || dc == 0 || dr == dc
                    })
                    .count();
                assert_eq!(board.cell(r, c), CellState::QueenSeen(k as u16));
            }
        }
    }
}
