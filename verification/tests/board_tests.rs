use queen_board::board::{BoardError, MoveError, QueenBoard};
use queen_board::cell::{CellState, Change};
use queen_board::counter::MAX_SIDE;

fn snapshot(board: &QueenBoard) -> Vec<Vec<CellState>> {
    let n = board.size();
    let mut rows = Vec::new();
    for r in 0..n {
        let mut row = Vec::new();
        for c in 0..n {
            row.push(board.cell(r, c));
        }
        rows.push(row);
    }
    rows
}

fn attacks(a: (usize, usize), b: (usize, usize)) -> bool {
    let dr = if a.0 > b.0 { a.0 - b.0 } else { b.0 - a.0 };
    let dc = if a.1 > b.1 { a.1 - b.1 } else { b.1 - a.1 };
    a != b && (dr == 0 || dc == 0 || dr == dc)
}

fn recount(queens: &[(usize, usize)], n: usize) -> Vec<Vec<CellState>> {
    let mut rows = Vec::new();
    for r in 0..n {
        let mut row = Vec::new();
        for c in 0..n {
            if queens.contains(&(r, c)) {
                row.push(CellState::Queen);
            } else {
                let k = queens.iter().filter(|q| attacks(**q, (r, c))).count();
                row.push(CellState::QueenSeen(k as u16));
            }
        }
        rows.push(row);
    }
    rows
}

#[test]
fn new_board_is_empty() {
    let board = QueenBoard::new(5).unwrap();
    assert_eq!(board.size(), 5);
    assert_eq!(snapshot(&board), vec![vec![CellState::QueenSeen(0); 5]; 5]);
    for r in 0..5 {
        for c in 0..5 {
            assert!(board.can_place_queen(r, c));
        }
    }
}

#[test]
fn new_refuses_size_zero() {
    assert!(matches!(QueenBoard::new(0), Err(BoardError::ZeroSize)));
}

#[test]
fn new_refuses_a_side_beyond_the_counter() {
    assert_eq!(MAX_SIDE, 65536);
    assert!(matches!(QueenBoard::new(MAX_SIDE + 1), Err(BoardError::CounterTooNarrow)));
    assert!(matches!(QueenBoard::new(usize::MAX), Err(BoardError::CounterTooNarrow)));
}

#[test]
fn new_accepts_size_one() {
    let board = QueenBoard::new(1).unwrap();
    assert_eq!(board.size(), 1);
    assert_eq!(board.cell(0, 0), CellState::QueenSeen(0));
}

#[test]
fn two_queens_on_eight_by_eight() {
    let mut board = QueenBoard::new(8).unwrap();
    board.add_queen(0, 0);
    assert!(board.can_place_queen(1, 2));
    board.add_queen(1, 2);
    assert!(!board.can_place_queen(0, 0));
    assert!(!board.can_place_queen(1, 2));
    assert!(!board.can_place_queen(0, 2));
    assert_eq!(board.cell(0, 0), CellState::Queen);
    assert_eq!(board.cell(1, 2), CellState::Queen);
    assert_eq!(board.cell(0, 2), CellState::QueenSeen(2));
    assert_eq!(board.cell(2, 2), CellState::QueenSeen(2));
    assert_eq!(board.cell(2, 3), CellState::QueenSeen(1));
    assert_eq!(board.cell(2, 1), CellState::QueenSeen(1));
    assert_eq!(board.cell(7, 7), CellState::QueenSeen(1));
    assert_eq!(board.cell(2, 4), CellState::QueenSeen(0));
    assert!(board.can_place_queen(2, 4));
    assert_eq!(snapshot(&board), recount(&[(0, 0), (1, 2)], 8));
    board.remove_queen(0, 0);
    board.remove_queen(1, 2);
    assert_eq!(snapshot(&board), vec![vec![CellState::QueenSeen(0); 8]; 8]);
}

#[test]
fn one_queen_in_the_middle_marks_its_rays() {
    let mut board = QueenBoard::new(5).unwrap();
    board.add_queen(2, 2);
    let s = CellState::QueenSeen(1);
    let o = CellState::QueenSeen(0);
    let expected = vec![
        vec![s, o, s, o, s],
        vec![o, s, s, s, o],
        vec![s, s, CellState::Queen, s, s],
        vec![o, s, s, s, o],
        vec![s, o, s, o, s],
    ];
    assert_eq!(snapshot(&board), expected);
}

#[test]
fn queen_in_a_corner_marks_three_rays() {
    let mut board = QueenBoard::new(4).unwrap();
    board.add_queen(3, 0);
    let s = CellState::QueenSeen(1);
    let o = CellState::QueenSeen(0);
    let expected = vec![
        vec![s, o, o, s],
        vec![s, o, s, o],
        vec![s, s, o, o],
        vec![CellState::Queen, s, s, s],
    ];
    assert_eq!(snapshot(&board), expected);
}

#[test]
fn counts_match_a_recount_after_every_call() {
    let mut board = QueenBoard::new(6).unwrap();
    let mut queens: Vec<(usize, usize)> = Vec::new();
    let order = [(0usize, 1usize), (1, 3), (2, 5), (3, 0), (4, 2), (5, 4)];
    for q in order {
        assert!(board.can_place_queen(q.0, q.1));
        board.add_queen(q.0, q.1);
        queens.push(q);
        assert_eq!(snapshot(&board), recount(&queens, 6));
    }
    for q in [(2usize, 5usize), (0, 1), (5, 4)] {
        board.remove_queen(q.0, q.1);
        queens.retain(|p| *p != q);
        assert_eq!(snapshot(&board), recount(&queens, 6));
    }
    board.add_queen(0, 1);
    queens.push((0, 1));
    assert_eq!(snapshot(&board), recount(&queens, 6));
}

#[test]
fn add_then_remove_restores_every_cell() {
    let mut board = QueenBoard::new(7).unwrap();
    board.add_queen(0, 3);
    board.add_queen(1, 5);
    let before = snapshot(&board);
    for r in 0..7 {
        for c in 0..7 {
            if board.can_place_queen(r, c) {
                board.add_queen(r, c);
                assert_ne!(snapshot(&board), before);
                board.remove_queen(r, c);
                assert_eq!(snapshot(&board), before);
            }
        }
    }
}

#[test]
fn can_place_exactly_on_free_unattacked_squares() {
    let mut board = QueenBoard::new(8).unwrap();
    let queens = [(0usize, 4usize), (3, 3), (6, 0)];
    for q in queens {
        board.add_queen(q.0, q.1);
    }
    for r in 0..8 {
        for c in 0..8 {
            let free = !queens.contains(&(r, c)) && !queens.iter().any(|q| attacks(*q, (r, c)));
            assert_eq!(board.can_place_queen(r, c), free);
        }
    }
}

#[test]
fn modify_other_cells_moves_only_attacked_cells() {
    let mut board = QueenBoard::new(4).unwrap();
    board.modify_board_other_cells(1, 1, Change::Increase);
    let s = CellState::QueenSeen(1);
    let o = CellState::QueenSeen(0);
    let expected = vec![
        vec![s, s, s, o],
        vec![s, o, s, s],
        vec![s, s, s, o],
        vec![o, s, o, s],
    ];
    assert_eq!(snapshot(&board), expected);
    board.modify_board_other_cells(1, 1, Change::Decrease);
    assert_eq!(snapshot(&board), vec![vec![o; 4]; 4]);
}

#[test]
fn board_of_side_one_takes_its_queen() {
    let mut board = QueenBoard::new(1).unwrap();
    assert!(board.can_place_queen(0, 0));
    board.add_queen(0, 0);
    assert_eq!(board.cell(0, 0), CellState::Queen);
    assert!(!board.can_place_queen(0, 0));
    board.remove_queen(0, 0);
    assert_eq!(board.cell(0, 0), CellState::QueenSeen(0));
}

#[test]
fn try_add_refuses_squares_off_the_board() {
    let mut board = QueenBoard::new(4).unwrap();
    assert_eq!(board.try_add_queen(4, 0), Err(MoveError::OffBoard));
    assert_eq!(board.try_add_queen(0, 4), Err(MoveError::OffBoard));
    assert_eq!(board.try_add_queen(usize::MAX, usize::MAX), Err(MoveError::OffBoard));
    assert_eq!(snapshot(&board), vec![vec![CellState::QueenSeen(0); 4]; 4]);
}

#[test]
fn try_add_refuses_occupied_and_attacked_squares() {
    let mut board = QueenBoard::new(4).unwrap();
    assert_eq!(board.try_add_queen(1, 1), Ok(()));
    let before = snapshot(&board);
    assert_eq!(board.try_add_queen(1, 1), Err(MoveError::NotFree));
    assert_eq!(board.try_add_queen(1, 3), Err(MoveError::NotFree));
    assert_eq!(board.try_add_queen(2, 2), Err(MoveError::NotFree));
    assert_eq!(snapshot(&board), before);
    assert_eq!(board.try_add_queen(3, 2), Ok(()));
    assert_eq!(snapshot(&board), recount(&[(1, 1), (3, 2)], 4));
}

#[test]
fn try_remove_refuses_squares_without_a_queen() {
    let mut board = QueenBoard::new(4).unwrap();
    board.add_queen(2, 0);
    let before = snapshot(&board);
    assert_eq!(board.try_remove_queen(0, 0), Err(MoveError::NoQueen));
    assert_eq!(board.try_remove_queen(1, 3), Err(MoveError::NoQueen));
    assert_eq!(board.try_remove_queen(4, 1), Err(MoveError::OffBoard));
    assert_eq!(snapshot(&board), before);
    assert_eq!(board.try_remove_queen(2, 0), Ok(()));
    assert_eq!(snapshot(&board), vec![vec![CellState::QueenSeen(0); 4]; 4]);
    assert_eq!(board.try_remove_queen(2, 0), Err(MoveError::NoQueen));
}
