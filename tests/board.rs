use reversi::{Board, Cell, BOARD_WIDTH};

fn at(board: &Board, r: usize, c: usize) -> Cell {
    board.cells[r * BOARD_WIDTH + c]
}

fn empty_board() -> Board {
    Board { cells: [Cell::Empty; 64] }
}

#[test]
fn test_puttable() {
    let board = Board::new();
    assert_eq!(board.puttable([3, 3], &Cell::Light), false);
    assert_eq!(board.puttable([3, 2], &Cell::Light), false);
    assert_eq!(board.puttable([3, 2], &Cell::Dark), true);
    assert_eq!(board.puttable([4, 2], &Cell::Light), true);
}

#[test]
fn test_put() {
    let mut board = Board::new();
    board.put([3, 2], &Cell::Dark);
    assert_eq!(board.cells[3 * BOARD_WIDTH + 2], Cell::Dark);
    assert_eq!(board.cells[3 * BOARD_WIDTH + 3], Cell::Dark);
    board.put([2, 2], &Cell::Light);
    assert_eq!(board.cells[2 * BOARD_WIDTH + 2], Cell::Light);
    assert_eq!(board.cells[3 * BOARD_WIDTH + 3], Cell::Light);
}

#[test]
fn opening_layout() {
    let board = Board::new();
    let mut occupied = 0;
    for r in 0..8 {
        for c in 0..8 {
            let expected = match (r, c) {
                (3, 3) | (4, 4) => Cell::Light,
                (3, 4) | (4, 3) => Cell::Dark,
                _ => Cell::Empty,
            };
            assert_eq!(at(&board, r, c), expected);
            if expected != Cell::Empty {
                occupied += 1;
            }
        }
    }
    assert_eq!(occupied, 4);
}

#[test]
fn opening_moves_of_each_color() {
    let board = Board::new();
    let dark = [[2, 3], [3, 2], [4, 5], [5, 4]];
    let light = [[2, 4], [3, 5], [4, 2], [5, 3]];
    for r in 0..8 {
        for c in 0..8 {
            assert_eq!(board.puttable([r, c], &Cell::Dark), dark.contains(&[r, c]));
            assert_eq!(board.puttable([r, c], &Cell::Light), light.contains(&[r, c]));
        }
    }
}

#[test]
fn occupied_squares_are_never_legal() {
    let board = Board::new();
    for p in [[3, 3], [3, 4], [4, 3], [4, 4]] {
        assert!(!board.puttable(p, &Cell::Dark));
        assert!(!board.puttable(p, &Cell::Light));
    }
}

#[test]
fn off_board_positions() {
    let board = Board::new();
    for r in -8isize..16 {
        for c in -8isize..16 {
            let inside = (0..8).contains(&r) && (0..8).contains(&c);
            let cell = board.position_to_cell([r, c]);
            assert_eq!(cell.is_some(), inside);
            if inside {
                assert_eq!(cell, Some(at(&board, r as usize, c as usize)));
            }
        }
    }
    for r in 0usize..16 {
        for c in 0usize..16 {
            if r >= 8 || c >= 8 {
                assert!(!board.puttable([r, c], &Cell::Dark));
                assert!(!board.puttable([r, c], &Cell::Light));
            }
        }
    }
    assert!(!board.puttable([usize::MAX, 0], &Cell::Dark));
}

#[test]
fn opening_move_flips_one_disc() {
    let mut board = Board::new();
    assert!(board.puttable([2, 3], &Cell::Dark));
    board.put([2, 3], &Cell::Dark);
    for r in 0..8 {
        for c in 0..8 {
            let expected = match (r, c) {
                (2, 3) | (3, 3) | (3, 4) | (4, 3) => Cell::Dark,
                (4, 4) => Cell::Light,
                _ => Cell::Empty,
            };
            assert_eq!(at(&board, r, c), expected);
        }
    }
}

#[test]
fn captures_in_two_directions_at_once() {
    let mut board = empty_board();
    board.cells[4 * BOARD_WIDTH + 2] = Cell::Dark;
    board.cells[4 * BOARD_WIDTH + 3] = Cell::Light;
    board.cells[3 * BOARD_WIDTH + 4] = Cell::Light;
    board.cells[2 * BOARD_WIDTH + 4] = Cell::Light;
    board.cells[1 * BOARD_WIDTH + 4] = Cell::Dark;
    assert!(board.puttable([4, 4], &Cell::Dark));
    board.put([4, 4], &Cell::Dark);
    for (r, c) in [(4, 4), (4, 3), (4, 2), (3, 4), (2, 4), (1, 4)] {
        assert_eq!(at(&board, r, c), Cell::Dark);
    }
    let dark = board.cells.iter().filter(|x| **x == Cell::Dark).count();
    assert_eq!(dark, 6);
    assert_eq!(board.cells.iter().filter(|x| **x == Cell::Light).count(), 0);
}

#[test]
fn opening_with_extra_row_captures_two_runs() {
    let mut board = Board::new();
    board.cells[2 * BOARD_WIDTH + 3] = Cell::Light;
    board.cells[2 * BOARD_WIDTH + 4] = Cell::Light;
    board.cells[3 * BOARD_WIDTH + 5] = Cell::Dark;
    assert!(board.puttable([1, 3], &Cell::Dark));
    board.put([1, 3], &Cell::Dark);
    for r in 0..8 {
        for c in 0..8 {
            let expected = match (r, c) {
                (1, 3) | (2, 3) | (3, 3) | (2, 4) | (3, 5) | (3, 4) | (4, 3) => Cell::Dark,
                (4, 4) => Cell::Light,
                _ => Cell::Empty,
            };
            assert_eq!(at(&board, r, c), expected);
        }
    }
}

#[test]
fn legality_check_leaves_board_unchanged() {
    let board = Board::new();
    let snapshot = board.cells;
    for r in 0..10 {
        for c in 0..10 {
            board.puttable([r, c], &Cell::Dark);
            board.puttable([r, c], &Cell::Light);
        }
    }
    assert_eq!(board.cells, snapshot);
}

#[test]
fn illegal_move_changes_only_its_square() {
    let mut board = Board::new();
    let snapshot = board.cells;
    assert!(!board.puttable([0, 0], &Cell::Dark));
    board.put([0, 0], &Cell::Dark);
    for i in 0..64 {
        let expected = if i == 0 { Cell::Dark } else { snapshot[i] };
        assert_eq!(board.cells[i], expected);
    }
}

#[test]
fn empty_color_never_moves() {
    let board = Board::new();
    for r in 0..8 {
        for c in 0..8 {
            assert!(!board.puttable([r, c], &Cell::Empty));
        }
    }
}

#[test]
fn longest_run_along_an_edge() {
    let mut board = empty_board();
    for c in 1..7 {
        board.cells[c] = Cell::Light;
    }
    board.cells[7] = Cell::Dark;
    assert!(board.puttable([0, 0], &Cell::Dark));
    assert!(!board.puttable([0, 0], &Cell::Light));
    board.put([0, 0], &Cell::Dark);
    for c in 0..8 {
        assert_eq!(at(&board, 0, c), Cell::Dark);
    }
}

#[test]
fn run_ending_off_board_captures_nothing() {
    let mut board = empty_board();
    for c in 1..8 {
        board.cells[c] = Cell::Light;
    }
    assert!(!board.puttable([0, 0], &Cell::Dark));
}

#[test]
fn diagonal_capture() {
    let mut board = empty_board();
    board.cells[6 * BOARD_WIDTH + 1] = Cell::Light;
    board.cells[5 * BOARD_WIDTH + 2] = Cell::Light;
    board.cells[4 * BOARD_WIDTH + 3] = Cell::Dark;
    assert!(board.puttable([7, 0], &Cell::Dark));
    board.put([7, 0], &Cell::Dark);
    assert_eq!(at(&board, 6, 1), Cell::Dark);
    assert_eq!(at(&board, 5, 2), Cell::Dark);
}
