use std::collections::HashSet;

use tetrus::blocks::{Block, Color, Coords};
use tetrus::board::{Board, BoardError, Direction, Rotation};

fn set_of(cells: &[Coords]) -> HashSet<Coords> {
    cells.iter().copied().collect()
}

fn tint(index: usize) -> Color {
    match index % 4 {
        0 => Color::Red,
        1 => Color::Green,
        2 => Color::Blue,
        _ => Color::Rgb { r: index as u8, g: 0, b: 7 },
    }
}

fn cleared(columns: usize, rows: usize, cells: Vec<Coords>) -> HashSet<Coords> {
    let mut board = Board::with_settled(columns, rows, cells).unwrap();
    board.clear_lines();
    assert!(board.block_coordinates().is_empty());
    assert!(!board.is_block_falling());
    set_of(board.coordinates())
}

#[test]
fn clearing_an_empty_board() {
    assert!(cleared(10, 22, vec![]).is_empty());
    assert!(cleared(0, 0, vec![]).is_empty());
}

#[test]
fn clearing_removes_a_full_bottom_row() {
    let cells: Vec<Coords> = (0..10).map(|x| (x, 21, tint(x))).collect();
    assert!(cleared(10, 22, cells).is_empty());
}

#[test]
fn clearing_drops_the_rows_above_a_full_row() {
    let mut cells: Vec<Coords> = (0..4).map(|x| (x, 3, Color::Red)).collect();
    cells.push((1, 2, Color::Blue));
    cells.push((3, 1, Color::Green));
    cells.push((0, 0, Color::Cyan));
    let expected = set_of(&[(1, 3, Color::Blue), (3, 2, Color::Green), (0, 1, Color::Cyan)]);
    assert_eq!(cleared(4, 4, cells), expected);
}

#[test]
fn clearing_packs_rows_over_gaps() {
    let cells = vec![(0, 0, Color::Red), (1, 0, Color::Blue), (2, 3, Color::Green)];
    let expected = set_of(&[(0, 4, Color::Red), (1, 4, Color::Blue), (2, 5, Color::Green)]);
    assert_eq!(cleared(4, 6, cells), expected);
}

#[test]
fn clearing_rows_two_and_five_of_twenty_two() {
    let mut cells: Vec<Coords> = Vec::new();
    for row in 0..22 {
        if row == 2 || row == 5 {
            for x in 0..10 {
                cells.push((x, row, tint(x + row)));
            }
        } else {
            cells.push((row % 10, row, tint(row)));
            cells.push(((row + 3) % 10, row, tint(row + 1)));
        }
    }
    let after = cleared(10, 22, cells.clone());

    let mut expected: HashSet<Coords> = HashSet::new();
    for &(x, row, color) in &cells {
        let landing = match row {
            0 | 1 => row + 2,
            3 | 4 => row + 1,
            2 | 5 => continue,
            _ => row,
        };
        expected.insert((x, landing, color));
    }
    assert_eq!(after, expected);
    assert_eq!(after.len(), cells.len() - 2 * 10);
    let rows: HashSet<usize> = after.iter().map(|c| c.1).collect();
    assert_eq!(rows, (2..22).collect());
    assert_eq!(rows.len(), 22 - 2);
}

#[test]
fn clearing_all_rows_at_once() {
    let mut cells: Vec<Coords> = Vec::new();
    for row in 0..5 {
        for x in 0..3 {
            cells.push((x, row, tint(x)));
        }
    }
    assert!(cleared(3, 5, cells).is_empty());
}

#[test]
fn clearing_twice_is_clearing_once() {
    let without_full_row = vec![
        (0, 0, Color::Red),
        (1, 2, Color::Blue),
        (2, 2, Color::Green),
        (3, 5, Color::Cyan),
    ];
    let with_full_row = {
        let mut cells: Vec<Coords> = (0..4).map(|x| (x, 4, tint(x))).collect();
        cells.extend(without_full_row.iter().copied());
        cells
    };
    for cells in [without_full_row, with_full_row] {
        let mut board = Board::with_settled(4, 7, cells).unwrap();
        board.clear_lines();
        let once = set_of(board.coordinates());
        board.clear_lines();
        assert_eq!(set_of(board.coordinates()), once);
    }
}

#[test]
fn clearing_a_packed_board_without_full_rows_changes_nothing() {
    let cells = vec![(0, 5, Color::Red), (1, 5, Color::Blue), (1, 4, Color::Green)];
    assert_eq!(cleared(4, 6, cells.clone()), set_of(&cells));
}

fn drop_piece(board: &mut Board, kind: Block, turn: bool, shift: isize) -> BoardError {
    assert!(board.admits(&kind));
    assert_eq!(board.try_insert_block(&kind), Ok(()));
    if turn {
        assert_eq!(board.try_rotate_block(Rotation::Clockwise), Ok(()));
    }
    for _ in 0..shift.unsigned_abs() {
        board.move_block_x_axis(if shift < 0 { Direction::Left } else { Direction::Right });
    }
    loop {
        if let Err(error) = board.try_move_block_down_or_set() {
            return error;
        }
    }
}

#[test]
fn completing_the_bottom_row_clears_it() {
    let mut board = Board::new(10, 22);
    assert_eq!(drop_piece(&mut board, Block::Line, false, -3), BoardError::LandedOnBoundary);
    assert_eq!(drop_piece(&mut board, Block::Line, false, 1), BoardError::LandedOnBoundary);
    assert_eq!(drop_piece(&mut board, Block::Line, true, 2), BoardError::LandedOnBoundary);
    let before = set_of(board.coordinates());
    assert_eq!(before.len(), 12);
    let bottom: HashSet<usize> = before.iter().filter(|c| c.1 == 21).map(|c| c.0).collect();
    assert_eq!(bottom, (0..9).collect());

    assert_eq!(drop_piece(&mut board, Block::Line, true, 3), BoardError::LandedOnBoundary);
    let after = set_of(board.coordinates());
    assert_eq!(after.len(), before.len() + 4 - 10);
    let c = Color::Cyan;
    assert_eq!(
        after,
        set_of(&[(8, 19, c), (8, 20, c), (8, 21, c), (9, 19, c), (9, 20, c), (9, 21, c)])
    );
    assert!(!board.is_block_falling());
    assert!(board.block_coordinates().is_empty());
}

#[test]
fn landing_on_a_block_clears_full_rows_too() {
    let mut cells: Vec<Coords> = (0..10).filter(|x| *x != 4 && *x != 5).map(|x| (x, 20, Color::Red)).collect();
    cells.extend((0..10).map(|x| (x, 21, Color::Blue)).filter(|c| c.0 != 0));
    let mut board = Board::with_settled(10, 22, cells).unwrap();
    assert_eq!(drop_piece(&mut board, Block::Square, false, 0), BoardError::LandedOnBlock);
    let y = Color::Yellow;
    let mut expected: HashSet<Coords> = (1..10).map(|x| (x, 21, Color::Blue)).collect();
    expected.insert((4, 20, y));
    expected.insert((5, 20, y));
    assert_eq!(set_of(board.coordinates()), expected);
}
