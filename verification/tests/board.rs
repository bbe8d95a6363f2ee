use std::collections::HashSet;

use tetrus::blocks::{Block, Color, Coords};
use tetrus::board::{Board, BoardError, Direction, Rotation};

fn as_set(cells: &[Coords]) -> HashSet<Coords> {
    cells.iter().copied().collect()
}

fn places(cells: &[Coords]) -> HashSet<(usize, usize)> {
    cells.iter().map(|c| (c.0, c.1)).collect()
}

fn spawn(board: &mut Board, kind: Block) {
    assert!(board.admits(&kind));
    assert_eq!(board.try_insert_block(&kind), Ok(()));
}

fn ticks(board: &mut Board, count: usize) {
    for _ in 0..count {
        assert_eq!(board.try_move_block_down_or_set(), Ok(()));
    }
}

#[test]
fn new_board_is_empty() {
    let board = Board::new(10, 22);
    assert_eq!(board.columns_len(), 10);
    assert_eq!(board.rows_len(), 22);
    assert!(board.coordinates().is_empty());
    assert!(board.block_coordinates().is_empty());
    assert!(!board.is_block_falling());
}

#[test]
fn with_settled_takes_valid_cells_only() {
    let red = Color::Red;
    let board = Board::with_settled(4, 3, vec![(0, 0, red), (3, 2, red)]).unwrap();
    assert_eq!(as_set(board.coordinates()), as_set(&[(0, 0, red), (3, 2, red)]));
    assert!(!board.is_block_falling());
    assert!(Board::with_settled(4, 3, vec![(4, 0, red)]).is_none());
    assert!(Board::with_settled(4, 3, vec![(0, 3, red)]).is_none());
    assert!(Board::with_settled(4, 3, vec![(1, 1, red), (1, 1, Color::Blue)]).is_none());
    assert!(Board::with_settled(0, 0, vec![]).is_some());
}

#[test]
fn spawn_centres_the_piece() {
    let mut board = Board::new(10, 22);
    spawn(&mut board, Block::Line);
    let c = Color::Cyan;
    assert_eq!(
        as_set(board.block_coordinates()),
        as_set(&[(3, 0, c), (4, 0, c), (5, 0, c), (6, 0, c)])
    );
    assert!(board.is_block_falling());

    let mut board = Board::new(10, 22);
    spawn(&mut board, Block::T);
    let m = Color::Magenta;
    assert_eq!(
        as_set(board.block_coordinates()),
        as_set(&[(4, 0, m), (3, 1, m), (4, 1, m), (5, 1, m)])
    );

    let mut board = Board::new(10, 22);
    spawn(&mut board, Block::Square);
    let y = Color::Yellow;
    assert_eq!(
        as_set(board.block_coordinates()),
        as_set(&[(4, 0, y), (5, 0, y), (4, 1, y), (5, 1, y)])
    );
}

#[test]
fn spawn_leans_left_for_odd_widths() {
    let mut board = Board::new(11, 22);
    spawn(&mut board, Block::Z);
    assert_eq!(
        places(board.block_coordinates()),
        [(3, 0), (4, 0), (4, 1), (5, 1)].into_iter().collect()
    );
    let mut board = Board::new(4, 2);
    spawn(&mut board, Block::J);
    assert_eq!(
        places(board.block_coordinates()),
        [(0, 0), (0, 1), (1, 1), (2, 1)].into_iter().collect()
    );
}

#[test]
fn spawn_places_as_many_cells_as_the_catalog_or_nothing() {
    for index in 0..7 {
        let kind = Block::from_index(index).unwrap();
        let mut board = Board::new(10, 22);
        spawn(&mut board, kind);
        assert_eq!(board.block_coordinates().len(), kind.get_coordinates().len());

        let blocked: Vec<Coords> = (0..10).map(|x| (x, 0, Color::Red)).collect();
        let mut board = Board::with_settled(10, 22, blocked.clone()).unwrap();
        assert_eq!(board.try_insert_block(&kind), Err(BoardError::InsertionBlocked));
        assert_eq!(as_set(board.coordinates()), as_set(&blocked));
        assert!(board.block_coordinates().is_empty());
        assert!(!board.is_block_falling());
    }
}

#[test]
fn spawn_fails_beyond_the_rows() {
    let mut board = Board::new(10, 0);
    assert!(board.admits(&Block::Square));
    assert_eq!(board.try_insert_block(&Block::Square), Err(BoardError::InsertionBlocked));
    assert!(!board.is_block_falling());
}

#[test]
fn admits_tells_where_a_piece_has_room() {
    let board = Board::new(10, 22);
    assert!(board.admits(&Block::Line));
    assert!(!Board::new(3, 22).admits(&Block::Line));
    assert!(!Board::new(3, 22).admits(&Block::T));
    assert!(Board::new(3, 22).admits(&Block::Square));
    assert!(!Board::new(1, 22).admits(&Block::Square));
    assert!(!Board::new(10, 1).admits(&Block::Square));
    assert!(Board::new(10, 1).admits(&Block::Line));
    assert!(!Board::new(10, 0).admits(&Block::Line));
    assert!(Board::new(10, 2).admits(&Block::Square));
}

#[test]
fn spawn_replaces_a_falling_piece() {
    let mut board = Board::new(10, 22);
    spawn(&mut board, Block::Line);
    ticks(&mut board, 3);
    spawn(&mut board, Block::Square);
    assert_eq!(
        places(board.block_coordinates()),
        [(4, 0), (5, 0), (4, 1), (5, 1)].into_iter().collect()
    );
    assert!(board.coordinates().is_empty());
}

#[test]
fn collision_predicate() {
    let blue = Color::Blue;
    let board = Board::with_settled(10, 22, vec![(2, 5, blue), (3, 5, blue)]).unwrap();
    assert!(board.is_block_collinding_with_blocks(&vec![(3, 5, Color::Red)]));
    assert!(board.is_block_collinding_with_blocks(&vec![(0, 0, blue), (2, 5, blue)]));
    assert!(!board.is_block_collinding_with_blocks(&vec![(4, 5, blue), (2, 4, blue)]));
    assert!(!board.is_block_collinding_with_blocks(&vec![]));
}

#[test]
fn collision_predicate_lets_the_row_below_the_last_pass() {
    let board = Board::new(10, 22);
    assert!(!board.is_block_collinding_with_blocks(&vec![(0, 21, Color::Red)]));
    assert!(!board.is_block_collinding_with_blocks(&vec![(0, 22, Color::Red)]));
    assert!(board.is_block_collinding_with_blocks(&vec![(0, 23, Color::Red)]));
    assert!(board.is_block_collinding_with_blocks(&vec![(0, 0, Color::Red), (5, 40, Color::Red)]));
}

#[test]
fn collision_is_symmetric_on_equal_places() {
    let a = vec![(1, 1, Color::Red), (2, 30, Color::Red)];
    let b = vec![(1, 1, Color::Blue), (2, 30, Color::Green)];
    let board_a = Board::with_settled(10, 40, a.clone()).unwrap();
    let board_b = Board::with_settled(10, 40, b.clone()).unwrap();
    assert_eq!(
        board_a.is_block_collinding_with_blocks(&b),
        board_b.is_block_collinding_with_blocks(&a)
    );
    let empty_a = Board::with_settled(10, 40, vec![]).unwrap();
    assert_eq!(
        empty_a.is_block_collinding_with_blocks(&vec![]),
        Board::new(10, 40).is_block_collinding_with_blocks(&vec![])
    );
}

#[test]
fn move_left_and_right() {
    let mut board = Board::new(10, 22);
    spawn(&mut board, Block::Line);
    board.move_block_x_axis(Direction::Left);
    assert_eq!(
        places(board.block_coordinates()),
        [(2, 0), (3, 0), (4, 0), (5, 0)].into_iter().collect()
    );
    board.move_block_x_axis(Direction::Right);
    board.move_block_x_axis(Direction::Right);
    assert_eq!(
        places(board.block_coordinates()),
        [(4, 0), (5, 0), (6, 0), (7, 0)].into_iter().collect()
    );
    assert!(board.block_coordinates().iter().all(|c| c.2 == Color::Cyan));
}

#[test]
fn move_stops_at_the_walls() {
    let mut board = Board::new(10, 22);
    spawn(&mut board, Block::Line);
    for _ in 0..3 {
        board.move_block_x_axis(Direction::Left);
    }
    let at_left = as_set(board.block_coordinates());
    assert_eq!(places(board.block_coordinates()), (0..4).map(|x| (x, 0)).collect());
    board.move_block_x_axis(Direction::Left);
    assert_eq!(as_set(board.block_coordinates()), at_left);
    assert!(board.is_block_falling());

    for _ in 0..6 {
        board.move_block_x_axis(Direction::Right);
    }
    let at_right = as_set(board.block_coordinates());
    assert_eq!(places(board.block_coordinates()), (6..10).map(|x| (x, 0)).collect());
    board.move_block_x_axis(Direction::Right);
    assert_eq!(as_set(board.block_coordinates()), at_right);
}

#[test]
fn move_stops_at_settled_cells() {
    let mut board = Board::with_settled(10, 22, vec![(2, 0, Color::Red), (7, 0, Color::Red)]).unwrap();
    spawn(&mut board, Block::Line);
    let before = as_set(board.block_coordinates());
    board.move_block_x_axis(Direction::Left);
    assert_eq!(as_set(board.block_coordinates()), before);
    board.move_block_x_axis(Direction::Right);
    assert_eq!(as_set(board.block_coordinates()), before);
    assert_eq!(board.coordinates().len(), 2);
}

#[test]
fn move_without_a_piece_changes_nothing() {
    let mut board = Board::with_settled(10, 22, vec![(2, 21, Color::Red)]).unwrap();
    board.move_block_x_axis(Direction::Left);
    board.move_block_x_axis(Direction::Right);
    assert!(board.block_coordinates().is_empty());
    assert_eq!(board.coordinates().len(), 1);
    assert!(!board.is_block_falling());
}

#[test]
fn tick_moves_the_piece_down() {
    let mut board = Board::new(10, 22);
    spawn(&mut board, Block::T);
    ticks(&mut board, 2);
    let m = Color::Magenta;
    assert_eq!(
        as_set(board.block_coordinates()),
        as_set(&[(4, 2, m), (3, 3, m), (4, 3, m), (5, 3, m)])
    );
    assert!(board.is_block_falling());
    assert!(board.coordinates().is_empty());
}

#[test]
fn line_lands_on_the_bottom_after_twenty_one_ticks() {
    let mut board = Board::new(10, 22);
    spawn(&mut board, Block::Line);
    let mut moves = 0;
    let error = loop {
        match board.try_move_block_down_or_set() {
            Ok(()) => moves += 1,
            Err(e) => break e,
        }
        assert!(moves <= 22);
    };
    assert_eq!(moves, 21);
    assert_eq!(error, BoardError::LandedOnBoundary);
    let c = Color::Cyan;
    assert_eq!(
        as_set(board.coordinates()),
        as_set(&[(3, 21, c), (4, 21, c), (5, 21, c), (6, 21, c)])
    );
    assert!(board.coordinates().iter().all(|cell| cell.1 == 21));
    assert!(board.block_coordinates().is_empty());
    assert!(!board.is_block_falling());
}

#[test]
fn piece_lands_on_a_settled_cell() {
    let mut board = Board::with_settled(10, 22, vec![(4, 5, Color::Red)]).unwrap();
    spawn(&mut board, Block::Square);
    ticks(&mut board, 3);
    assert_eq!(board.try_move_block_down_or_set(), Err(BoardError::LandedOnBlock));
    let y = Color::Yellow;
    assert_eq!(
        as_set(board.coordinates()),
        as_set(&[(4, 21, Color::Red), (4, 19, y), (5, 19, y), (4, 20, y), (5, 20, y)])
    );
    assert!(!board.is_block_falling());
}

#[test]
fn landing_merges_the_piece_as_it_stands() {
    let mut board = Board::with_settled(10, 22, vec![(4, 21, Color::Red)]).unwrap();
    spawn(&mut board, Block::Square);
    ticks(&mut board, 19);
    assert_eq!(board.try_move_block_down_or_set(), Err(BoardError::LandedOnBlock));
    let y = Color::Yellow;
    assert_eq!(
        as_set(board.coordinates()),
        as_set(&[(4, 21, Color::Red), (4, 19, y), (5, 19, y), (4, 20, y), (5, 20, y)])
    );
}

#[test]
fn tick_without_a_piece_changes_nothing() {
    let mut board = Board::with_settled(10, 22, vec![(4, 21, Color::Red)]).unwrap();
    assert_eq!(board.try_move_block_down_or_set(), Ok(()));
    assert_eq!(as_set(board.coordinates()), as_set(&[(4, 21, Color::Red)]));
    assert!(board.block_coordinates().is_empty());
    assert!(!board.is_block_falling());
}

#[test]
fn rotate_t_piece_both_ways() {
    let mut board = Board::new(10, 22);
    spawn(&mut board, Block::T);
    ticks(&mut board, 2);
    let before = as_set(board.block_coordinates());
    let m = Color::Magenta;
    assert_eq!(
        as_set(&board.rotate_block_coordinates(Rotation::Clockwise)),
        as_set(&[(5, 3, m), (4, 2, m), (4, 3, m), (4, 4, m)])
    );
    assert_eq!(
        as_set(&board.rotate_block_coordinates(Rotation::CounterClockwise)),
        as_set(&[(3, 3, m), (4, 4, m), (4, 3, m), (4, 2, m)])
    );
    assert_eq!(as_set(board.block_coordinates()), before);
    assert_eq!(board.try_rotate_block(Rotation::Clockwise), Ok(()));
    assert_eq!(
        as_set(board.block_coordinates()),
        as_set(&[(5, 3, m), (4, 2, m), (4, 3, m), (4, 4, m)])
    );
}

#[test]
fn rotate_line_piece() {
    let mut board = Board::new(10, 22);
    spawn(&mut board, Block::Line);
    assert_eq!(board.try_rotate_block(Rotation::Clockwise), Ok(()));
    assert_eq!(
        places(board.block_coordinates()),
        [(6, 0), (6, 1), (6, 2), (6, 3)].into_iter().collect()
    );
    assert_eq!(board.try_rotate_block(Rotation::CounterClockwise), Ok(()));
    assert_eq!(
        places(board.block_coordinates()),
        [(6, 3), (7, 3), (8, 3), (9, 3)].into_iter().collect()
    );
}

#[test]
fn rotation_keeps_the_number_of_cells_far_from_the_edges() {
    for index in 0..7 {
        let kind = Block::from_index(index).unwrap();
        for rotation in [Rotation::Clockwise, Rotation::CounterClockwise] {
            let mut board = Board::new(20, 30);
            spawn(&mut board, kind);
            ticks(&mut board, 10);
            for _ in 0..4 {
                assert_eq!(board.rotate_block_coordinates(rotation).len(), 4);
                assert_eq!(board.try_rotate_block(rotation), Ok(()));
                assert_eq!(board.block_coordinates().len(), 4);
                assert_eq!(as_set(board.block_coordinates()).len(), 4);
            }
        }
    }
}

#[test]
fn square_returns_after_four_rotations() {
    for rotation in [Rotation::Clockwise, Rotation::CounterClockwise] {
        let mut board = Board::new(10, 22);
        spawn(&mut board, Block::Square);
        ticks(&mut board, 5);
        let before = as_set(board.block_coordinates());
        for _ in 0..4 {
            assert_eq!(board.try_rotate_block(rotation), Ok(()));
        }
        assert_eq!(as_set(board.block_coordinates()), before);
    }
}

#[test]
fn rotation_is_blocked_at_the_wall() {
    let mut board = Board::new(10, 22);
    spawn(&mut board, Block::Line);
    assert_eq!(board.try_rotate_block(Rotation::Clockwise), Ok(()));
    for _ in 0..3 {
        board.move_block_x_axis(Direction::Right);
    }
    let before = as_set(board.block_coordinates());
    assert_eq!(places(board.block_coordinates()), (0..4).map(|y| (9, y)).collect());
    assert_eq!(board.rotate_block_coordinates(Rotation::Clockwise), vec![(9, 0, Color::Cyan)]);
    assert_eq!(board.try_rotate_block(Rotation::Clockwise), Err(BoardError::RotationBlocked));
    assert_eq!(as_set(board.block_coordinates()), before);
    assert!(board.is_block_falling());
}

#[test]
fn rotation_is_blocked_by_settled_cells() {
    let mut board = Board::with_settled(10, 22, vec![(3, 2, Color::Red)]).unwrap();
    spawn(&mut board, Block::Line);
    let before = as_set(board.block_coordinates());
    assert_eq!(board.rotate_block_coordinates(Rotation::CounterClockwise).len(), 4);
    assert_eq!(board.try_rotate_block(Rotation::CounterClockwise), Err(BoardError::RotationBlocked));
    assert_eq!(as_set(board.block_coordinates()), before);
    assert_eq!(board.coordinates().len(), 1);
}

#[test]
fn rotation_without_a_piece_changes_nothing() {
    let mut board = Board::new(10, 22);
    assert!(board.rotate_block_coordinates(Rotation::Clockwise).is_empty());
    assert_eq!(board.try_rotate_block(Rotation::Clockwise), Ok(()));
    assert!(board.block_coordinates().is_empty());
    assert!(!board.is_block_falling());
}

#[test]
fn error_words() {
    assert_eq!(BoardError::InsertionBlocked.message(), "insertion blocked");
    assert_eq!(BoardError::RotationBlocked.message(), "rotation blocked");
    assert_eq!(BoardError::LandedOnBoundary.message(), "out of bounds");
    assert_eq!(BoardError::LandedOnBlock.message(), "collided with settled block");
}
