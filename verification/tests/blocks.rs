use std::collections::HashSet;

use tetrus::blocks::{Block, Color, Coords, KINDS};

fn as_set(cells: &[Coords]) -> HashSet<Coords> {
    cells.iter().copied().collect()
}

const ALL: [Block; 7] = [
    Block::Square,
    Block::T,
    Block::Line,
    Block::L,
    Block::J,
    Block::Z,
    Block::S,
];

#[test]
fn shape_of_each_kind() {
    assert_eq!(
        Block::Square.shape(),
        (vec![vec![true, true], vec![true, true]], Color::Yellow)
    );
    assert_eq!(
        Block::T.shape(),
        (vec![vec![false, true, false], vec![true, true, true]], Color::Magenta)
    );
    assert_eq!(Block::Line.shape(), (vec![vec![true, true, true, true]], Color::Cyan));
    assert_eq!(
        Block::L.shape(),
        (
            vec![vec![false, false, true], vec![true, true, true]],
            Color::Rgb { r: 255, g: 127, b: 0 }
        )
    );
    assert_eq!(
        Block::J.shape(),
        (vec![vec![true, false, false], vec![true, true, true]], Color::Blue)
    );
    assert_eq!(
        Block::Z.shape(),
        (vec![vec![true, true, false], vec![false, true, true]], Color::Red)
    );
    assert_eq!(
        Block::S.shape(),
        (vec![vec![false, true, true], vec![true, true, false]], Color::Green)
    );
}

#[test]
fn columns_len_of_each_kind() {
    assert_eq!(Block::Square.get_columns_len(), 2);
    assert_eq!(Block::T.get_columns_len(), 3);
    assert_eq!(Block::Line.get_columns_len(), 4);
    assert_eq!(Block::L.get_columns_len(), 3);
    assert_eq!(Block::J.get_columns_len(), 3);
    assert_eq!(Block::Z.get_columns_len(), 3);
    assert_eq!(Block::S.get_columns_len(), 3);
}

#[test]
fn coordinates_of_each_kind() {
    let y = Color::Yellow;
    assert_eq!(
        as_set(&Block::Square.get_coordinates()),
        as_set(&[(0, 0, y), (1, 0, y), (0, 1, y), (1, 1, y)])
    );
    let m = Color::Magenta;
    assert_eq!(
        as_set(&Block::T.get_coordinates()),
        as_set(&[(1, 0, m), (0, 1, m), (1, 1, m), (2, 1, m)])
    );
    let c = Color::Cyan;
    assert_eq!(
        as_set(&Block::Line.get_coordinates()),
        as_set(&[(0, 0, c), (1, 0, c), (2, 0, c), (3, 0, c)])
    );
    let o = Color::Rgb { r: 255, g: 127, b: 0 };
    assert_eq!(
        as_set(&Block::L.get_coordinates()),
        as_set(&[(2, 0, o), (0, 1, o), (1, 1, o), (2, 1, o)])
    );
    let b = Color::Blue;
    assert_eq!(
        as_set(&Block::J.get_coordinates()),
        as_set(&[(0, 0, b), (0, 1, b), (1, 1, b), (2, 1, b)])
    );
    let r = Color::Red;
    assert_eq!(
        as_set(&Block::Z.get_coordinates()),
        as_set(&[(0, 0, r), (1, 0, r), (1, 1, r), (2, 1, r)])
    );
    let g = Color::Green;
    assert_eq!(
        as_set(&Block::S.get_coordinates()),
        as_set(&[(1, 0, g), (2, 0, g), (0, 1, g), (1, 1, g)])
    );
}

#[test]
fn coordinates_hold_four_distinct_cells() {
    for kind in ALL {
        let cells = kind.get_coordinates();
        assert_eq!(cells.len(), 4);
        assert_eq!(as_set(&cells).len(), 4);
    }
}

#[test]
fn from_index_follows_the_catalog() {
    assert_eq!(KINDS, 7);
    assert_eq!(Block::from_index(0), Some(Block::J));
    assert_eq!(Block::from_index(1), Some(Block::L));
    assert_eq!(Block::from_index(2), Some(Block::Line));
    assert_eq!(Block::from_index(3), Some(Block::S));
    assert_eq!(Block::from_index(4), Some(Block::Square));
    assert_eq!(Block::from_index(5), Some(Block::T));
    assert_eq!(Block::from_index(6), Some(Block::Z));
    assert_eq!(Block::from_index(7), None);
    assert_eq!(Block::from_index(usize::MAX), None);
}

#[test]
fn random_kinds_come_from_the_catalog() {
    let mut seen: HashSet<Block> = HashSet::new();
    for _ in 0..500 {
        let kind = Block::get_random();
        assert!(ALL.contains(&kind));
        seen.insert(kind);
    }
    assert!(seen.len() > 1);
}
