//! The seven piece shapes, their colours, and the cells each one fills.

use crate::cells::{lemma_push_contains, one_per_place};
use rand::Rng;
use vstd::prelude::*;

verus! {

/// The colour tag a cell carries. It is kept for display only: no rule of the
/// game reads it.
#[derive(Clone, Copy, Debug, PartialEq, Eq, Hash, Structural)]
pub enum Color {
    Yellow,
    Magenta,
    Cyan,
    Blue,
    Red,
    Green,
    Rgb { r: u8, g: u8, b: u8 },
}

/// A coloured cell: column, row (counted from the top), colour.
pub type Coords = (usize, usize, Color);

/// The kinds of piece.
#[derive(Clone, Copy, Debug, PartialEq, Eq, Hash, Structural)]
pub enum Block {
    Square,
    T,
    Line,
    L,
    J,
    Z,
    S,
}

impl Block {
    /// The filled/empty pattern of the piece, rows from top to bottom.
    pub open spec fn pattern(self) -> Seq<Seq<bool>> {
        match self {
            Block::Square => seq![seq![true, true], seq![true, true]],
            Block::T => seq![seq![false, true, false], seq![true, true, true]],
            Block::Line => seq![seq![true, true, true, true]],
            Block::L => seq![seq![false, false, true], seq![true, true, true]],
            Block::J => seq![seq![true, false, false], seq![true, true, true]],
            Block::Z => seq![seq![true, true, false], seq![false, true, true]],
            Block::S => seq![seq![false, true, true], seq![true, true, false]],
        }
    }

    /// The colour of the piece.
    pub open spec fn color(self) -> Color {
        match self {
            Block::Square => Color::Yellow,
            Block::T => Color::Magenta,
            Block::Line => Color::Cyan,
            Block::L => Color::Rgb { r: 255, g: 127, b: 0 },
            Block::J => Color::Blue,
            Block::Z => Color::Red,
            Block::S => Color::Green,
        }
    }

    /// Number of columns of the pattern.
    pub open spec fn width(self) -> nat {
        self.pattern()[0].len()
    }

    /// Number of rows of the pattern.
    pub open spec fn height(self) -> nat {
        self.pattern().len()
    }

    /// The filled cells of the pattern, relative to its top-left corner.
    pub open spec fn cells(self) -> Set<Coords> {
        Set::new(
            |c: Coords|
                c.1 < self.pattern().len() && c.0 < self.pattern()[c.1 as int].len()
                    && self.pattern()[c.1 as int][c.0 as int] && c.2 == self.color(),
        )
    }

    /// What the seven patterns have in common: one or two rows, all of one
    /// length between two and four; a filled cell in the second column of the
    /// last row; four filled cells, all of the colour of the piece.
    pub proof fn lemma_pattern(self)
        ensures
            1 <= self.height() <= 2,
            2 <= self.width() <= 4,
            forall|row: int| 0 <= row < self.height() ==> self.pattern()[row].len() == self.width(),
            self.cells().contains((1, (self.height() - 1) as usize, self.color())),
            self.cells().finite(),
            self.cells().len() == 4,
            forall|c: Coords| #[trigger] self.cells().contains(c) ==> c.2 == self.color(),
    {
        broadcast use vstd::set::group_set_axioms;

        let k = self.color();
        let four: Set<Coords> = match self {
            Block::Square => set![(0, 0, k), (1, 0, k), (0, 1, k), (1, 1, k)],
            Block::T => set![(1, 0, k), (0, 1, k), (1, 1, k), (2, 1, k)],
            Block::Line => set![(0, 0, k), (1, 0, k), (2, 0, k), (3, 0, k)],
            Block::L => set![(2, 0, k), (0, 1, k), (1, 1, k), (2, 1, k)],
            Block::J => set![(0, 0, k), (0, 1, k), (1, 1, k), (2, 1, k)],
            Block::Z => set![(0, 0, k), (1, 0, k), (1, 1, k), (2, 1, k)],
            Block::S => set![(1, 0, k), (2, 0, k), (0, 1, k), (1, 1, k)],
        };
        assert(self.cells() =~= four);
    }

    /// The pattern and the colour of the piece.
    pub fn shape(&self) -> (r: (Vec<Vec<bool>>, Color))
        ensures
            r.0.deep_view() == self.pattern(),
            r.1 == self.color(),
    {
        let r = match self {
            Block::Square => (vec![vec![true, true], vec![true, true]], Color::Yellow),
            Block::T => (vec![vec![false, true, false], vec![true, true, true]], Color::Magenta),
            Block::Line => (vec![vec![true, true, true, true]], Color::Cyan),
            Block::L => (
                vec![vec![false, false, true], vec![true, true, true]],
                Color::Rgb { r: 255, g: 127, b: 0 },
            ),
            Block::J => (vec![vec![true, false, false], vec![true, true, true]], Color::Blue),
            Block::Z => (vec![vec![true, true, false], vec![false, true, true]], Color::Red),
            Block::S => (vec![vec![false, true, true], vec![true, true, false]], Color::Green),
        };
        assert(r.0.deep_view() =~~= self.pattern());
        r
    }

    /// Number of columns of the pattern.
    pub fn get_columns_len(&self) -> (n: usize)
        ensures
            n == self.width(),
    {
        let (pattern, _) = self.shape();
        assert(self.pattern().len() >= 1);
        assert(pattern.deep_view().len() == pattern@.len());
        assert(pattern.deep_view()[0] == pattern@[0]@);
        pattern[0].len()
    }

    /// The filled cells of the pattern, each once, relative to its top-left
    /// corner.
    pub fn get_coordinates(&self) -> (cells: Vec<Coords>)
        ensures
            cells@.to_set() == self.cells(),
            one_per_place(cells@),
    {
        let (pattern, color) = self.shape();
        let mut cells: Vec<Coords> = Vec::new();
        let mut i: usize = 0;
        while i < pattern.len()
            invariant
                i <= pattern.len(),
                pattern.deep_view() == self.pattern(),
                color == self.color(),
                one_per_place(cells@),
                forall|c: Coords|
                    cells@.contains(c) <==> (self.cells().contains(c) && c.1 < i),
            decreases pattern.len() - i,
        {
            assert(pattern.deep_view()[i as int] == pattern@[i as int]@);
            let mut j: usize = 0;
            while j < pattern[i].len()
                invariant
                    i < pattern.len(),
                    j <= pattern[i as int].len(),
                    pattern.deep_view() == self.pattern(),
                    pattern.deep_view()[i as int] == pattern@[i as int]@,
                    color == self.color(),
                    one_per_place(cells@),
                    forall|c: Coords|
                        cells@.contains(c) <==> (self.cells().contains(c) && (c.1 < i || (c.1 == i
                            && c.0 < j))),
                decreases pattern[i as int].len() - j,
            {
                if pattern[i][j] {
                    proof {
                        lemma_push_contains(cells@, (j, i, color));
                        assert forall|k: int| 0 <= k < cells@.len() implies !crate::cells::same_place(
                            cells@[k],
                            (j, i, color),
                        ) by {
                            assert(cells@.contains(cells@[k]));
                        }
                    }
                    cells.push((j, i, color));
                }
                j += 1;
            }
            i += 1;
        }
        assert(cells@.to_set() =~= self.cells());
        cells
    }

    /// The kinds, in the order in which an index picks them.
    pub open spec fn catalog() -> Seq<Block> {
        seq![Block::J, Block::L, Block::Line, Block::S, Block::Square, Block::T, Block::Z]
    }

    /// The kind at a place of the catalog, if the catalog is that long.
    pub fn from_index(index: usize) -> (kind: Option<Block>)
        ensures
            kind == if index < Self::catalog().len() {
                Some(Self::catalog()[index as int])
            } else {
                None
            },
    {
        match index {
            0 => Some(Block::J),
            1 => Some(Block::L),
            2 => Some(Block::Line),
            3 => Some(Block::S),
            4 => Some(Block::Square),
            5 => Some(Block::T),
            6 => Some(Block::Z),
            _ => None,
        }
    }

    /// A kind drawn at random, each of the seven being as likely as another.
    /// The contract cannot speak of likelihood: it says that the kind comes
    /// from the catalog.
    pub fn get_random() -> (kind: Block)
        ensures
            Self::catalog().contains(kind),
    {
        let index = random_index(KINDS);
        let kind = Self::from_index(index).unwrap();
        assert(Self::catalog()[index as int] == kind);
        kind
    }
}

/// How many kinds of piece there are.
pub const KINDS: usize = 7;

/// Calls `Rng::gen_range` of the rand crate on its thread-local generator,
/// with the half-open range from 0 to `n`. The contract claims what the
/// crate documents: the range must not be empty, and the number drawn lies in
/// it. Which number comes is left open.
#[verifier::external_body]
fn random_index(n: usize) -> (index: usize)
    requires
        n > 0,
    ensures
        index < n,
{
    rand::thread_rng().gen_range(0..n)
}

} // verus!
