//! The board engine: the grid's size, the settled cells and the cells of the
//! falling piece, and the operations that change them.

use crate::blocks::{Block, Coords};
use crate::cells::{
    beyond_rows, cleared, collides, distinct_places, frame_of, frames, in_grid, landed_cell,
    lemma_landing_rows, lemma_list_as_set, lemma_moved_list, lemma_moved_piece, lemma_one_frame,
    lemma_push_contains, lemma_staying_bound, lemma_tally_bound, lemma_tally_counts_row,
    lemma_tally_step, lies_at, moved, moved_cell, one_color, one_per_place, overlaps, row_count,
    row_stays, rows_staying_from, same_place, side, tally, turned, turned_cell, Frame,
};
use vstd::prelude::*;

verus! {

/// A sideways move.
#[derive(Clone, Copy, Debug, PartialEq, Eq, Structural)]
pub enum Direction {
    Left,
    Right,
}

/// A quarter turn.
#[derive(Clone, Copy, Debug, PartialEq, Eq, Structural)]
pub enum Rotation {
    Clockwise,
    CounterClockwise,
}

/// Why an operation of the board did not go through.
#[derive(Clone, Copy, Debug, PartialEq, Eq, Structural)]
pub enum BoardError {
    /// A new piece cannot be placed: the game is over.
    InsertionBlocked,
    /// The turned piece would leave the grid or hit a settled cell.
    RotationBlocked,
    /// The piece has landed on the bottom of the grid.
    LandedOnBoundary,
    /// The piece has landed on a settled cell.
    LandedOnBlock,
}

impl BoardError {
    /// The words of the error.
    pub fn message(&self) -> (words: &'static str)
        ensures
            words@ == match *self {
                BoardError::InsertionBlocked => "insertion blocked"@,
                BoardError::RotationBlocked => "rotation blocked"@,
                BoardError::LandedOnBoundary => "out of bounds"@,
                BoardError::LandedOnBlock => "collided with settled block"@,
            },
    {
        match self {
            BoardError::InsertionBlocked => "insertion blocked",
            BoardError::RotationBlocked => "rotation blocked",
            BoardError::LandedOnBoundary => "out of bounds",
            BoardError::LandedOnBlock => "collided with settled block",
        }
    }
}

/// The number of columns by which a sideways move shifts a cell.
pub open spec fn step(direction: Direction) -> int {
    match direction {
        Direction::Left => -1,
        Direction::Right => 1,
    }
}

/// What a board is, mathematically.
pub struct BoardView {
    pub columns: nat,
    pub rows: nat,
    pub settled: Set<Coords>,
    pub falling: Set<Coords>,
    pub is_block_falling: bool,
}

impl BoardView {
    /// The invariant of a board: the sizes are machine numbers; both sets
    /// are finite, lie inside the grid and hold no place twice; they share no
    /// place; the falling piece has one colour; and the flag says whether
    /// there is a falling piece.
    pub open spec fn wf(self) -> bool {
        &&& self.columns <= usize::MAX
        &&& self.rows <= usize::MAX
        &&& self.settled.finite()
        &&& self.falling.finite()
        &&& in_grid(self.settled, self.columns, self.rows)
        &&& in_grid(self.falling, self.columns, self.rows)
        &&& distinct_places(self.settled)
        &&& distinct_places(self.falling)
        &&& !overlaps(self.settled, self.falling)
        &&& one_color(self.falling)
        &&& self.is_block_falling <==> self.falling.len() > 0
    }

    /// A cell of the falling piece stands in the last column on the side to
    /// which the move goes.
    pub open spec fn at_wall(self, direction: Direction) -> bool {
        exists|c: Coords| #[trigger]
            self.falling.contains(c) && match direction {
                Direction::Left => c.0 == 0,
                Direction::Right => c.0 + 1 == self.columns,
            }
    }

    /// The falling piece after a quarter turn, without the cells that the
    /// turn takes out of the grid.
    pub open spec fn turned(self, rotation: Rotation) -> Set<Coords> {
        turned(self.falling, rotation == Rotation::Clockwise, self.columns, self.rows)
    }

    /// The falling piece cannot turn: the turn would take a cell out of the
    /// grid, so that fewer cells are left, or the turned piece would collide.
    pub open spec fn rotation_blocked(self, rotation: Rotation) -> bool {
        self.turned(rotation).len() != self.falling.len() || collides(
            self.settled,
            self.turned(rotation),
            self.rows,
        )
    }

    /// The column in which the left edge of a new piece is placed: the piece
    /// is centred, an odd width one column further to the left.
    pub open spec fn spawn_column(self, block: Block) -> int {
        self.columns / 2 - block.width() / 2 - block.width() % 2
    }

    /// The cells of a new piece of the given kind, at the top of the grid.
    pub open spec fn spawned(self, block: Block) -> Set<Coords> {
        moved(block.cells(), self.spawn_column(block), 0)
    }

    /// The grid can take up a new piece of the given kind: it is wide enough
    /// for the piece to be centred, and the piece does not end on the row just
    /// below the last one, where the collision predicate would let it pass.
    pub open spec fn admits(self, block: Block) -> bool {
        self.spawn_column(block) >= 0 && block.height() != self.rows + 1
    }

    /// The board after an attempt to place a new piece of the given kind:
    /// unchanged where the new piece would collide.
    pub open spec fn after_spawn(self, block: Block) -> BoardView {
        if collides(self.settled, self.spawned(block), self.rows) {
            self
        } else {
            BoardView { falling: self.spawned(block), is_block_falling: true, ..self }
        }
    }

    /// A cell of the falling piece stands on the last row of the grid.
    pub open spec fn at_floor(self) -> bool {
        exists|c: Coords| #[trigger] self.falling.contains(c) && c.1 + 1 >= self.rows
    }

    /// The falling piece, one row further down.
    pub open spec fn lowered(self) -> Set<Coords> {
        moved(self.falling, 0, 1)
    }

    /// The falling piece cannot move down: it stands on the last row, or the
    /// lowered piece would collide.
    pub open spec fn descent_blocked(self) -> bool {
        self.at_floor() || collides(self.settled, self.lowered(), self.rows)
    }

    /// The board after a move down: the piece one row lower, or landed
    /// where it could not move.
    pub open spec fn after_tick(self) -> BoardView {
        if self.descent_blocked() {
            self.landed()
        } else {
            BoardView { falling: self.lowered(), ..self }
        }
    }

    /// The board after the falling piece has landed where it is: its cells
    /// have joined the settled ones, the full rows are cleared, and no piece
    /// is falling.
    pub open spec fn landed(self) -> BoardView {
        BoardView {
            settled: cleared(self.settled.union(self.falling), self.columns, self.rows),
            falling: Set::empty(),
            is_block_falling: false,
            ..self
        }
    }

    /// The board after an attempt to turn: unchanged where the turn is
    /// blocked.
    pub open spec fn after_turn(self, rotation: Rotation) -> BoardView {
        if self.rotation_blocked(rotation) {
            self
        } else {
            BoardView { falling: self.turned(rotation), ..self }
        }
    }

    /// The falling piece cannot move sideways: it stands at the wall, or the
    /// shifted piece would collide.
    pub open spec fn sideways_blocked(self, direction: Direction) -> bool {
        self.at_wall(direction) || collides(
            self.settled,
            moved(self.falling, step(direction), 0),
            self.rows,
        )
    }

    /// The board after an attempt to move sideways: unchanged where the move
    /// is blocked.
    pub open spec fn after_move(self, direction: Direction) -> BoardView {
        if self.sideways_blocked(direction) {
            self
        } else {
            BoardView { falling: moved(self.falling, step(direction), 0), ..self }
        }
    }
}

/// The board.
pub struct Board {
    columns_len: usize,
    rows_len: usize,
    coordinates: Vec<Coords>,
    block_coordinates: Vec<Coords>,
    is_block_falling: bool,
}

impl View for Board {
    type V = BoardView;

    closed spec fn view(&self) -> BoardView {
        BoardView {
            columns: self.columns_len as nat,
            rows: self.rows_len as nat,
            settled: self.coordinates@.to_set(),
            falling: self.block_coordinates@.to_set(),
            is_block_falling: self.is_block_falling,
        }
    }
}

impl Board {
    /// Each list of the board holds one cell per place.
    pub closed spec fn stored_once(&self) -> bool {
        one_per_place(self.coordinates@) && one_per_place(self.block_coordinates@)
    }

    /// The board is well formed.
    pub open spec fn wf(&self) -> bool {
        self.stored_once() && self@.wf()
    }

    /// An empty board of the given size.
    pub fn new(columns_len: usize, rows_len: usize) -> (board: Board)
        ensures
            board.wf(),
            board@ == (BoardView {
                columns: columns_len as nat,
                rows: rows_len as nat,
                settled: Set::empty(),
                falling: Set::empty(),
                is_block_falling: false,
            }),
    {
        let board = Board {
            columns_len,
            rows_len,
            coordinates: Vec::new(),
            block_coordinates: Vec::new(),
            is_block_falling: false,
        };
        assert(board.coordinates@.to_set() =~= Set::empty());
        assert(board.block_coordinates@.to_set() =~= Set::empty());
        board
    }

    /// A board of the given size that holds the given settled cells and no
    /// falling piece, if the cells lie inside the grid, one per place.
    pub fn with_settled(columns_len: usize, rows_len: usize, cells: Vec<Coords>) -> (board: Option<
        Board,
    >)
        ensures
            board is Some <==> one_per_place(cells@) && in_grid(
                cells@.to_set(),
                columns_len as nat,
                rows_len as nat,
            ),
            board matches Some(b) ==> b.wf() && b@ == (BoardView {
                columns: columns_len as nat,
                rows: rows_len as nat,
                settled: cells@.to_set(),
                falling: Set::empty(),
                is_block_falling: false,
            }),
    {
        let ghost given = cells@.to_set();
        let mut j: usize = 0;
        while j < cells.len()
            invariant
                j <= cells@.len(),
                given == cells@.to_set(),
                forall|k: int|
                    0 <= k < j ==> (#[trigger] cells@[k]).0 < columns_len && cells@[k].1 < rows_len,
                forall|a: int, b: int|
                    0 <= a < b < j ==> !same_place(#[trigger] cells@[a], #[trigger] cells@[b]),
            decreases cells@.len() - j,
        {
            let q = cells[j];
            if q.0 >= columns_len || q.1 >= rows_len {
                assert(given.contains(q));
                return None;
            }
            let mut i: usize = 0;
            while i < j
                invariant
                    i <= j < cells@.len(),
                    q == cells@[j as int],
                    forall|a: int| 0 <= a < i ==> !same_place(#[trigger] cells@[a], q),
                decreases j - i,
            {
                let p = cells[i];
                if p.0 == q.0 && p.1 == q.1 {
                    assert(same_place(cells@[i as int], cells@[j as int]));
                    return None;
                }
                i += 1;
            }
            j += 1;
        }
        proof {
            lemma_list_as_set(cells@);
            assert(in_grid(given, columns_len as nat, rows_len as nat)) by {
                assert forall|c: Coords| #[trigger] given.contains(c) implies c.0 < columns_len
                    && c.1 < rows_len by {
                    let k = choose|k: int| 0 <= k < cells@.len() && cells@[k] == c;
                    assert(cells@[k].0 < columns_len);
                }
            }
        }
        let board = Board {
            columns_len,
            rows_len,
            coordinates: cells,
            block_coordinates: Vec::new(),
            is_block_falling: false,
        };
        assert(board.block_coordinates@.to_set() =~= Set::empty());
        Some(board)
    }

    /// Whether a piece is falling.
    pub fn is_block_falling(&self) -> (falling: bool)
        ensures
            falling == self@.is_block_falling,
    {
        self.is_block_falling
    }

    /// The number of columns of the grid.
    pub fn columns_len(&self) -> (columns: usize)
        ensures
            columns == self@.columns,
    {
        self.columns_len
    }

    /// The number of rows of the grid.
    pub fn rows_len(&self) -> (rows: usize)
        ensures
            rows == self@.rows,
    {
        self.rows_len
    }

    /// The settled cells, each once, in no particular order.
    pub fn coordinates(&self) -> (cells: &Vec<Coords>)
        ensures
            cells@.to_set() == self@.settled,
            self.wf() ==> one_per_place(cells@),
    {
        &self.coordinates
    }

    /// The cells of the falling piece, each once, in no particular order.
    pub fn block_coordinates(&self) -> (cells: &Vec<Coords>)
        ensures
            cells@.to_set() == self@.falling,
            self.wf() ==> one_per_place(cells@),
    {
        &self.block_coordinates
    }

    /// The collision predicate, between the settled cells and the given ones.
    pub fn is_block_collinding_with_blocks(&self, block_coordinates: &Vec<Coords>) -> (hit: bool)
        ensures
            hit == collides(self@.settled, block_coordinates@.to_set(), self@.rows),
    {
        let ghost piece = block_coordinates@.to_set();
        let ghost settled = self.coordinates@.to_set();
        let mut j: usize = 0;
        while j < block_coordinates.len()
            invariant
                j <= block_coordinates.len(),
                piece == block_coordinates@.to_set(),
                settled == self.coordinates@.to_set(),
                forall|k: int| 0 <= k < j ==> (#[trigger] block_coordinates@[k]).1 <= self.rows_len,
                forall|i: int, k: int|
                    0 <= i < self.coordinates@.len() && 0 <= k < j ==> !same_place(
                        #[trigger] self.coordinates@[i],
                        #[trigger] block_coordinates@[k],
                    ),
            decreases block_coordinates.len() - j,
        {
            let q = block_coordinates[j];
            assert(piece.contains(q));
            if q.1 > self.rows_len {
                return true;
            }
            let mut i: usize = 0;
            while i < self.coordinates.len()
                invariant
                    i <= self.coordinates.len(),
                    j < block_coordinates.len(),
                    q == block_coordinates@[j as int],
                    piece.contains(q),
                    piece == block_coordinates@.to_set(),
                    settled == self.coordinates@.to_set(),
                    forall|m: int| 0 <= m < i ==> !same_place(#[trigger] self.coordinates@[m], q),
                decreases self.coordinates.len() - i,
            {
                let p = self.coordinates[i];
                if p.0 == q.0 && p.1 == q.1 {
                    assert(settled.contains(p) && piece.contains(q) && same_place(p, q));
                    return true;
                }
                i += 1;
            }
            j += 1;
        }
        assert(!overlaps(settled, piece)) by {
            if overlaps(settled, piece) {
                let (p, q) = choose|p: Coords, q: Coords|
                    #![trigger settled.contains(p), piece.contains(q)]
                    settled.contains(p) && piece.contains(q) && same_place(p, q);
                let i = choose|i: int| 0 <= i < self.coordinates@.len() && self.coordinates@[i] == p;
                let k = choose|k: int|
                    0 <= k < block_coordinates@.len() && block_coordinates@[k] == q;
                assert(!same_place(self.coordinates@[i], block_coordinates@[k]));
            }
        }
        assert(!beyond_rows(piece, self.rows_len as nat)) by {
            if beyond_rows(piece, self.rows_len as nat) {
                let c = choose|c: Coords| #[trigger] piece.contains(c) && c.1 > self.rows_len;
                let k = choose|k: int|
                    0 <= k < block_coordinates@.len() && block_coordinates@[k] == c;
                assert(block_coordinates@[k].1 <= self.rows_len);
            }
        }
        false
    }

    /// Moves the falling piece one column to the left or to the right. Where
    /// a cell of the piece already stands at that wall, or the shifted piece
    /// would collide, nothing changes; no error is reported either way.
    pub fn move_block_x_axis(&mut self, direction: Direction)
        requires
            old(self).wf(),
        ensures
            final(self).wf(),
            final(self)@ == old(self)@.after_move(direction),
            old(self)@.at_wall(direction) ==> final(self)@ == old(self)@,
    {
        let ghost dx = step(direction);
        let ghost before = self.block_coordinates@;
        let mut moved_block: Vec<Coords> = Vec::new();
        let mut i: usize = 0;
        while i < self.block_coordinates.len()
            invariant
                *self == *old(self),
                self.wf(),
                before == self.block_coordinates@,
                dx == step(direction),
                i <= before.len(),
                moved_block@.len() == i,
                forall|k: int|
                    0 <= k < i ==> moved_block@[k] == moved_cell(#[trigger] before[k], dx, 0),
                forall|k: int|
                    0 <= k < i ==> match direction {
                        Direction::Left => (#[trigger] before[k]).0 > 0,
                        Direction::Right => before[k].0 + 1 < self.columns_len,
                    },
            decreases before.len() - i,
        {
            let (x, y, color) = self.block_coordinates[i];
            assert(self@.falling.contains(before[i as int]));
            let shifted = match direction {
                Direction::Left => {
                    if x == 0 {
                        return ;
                    }
                    x - 1
                },
                Direction::Right => {
                    if x + 1 == self.columns_len {
                        return ;
                    }
                    x + 1
                },
            };
            moved_block.push((shifted, y, color));
            i += 1;
        }
        proof {
            lemma_moved_list(before, moved_block@, dx, 0);
            assert(!self@.at_wall(direction)) by {
                if self@.at_wall(direction) {
                    let c = choose|c: Coords| #[trigger]
                        self@.falling.contains(c) && match direction {
                            Direction::Left => c.0 == 0,
                            Direction::Right => c.0 + 1 == self@.columns,
                        };
                    let k = choose|k: int| 0 <= k < before.len() && before[k] == c;
                    assert(before[k].0 == c.0);
                }
            }
        }
        if self.is_block_collinding_with_blocks(&moved_block) {
            return ;
        }
        proof {
            assert forall|k: int| 0 <= k < before.len() implies (#[trigger] moved_block@[k]).0
                == before[k].0 + dx && moved_block@[k].1 == before[k].1 && moved_block@[k].2
                == before[k].2 && moved_block@[k].0 < self@.columns && moved_block@[k].1
                < self@.rows by {
                assert(self@.falling.contains(before[k]));
            }
            lemma_moved_piece(before, moved_block@, dx, 0, self@.columns, self@.rows);
        }
        self.block_coordinates = moved_block;
    }

    /// The cells of the falling piece after a quarter turn, each once,
    /// without those that the turn takes out of the grid.
    pub fn rotate_block_coordinates(&self, rotation: Rotation) -> (rotated: Vec<Coords>)
        requires
            self.wf(),
        ensures
            rotated@.to_set() == self@.turned(rotation),
            one_per_place(rotated@),
    {
        let ghost before = self.block_coordinates@;
        let ghost piece = self@.falling;
        let ghost clockwise = rotation == Rotation::Clockwise;
        let mut rotated: Vec<Coords> = Vec::new();
        let count = self.block_coordinates.len();
        if count == 0 {
            assert(rotated@.to_set() =~= self@.turned(rotation)) by {
                assert forall|q: Coords| !self@.turned(rotation).contains(q) by {
                    if self@.turned(rotation).contains(q) {
                        let c = choose|c: Coords| #[trigger]
                            piece.contains(c) && lies_at(
                                q,
                                turned_cell(c, frame_of(piece), clockwise),
                            );
                        assert(before.contains(c));
                    }
                }
            }
            return rotated;
        }
        let first = self.block_coordinates[0];
        let block_color = first.2;
        let mut x_min = first.0;
        let mut x_max = first.0;
        let mut y_min = first.1;
        let mut y_max = first.1;
        assert(piece.contains(before[0]));
        let mut i: usize = 1;
        while i < count
            invariant
                count == before.len(),
                before == self.block_coordinates@,
                1 <= i <= count,
                forall|k: int|
                    0 <= k < i ==> x_min <= (#[trigger] before[k]).0 <= x_max && y_min
                        <= before[k].1 <= y_max,
                exists|k: int| 0 <= k < i && (#[trigger] before[k]).0 == x_min,
                exists|k: int| 0 <= k < i && (#[trigger] before[k]).0 == x_max,
                exists|k: int| 0 <= k < i && (#[trigger] before[k]).1 == y_min,
                exists|k: int| 0 <= k < i && (#[trigger] before[k]).1 == y_max,
            decreases count - i,
        {
            let (x, y, _) = self.block_coordinates[i];
            if x < x_min {
                x_min = x;
            }
            if x > x_max {
                x_max = x;
            }
            if y < y_min {
                y_min = y;
            }
            if y > y_max {
                y_max = y;
            }
            i += 1;
        }
        let ghost f = Frame {
            left: x_min as int,
            right: x_max as int,
            top: y_min as int,
            bottom: y_max as int,
        };
        proof {
            let kl = choose|k: int| 0 <= k < count && (#[trigger] before[k]).0 == x_min;
            let kr = choose|k: int| 0 <= k < count && (#[trigger] before[k]).0 == x_max;
            let kt = choose|k: int| 0 <= k < count && (#[trigger] before[k]).1 == y_min;
            let kb = choose|k: int| 0 <= k < count && (#[trigger] before[k]).1 == y_max;
            assert(piece.contains(before[kl]) && piece.contains(before[kr]));
            assert(piece.contains(before[kt]) && piece.contains(before[kb]));
            assert forall|c: Coords| #[trigger] piece.contains(c) implies f.left <= c.0 <= f.right
                && f.top <= c.1 <= f.bottom by {
                let k = choose|k: int| 0 <= k < before.len() && before[k] == c;
                assert(x_min <= before[k].0);
            }
            assert(frames(piece, f));
            lemma_one_frame(piece, f, frame_of(piece));
        }
        let max_column_len = x_max - x_min + 1;
        let max_row_len = y_max - y_min + 1;
        let matrix_len = if max_row_len > max_column_len {
            max_row_len
        } else {
            max_column_len
        };
        assert(matrix_len == side(f));
        let mut i: usize = 0;
        while i < count
            invariant
                self.wf(),
                count == before.len(),
                before == self.block_coordinates@,
                piece == self@.falling,
                clockwise == (rotation == Rotation::Clockwise),
                0 <= i <= count,
                block_color == before[0].2,
                f.left == x_min && f.top == y_min,
                matrix_len == side(f),
                frames(piece, f),
                one_per_place(rotated@),
                forall|q: Coords|
                    rotated@.contains(q) <==> q.0 < self.columns_len && q.1 < self.rows_len
                        && exists|k: int|
                        0 <= k < i && lies_at(q, turned_cell(#[trigger] before[k], f, clockwise)),
            decreases count - i,
        {
            let (x, y, _) = self.block_coordinates[i];
            let ghost c = before[i as int];
            assert(piece.contains(c) && piece.contains(before[0]));
            let local_x = x - x_min;
            let local_y = y - y_min;
            let (turned_x, turned_y) = match rotation {
                Rotation::Clockwise => (matrix_len - 1 - local_y, local_x),
                Rotation::CounterClockwise => (local_y, matrix_len - 1 - local_x),
            };
            let ghost target = turned_cell(c, f, clockwise);
            assert(target == (x_min + turned_x, y_min + turned_y, block_color));
            if turned_x < self.columns_len - x_min && turned_y < self.rows_len - y_min {
                let q = (x_min + turned_x, y_min + turned_y, block_color);
                proof {
                    lemma_push_contains(rotated@, q);
                    assert(lies_at(q, target));
                    assert forall|m: int| 0 <= m < rotated@.len() implies !same_place(
                        rotated@[m],
                        q,
                    ) by {
                        let p = rotated@[m];
                        assert(rotated@.contains(p));
                        let k = choose|k: int|
                            0 <= k < i && lies_at(p, turned_cell(#[trigger] before[k], f, clockwise));
                        assert(piece.contains(before[k]));
                        assert(!same_place(before[k], before[i as int]));
                    }
                }
                rotated.push(q);
            }
            i += 1;
        }
        assert(rotated@.to_set() =~= self@.turned(rotation)) by {
            assert forall|q: Coords| rotated@.to_set().contains(q) <==> self@.turned(
                rotation,
            ).contains(q) by {
                if rotated@.to_set().contains(q) {
                    let k = choose|k: int|
                        0 <= k < count && lies_at(q, turned_cell(#[trigger] before[k], f, clockwise));
                    assert(piece.contains(before[k]));
                }
                if self@.turned(rotation).contains(q) {
                    let c = choose|c: Coords| #[trigger]
                        piece.contains(c) && lies_at(q, turned_cell(c, frame_of(piece), clockwise));
                    let k = choose|k: int| 0 <= k < before.len() && before[k] == c;
                    assert(lies_at(q, turned_cell(before[k], f, clockwise)));
                }
            }
        }
        rotated
    }

    /// Removes the full rows of the settled cells and packs the rows that
    /// are left, in their order, onto the bottom of the grid. It runs after
    /// each landing, when no piece is falling.
    pub fn clear_lines(&mut self)
        requires
            old(self).wf(),
            !old(self)@.is_block_falling,
        ensures
            final(self).wf(),
            final(self)@ == (BoardView {
                settled: cleared(old(self)@.settled, old(self)@.columns, old(self)@.rows),
                ..old(self)@
            }),
    {
        let ghost before = self.coordinates@;
        let ghost cells = before.to_set();
        let ghost columns = self.columns_len as nat;
        let ghost rows = self.rows_len as nat;
        let count = self.coordinates.len();
        proof {
            lemma_list_as_set(before);
            assert forall|k: int| 0 <= k < before.len() implies (#[trigger] before[k]).1
                < self.rows_len by {
                assert(cells.contains(before[k]));
            }
        }
        let mut counts: Vec<usize> = Vec::new();
        let mut r: usize = 0;
        while r < self.rows_len
            invariant
                r <= self.rows_len,
                counts@.len() == r,
                forall|k: int| 0 <= k < r ==> #[trigger] counts@[k] == 0,
            decreases self.rows_len - r,
        {
            counts.push(0);
            r += 1;
        }
        let mut i: usize = 0;
        while i < count
            invariant
                i <= count,
                count == before.len(),
                before == self.coordinates@,
                counts@.len() == self.rows_len,
                forall|k: int| 0 <= k < before.len() ==> (#[trigger] before[k]).1 < self.rows_len,
                forall|k: int|
                    0 <= k < self.rows_len ==> #[trigger] counts@[k] == tally(
                        before.take(i as int),
                        k,
                    ),
            decreases count - i,
        {
            let y = self.coordinates[i].1;
            proof {
                lemma_tally_bound(before.take(i as int), y as int);
                assert forall|k: int| 0 <= k < self.rows_len implies tally(
                    before.take(i + 1),
                    k,
                ) == tally(before.take(i as int), k) + if before[i as int].1 == k {
                    1nat
                } else {
                    0nat
                } by {
                    lemma_tally_step(before, i as int, k);
                }
            }
            let more = counts[y] + 1;
            counts.set(y, more);
            i += 1;
        }
        proof {
            assert(before.take(count as int) =~= before);
            assert forall|k: int| 0 <= k < rows implies #[trigger] counts@[k] == row_count(
                cells,
                k,
            ) by {
                lemma_tally_counts_row(before, k);
            }
        }
        let mut below: Vec<usize> = counts.clone();
        let mut staying: usize = 0;
        let mut r: usize = self.rows_len;
        while r > 0
            invariant
                r <= self.rows_len,
                rows == self.rows_len,
                columns == self.columns_len,
                counts@.len() == rows,
                below@.len() == rows,
                forall|k: int| 0 <= k < rows ==> #[trigger] counts@[k] == row_count(cells, k),
                staying == rows_staying_from(cells, columns, rows, r as int),
                forall|k: int|
                    r <= k < rows ==> #[trigger] below@[k] == rows_staying_from(
                        cells,
                        columns,
                        rows,
                        k,
                    ),
            decreases r,
        {
            r -= 1;
            proof {
                lemma_staying_bound(cells, columns, rows, r as int);
            }
            if counts[r] != 0 && counts[r] != self.columns_len {
                staying += 1;
            }
            below.set(r, staying);
        }
        let mut kept: Vec<Coords> = Vec::new();
        let mut i: usize = 0;
        while i < count
            invariant
                i <= count,
                count == before.len(),
                before == self.coordinates@,
                cells == before.to_set(),
                one_per_place(before),
                rows == self.rows_len,
                columns == self.columns_len,
                counts@.len() == rows,
                below@.len() == rows,
                forall|k: int| 0 <= k < before.len() ==> (#[trigger] before[k]).1 < self.rows_len,
                forall|k: int| 0 <= k < rows ==> #[trigger] counts@[k] == row_count(cells, k),
                forall|k: int|
                    0 <= k < rows ==> #[trigger] below@[k] == rows_staying_from(
                        cells,
                        columns,
                        rows,
                        k,
                    ),
                one_per_place(kept@),
                forall|q: Coords|
                    kept@.contains(q) <==> exists|k: int|
                        0 <= k < i && row_stays(cells, columns, (#[trigger] before[k]).1 as int)
                            && q == landed_cell(cells, columns, rows, before[k]),
            decreases count - i,
        {
            let (x, y, color) = self.coordinates[i];
            let ghost c = before[i as int];
            if counts[y] != 0 && counts[y] != self.columns_len {
                proof {
                    lemma_landing_rows(cells, columns, rows, y as int, y as int);
                }
                let q = (x, self.rows_len - below[y], color);
                proof {
                    assert(q == landed_cell(cells, columns, rows, c));
                    lemma_push_contains(kept@, q);
                    assert forall|m: int| 0 <= m < kept@.len() implies !same_place(
                        kept@[m],
                        q,
                    ) by {
                        let p = kept@[m];
                        assert(kept@.contains(p));
                        let k = choose|k: int|
                            0 <= k < i && row_stays(cells, columns, (#[trigger] before[k]).1 as int)
                                && p == landed_cell(cells, columns, rows, before[k]);
                        let yk = before[k].1 as int;
                        assert(!same_place(before[k], before[i as int]));
                        if yk < y {
                            lemma_landing_rows(cells, columns, rows, yk, y as int);
                        }
                        if y < yk {
                            lemma_landing_rows(cells, columns, rows, y as int, yk);
                        }
                        lemma_landing_rows(cells, columns, rows, yk, yk);
                    }
                }
                kept.push(q);
            }
            i += 1;
        }
        proof {
            let after = kept@.to_set();
            let target = cleared(cells, columns, rows);
            assert(after =~= target) by {
                assert forall|q: Coords| after.contains(q) <==> target.contains(q) by {
                    if after.contains(q) {
                        let k = choose|k: int|
                            0 <= k < count && row_stays(
                                cells,
                                columns,
                                (#[trigger] before[k]).1 as int,
                            ) && q == landed_cell(cells, columns, rows, before[k]);
                        assert(cells.contains(before[k]));
                        assert(cells.filter(
                            |c: Coords| row_stays(cells, columns, c.1 as int),
                        ).contains(before[k]));
                    }
                    if target.contains(q) {
                        let c = choose|c: Coords|
                            cells.filter(
                                |c: Coords| row_stays(cells, columns, c.1 as int),
                            ).contains(c) && q == landed_cell(cells, columns, rows, c);
                        let k = choose|k: int| 0 <= k < before.len() && before[k] == c;
                        assert(row_stays(cells, columns, before[k].1 as int));
                    }
                }
            }
            lemma_list_as_set(kept@);
            assert(in_grid(after, columns, rows)) by {
                assert forall|q: Coords| #[trigger] after.contains(q) implies q.0 < columns && q.1
                    < rows by {
                    let k = choose|k: int|
                        0 <= k < count && row_stays(cells, columns, (#[trigger] before[k]).1 as int)
                            && q == landed_cell(cells, columns, rows, before[k]);
                    assert(cells.contains(before[k]));
                    lemma_landing_rows(
                        cells,
                        columns,
                        rows,
                        before[k].1 as int,
                        before[k].1 as int,
                    );
                }
            }
            self@.falling.lemma_len0_is_empty();
        }
        self.coordinates = kept;
    }

    /// Whether the grid can take up a new piece of the given kind.
    pub fn admits(&self, block: &Block) -> (ok: bool)
        ensures
            ok == self@.admits(*block),
    {
        let (pattern, _) = block.shape();
        let width = block.get_columns_len();
        let height = pattern.len();
        proof {
            block.lemma_pattern();
            assert(pattern.deep_view().len() == pattern@.len());
        }
        self.columns_len / 2 >= width / 2 + width % 2 && (self.rows_len >= height || height
            - self.rows_len != 1)
    }

    /// Places a new piece of the given kind at the top of the grid, centred.
    /// Where it would collide, the board stays as it is and the error says
    /// so: the game is over. A piece that was falling is replaced. The grid
    /// must admit the piece: `admits` tells whether it does.
    pub fn try_insert_block(&mut self, block: &Block) -> (done: Result<(), BoardError>)
        requires
            old(self).wf(),
            old(self)@.admits(*block),
        ensures
            final(self).wf(),
            final(self)@ == old(self)@.after_spawn(*block),
            done == if collides(old(self)@.settled, old(self)@.spawned(*block), old(self)@.rows) {
                Err::<(), BoardError>(BoardError::InsertionBlocked)
            } else {
                Ok(())
            },
            done is Ok ==> final(self)@.falling.len() == block.cells().len(),
            done is Err ==> final(self)@ == old(self)@,
    {
        let width = block.get_columns_len();
        proof {
            block.lemma_pattern();
        }
        let center_coordinates_x = self.columns_len / 2 - width / 2 - width % 2;
        let ghost dx = self@.spawn_column(*block);
        let pattern_coordinates = block.get_coordinates();
        let ghost before = pattern_coordinates@;
        let mut block_coordinates: Vec<Coords> = Vec::new();
        let mut i: usize = 0;
        while i < pattern_coordinates.len()
            invariant
                i <= before.len(),
                before == pattern_coordinates@,
                before.to_set() == block.cells(),
                2 <= width <= 4,
                width == block.width(),
                1 <= block.height() <= 2,
                forall|row: int|
                    0 <= row < block.height() ==> block.pattern()[row].len() == block.width(),
                dx == center_coordinates_x,
                center_coordinates_x == self.columns_len / 2 - width / 2 - width % 2,
                block_coordinates@.len() == i,
                forall|k: int|
                    0 <= k < i ==> block_coordinates@[k] == moved_cell(#[trigger] before[k], dx, 0),
                forall|k: int|
                    0 <= k < i ==> (#[trigger] block_coordinates@[k]).0 < self.columns_len,
            decreases before.len() - i,
        {
            let (x, y, color) = pattern_coordinates[i];
            assert(block.cells().contains(before[i as int]));
            block_coordinates.push((x + center_coordinates_x, y, color));
            i += 1;
        }
        proof {
            lemma_moved_list(before, block_coordinates@, dx, 0);
        }
        if self.is_block_collinding_with_blocks(&block_coordinates) {
            return Err(BoardError::InsertionBlocked);
        }
        proof {
            let after = block_coordinates@.to_set();
            assert forall|k: int| 0 <= k < before.len() implies (
            #[trigger] block_coordinates@[k]).0 == before[k].0 + dx && block_coordinates@[k].1
                == before[k].1 && block_coordinates@[k].2 == before[k].2
                && block_coordinates@[k].0 < self@.columns && block_coordinates@[k].1
                < self@.rows by {
                assert(block.cells().contains(before[k]));
                assert(after.contains(block_coordinates@[k]));
                if block.height() > self.rows_len {
                    let low = (1usize, (block.height() - 1) as usize, block.color());
                    let m = choose|m: int| 0 <= m < before.len() && before[m] == low;
                    assert(after.contains(block_coordinates@[m]));
                    assert(block_coordinates@[m].1 > self.rows_len);
                }
            }
            lemma_list_as_set(before);
            lemma_moved_piece(before, block_coordinates@, dx, 0, self@.columns, self@.rows);
        }
        self.block_coordinates = block_coordinates;
        self.is_block_falling = true;
        Ok(())
    }

    /// Lands the falling piece where it is: its cells join the settled ones,
    /// the full rows are cleared, and no piece is falling.
    fn settle_block(&mut self)
        requires
            old(self).wf(),
        ensures
            final(self).wf(),
            final(self)@ == old(self)@.landed(),
    {
        let ghost settled = self.coordinates@;
        let ghost piece = self.block_coordinates@;
        let mut i: usize = 0;
        while i < self.block_coordinates.len()
            invariant
                i <= piece.len(),
                piece == self.block_coordinates@,
                self.coordinates@ == settled + piece.take(i as int),
                self.columns_len == old(self).columns_len,
                self.rows_len == old(self).rows_len,
            decreases piece.len() - i,
        {
            let c = self.block_coordinates[i];
            self.coordinates.push(c);
            assert(piece.take(i + 1) =~= piece.take(i as int).push(c));
            i += 1;
        }
        self.block_coordinates = Vec::new();
        self.is_block_falling = false;
        proof {
            let joined = settled + piece;
            assert(piece.take(piece.len() as int) =~= piece);
            assert(self.coordinates@ == joined);
            vstd::seq_lib::seq_to_set_distributes_over_add(settled, piece);
            assert(one_per_place(joined)) by {
                assert forall|a: int, b: int| 0 <= a < b < joined.len() implies !same_place(
                    #[trigger] joined[a],
                    #[trigger] joined[b],
                ) by {
                    if a < settled.len() && b >= settled.len() {
                        assert(settled.to_set().contains(settled[a]));
                        assert(piece.to_set().contains(piece[b - settled.len()]));
                    } else if b < settled.len() {
                        assert(!same_place(settled[a], settled[b]));
                    } else {
                        assert(!same_place(piece[a - settled.len()], piece[b - settled.len()]));
                    }
                }
            }
            lemma_list_as_set(joined);
            assert(self.block_coordinates@.to_set() =~= Set::empty());
        }
        self.clear_lines();
    }

    /// Moves the falling piece one row down. Where a cell of the piece
    /// already stands on the last row, or the lowered piece would collide, the
    /// piece lands where it is instead, and the error says which of the two
    /// stopped it.
    pub fn try_move_block_down_or_set(&mut self) -> (done: Result<(), BoardError>)
        requires
            old(self).wf(),
        ensures
            final(self).wf(),
            final(self)@ == old(self)@.after_tick(),
            done == if old(self)@.at_floor() {
                Err::<(), BoardError>(BoardError::LandedOnBoundary)
            } else if old(self)@.descent_blocked() {
                Err(BoardError::LandedOnBlock)
            } else {
                Ok(())
            },
    {
        let ghost before = self.block_coordinates@;
        let mut moved_block: Vec<Coords> = Vec::new();
        let mut i: usize = 0;
        while i < self.block_coordinates.len()
            invariant
                *self == *old(self),
                self.wf(),
                before == self.block_coordinates@,
                i <= before.len(),
                moved_block@.len() == i,
                forall|k: int|
                    0 <= k < i ==> moved_block@[k] == moved_cell(#[trigger] before[k], 0, 1),
                forall|k: int| 0 <= k < i ==> (#[trigger] before[k]).1 + 1 < self.rows_len,
            decreases before.len() - i,
        {
            let (x, y, color) = self.block_coordinates[i];
            assert(self@.falling.contains(before[i as int]));
            if y + 1 >= self.rows_len {
                self.settle_block();
                return Err(BoardError::LandedOnBoundary);
            }
            moved_block.push((x, y + 1, color));
            i += 1;
        }
        proof {
            lemma_moved_list(before, moved_block@, 0, 1);
            assert(!self@.at_floor()) by {
                if self@.at_floor() {
                    let c = choose|c: Coords| #[trigger]
                        self@.falling.contains(c) && c.1 + 1 >= self@.rows;
                    let k = choose|k: int| 0 <= k < before.len() && before[k] == c;
                    assert(before[k].1 == c.1);
                }
            }
        }
        if self.is_block_collinding_with_blocks(&moved_block) {
            self.settle_block();
            return Err(BoardError::LandedOnBlock);
        }
        proof {
            assert forall|k: int| 0 <= k < before.len() implies (#[trigger] moved_block@[k]).0
                == before[k].0 && moved_block@[k].1 == before[k].1 + 1 && moved_block@[k].2
                == before[k].2 && moved_block@[k].0 < self@.columns && moved_block@[k].1
                < self@.rows by {
                assert(self@.falling.contains(before[k]));
            }
            lemma_moved_piece(before, moved_block@, 0, 1, self@.columns, self@.rows);
        }
        self.block_coordinates = moved_block;
        Ok(())
    }

    /// Turns the falling piece by a quarter. Where the turn would take a cell
    /// out of the grid or onto a settled cell, the piece stays as it is and
    /// the error says so.
    pub fn try_rotate_block(&mut self, rotation: Rotation) -> (done: Result<(), BoardError>)
        requires
            old(self).wf(),
        ensures
            final(self).wf(),
            final(self)@ == old(self)@.after_turn(rotation),
            done == if old(self)@.rotation_blocked(rotation) {
                Err::<(), BoardError>(BoardError::RotationBlocked)
            } else {
                Ok(())
            },
    {
        let rotated_block = self.rotate_block_coordinates(rotation);
        proof {
            lemma_list_as_set(rotated_block@);
            lemma_list_as_set(self.block_coordinates@);
        }
        if rotated_block.len() != self.block_coordinates.len()
            || self.is_block_collinding_with_blocks(&rotated_block) {
            return Err(BoardError::RotationBlocked);
        }
        proof {
            let after = rotated_block@.to_set();
            let piece = self@.falling;
            assert(one_color(after)) by {
                assert forall|a: Coords, b: Coords|
                    #![trigger after.contains(a), after.contains(b)]
                    after.contains(a) && after.contains(b) implies a.2 == b.2 by {
                    let ca = choose|c: Coords| #[trigger]
                        piece.contains(c) && lies_at(
                            a,
                            turned_cell(c, frame_of(piece), rotation == Rotation::Clockwise),
                        );
                    let cb = choose|c: Coords| #[trigger]
                        piece.contains(c) && lies_at(
                            b,
                            turned_cell(c, frame_of(piece), rotation == Rotation::Clockwise),
                        );
                    assert(ca.2 == cb.2);
                }
            }
        }
        self.block_coordinates = rotated_block;
        Ok(())
    }
}

} // verus!
