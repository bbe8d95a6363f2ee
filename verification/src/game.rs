//! The moves of a game: what each command of the player, or the clock, does
//! to the board.

use crate::blocks::Coords;
use crate::board::{Board, BoardView, Direction, Rotation};
use crate::cells::{lemma_moved_again, moved, moved_cell};
use vstd::prelude::*;

verus! {

/// What the player can ask for.
#[derive(Clone, Copy, Debug, PartialEq, Eq, Structural)]
pub enum Command {
    Left,
    Right,
    Down,
    RotateClockwise,
    RotateCounterClockwise,
    HardDrop,
    Quit,
}

impl BoardView {
    /// The board with the falling piece `depth` rows lower.
    pub open spec fn sunk(self, depth: nat) -> BoardView {
        BoardView { falling: moved(self.falling, 0, depth as int), ..self }
    }

    /// The falling piece can move `depth` rows down and no further.
    pub open spec fn rests_at(self, depth: nat) -> bool {
        self.sunk(depth).descent_blocked() && forall|less: nat|
            less < depth ==> !(#[trigger] self.sunk(less)).descent_blocked()
    }

    /// How many rows the falling piece can move down.
    pub open spec fn resting_depth(self) -> nat {
        choose|depth: nat| self.rests_at(depth)
    }

    /// The board after a hard drop: the falling piece has moved down as far
    /// as it can and has landed there. Without a falling piece nothing changes.
    pub open spec fn after_drop(self) -> BoardView {
        if self.is_block_falling {
            self.sunk(self.resting_depth()).landed()
        } else {
            self
        }
    }

    /// The board after a command.
    pub open spec fn after(self, command: Command) -> BoardView {
        match command {
            Command::Left => self.after_move(Direction::Left),
            Command::Right => self.after_move(Direction::Right),
            Command::Down => self.after_tick(),
            Command::RotateClockwise => self.after_turn(Rotation::Clockwise),
            Command::RotateCounterClockwise => self.after_turn(Rotation::CounterClockwise),
            Command::HardDrop => self.after_drop(),
            Command::Quit => self,
        }
    }
}

/// Whether less than the given number of milliseconds has passed, given the
/// milliseconds that have: the piece falls by itself once the interval is over.
pub fn has_past_less_than_x_ms(x_ms_has_past: u64, elapsed_ms: u128) -> (less: bool)
    ensures
        less == (elapsed_ms < x_ms_has_past),
{
    elapsed_ms < x_ms_has_past as u128
}

impl Board {
    /// Moves the falling piece down until it lands. Without a falling piece
    /// nothing changes.
    pub fn hard_drop(&mut self)
        requires
            old(self).wf(),
        ensures
            final(self).wf(),
            final(self)@ == old(self)@.after_drop(),
    {
        if !self.is_block_falling() {
            return ;
        }
        let ghost start = self@;
        let ghost piece = start.falling;
        let ghost witness = piece.choose();
        let ghost mut depth: nat = 0;
        proof {
            assert(piece.contains(witness)) by {
                if piece.len() != 0 {
                    vstd::set::axiom_set_choose_len(piece);
                }
            }
            assert(moved(piece, 0, 0) =~= piece) by {
                assert forall|c: Coords| piece.contains(c) implies moved(piece, 0, 0).contains(
                    c,
                ) by {
                    assert(c == moved_cell(c, 0, 0));
                }
            }
        }
        loop
            invariant
                self.wf(),
                start == old(self)@,
                piece == start.falling,
                piece.contains(witness),
                self@ == start.sunk(depth),
                forall|c: Coords| #[trigger] piece.contains(c) ==> c.1 + depth < start.rows,
                forall|less: nat| less < depth ==> !(#[trigger] start.sunk(less)).descent_blocked(),
            decreases start.rows - depth,
        {
            let ghost here = self@;
            let done = self.try_move_block_down_or_set();
            if done.is_err() {
                proof {
                    assert(start.rests_at(depth));
                    let chosen = start.resting_depth();
                    assert(start.rests_at(chosen));
                    if chosen < depth {
                        assert(!start.sunk(chosen).descent_blocked());
                    }
                    if depth < chosen {
                        assert(!start.sunk(depth).descent_blocked());
                    }
                }
                return ;
            }
            proof {
                lemma_moved_again(piece, 0, depth as int, 0, 1);
                assert forall|c: Coords| #[trigger] piece.contains(c) implies c.1 + depth + 1
                    < start.rows by {
                    let lower = moved_cell(c, 0, depth as int);
                    assert(piece.contains(c) && lower == moved_cell(c, 0, depth as int));
                    assert(here.falling.contains(lower));
                }
                depth = depth + 1;
            }
        }
    }

    /// Carries out a command of the player. The result says whether the game
    /// goes on: it does, unless the player quits. A move that is blocked
    /// leaves the board as it is; a move down that is blocked lands the piece.
    pub fn apply(&mut self, command: Command) -> (go_on: bool)
        requires
            old(self).wf(),
        ensures
            final(self).wf(),
            final(self)@ == old(self)@.after(command),
            go_on == (command != Command::Quit),
    {
        match command {
            Command::Left => {
                self.move_block_x_axis(Direction::Left);
                true
            },
            Command::Right => {
                self.move_block_x_axis(Direction::Right);
                true
            },
            Command::Down => {
                let _ = self.try_move_block_down_or_set();
                true
            },
            Command::RotateClockwise => {
                let _ = self.try_rotate_block(Rotation::Clockwise);
                true
            },
            Command::RotateCounterClockwise => {
                let _ = self.try_rotate_block(Rotation::CounterClockwise);
                true
            },
            Command::HardDrop => {
                self.hard_drop();
                true
            },
            Command::Quit => false,
        }
    }
}

} // verus!
