//! A falling-block puzzle engine: a fixed grid, seven piece shapes, and the
//! rules by which a piece is placed, moved, turned, dropped and merged into
//! the settled cells, with full rows removed and the rest packed downwards.
//!
//! Every executable function carries a contract over sets of coloured cells,
//! and the contracts are proved.

pub mod blocks;
pub mod board;
pub mod cells;
pub mod game;
pub mod laws;
pub mod render;
