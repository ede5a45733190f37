//! Verified game-state engines for a small collection of board and
//! falling-block games: Chinese chess move generation, gomoku win
//! detection and its networked wire protocol, minesweeper mine
//! placement and flood reveal, snake growth and collision, and tetris
//! settle-and-clear, together with the session bookkeeping of the
//! gomoku web variant.
//!
//! Rendering, input handling and network transport are deliberately
//! absent: every engine is a pure state machine that a shell feeds one
//! event at a time.

pub mod chess;
pub mod gomoku;
pub mod gomoku_web;
pub mod minesweeper;
pub mod protocol;
pub mod rng;
pub mod snake;
pub mod tetris;
