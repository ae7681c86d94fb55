//! Rules engine and move-selection policies for a Pente-style board game.
//!
//! Players place stones in turn on a square grid. Flanking exactly two stones
//! of one opponent between two of the mover's own stones removes the pair. The
//! game ends when a side has captured enough pairs, when the board is full, or
//! when a side has enough stones in a row.

pub mod alphabetaplayer;
pub mod board;
pub mod capture;
pub mod cells;
pub mod game;
pub mod grid;
pub mod lines;
pub mod mcts_player;
pub mod pente;
pub mod player;
pub mod random_player;
pub mod rng;
