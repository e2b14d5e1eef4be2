//! A move-choosing engine for the 8x8 disk-flipping board game.

pub mod bits;
pub mod geometry;
pub mod rules;
pub mod text;
pub mod board;
pub mod ai_v2;
pub mod minimax;
pub mod search;
pub mod board_ai;
pub mod args;
pub mod communication;
pub mod game;
