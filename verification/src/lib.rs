//! A small Chinese chess (xiangqi) engine: the board, the move rules of each
//! piece, a reversible move history and a randomised alpha-beta search.

pub mod action;
pub mod board;
pub mod history;
pub mod moves;
pub mod rules;
mod random;
pub mod search;
