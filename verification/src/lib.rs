//! Rule engine for a chess variant in which a white and a black piece may
//! share a square as a union, and one turn may chain through several unions.

pub mod board;
pub mod moves;
pub mod notation;
pub mod piece;
pub mod reach_lemmas;
pub mod render;
pub mod session;
pub mod turn;
pub mod turn_lemmas;
