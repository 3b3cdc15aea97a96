//! Exact Laurent polynomials, 3×3 matrices over them, the four generator
//! moves of the puzzle and the freely reduced word of moves.

pub mod poly;
pub mod matrix;
pub mod group;
pub mod word;
