pub mod attacks;
pub mod geometry;
pub mod bitboard;
pub mod cache;
pub mod moves;
pub mod legal;
