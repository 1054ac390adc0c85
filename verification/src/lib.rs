//! Rules engine and AI for an 11x11 tafl-family board game: a bit-packed
//! board, sliding-move generation (naive ray casting and magic-number
//! lookup tables), sandwich-capture rules, and minimax / alpha-beta search
//! with a transposition table.
pub mod bits;
pub mod board;
pub mod bot;
pub mod magic_bitboards;
