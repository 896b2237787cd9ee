//! A falling-block puzzle engine: a rectangular grid of colored cells, piece
//! placement with collision detection, rotation by transpose/mirror
//! composition, full-line detection and elimination, and the game state
//! machine that sequences falling, line-clear staging, and game over.

pub mod board;
pub mod game;
