//! A verified Conway's Game of Life engine.
//!
//! A fixed-size rectangular board is built by embedding an initial
//! pattern into a zero-padded canvas at a given offset, then advanced
//! generation by generation under Conway's rule with non-toroidal
//! edges. Pattern files in plaintext, Life 1.05 and run-length-encoded
//! form are parsed into initial matrices.

pub mod board;
pub mod parse;
