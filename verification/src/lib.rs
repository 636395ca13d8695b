//! Loading and evaluating NNUE (Efficiently Updatable Neural Network) networks.
//!
//! Positions are fed in by FEN or by implementing [`Board`] on a position type.
//! Squares are `0..64` with `a1 = 0`. Scores are in internal network units from
//! the perspective of the side to move.

use crate::fen::parsed;
use vstd::prelude::*;

pub mod arith;
pub mod attacks;
pub mod error;
pub mod feature;
pub mod fen;
pub mod format;
pub mod inference;
pub mod laws;
pub mod leb128;
pub mod model;
pub mod network;
pub mod notation;
pub mod planes;
pub mod reader;
pub mod scoring;
pub mod simd;
pub mod sums;
pub mod symmetry;
pub mod threats;
pub mod types;
pub mod writing;

pub use fen::FenBoard;
pub use network::{Accumulator, Network};
pub use types::{Board, Color, Piece, PieceKind};

verus! {

impl Network {
    /// Evaluates the position of a FEN record.
    pub fn evaluate_fen(&self, fen: &str) -> (r: Result<i32, String>)
        ensures
            match parsed(fen@) {
                Ok(pos) => r matches Ok(score) && score == self@.score(
                    self@.fresh(pos, Seq::empty()),
                    pos.stm,
                ),
                Err(message) => r matches Err(e) && e@ == message,
            },
    {
        let board = FenBoard::parse(fen)?;
        Ok(self.evaluate(&board))
    }
}

} // verus!
