//! A candidate or applied move: which board slot moves, and to which hex.

use vstd::prelude::*;
use crate::hex::Hex;

verus! {

/// A move of the piece in board slot `piece_node` to position `hex`.
/// Moves compare structurally, which is what move-set deduplication uses.
#[derive(Debug, PartialEq, Eq, Clone, Copy, Structural)]
pub struct PieceMove {
    pub piece_node: usize,
    pub hex: Hex,
}

} // verus!
