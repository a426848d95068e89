//! Pieces: color, archetype, stable identifier, current position, and
//! whether the piece is still in its owner's hand.

use vstd::prelude::*;
use crate::hex::Hex;

verus! {

/// The two players' colors.
#[derive(Debug, Eq, PartialEq, Clone, Copy, Structural)]
pub enum PieceColor {
    White,
    Black,
}

/// The eight piece archetypes, each with its own movement algorithm.
#[derive(Debug, Eq, PartialEq, Clone, Copy, Structural)]
pub enum PieceType {
    QueenBee,
    Ant,
    Beetle,
    Grasshopper,
    Spider,
    Ladybug,
    Pillbug,
    Mosquito,
}

/// A playing piece. `id` is stable and unique per color, type and ordinal
/// (for example "wa1"); `hex` is the current position, which is the sentinel
/// (`z == isize::MAX`) while the piece is still in hand.
#[derive(Debug, Clone)]
pub struct Piece {
    pub color: PieceColor,
    pub piece_type: PieceType,
    pub id: String,
    pub hex: Hex,
    pub in_hand: bool,
}

/// Equality used for move-set deduplication and hand removal: two pieces are
/// equal when they agree on color and type, regardless of identity.
impl PartialEq for Piece {
    fn eq(&self, other: &Self) -> (r: bool) {
        self.color == other.color && self.piece_type == other.piece_type
    }
}

impl vstd::std_specs::cmp::PartialEqSpecImpl for Piece {
    open spec fn obeys_eq_spec() -> bool {
        true
    }

    open spec fn eq_spec(&self, other: &Piece) -> bool {
        self.color == other.color && self.piece_type == other.piece_type
    }
}

/// The id prefix of a color: 'w' for White, 'b' for Black.
pub open spec fn color_prefix(color: PieceColor) -> char {
    if color == PieceColor::White {
        'w'
    } else {
        'b'
    }
}

impl Piece {
    /// A fresh piece in hand, with id the color prefix followed by
    /// `name_suffix` and the sentinel position.
    pub fn new(color: PieceColor, piece_type: PieceType, name_suffix: &str) -> (r: Self)
        ensures
            r.color == color,
            r.piece_type == piece_type,
            r.id@ == seq![color_prefix(color)] + name_suffix@,
            r.in_hand == true,
            r.hex.q == 0,
            r.hex.r == 0,
            r.hex.s == 0,
            r.hex.z == isize::MAX,
    {
        let mut id: String = if color == PieceColor::White {
            String::from_str("w")
        } else {
            String::from_str("b")
        };
        proof {
            reveal_strlit("w");
            reveal_strlit("b");
            assert(id@ =~= seq![color_prefix(color)]);
        }
        id.append(name_suffix);
        Piece { color, hex: Hex::new(), piece_type, id, in_hand: true }
    }
}

} // verus!
