//! Rules engine for a hexagonal-grid tile-placement strategy game.
//!
//! The library keeps the board state (placed pieces, the two hands, and the
//! derived adjacency graph), decides which pieces may move without breaking
//! the hive apart, and generates the complete legal move set for every piece
//! archetype.

pub mod adjacency;
pub mod game;
pub mod hex;
pub mod laws;
pub mod moves;
pub mod oracle;
pub mod piece;
pub mod piece_move;
pub mod walk;

pub use game::Game;
pub use game::MoveError;
pub use game::get_starting_hand;
pub use hex::Hex;
pub use hex::HexEdge;
pub use piece::Piece;
pub use piece::PieceColor;
pub use piece::PieceType;
pub use piece_move::PieceMove;
