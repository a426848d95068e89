use hive_engine::game::{get_starting_hand, Game, MoveError};
use hive_engine::hex::Hex;
use hive_engine::piece::{Piece, PieceColor, PieceType};
use hive_engine::piece_move::PieceMove;

fn hex(q: isize, r: isize, s: isize) -> Hex {
    Hex { q, r, s, z: 0 }
}

#[test]
fn starting_hand_holds_fourteen_pieces() {
    let hand = get_starting_hand(PieceColor::White);
    assert_eq!(hand.len(), 14);
    assert_eq!(hand[0].piece_type, PieceType::QueenBee);
    assert_eq!(hand[0].id, "wq");
    assert_eq!(hand[8].piece_type, PieceType::Ant);
    assert_eq!(hand[8].id, "wa1");
    assert_eq!(hand[13].piece_type, PieceType::Pillbug);
    assert_eq!(hand[13].id, "wp");
    assert!(hand.iter().all(|p| p.in_hand && p.color == PieceColor::White));
}

#[test]
fn new_game_deals_both_hands() {
    let g = Game::new();
    assert_eq!(g.placed.len(), 0);
    assert_eq!(g.p1_hand.len(), 14);
    assert_eq!(g.p2_hand.len(), 14);
    assert_eq!(g.p1_hand[0].color, PieceColor::Black);
    assert_eq!(g.p2_hand[0].color, PieceColor::White);
    assert_eq!(g.move_list.len(), 0);
}

#[test]
fn placing_removes_one_matching_piece_from_hand() {
    let mut g = Game::new();
    let ant = Piece::new(PieceColor::Black, PieceType::Ant, "a1");
    g.add_to_grid(ant, hex(0, 0, 0));
    // Black is player 1: one of the three ants left that hand, the other
    // hand kept all fourteen pieces.
    assert_eq!(g.p1_hand.len(), 13);
    assert_eq!(g.p2_hand.len(), 14);
    assert_eq!(g.placed.len(), 1);
    assert!(!g.placed[0].in_hand);
    assert_eq!(g.placed[0].hex, hex(0, 0, 0));
}

#[test]
fn placing_with_no_matching_hand_piece_is_silently_ignored() {
    let mut g = Game::new();
    let q1 = Piece::new(PieceColor::Black, PieceType::QueenBee, "q");
    g.add_to_grid(q1, hex(0, 0, 0));
    assert_eq!(g.p1_hand.len(), 13);
    // A second black queen matches nothing left in either hand.
    let q2 = Piece::new(PieceColor::Black, PieceType::QueenBee, "q2");
    g.add_to_grid(q2, hex(0, -1, 1));
    assert_eq!(g.p1_hand.len(), 13);
    assert_eq!(g.p2_hand.len(), 14);
    assert_eq!(g.placed.len(), 2);
}

#[test]
fn two_piece_board_has_one_edge_pair() {
    let mut g = Game::new();
    g.add_to_grid(Piece::new(PieceColor::Black, PieceType::QueenBee, "q"), hex(0, 0, 0));
    g.add_to_grid(Piece::new(PieceColor::White, PieceType::QueenBee, "q"), hex(0, -1, 1));
    // Exactly two directed opposite-direction edges: one pair.
    assert_eq!(g.edge_count(), 2);
}

#[test]
fn update_piece_edges_is_idempotent() {
    let mut g = Game::new();
    g.add_to_grid(Piece::new(PieceColor::Black, PieceType::QueenBee, "q"), hex(0, 0, 0));
    g.add_to_grid(Piece::new(PieceColor::White, PieceType::QueenBee, "q"), hex(0, -1, 1));
    assert_eq!(g.edge_count(), 2);
    g.update_piece_edges(0);
    assert_eq!(g.edge_count(), 2);
    g.update_piece_edges(1);
    g.update_piece_edges(1);
    assert_eq!(g.edge_count(), 2);
}

#[test]
fn distant_pieces_share_no_edge() {
    let mut g = Game::new();
    g.add_to_grid(Piece::new(PieceColor::Black, PieceType::QueenBee, "q"), hex(0, 0, 0));
    g.add_to_grid(Piece::new(PieceColor::White, PieceType::QueenBee, "q"), hex(3, -3, 0));
    assert_eq!(g.edge_count(), 0);
}

#[test]
fn make_move_teleports_and_rebuilds_edges() {
    let mut g = Game::new();
    g.add_to_grid(Piece::new(PieceColor::Black, PieceType::QueenBee, "q"), hex(0, 0, 0));
    g.add_to_grid(Piece::new(PieceColor::White, PieceType::QueenBee, "q"), hex(0, -1, 1));
    g.add_to_grid(Piece::new(PieceColor::Black, PieceType::Ant, "a1"), hex(0, 1, -1));
    assert_eq!(g.edge_count(), 4);
    // Move the ant around the queen pair.
    let r = g.make_move(PieceMove { piece_node: 2, hex: hex(1, -1, 0) });
    assert!(r.is_ok());
    assert_eq!(g.placed.len(), 3);
    assert_eq!(g.move_list.len(), 1);
    // The ant now touches both queens: three adjacent pairs in all.
    assert_eq!(g.edge_count(), 6);
    assert!(g.placed.iter().any(|p| p.hex == hex(1, -1, 0)));
    assert!(!g.placed.iter().any(|p| p.hex == hex(0, 1, -1)));
}

#[test]
fn make_move_reports_missing_piece() {
    let mut g = Game::new();
    g.add_to_grid(Piece::new(PieceColor::Black, PieceType::QueenBee, "q"), hex(0, 0, 0));
    let r = g.make_move(PieceMove { piece_node: 7, hex: hex(0, -1, 1) });
    assert_eq!(r, Err(MoveError::PieceNotFound));
    assert_eq!(g.placed.len(), 1);
    assert_eq!(g.move_list.len(), 0);
}

#[test]
fn hex_connects_sees_lateral_neighbors_only() {
    let mut g = Game::new();
    g.add_to_grid(Piece::new(PieceColor::Black, PieceType::QueenBee, "q"), hex(0, 0, 0));
    assert!(g.hex_connects(hex(0, -1, 1)));
    assert!(g.hex_connects(hex(-1, 1, 0)));
    assert!(!g.hex_connects(hex(2, -2, 0)));
    assert!(!g.hex_connects(hex(0, 0, 0)));
}

#[test]
fn grid_distance_halves_coordinate_deltas() {
    let g = Game::new();
    assert_eq!(g.grid_distance(hex(0, 0, 0), hex(2, -1, -1)), 2);
    assert_eq!(g.grid_distance(hex(0, 0, 0), hex(0, -3, 3)), 3);
    assert_eq!(g.grid_distance(hex(1, -1, 0), hex(1, -1, 0)), 0);
}

#[test]
fn slide_distance_counts_perimeter_hops() {
    let mut g = Game::new();
    g.add_to_grid(Piece::new(PieceColor::Black, PieceType::Spider, "s1"), hex(0, 0, 0));
    g.add_to_grid(Piece::new(PieceColor::White, PieceType::QueenBee, "q"), hex(0, -1, 1));
    g.add_to_grid(Piece::new(PieceColor::White, PieceType::Ant, "a1"), hex(0, -2, 2));
    assert_eq!(g.slide_distance(hex(0, 0, 0), hex(1, -1, 0)), 1);
    assert_eq!(g.slide_distance(hex(0, 0, 0), hex(1, -2, 1)), 2);
    assert_eq!(g.slide_distance(hex(0, 0, 0), hex(1, -3, 2)), 3);
}

#[test]
fn default_game_is_empty() {
    let g = Game::default();
    assert_eq!(g.placed.len(), 0);
    assert_eq!(g.p1_hand.len(), 0);
    assert_eq!(g.p2_hand.len(), 0);
    assert_eq!(g.move_list.len(), 0);
    assert_eq!(g.edge_count(), 0);
}
