use hive_engine::game::Game;
use hive_engine::hex::{Hex, HexEdge};
use hive_engine::moves::{
    can_slide, get_ant_moves, get_beetle_moves, get_grasshopper_moves, get_ladybug_moves,
    get_mosquito_moves, get_pillbug_moves, get_queen_moves,
};
use hive_engine::piece::{Piece, PieceColor, PieceType};
use hive_engine::piece_move::PieceMove;

fn hex(q: isize, r: isize, s: isize) -> Hex {
    Hex { q, r, s, z: 0 }
}

fn dests(moves: &[PieceMove], piece_node: usize) -> Vec<Hex> {
    let mut v: Vec<Hex> = moves.iter().filter(|m| m.piece_node == piece_node).map(|m| m.hex).collect();
    v.sort_by_key(|h| (h.q, h.r, h.s, h.z));
    v
}

fn sorted(mut v: Vec<Hex>) -> Vec<Hex> {
    v.sort_by_key(|h| (h.q, h.r, h.s, h.z));
    v
}

#[test]
fn both_gates_filled_block_the_slide() {
    let mut g = Game::new();
    g.add_to_grid(Piece::new(PieceColor::White, PieceType::QueenBee, "q"), hex(0, 0, 0));
    // One gate of N (the NE hex) filled: the slide stays available, and the
    // queen may move north.
    g.add_to_grid(Piece::new(PieceColor::Black, PieceType::QueenBee, "q"), hex(1, -1, 0));
    assert!(can_slide(hex(0, 0, 0), HexEdge::N, &g));
    let moves = get_queen_moves(&g, 0);
    assert!(moves.iter().any(|m| m.hex == hex(0, -1, 1)));
    // Both gates of N (NW and NE) filled: the slide is gone.
    g.add_to_grid(Piece::new(PieceColor::Black, PieceType::Ant, "a1"), hex(-1, 0, 1));
    assert!(!can_slide(hex(0, 0, 0), HexEdge::N, &g));
    let moves = get_queen_moves(&g, 0);
    assert!(!moves.iter().any(|m| m.hex == hex(0, -1, 1)));
}

#[test]
fn queen_needs_empty_destination() {
    let mut g = Game::new();
    g.add_to_grid(Piece::new(PieceColor::White, PieceType::QueenBee, "q"), hex(0, 0, 0));
    g.add_to_grid(Piece::new(PieceColor::Black, PieceType::QueenBee, "q"), hex(0, -1, 1));
    assert!(!can_slide(hex(0, 0, 0), HexEdge::N, &g));
    let moves = get_queen_moves(&g, 0);
    assert!(!moves.iter().any(|m| m.hex == hex(0, -1, 1)));
}

#[test]
fn ant_walks_the_whole_perimeter_of_a_pair() {
    let mut g = Game::new();
    g.add_to_grid(Piece::new(PieceColor::White, PieceType::Ant, "a1"), hex(0, 0, 0));
    g.add_to_grid(Piece::new(PieceColor::Black, PieceType::QueenBee, "q"), hex(0, -1, 1));
    let moves = get_ant_moves(&g, 0);
    // Every empty hex still touching the queen: the two common neighbors
    // of the pair and the queen's three far neighbors.
    let expected = sorted(vec![
        hex(1, -1, 0),
        hex(-1, 0, 1),
        hex(1, -2, 1),
        hex(-1, -1, 2),
        hex(0, -2, 2),
    ]);
    assert_eq!(dests(&moves, 0), expected);
}

#[test]
fn spider_stops_at_distance_three_exactly() {
    let mut g = Game::new();
    g.add_to_grid(Piece::new(PieceColor::White, PieceType::Spider, "s1"), hex(0, 0, 0));
    g.add_to_grid(Piece::new(PieceColor::Black, PieceType::QueenBee, "q"), hex(0, -1, 1));
    g.add_to_grid(Piece::new(PieceColor::Black, PieceType::Ant, "a1"), hex(0, -2, 2));
    let moves = get_spider_moves_sorted(&g);
    let expected = sorted(vec![hex(1, -3, 2), hex(-1, -2, 3)]);
    assert_eq!(moves, expected);
    // The spider distance law, checked on the live board.
    for d in &expected {
        assert_eq!(g.slide_distance(hex(0, 0, 0), *d), 3);
    }
}

fn get_spider_moves_sorted(g: &Game) -> Vec<Hex> {
    let moves = hive_engine::moves::get_spider_moves(g, 0);
    dests(&moves, 0)
}

#[test]
fn grasshopper_jumps_the_line_and_nothing_else() {
    let mut g = Game::new();
    g.add_to_grid(Piece::new(PieceColor::White, PieceType::Grasshopper, "g1"), hex(0, 0, 0));
    g.add_to_grid(Piece::new(PieceColor::Black, PieceType::QueenBee, "q"), hex(0, -1, 1));
    g.add_to_grid(Piece::new(PieceColor::Black, PieceType::Ant, "a1"), hex(0, -2, 2));
    let moves = get_grasshopper_moves(&g, 0);
    // Exactly one move: over the two occupied hexes onto the first empty
    // hex beyond; directions with an empty immediate neighbor yield none.
    assert_eq!(moves.len(), 1);
    assert_eq!(moves[0].hex, hex(0, -3, 3));
}

#[test]
fn beetle_slides_or_climbs() {
    let mut g = Game::new();
    g.add_to_grid(Piece::new(PieceColor::White, PieceType::Beetle, "b1"), hex(0, 0, 0));
    g.add_to_grid(Piece::new(PieceColor::Black, PieceType::QueenBee, "q"), hex(0, -1, 1));
    let moves = get_beetle_moves(&g, 0);
    let expected = sorted(vec![
        hex(1, -1, 0),
        hex(-1, 0, 1),
        Hex { q: 0, r: -1, s: 1, z: 1 },
    ]);
    assert_eq!(dests(&moves, 0), expected);
}

#[test]
fn ladybug_descends_after_two_hops() {
    let mut g = Game::new();
    g.add_to_grid(Piece::new(PieceColor::White, PieceType::Ladybug, "l"), hex(0, 0, 0));
    g.add_to_grid(Piece::new(PieceColor::Black, PieceType::QueenBee, "q"), hex(0, -1, 1));
    g.add_to_grid(Piece::new(PieceColor::Black, PieceType::Ant, "a1"), hex(0, -2, 2));
    let moves = get_ladybug_moves(&g, 0);
    // Two hops (queen, then ant), then down onto any of the ant's five
    // empty neighbors.
    let expected = sorted(vec![
        hex(0, -3, 3),
        hex(1, -3, 2),
        hex(1, -2, 1),
        hex(-1, -1, 2),
        hex(-1, -2, 3),
    ]);
    assert_eq!(dests(&moves, 0), expected);
}

#[test]
fn pillbug_slides_and_throws() {
    let mut g = Game::new();
    g.add_to_grid(Piece::new(PieceColor::White, PieceType::Pillbug, "p"), hex(0, 0, 0));
    g.add_to_grid(Piece::new(PieceColor::Black, PieceType::QueenBee, "q"), hex(0, -1, 1));
    let moves = get_pillbug_moves(&g, 0);
    // Its own two queen-style slides.
    assert_eq!(dests(&moves, 0), sorted(vec![hex(1, -1, 0), hex(-1, 0, 1)]));
    // The queen, movable and adjacent, may be thrown onto any of the five
    // empty hexes around the pillbug.
    let expected_throws = sorted(vec![
        hex(1, -1, 0),
        hex(1, 0, -1),
        hex(0, 1, -1),
        hex(-1, 1, 0),
        hex(-1, 0, 1),
    ]);
    assert_eq!(dests(&moves, 1), expected_throws);
}

#[test]
fn mosquito_copies_adjacent_archetypes() {
    let mut g = Game::new();
    g.add_to_grid(Piece::new(PieceColor::White, PieceType::Mosquito, "m"), hex(0, 0, 0));
    g.add_to_grid(Piece::new(PieceColor::Black, PieceType::Grasshopper, "g1"), hex(0, -1, 1));
    g.add_to_grid(Piece::new(PieceColor::Black, PieceType::Ant, "a1"), hex(1, -1, 0));
    let moves = get_mosquito_moves(&g, 0);
    // As a grasshopper it jumps over either neighbor; as an ant it walks
    // the perimeter. The union is deduplicated.
    assert!(moves.iter().any(|m| m.hex == hex(0, -2, 2)));
    assert!(moves.iter().any(|m| m.hex == hex(2, -2, 0)));
    assert!(moves.iter().any(|m| m.hex == hex(-1, 0, 1)));
    let uniq: std::collections::BTreeSet<(isize, isize, isize, isize)> =
        moves.iter().map(|m| (m.hex.q, m.hex.r, m.hex.s, m.hex.z)).collect();
    assert_eq!(uniq.len(), moves.len());
}

#[test]
fn mosquito_next_to_mosquito_has_no_moves() {
    let mut g = Game::new();
    g.add_to_grid(Piece::new(PieceColor::White, PieceType::Mosquito, "m"), hex(0, 0, 0));
    g.add_to_grid(Piece::new(PieceColor::Black, PieceType::Mosquito, "m"), hex(0, -1, 1));
    let moves = get_mosquito_moves(&g, 0);
    assert_eq!(moves.len(), 0);
}

#[test]
fn pinned_middle_piece_cannot_move() {
    let mut g = Game::new();
    g.add_to_grid(Piece::new(PieceColor::White, PieceType::QueenBee, "q"), hex(0, 0, 0));
    g.add_to_grid(Piece::new(PieceColor::Black, PieceType::QueenBee, "q"), hex(0, -1, 1));
    g.add_to_grid(Piece::new(PieceColor::White, PieceType::Ant, "a1"), hex(0, -2, 2));
    // The middle queen holds the line together.
    let middle = g.placed[1].clone();
    assert!(!middle.can_move(&g));
    let end = g.placed[0].clone();
    assert!(end.can_move(&g));
    // The one-hive gate: no legal move references the pinned piece.
    let all = g.get_all_moves();
    assert!(!all.is_empty());
    assert!(all.iter().all(|m| m.piece_node != 1));
}

#[test]
fn lone_piece_passes_the_oracle() {
    let mut g = Game::new();
    g.add_to_grid(Piece::new(PieceColor::White, PieceType::QueenBee, "q"), hex(0, 0, 0));
    let q = g.placed[0].clone();
    assert!(q.can_move(&g));
    // But it has nowhere to go: no other piece to stay in contact with.
    assert_eq!(g.get_all_moves().len(), 0);
}

#[test]
fn piece_in_hand_cannot_move() {
    let g = Game::new();
    let hand_piece = g.p1_hand[0].clone();
    assert!(!hand_piece.can_move(&g));
    assert_eq!(hand_piece.get_moves(&g).len(), 0);
}

#[test]
fn rhombus_board_yields_legal_queen_moves() {
    let mut g = Game::new();
    g.add_to_grid(Piece::new(PieceColor::Black, PieceType::QueenBee, "q"), hex(0, 0, 0));
    g.add_to_grid(Piece::new(PieceColor::White, PieceType::QueenBee, "q"), hex(0, -1, 1));
    g.add_to_grid(Piece::new(PieceColor::White, PieceType::Grasshopper, "g1"), hex(-1, 0, 1));
    g.add_to_grid(Piece::new(PieceColor::Black, PieceType::Pillbug, "p"), hex(-1, -1, 2));
    let all = g.get_all_moves();
    assert!(!all.is_empty());
    // Each queen has exactly the two open, unblocked perimeter hexes its
    // generator allows.
    assert_eq!(
        dests(&get_queen_moves(&g, 0), 0),
        sorted(vec![hex(1, -1, 0), hex(-1, 1, 0)])
    );
    assert_eq!(
        dests(&get_queen_moves(&g, 1), 1),
        sorted(vec![hex(0, -2, 2), hex(1, -1, 0)])
    );
}
