use hive_engine::hex::{get_edge_types, Hex, HexEdge};
use hive_engine::piece::{Piece, PieceColor, PieceType};

fn hex(q: isize, r: isize, s: isize) -> Hex {
    Hex { q, r, s, z: 0 }
}

#[test]
fn sentinel_hex_marks_unplaced() {
    let h = Hex::new();
    assert_eq!(h.q, 0);
    assert_eq!(h.r, 0);
    assert_eq!(h.s, 0);
    assert_eq!(h.z, isize::MAX);
}

#[test]
fn neighbors_follow_cube_deltas() {
    let h = hex(2, -1, -1);
    assert_eq!(h.get_neighbor(HexEdge::N), hex(2, -2, 0));
    assert_eq!(h.get_neighbor(HexEdge::NE), hex(3, -2, -1));
    assert_eq!(h.get_neighbor(HexEdge::SE), hex(3, -1, -2));
    assert_eq!(h.get_neighbor(HexEdge::S), hex(2, 0, -2));
    assert_eq!(h.get_neighbor(HexEdge::SW), hex(1, 0, -1));
    assert_eq!(h.get_neighbor(HexEdge::NW), hex(1, -1, 0));
    assert_eq!(h.get_neighbor(HexEdge::T), Hex { q: 2, r: -1, s: -1, z: 1 });
    assert_eq!(h.get_neighbor(HexEdge::B), Hex { q: 2, r: -1, s: -1, z: -1 });
}

#[test]
fn lateral_steps_preserve_cube_sum() {
    let h = hex(0, 0, 0);
    for n in h.get_slide_neighbors() {
        assert_eq!(n.q + n.r + n.s, 0);
        assert_eq!(n.z, 0);
    }
}

#[test]
fn neighbor_lists_have_expected_sizes() {
    let h = hex(0, 0, 0);
    assert_eq!(h.get_slide_neighbors().len(), 6);
    assert_eq!(h.get_neighbors().len(), 8);
}

#[test]
fn opposite_is_an_involution() {
    for d in get_edge_types() {
        assert_eq!(d.get_opposite().get_opposite(), d);
    }
    assert_eq!(HexEdge::N.get_opposite(), HexEdge::S);
    assert_eq!(HexEdge::NE.get_opposite(), HexEdge::SW);
    assert_eq!(HexEdge::SE.get_opposite(), HexEdge::NW);
    assert_eq!(HexEdge::T.get_opposite(), HexEdge::B);
}

#[test]
fn gate_edges_flank_each_lateral_direction() {
    assert_eq!(HexEdge::N.get_gate_edges(), [HexEdge::NW, HexEdge::NE]);
    assert_eq!(HexEdge::NE.get_gate_edges(), [HexEdge::N, HexEdge::SE]);
    assert_eq!(HexEdge::SE.get_gate_edges(), [HexEdge::NE, HexEdge::S]);
    assert_eq!(HexEdge::S.get_gate_edges(), [HexEdge::SE, HexEdge::SW]);
    assert_eq!(HexEdge::SW.get_gate_edges(), [HexEdge::S, HexEdge::NW]);
    assert_eq!(HexEdge::NW.get_gate_edges(), [HexEdge::SW, HexEdge::N]);
}

#[test]
fn piece_ids_carry_color_prefix() {
    let wa1 = Piece::new(PieceColor::White, PieceType::Ant, "a1");
    assert_eq!(wa1.id, "wa1");
    assert!(wa1.in_hand);
    assert_eq!(wa1.hex.z, isize::MAX);
    let bq = Piece::new(PieceColor::Black, PieceType::QueenBee, "q");
    assert_eq!(bq.id, "bq");
}

#[test]
fn piece_equality_ignores_identity() {
    let a1 = Piece::new(PieceColor::White, PieceType::Ant, "a1");
    let a2 = Piece::new(PieceColor::White, PieceType::Ant, "a2");
    let b1 = Piece::new(PieceColor::Black, PieceType::Ant, "a1");
    let s1 = Piece::new(PieceColor::White, PieceType::Spider, "s1");
    assert!(a1 == a2);
    assert!(a1 != b1);
    assert!(a1 != s1);
}

#[test]
fn sentinel_hex_can_step_laterally() {
    // Lateral steps leave the stack level alone, so even the in-hand
    // sentinel position (z at the integer maximum) has slide neighbors.
    let h = Hex::new();
    let n = h.get_slide_neighbors();
    assert_eq!(n.len(), 6);
    assert!(n.iter().all(|x| x.z == isize::MAX));
    assert_eq!(h.get_neighbor(HexEdge::N), Hex { q: 0, r: -1, s: 1, z: isize::MAX });
}

#[test]
fn hand_pieces_carry_the_sentinel_position() {
    let p = Piece::new(PieceColor::Black, PieceType::Ladybug, "l");
    assert_eq!(p.hex, Hex::new());
}
