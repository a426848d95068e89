//! Board-wide laws: properties that hold of every board, stated over the
//! same specifications the move generators promise, and proved once and for
//! all.

use vstd::prelude::*;
use vstd::multiset::Multiset;
use crate::hex::{
    Hex, HexEdge, lateral, lateral_adjacent, hex_adjacent, hex_in_bounds, is_step, edge_index,
    opposite, lemma_hex_adjacent_symmetric, lemma_step_opposite,
};
use crate::piece::{Piece, PieceType};
use crate::piece_move::PieceMove;
use crate::game::{
    occupied, hive_adjacent_other, pieces_placed_ok, distinct_hexes, edges_mirror,
    edges_mirror_except, node_edges_partial, pair_absent, pair_complete, slot_adjacent,
    adj_label, lemma_step_dir_unique, placed_at, swap_removed, MAX_PIECES,
};
use crate::walk::{step_hex, walk_path, walk_reach_in};
use crate::oracle::{
    board_connected, movable_spec, slots_reach, slots_reach_within, lemma_reach_push,
    lemma_reach_extend,
};
use crate::moves::{
    piece_moves_spec, type_move, pillbug_throw, queen_dest, spider_dest, ladybug_hop, line_hex,
    lemma_line_props,
};

verus! {

/// Every move of archetype `t` played from slot `i` references a slot the
/// connectivity oracle frees to move.
proof fn lemma_type_move_movable(ps: Seq<Piece>, i: int, t: PieceType, m: PieceMove)
    requires
        0 <= i < ps.len(),
        movable_spec(ps, i),
        type_move(ps, i, t, m),
    ensures
        0 <= m.piece_node < ps.len(),
        movable_spec(ps, m.piece_node as int),
{
    match t {
        PieceType::Pillbug => {
            if !(m.piece_node == i && queen_dest(ps, i, m.hex)) {
                assert(pillbug_throw(ps, i, m.piece_node as int, m.hex));
            }
        },
        _ => {},
    }
}

/// The one-hive gate: every move that the legal-move set can hold (by the
/// contract of `Game::get_all_moves`, one generated from some slot the
/// connectivity oracle frees) references a piece that the oracle itself
/// frees to move. A piece the oracle declares immovable is therefore never
/// referenced by any entry of the legal-move set.
pub proof fn lemma_one_hive_gate(ps: Seq<Piece>, m: PieceMove)
    requires
        exists|i: int| 0 <= i < ps.len() && movable_spec(ps, i) && piece_moves_spec(ps, i, m),
    ensures
        0 <= m.piece_node < ps.len(),
        movable_spec(ps, m.piece_node as int),
{
    let i = choose|i: int| 0 <= i < ps.len() && movable_spec(ps, i) && piece_moves_spec(ps, i, m);
    if ps[i].piece_type == PieceType::Mosquito {
        let j = choose|j: int|
            0 <= j < ps.len() && j != i && lateral_adjacent(ps[i].hex, (#[trigger] ps[j]).hex)
                && ps[j].piece_type != PieceType::Mosquito && type_move(ps, i, ps[j].piece_type, m);
        lemma_type_move_movable(ps, i, ps[j].piece_type, m);
    } else {
        lemma_type_move_movable(ps, i, ps[i].piece_type, m);
    }
}

/// Destination rule for one archetype's moves: a slide-style destination
/// touches a placed piece other than the moving one, and a Beetle climb
/// destination sits directly on top of a hex occupied by another piece.
proof fn lemma_type_move_destination(ps: Seq<Piece>, i: int, t: PieceType, m: PieceMove)
    requires
        0 <= i < ps.len(),
        pieces_placed_ok(ps),
        distinct_hexes(ps),
        ps.len() <= MAX_PIECES,
        type_move(ps, i, t, m),
    ensures
        hive_adjacent_other(ps, m.piece_node as int, m.hex) || (exists|w: int|
            0 <= w < ps.len() && w != m.piece_node && (#[trigger] ps[w]).hex == step_hex(
                m.hex,
                HexEdge::B,
            )),
{
    match t {
        PieceType::QueenBee => {},
        PieceType::Spider => {},
        PieceType::Ant => {
            let k = choose|k: nat|
                k >= 1 && walk_path(ps, Option::Some(i), ps[i].hex, m.hex, k);
            assert(walk_path(ps, Option::Some(i), ps[i].hex, m.hex, k));
            assert(crate::walk::walk_ok(ps, Option::Some(i), m.hex));
            let j = choose|j: int|
                0 <= j < ps.len() && crate::walk::allowed_support(Option::Some(i), j)
                    && lateral_adjacent((#[trigger] ps[j]).hex, m.hex);
            assert(hive_adjacent_other(ps, i, m.hex));
        },
        PieceType::Beetle => {
            let d = choose|d: HexEdge|
                lateral(d) && ((m.hex == step_hex(ps[i].hex, d) && crate::moves::can_slide_spec(
                    ps,
                    ps[i].hex,
                    d,
                ) && hive_adjacent_other(ps, i, m.hex)) || (occupied(ps, step_hex(ps[i].hex, d))
                    && m.hex == step_hex(step_hex(ps[i].hex, d), HexEdge::T) && !occupied(
                    ps,
                    m.hex,
                )));
            if !(m.hex == step_hex(ps[i].hex, d) && crate::moves::can_slide_spec(ps, ps[i].hex, d)
                && hive_adjacent_other(ps, i, m.hex)) {
                let nb = step_hex(ps[i].hex, d);
                let w = choose|w: int| 0 <= w < ps.len() && (#[trigger] ps[w]).hex == nb;
                assert(crate::hex::hex_in_bounds(nb));
                assert(step_hex(m.hex, HexEdge::B) == nb);
                assert(w != i) by {
                    if w == i {
                        assert(ps[i].hex == nb);
                        assert(crate::walk::step_hex(ps[i].hex, d) != ps[i].hex) by {
                            crate::walk::lemma_step_hex_is_step(ps[i].hex, d)
                        }
                    }
                }
            }
        },
        PieceType::Grasshopper => {
            let (d, k): (HexEdge, nat) = choose|d: HexEdge, k: nat|
                lateral(d) && k >= 2 && m.hex == line_hex(ps[i].hex, d, k) && !occupied(ps, m.hex)
                    && (forall|j: nat| 1 <= j < k ==> occupied(ps, line_hex(ps[i].hex, d, j)));
            lemma_line_props(ps, ps[i].hex, d, k);
            let prev = line_hex(ps[i].hex, d, (k - 1) as nat);
            assert(occupied(ps, prev));
            let w = choose|w: int| 0 <= w < ps.len() && ps[w].hex == prev;
            assert(lateral_adjacent(ps[w].hex, m.hex));
            assert(w != i) by {
                if w == i {
                    assert(ps[i].hex == prev);
                    assert(ps[i].hex != prev);
                }
            }
            assert(hive_adjacent_other(ps, i, m.hex));
        },
        PieceType::Ladybug => {
            let (a, b): (int, int) = choose|a: int, b: int|
                #![trigger ps[a], ps[b]]
                ladybug_hop(ps, i, a, b) && lateral_adjacent(ps[b].hex, m.hex) && !occupied(
                    ps,
                    m.hex,
                );
            assert(hive_adjacent_other(ps, i, m.hex));
        },
        PieceType::Pillbug => {
            if !(m.piece_node == i && queen_dest(ps, i, m.hex)) {
                assert(pillbug_throw(ps, i, m.piece_node as int, m.hex));
                assert(hive_adjacent_other(ps, m.piece_node as int, m.hex));
            }
        },
        PieceType::Mosquito => {
            assert(false);
        },
    }
}

/// The connected-destination law: every destination of every legal move is
/// laterally adjacent to a placed piece other than the moving one, except a
/// Beetle climb destination, which instead sits directly on top of a hex
/// occupied by another piece (its own distinct rule). Pillbug throw
/// destinations obey their own rule through the pillbug itself, which is
/// another piece.
pub proof fn lemma_connected_destination(ps: Seq<Piece>, i: int, m: PieceMove)
    requires
        0 <= i < ps.len(),
        pieces_placed_ok(ps),
        distinct_hexes(ps),
        ps.len() <= MAX_PIECES,
        piece_moves_spec(ps, i, m),
    ensures
        hive_adjacent_other(ps, m.piece_node as int, m.hex) || (exists|w: int|
            0 <= w < ps.len() && w != m.piece_node && (#[trigger] ps[w]).hex == step_hex(
                m.hex,
                HexEdge::B,
            )),
{
    if ps[i].piece_type == PieceType::Mosquito {
        let j = choose|j: int|
            0 <= j < ps.len() && j != i && lateral_adjacent(ps[i].hex, (#[trigger] ps[j]).hex)
                && ps[j].piece_type != PieceType::Mosquito && type_move(ps, i, ps[j].piece_type, m);
        lemma_type_move_destination(ps, i, ps[j].piece_type, m);
    } else {
        lemma_type_move_destination(ps, i, ps[i].piece_type, m);
    }
}

/// The Spider distance law: the minimum slide distance between a Spider's
/// hex and any of its legal destinations is exactly three. By the contract
/// of `Game::slide_distance`, whose result satisfies the two walk
/// hypotheses below, that call returns 3 for every legal Spider
/// destination, and no destination at distance 1, 2 or 4 and beyond is ever
/// produced.
pub proof fn lemma_spider_distance(ps: Seq<Piece>, i: int, h: Hex, n: nat)
    requires
        0 <= i < ps.len(),
        spider_dest(ps, i, h),
        n >= 1,
        walk_path(ps, Option::None, ps[i].hex, h, n),
        !walk_reach_in(ps, Option::None, ps[i].hex, h, (n - 1) as nat),
    ensures
        n == 3,
{
    if n < 3 {
        assert(walk_reach_in(ps, Option::None, ps[i].hex, h, 2));
        assert(false);
    }
    if n > 3 {
        assert(walk_path(ps, Option::None, ps[i].hex, h, 3));
        assert(walk_reach_in(ps, Option::None, ps[i].hex, h, (n - 1) as nat));
        assert(false);
    }
}

/// A board's geometric adjacency pins the edge multiset down completely:
/// two edge multisets that both mirror the same pieces are equal. With the
/// contract of `Game::update_piece_edges`, whose result always mirrors the
/// board, repeating that call can never add duplicate edges: the graph
/// keeps exactly one pair of opposite directed edges per adjacent pair of
/// pieces.
pub proof fn lemma_edges_mirror_unique(
    es1: Multiset<(int, int, int)>,
    es2: Multiset<(int, int, int)>,
    ps: Seq<Piece>,
)
    requires
        edges_mirror(es1, ps),
        edges_mirror(es2, ps),
    ensures
        es1 == es2,
{
    assert forall|p: (int, int, int)| #[trigger] es1.count(p) == es2.count(p) by {
        assert(es1.count((p.0, p.1, p.2)) == es2.count((p.0, p.1, p.2)));
        assert(p == (p.0, p.1, p.2));
    }
    assert(es1 =~= es2);
}

/// A well-formed board meets the entry conditions of
/// `Game::update_piece_edges` for any of its slots, so the rebuild may be
/// repeated at will.
pub proof fn lemma_mirror_is_partial(es: Multiset<(int, int, int)>, ps: Seq<Piece>, i: int)
    requires
        0 <= i < ps.len(),
        edges_mirror(es, ps),
    ensures
        edges_mirror_except(es, ps, i),
        node_edges_partial(es, ps, i),
{
    assert forall|w: int| #[trigger] es.count((i, i, w)) == 0 by {
        assert(!slot_adjacent(ps, i, i));
    }
    assert forall|j: int|
        j != i implies (#[trigger] pair_absent(es, i, j) || pair_complete(es, ps, i, j)) by {
        if slot_adjacent(ps, i, j) {
            lemma_hex_adjacent_symmetric(ps[i].hex, ps[j].hex);
            assert(slot_adjacent(ps, j, i));
            assert(pair_complete(es, ps, i, j)) by {
                assert(forall|w: int|
                    #[trigger] es.count((i, j, w)) == if w == adj_label(ps[i].hex, ps[j].hex) {
                        1nat
                    } else {
                        0nat
                    });
                assert(forall|w: int|
                    #[trigger] es.count((j, i, w)) == if w == adj_label(ps[j].hex, ps[i].hex) {
                        1nat
                    } else {
                        0nat
                    });
            }
        } else {
            assert(!slot_adjacent(ps, j, i)) by {
                if slot_adjacent(ps, j, i) {
                    lemma_hex_adjacent_symmetric(ps[j].hex, ps[i].hex);
                }
            }
            assert(pair_absent(es, i, j)) by {
                assert(forall|w: int|
                    #![trigger es.count((i, j, w))]
                    #![trigger es.count((j, i, w))]
                    es.count((i, j, w)) == 0 && es.count((j, i, w)) == 0);
            }
        }
    }
}

/// Edge labeling: between adjacent pieces the graph holds exactly one
/// forward edge, labeled with the direction that steps from the source
/// piece's hex to the target's, one reverse edge labeled with the opposite
/// direction, and no edge under any other label.
pub proof fn lemma_edges_labeled(
    es: Multiset<(int, int, int)>,
    ps: Seq<Piece>,
    x: int,
    y: int,
    d: HexEdge,
)
    requires
        edges_mirror(es, ps),
        slot_adjacent(ps, x, y),
        is_step(ps[x].hex, ps[y].hex, d),
    ensures
        es.count((x, y, edge_index(d))) == 1,
        es.count((y, x, edge_index(opposite(d)))) == 1,
        forall|w: int| w != edge_index(d) ==> #[trigger] es.count((x, y, w)) == 0,
{
    lemma_step_dir_unique(ps[x].hex, ps[y].hex, d);
    crate::hex::lemma_step_opposite(ps[x].hex, ps[y].hex, d);
    lemma_step_dir_unique(ps[y].hex, ps[x].hex, opposite(d));
    lemma_hex_adjacent_symmetric(ps[x].hex, ps[y].hex);
    assert(slot_adjacent(ps, y, x));
}

/// Applying a legal move keeps the hive in one piece: the board that
/// `Game::make_move` produces for a move of the legal-move set — the
/// remaining pieces after the swap removal of the mover, with the mover
/// re-appended at the destination — is again one connected component.
pub proof fn lemma_one_hive_preserved(ps: Seq<Piece>, i: int, m: PieceMove)
    requires
        0 <= i < ps.len(),
        pieces_placed_ok(ps),
        distinct_hexes(ps),
        ps.len() <= MAX_PIECES,
        hex_in_bounds(m.hex),
        movable_spec(ps, i),
        piece_moves_spec(ps, i, m),
    ensures
        board_connected(
            swap_removed(ps, m.piece_node as int).push(placed_at(ps[m.piece_node as int], m.hex)),
        ),
{
    lemma_one_hive_gate(ps, m);
    let j = m.piece_node as int;
    let rem = swap_removed(ps, j);
    let p = placed_at(ps[j], m.hex);
    let fin = rem.push(p);
    let n = ps.len() as int;
    if n == 1 {
        assert(rem.len() == 0);
        assert forall|x: int| 0 <= x < fin.len() implies slots_reach(fin, 0, x) by {
            assert(slots_reach_within(fin, 0, 0, 0));
        }
    } else {
        assert(board_connected(rem));
        lemma_connected_destination(ps, i, m);
        assert(exists|t2: int|
            0 <= t2 < rem.len() && hex_adjacent((#[trigger] rem[t2]).hex, m.hex)) by {
            if hive_adjacent_other(ps, j, m.hex) {
                let t = choose|t: int|
                    0 <= t < ps.len() && t != j && lateral_adjacent((#[trigger] ps[t]).hex, m.hex);
                let t2 = if t == n - 1 {
                    j
                } else {
                    t
                };
                assert(rem[t2] == ps[t]);
                assert(hex_adjacent(rem[t2].hex, m.hex)) by {
                    let d = choose|d: HexEdge| lateral(d) && is_step(ps[t].hex, m.hex, d);
                    assert(is_step(rem[t2].hex, m.hex, d));
                }
            } else {
                let w = choose|w: int|
                    0 <= w < ps.len() && w != j && (#[trigger] ps[w]).hex == crate::walk::step_hex(
                        m.hex,
                        HexEdge::B,
                    );
                let t2 = if w == n - 1 {
                    j
                } else {
                    w
                };
                assert(rem[t2] == ps[w]);
                assert(is_step(m.hex, ps[w].hex, HexEdge::B));
                lemma_step_opposite(m.hex, ps[w].hex, HexEdge::B);
                assert(is_step(ps[w].hex, m.hex, HexEdge::T));
                assert(hex_adjacent(rem[t2].hex, m.hex));
            }
        }
        let t2 = choose|t2: int|
            0 <= t2 < rem.len() && hex_adjacent((#[trigger] rem[t2]).hex, m.hex);
        assert forall|x: int| 0 <= x < fin.len() implies slots_reach(fin, 0, x) by {
            if x < rem.len() {
                assert(slots_reach(rem, 0, x));
                let k = choose|k: nat| slots_reach_within(rem, 0, x, k);
                lemma_reach_push(rem, p, 0, x, k);
                assert(slots_reach_within(fin, 0, x, k));
            } else {
                assert(x == fin.len() - 1);
                assert(slots_reach(rem, 0, t2));
                let k = choose|k: nat| slots_reach_within(rem, 0, t2, k);
                lemma_reach_push(rem, p, 0, t2, k);
                assert(slot_adjacent(fin, t2, x)) by {
                    assert(fin[t2] == rem[t2] && fin[x] == p);
                    assert(p.hex == m.hex);
                }
                lemma_reach_extend(fin, 0, t2, x, k);
                assert(slots_reach_within(fin, 0, x, (k + 1) as nat));
            }
        }
    }
}

} // verus!
