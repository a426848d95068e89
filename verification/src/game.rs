//! The board: placed pieces, the two hands, the applied-move list, and the
//! derived adjacency graph, which always mirrors the geometric adjacency of
//! the placed pieces.

use vstd::prelude::*;
use vstd::multiset::Multiset;
use crate::hex::{
    Hex, HexEdge, hex_adjacent, lateral_adjacent, hex_in_bounds, is_step, edge_order, edge_index,
    opposite, get_edge_types, lemma_in_bounds_step_safe, lemma_step_opposite,
};
use crate::piece::{Piece, PieceColor, PieceType};
use crate::piece_move::PieceMove;
use crate::adjacency::{
    AdjacencyGraph, graph_nodes, graph_edges, graph_new, graph_add_node, graph_add_edge,
    graph_contains_edge, graph_edge_count, graph_remove_node, edge_connects,
};

verus! {

/// Generous cap on how many pieces a board may hold; it keeps every index
/// and count comfortably inside machine integers.
pub const MAX_PIECES: usize = 0x100_0000;

/// Some placed piece occupies hex `h` (all four coordinates equal).
pub open spec fn occupied(ps: Seq<Piece>, h: Hex) -> bool {
    exists|i: int| 0 <= i < ps.len() && ps[i].hex == h
}

/// Hex `h` is laterally adjacent to the hex of some placed piece.
pub open spec fn hive_adjacent(ps: Seq<Piece>, h: Hex) -> bool {
    exists|j: int| 0 <= j < ps.len() && lateral_adjacent(ps[j].hex, h)
}

/// Hex `h` is laterally adjacent to the hex of some placed piece other than
/// the one in slot `excl`.
pub open spec fn hive_adjacent_other(ps: Seq<Piece>, excl: int, h: Hex) -> bool {
    exists|j: int| 0 <= j < ps.len() && j != excl && lateral_adjacent(ps[j].hex, h)
}

/// The pieces in slots `x` and `y` occupy adjacent hexes (any of the eight
/// directions).
pub open spec fn slot_adjacent(ps: Seq<Piece>, x: int, y: int) -> bool {
    &&& 0 <= x < ps.len()
    &&& 0 <= y < ps.len()
    &&& x != y
    &&& hex_adjacent(ps[x].hex, ps[y].hex)
}

/// The direction that steps from `a` to its neighbor `b`; meaningful only
/// when the two hexes are adjacent, and then unique.
pub open spec fn step_dir(a: Hex, b: Hex) -> HexEdge {
    choose|d: HexEdge| is_step(a, b, d)
}

/// The numeric label carried by the edge from `a` to its neighbor `b`: the
/// index of the direction stepping from `a` to `b`.
pub open spec fn adj_label(a: Hex, b: Hex) -> int {
    edge_index(step_dir(a, b))
}

/// A step direction is unique, so it determines the edge label.
pub proof fn lemma_step_dir_unique(a: Hex, b: Hex, d: HexEdge)
    requires
        is_step(a, b, d),
    ensures
        step_dir(a, b) == d,
        adj_label(a, b) == edge_index(d),
{
    assert(is_step(a, b, step_dir(a, b)));
}

/// The edge multiset holds exactly one edge in each orientation for every
/// pair of adjacent placed pieces, labeled with the direction from its
/// source to its target, and nothing else.
pub open spec fn edges_mirror(es: Multiset<(int, int, int)>, ps: Seq<Piece>) -> bool {
    forall|x: int, y: int, w: int|
        #[trigger] es.count((x, y, w)) == if slot_adjacent(ps, x, y) && w == adj_label(
            ps[x].hex,
            ps[y].hex,
        ) {
            1nat
        } else {
            0nat
        }
}

/// As `edges_mirror`, but saying nothing about pairs that involve slot `i`.
pub open spec fn edges_mirror_except(es: Multiset<(int, int, int)>, ps: Seq<Piece>, i: int) -> bool {
    forall|x: int, y: int, w: int|
        x != i && y != i ==> #[trigger] es.count((x, y, w)) == if slot_adjacent(ps, x, y) && w
            == adj_label(ps[x].hex, ps[y].hex) {
            1nat
        } else {
            0nat
        }
}

/// No edge joins slots `i` and `j`, in either orientation, under any label.
pub open spec fn pair_absent(es: Multiset<(int, int, int)>, i: int, j: int) -> bool {
    forall|w: int|
        #![trigger es.count((i, j, w))]
        #![trigger es.count((j, i, w))]
        es.count((i, j, w)) == 0 && es.count((j, i, w)) == 0
}

/// Slots `i` and `j` are adjacent and joined by exactly one edge in each
/// orientation, each labeled with its own direction.
pub open spec fn pair_complete(es: Multiset<(int, int, int)>, ps: Seq<Piece>, i: int, j: int) -> bool {
    &&& slot_adjacent(ps, i, j)
    &&& forall|w: int|
        #[trigger] es.count((i, j, w)) == if w == adj_label(ps[i].hex, ps[j].hex) {
            1nat
        } else {
            0nat
        }
    &&& forall|w: int|
        #[trigger] es.count((j, i, w)) == if w == adj_label(ps[j].hex, ps[i].hex) {
            1nat
        } else {
            0nat
        }
}

/// Every pair joining slot `i` to a partner `j` is either absent or
/// complete, and there is no self loop at `i`.
pub open spec fn node_edges_partial(es: Multiset<(int, int, int)>, ps: Seq<Piece>, i: int) -> bool {
    &&& forall|w: int| #[trigger] es.count((i, i, w)) == 0
    &&& forall|j: int|
        #![trigger pair_absent(es, i, j)]
        j != i ==> (pair_absent(es, i, j) || pair_complete(es, ps, i, j))
}

/// Every placed piece sits within the coordinate bound and is marked placed.
pub open spec fn pieces_placed_ok(ps: Seq<Piece>) -> bool {
    forall|i: int|
        0 <= i < ps.len() ==> hex_in_bounds((#[trigger] ps[i]).hex) && !ps[i].in_hand
}

/// No two placed pieces share a hex.
pub open spec fn distinct_hexes(ps: Seq<Piece>) -> bool {
    forall|i: int, j: int|
        0 <= i < j < ps.len() ==> (#[trigger] ps[i]).hex != (#[trigger] ps[j]).hex
}

/// No two placed pieces share an id.
pub open spec fn distinct_ids(ps: Seq<Piece>) -> bool {
    forall|i: int, j: int|
        0 <= i < j < ps.len() ==> (#[trigger] ps[i]).id@ != (#[trigger] ps[j]).id@
}

/// Pieces compare equal for hand removal when they agree on color and type.
pub open spec fn piece_matches(p: Piece, q: Piece) -> bool {
    p.color == q.color && p.piece_type == q.piece_type
}

/// Index of the first piece in `hand` matching `q` by color and type, or -1.
pub open spec fn first_match_idx(hand: Seq<Piece>, q: Piece) -> int
    decreases hand.len(),
{
    if hand.len() == 0 {
        -1
    } else if piece_matches(hand[0], q) {
        0
    } else {
        let rest = first_match_idx(hand.drop_first(), q);
        if rest < 0 {
            -1
        } else {
            rest + 1
        }
    }
}

/// `hand` with its first match for `q` removed, or unchanged if none matches.
pub open spec fn remove_first_match(hand: Seq<Piece>, q: Piece) -> Seq<Piece> {
    if first_match_idx(hand, q) >= 0 {
        hand.remove(first_match_idx(hand, q))
    } else {
        hand
    }
}

/// The piece `p` as it stands once placed on hex `h`.
pub open spec fn placed_at(p: Piece, h: Hex) -> Piece {
    (Piece { hex: h, in_hand: false, ..p })
}

/// The placed-piece sequence after the swap removal of slot `i`: the last
/// piece adopts slot `i`.
pub open spec fn swap_removed(ps: Seq<Piece>, i: int) -> Seq<Piece> {
    ps.update(i, ps.last()).drop_last()
}

/// A failed move application.
#[derive(Debug, PartialEq, Eq, Clone, Copy, Structural)]
pub enum MoveError {
    PieceNotFound,
}

/// The authoritative game state.
#[derive(Debug)]
pub struct Game {
    pub grid: AdjacencyGraph,
    pub placed: Vec<Piece>,
    pub p1_hand: Vec<Piece>,
    pub p2_hand: Vec<Piece>,
    pub move_list: Vec<PieceMove>,
}

impl Game {
    /// Well-formedness: the graph has one node per placed piece, every
    /// placed piece is in bounds, marked placed, and unique in hex and id,
    /// and the edges exactly mirror geometric adjacency, each labeled with
    /// its own direction.
    pub open spec fn wf(self) -> bool {
        &&& self.placed@.len() == graph_nodes(self.grid).len()
        &&& self.placed@.len() <= MAX_PIECES
        &&& pieces_placed_ok(self.placed@)
        &&& distinct_hexes(self.placed@)
        &&& distinct_ids(self.placed@)
        &&& edges_mirror(graph_edges(self.grid), self.placed@)
    }

    /// A fresh game: empty board, full hands (player 1 plays Black, player 2
    /// White, as the starting hands are dealt), no moves applied.
    pub fn new() -> (g: Game)
        ensures
            g.wf(),
            g.placed@.len() == 0,
            g.move_list@.len() == 0,
            g.p1_hand@.len() == 14,
            g.p2_hand@.len() == 14,
            forall|k: int|
                0 <= k < 14 ==> (#[trigger] g.p1_hand@[k]).color == PieceColor::Black
                    && g.p1_hand@[k].piece_type == starting_piece_type(k)
                    && g.p1_hand@[k].in_hand && g.p1_hand@[k].hex == (Hex {
                    q: 0,
                    r: 0,
                    s: 0,
                    z: isize::MAX,
                }) && g.p1_hand@[k].id@ == seq![
                    crate::piece::color_prefix(PieceColor::Black),
                ] + starting_suffix(k),
            forall|k: int|
                0 <= k < 14 ==> (#[trigger] g.p2_hand@[k]).color == PieceColor::White
                    && g.p2_hand@[k].piece_type == starting_piece_type(k)
                    && g.p2_hand@[k].in_hand && g.p2_hand@[k].hex == (Hex {
                    q: 0,
                    r: 0,
                    s: 0,
                    z: isize::MAX,
                }) && g.p2_hand@[k].id@ == seq![
                    crate::piece::color_prefix(PieceColor::White),
                ] + starting_suffix(k),
    {
        Game {
            grid: graph_new(),
            placed: Vec::new(),
            p1_hand: get_starting_hand(PieceColor::Black),
            p2_hand: get_starting_hand(PieceColor::White),
            move_list: Vec::new(),
        }
    }

    /// True iff some placed piece has `hex` among its lateral neighbors, so
    /// a walk may pass through `hex` along the hive perimeter.
    pub fn hex_connects(&self, hex: Hex) -> (r: bool)
        requires
            self.wf(),
        ensures
            r == hive_adjacent(self.placed@, hex),
    {
        let n = self.placed.len();
        let mut j: usize = 0;
        while j < n
            invariant
                n == self.placed@.len(),
                self.wf(),
                j <= n,
                forall|k: int| 0 <= k < j ==> !lateral_adjacent((#[trigger] self.placed@[k]).hex, hex),
            decreases n - j,
        {
            proof {
                lemma_in_bounds_step_safe(self.placed@[j as int].hex);
            }
            let nbs = self.placed[j].hex.get_slide_neighbors();
            if hexes_contain(&nbs, hex) {
                return true;
            }
            j += 1;
        }
        false
    }

    /// The number of edges currently recorded in the adjacency graph; a
    /// well-formed board has exactly two (one per orientation) for every
    /// adjacent pair of pieces.
    pub fn edge_count(&self) -> (r: usize)
        ensures
            r == graph_edges(self.grid).len(),
    {
        graph_edge_count(&self.grid)
    }

    /// Grid (cube) distance between two hexes on the same level:
    /// half the sum of the absolute coordinate differences.
    pub fn grid_distance(&self, start: Hex, end: Hex) -> (r: usize)
        requires
            hex_in_bounds(start),
            hex_in_bounds(end),
        ensures
            r == (abs_int(start.q as int - end.q as int) + abs_int(start.r as int - end.r as int)
                + abs_int(start.s as int - end.s as int)) / 2,
    {
        let dq = abs_diff_isize(start.q, end.q);
        let dr = abs_diff_isize(start.r, end.r);
        let ds = abs_diff_isize(start.s, end.s);
        (dq + dr + ds) / 2
    }

    /// Place `piece` on `hex`: remove its first color-and-type match from
    /// each hand (silently doing nothing if a hand has none), mark it
    /// placed, append it to the board, and rebuild its adjacency edges.
    /// Returns the new slot, which is also the new graph node index.
    pub fn add_to_grid(&mut self, piece: Piece, hex: Hex) -> (r: usize)
        requires
            old(self).wf(),
            hex_in_bounds(hex),
            !occupied(old(self).placed@, hex),
            forall|i: int|
                0 <= i < old(self).placed@.len() ==> (#[trigger] old(self).placed@[i]).id@
                    != piece.id@,
            old(self).placed@.len() < MAX_PIECES,
        ensures
            final(self).wf(),
            r == old(self).placed@.len(),
            final(self).placed@ == old(self).placed@.push(placed_at(piece, hex)),
            final(self).p1_hand@ == remove_first_match(old(self).p1_hand@, piece),
            final(self).p2_hand@ == remove_first_match(old(self).p2_hand@, piece),
            final(self).move_list == old(self).move_list,
    {
        remove_from_hand(&mut self.p1_hand, &piece);
        remove_from_hand(&mut self.p2_hand, &piece);

        let mut piece = piece;
        piece.in_hand = false;
        piece.hex = hex;

        let ghost prev = self.placed@;
        self.placed.push(piece);
        let idx = self.placed.len() - 1;
        let node = graph_add_node(&mut self.grid, idx as u64);
        proof {
            assert forall|x: int, y: int, w: int|
                x != idx && y != idx implies #[trigger] graph_edges(self.grid).count((x, y, w))
                == if slot_adjacent(self.placed@, x, y) && w == adj_label(
                    self.placed@[x].hex,
                    self.placed@[y].hex,
                ) {
                    1nat
                } else {
                    0nat
                } by {
                assert(graph_edges(self.grid).count((x, y, w)) == if slot_adjacent(prev, x, y)
                    && w == adj_label(prev[x].hex, prev[y].hex) {
                    1nat
                } else {
                    0nat
                });
                assert(slot_adjacent(prev, x, y) == slot_adjacent(self.placed@, x, y));
                if slot_adjacent(prev, x, y) {
                    assert(prev[x] == self.placed@[x] && prev[y] == self.placed@[y]);
                }
            }
            assert(node_edges_partial(graph_edges(self.grid), self.placed@, idx as int)) by {
                assert forall|w: int| #[trigger] graph_edges(self.grid).count(
                    (idx as int, idx as int, w),
                ) == 0 by {
                    assert(!slot_adjacent(prev, idx as int, idx as int));
                }
                assert forall|j: int| j != idx as int implies pair_absent(
                    graph_edges(self.grid),
                    idx as int,
                    j,
                ) || pair_complete(graph_edges(self.grid), self.placed@, idx as int, j) by {
                    assert(pair_absent(graph_edges(self.grid), idx as int, j)) by {
                        assert forall|w: int|
                            #![trigger graph_edges(self.grid).count((idx as int, j, w))]
                            #![trigger graph_edges(self.grid).count((j, idx as int, w))]
                            graph_edges(self.grid).count((idx as int, j, w)) == 0 && graph_edges(
                                self.grid,
                            ).count((j, idx as int, w)) == 0 by {
                            assert(!slot_adjacent(prev, idx as int, j));
                            assert(!slot_adjacent(prev, j, idx as int));
                        }
                    }
                }
            }
        }
        self.update_piece_edges(idx);
        idx
    }

    /// For each of the eight directions, find the piece (if any) on the
    /// neighboring hex of slot `piece`'s hex and record the pair of opposite
    /// directed edges joining them — the forward edge labeled with that
    /// direction, the reverse edge with its opposite — unless the pair is
    /// already recorded. Idempotent: a second call changes nothing.
    pub fn update_piece_edges(&mut self, piece: usize)
        requires
            piece < old(self).placed@.len(),
            old(self).placed@.len() == graph_nodes(old(self).grid).len(),
            old(self).placed@.len() <= MAX_PIECES,
            pieces_placed_ok(old(self).placed@),
            distinct_hexes(old(self).placed@),
            edges_mirror_except(graph_edges(old(self).grid), old(self).placed@, piece as int),
            node_edges_partial(graph_edges(old(self).grid), old(self).placed@, piece as int),
        ensures
            final(self).placed == old(self).placed,
            final(self).p1_hand == old(self).p1_hand,
            final(self).p2_hand == old(self).p2_hand,
            final(self).move_list == old(self).move_list,
            graph_nodes(final(self).grid) == graph_nodes(old(self).grid),
            edges_mirror(graph_edges(final(self).grid), final(self).placed@),
    {
        let ghost ps = old(self).placed@;
        let ghost i = piece as int;
        let h = self.placed[piece].hex;
        let dirs = get_edge_types();
        let mut di: usize = 0;
        while di < 8
            invariant
                di <= 8,
                piece < ps.len(),
                h == ps[i as int].hex,
                i == piece as int,
                dirs@ == edge_order(),
                self.placed == old(self).placed,
                self.p1_hand == old(self).p1_hand,
                self.p2_hand == old(self).p2_hand,
                self.move_list == old(self).move_list,
                ps == self.placed@,
                ps.len() == graph_nodes(self.grid).len(),
                ps.len() <= MAX_PIECES,
                pieces_placed_ok(ps),
                distinct_hexes(ps),
                graph_nodes(self.grid) == graph_nodes(old(self).grid),
                edges_mirror_except(graph_edges(self.grid), ps, i),
                node_edges_partial(graph_edges(self.grid), ps, i),
                forall|j: int|
                    0 <= j < ps.len() && j != i && (exists|k: int|
                        0 <= k < di && is_step(h, (#[trigger] ps[j]).hex, edge_order()[k]))
                        ==> pair_complete(graph_edges(self.grid), ps, i, j),
            decreases 8 - di,
        {
            let ghost es0 = graph_edges(self.grid);
            proof {
                lemma_in_bounds_step_safe(h);
            }
            let nb = h.get_neighbor(dirs[di]);
            let found = find_piece_at(&self.placed, nb);
            if let Some(fj) = found {
                let ghost d = edge_order()[di as int];
                proof {
                    assert(ps[fj as int].hex == nb);
                    assert(fj as int != i) by {
                        assert(is_step(h, nb, d));
                        assert(nb.q != h.q || nb.r != h.r || nb.s != h.s || nb.z != h.z);
                    }
                    assert(slot_adjacent(ps, i, fj as int)) by {
                        assert(is_step(ps[i as int].hex, ps[fj as int].hex, d));
                    }
                    lemma_step_dir_unique(ps[i as int].hex, ps[fj as int].hex, d);
                    lemma_step_opposite(ps[i as int].hex, ps[fj as int].hex, d);
                    lemma_step_dir_unique(ps[fj as int].hex, ps[i as int].hex, opposite(d));
                    crate::hex::lemma_hex_adjacent_symmetric(ps[i as int].hex, ps[fj as int].hex);
                    assert(slot_adjacent(ps, fj as int, i));
                }
                if !graph_contains_edge(&self.grid, piece, fj) {
                    proof {
                        assert(pair_absent(es0, i, fj as int)) by {
                            assert forall|w: int|
                                #![trigger es0.count((i, fj as int, w))]
                                #![trigger es0.count((fj as int, i, w))]
                                es0.count((i, fj as int, w)) == 0 && es0.count((fj as int, i, w))
                                    == 0 by {
                                if es0.count((i, fj as int, w)) > 0 || es0.count(
                                    (fj as int, i, w),
                                ) > 0 {
                                    assert(edge_connects(es0, i, fj as int));
                                    assert(false);
                                }
                            }
                        }
                    }
                    let fwd = edge_code(dirs[di]);
                    graph_add_edge(&mut self.grid, piece, fj, fwd);
                    let op = dirs[di].get_opposite();
                    graph_add_edge(&mut self.grid, fj, piece, edge_code(op));
                    proof {
                        let mid = es0.insert((i, fj as int, edge_index(d)));
                        let after = mid.insert((fj as int, i, edge_index(opposite(d))));
                        assert(graph_edges(self.grid) == after);
                        assert(pair_complete(after, ps, i, fj as int)) by {
                            assert forall|w: int| #[trigger] after.count((i, fj as int, w)) == if w
                                == adj_label(ps[i as int].hex, ps[fj as int].hex) {
                                1nat
                            } else {
                                0nat
                            } by {
                                assert(es0.count((i, fj as int, w)) == 0);
                            }
                            assert forall|w: int| #[trigger] after.count((fj as int, i, w)) == if w
                                == adj_label(ps[fj as int].hex, ps[i as int].hex) {
                                1nat
                            } else {
                                0nat
                            } by {
                                assert(es0.count((fj as int, i, w)) == 0);
                            }
                        }
                        assert forall|x: int, y: int, w: int|
                            x != i && y != i implies #[trigger] after.count((x, y, w)) == if
                        slot_adjacent(ps, x, y) && w == adj_label(ps[x].hex, ps[y].hex) {
                            1nat
                        } else {
                            0nat
                        } by {
                            assert(after.count((x, y, w)) == es0.count((x, y, w)));
                        }
                        assert forall|w: int| #[trigger] after.count((i, i, w)) == 0 by {
                            assert(es0.count((i, i, w)) == 0);
                        }
                        assert forall|j: int|
                            j != i && j != fj as int && pair_complete(
                                es0,
                                ps,
                                i,
                                j,
                            ) implies #[trigger] pair_complete(after, ps, i, j) by {
                            assert forall|w: int| #[trigger] after.count((i, j, w)) == if w
                                == adj_label(ps[i as int].hex, ps[j].hex) {
                                1nat
                            } else {
                                0nat
                            } by {
                                assert(after.count((i, j, w)) == es0.count((i, j, w)));
                            }
                            assert forall|w: int| #[trigger] after.count((j, i, w)) == if w
                                == adj_label(ps[j].hex, ps[i as int].hex) {
                                1nat
                            } else {
                                0nat
                            } by {
                                assert(after.count((j, i, w)) == es0.count((j, i, w)));
                            }
                        }
                        assert(node_edges_partial(after, ps, i)) by {
                            assert forall|j: int|
                                j != i implies pair_absent(after, i, j) || pair_complete(
                                after,
                                ps,
                                i,
                                j,
                            ) by {
                                if j == fj as int {
                                    assert(pair_complete(after, ps, i, j));
                                } else {
                                    assert(pair_absent(es0, i, j) || pair_complete(es0, ps, i, j));
                                    if pair_absent(es0, i, j) {
                                        assert(pair_absent(after, i, j)) by {
                                            assert forall|w: int|
                                                #![trigger after.count((i, j, w))]
                                                #![trigger after.count((j, i, w))]
                                                after.count((i, j, w)) == 0 && after.count(
                                                    (j, i, w),
                                                ) == 0 by {
                                                assert(es0.count((i, j, w)) == 0 && es0.count(
                                                    (j, i, w),
                                                ) == 0);
                                            }
                                        }
                                    } else {
                                        assert(pair_complete(after, ps, i, j));
                                    }
                                }
                            }
                        }
                    }
                } else {
                    proof {
                        assert(!pair_absent(es0, i, fj as int)) by {
                            let w0 = choose|w: int|
                                es0.count((i, fj as int, w)) > 0 || es0.count((fj as int, i, w))
                                    > 0;
                            assert(es0.count((i, fj as int, w0)) > 0 || es0.count(
                                (fj as int, i, w0),
                            ) > 0);
                        }
                        assert(pair_absent(es0, i, fj as int) || pair_complete(
                            es0,
                            ps,
                            i,
                            fj as int,
                        ));
                        assert(pair_complete(graph_edges(self.grid), ps, i, fj as int));
                    }
                }
            }
            di += 1;
            proof {
                assert forall|j: int|
                    0 <= j < ps.len() && j != i && (exists|k: int|
                        0 <= k < di && is_step(h, (#[trigger] ps[j]).hex, edge_order()[k]))
                        implies pair_complete(graph_edges(self.grid), ps, i, j) by {
                    let k = choose|k: int|
                        0 <= k < di && is_step(h, ps[j].hex, edge_order()[k]);
                    if k < di - 1 {
                        assert(pair_complete(es0, ps, i, j));
                        assert(pair_complete(graph_edges(self.grid), ps, i, j));
                    }
                }
            }
        }
        proof {
            let es = graph_edges(self.grid);
            assert forall|x: int, y: int, w: int|
                #[trigger] es.count((x, y, w)) == if slot_adjacent(ps, x, y) && w == adj_label(
                    ps[x].hex,
                    ps[y].hex,
                ) {
                    1nat
                } else {
                    0nat
                } by {
                if x == i && y != i {
                    if slot_adjacent(ps, i, y) {
                        let d = choose|d: HexEdge| is_step(ps[i as int].hex, ps[y].hex, d);
                        assert(exists|k: int|
                            0 <= k < 8 && is_step(h, ps[y].hex, edge_order()[k])) by {
                            match d {
                                HexEdge::N => assert(edge_order()[0] == d),
                                HexEdge::NE => assert(edge_order()[1] == d),
                                HexEdge::SE => assert(edge_order()[2] == d),
                                HexEdge::S => assert(edge_order()[3] == d),
                                HexEdge::SW => assert(edge_order()[4] == d),
                                HexEdge::NW => assert(edge_order()[5] == d),
                                HexEdge::T => assert(edge_order()[6] == d),
                                HexEdge::B => assert(edge_order()[7] == d),
                            }
                        }
                        assert(pair_complete(es, ps, i, y));
                        assert(es.count((i, y, w)) == if w == adj_label(
                            ps[i as int].hex,
                            ps[y].hex,
                        ) {
                            1nat
                        } else {
                            0nat
                        });
                    } else {
                        assert(pair_absent(es, i, y) || pair_complete(es, ps, i, y));
                        assert(pair_absent(es, i, y));
                        assert(es.count((i, y, w)) == 0);
                    }
                } else if y == i && x != i {
                    if slot_adjacent(ps, x, i) {
                        crate::hex::lemma_hex_adjacent_symmetric(ps[x].hex, ps[i as int].hex);
                        assert(slot_adjacent(ps, i, x));
                        let d = choose|d: HexEdge| is_step(ps[i as int].hex, ps[x].hex, d);
                        assert(exists|k: int|
                            0 <= k < 8 && is_step(h, ps[x].hex, edge_order()[k])) by {
                            match d {
                                HexEdge::N => assert(edge_order()[0] == d),
                                HexEdge::NE => assert(edge_order()[1] == d),
                                HexEdge::SE => assert(edge_order()[2] == d),
                                HexEdge::S => assert(edge_order()[3] == d),
                                HexEdge::SW => assert(edge_order()[4] == d),
                                HexEdge::NW => assert(edge_order()[5] == d),
                                HexEdge::T => assert(edge_order()[6] == d),
                                HexEdge::B => assert(edge_order()[7] == d),
                            }
                        }
                        assert(pair_complete(es, ps, i, x));
                        assert(es.count((x, i, w)) == if w == adj_label(
                            ps[x].hex,
                            ps[i as int].hex,
                        ) {
                            1nat
                        } else {
                            0nat
                        });
                    } else {
                        assert(!slot_adjacent(ps, i, x)) by {
                            if slot_adjacent(ps, i, x) {
                                crate::hex::lemma_hex_adjacent_symmetric(
                                    ps[i as int].hex,
                                    ps[x].hex,
                                );
                                assert(slot_adjacent(ps, x, i));
                            }
                        }
                        assert(pair_absent(es, i, x) || pair_complete(es, ps, i, x));
                        assert(pair_absent(es, i, x));
                        assert(es.count((x, i, w)) == 0);
                    }
                } else if x == i && y == i {
                    assert(es.count((i, i, w)) == 0);
                }
            }
        }
    }

    /// Apply a move: remove the piece's node from the graph (the last slot
    /// adopts its index), then re-add the piece at the destination through
    /// `add_to_grid`, which rebuilds its edges, and record the move. A slot
    /// that does not exist is reported as a failed application.
    pub fn make_move(&mut self, piece_move: PieceMove) -> (r: Result<(), MoveError>)
        requires
            old(self).wf(),
            piece_move.piece_node < old(self).placed@.len() ==> hex_in_bounds(piece_move.hex)
                && (forall|k: int|
                0 <= k < old(self).placed@.len() && k != piece_move.piece_node
                    ==> (#[trigger] old(self).placed@[k]).hex != piece_move.hex),
        ensures
            final(self).wf(),
            piece_move.piece_node >= old(self).placed@.len() ==> r == Result::<(), MoveError>::Err(
                MoveError::PieceNotFound,
            ) && *final(self) == *old(self),
            piece_move.piece_node < old(self).placed@.len() ==> {
                let moved = old(self).placed@[piece_move.piece_node as int];
                &&& r == Result::<(), MoveError>::Ok(())
                &&& final(self).placed@ == swap_removed(
                    old(self).placed@,
                    piece_move.piece_node as int,
                ).push(placed_at(moved, piece_move.hex))
                &&& final(self).p1_hand@ == remove_first_match(old(self).p1_hand@, moved)
                &&& final(self).p2_hand@ == remove_first_match(old(self).p2_hand@, moved)
                &&& final(self).move_list@ == old(self).move_list@.push(piece_move)
            },
    {
        let i = piece_move.piece_node;
        if i >= self.placed.len() {
            return Err(MoveError::PieceNotFound);
        }
        let ghost ps = self.placed@;
        graph_remove_node(&mut self.grid, i);
        let piece = self.placed.swap_remove(i);
        proof {
            let rem = self.placed@;
            assert(rem == swap_removed(ps, i as int));
            assert forall|x: int, y: int, w: int|
                #[trigger] graph_edges(self.grid).count((x, y, w)) == if slot_adjacent(rem, x, y)
                    && w == adj_label(rem[x].hex, rem[y].hex) {
                    1nat
                } else {
                    0nat
                } by {
                let n = ps.len() as int;
                if 0 <= x < n - 1 && 0 <= y < n - 1 {
                    let ox = crate::adjacency::swap_relabel(x, i as int, n - 1);
                    let oy = crate::adjacency::swap_relabel(y, i as int, n - 1);
                    assert(graph_edges(self.grid).count((x, y, w)) == graph_edges(
                        old(self).grid,
                    ).count((ox, oy, w)));
                    assert(rem[x] == ps[ox] && rem[y] == ps[oy]);
                    assert(slot_adjacent(rem, x, y) == slot_adjacent(ps, ox, oy));
                } else {
                    assert(!slot_adjacent(rem, x, y));
                }
            }
            assert(distinct_hexes(self.placed@));
            assert(distinct_ids(self.placed@));
            assert(pieces_placed_ok(self.placed@));
            assert(!occupied(self.placed@, piece_move.hex)) by {
                assert forall|k: int| 0 <= k < self.placed@.len() implies (
                #[trigger] self.placed@[k]).hex != piece_move.hex by {
                    let n = ps.len() as int;
                    let ok = crate::adjacency::swap_relabel(k, i as int, n - 1);
                    assert(self.placed@[k] == ps[ok]);
                }
            }
            assert forall|k: int| 0 <= k < self.placed@.len() implies (
            #[trigger] self.placed@[k]).id@ != piece.id@ by {
                let n = ps.len() as int;
                let ok = crate::adjacency::swap_relabel(k, i as int, n - 1);
                assert(self.placed@[k] == ps[ok]);
                assert(piece == ps[i as int]);
            }
        }
        self.add_to_grid(piece, piece_move.hex);
        self.move_list.push(piece_move);
        proof {
            assert(placed_at(placed_at(ps[i as int], piece_move.hex), piece_move.hex) == placed_at(
                ps[i as int],
                piece_move.hex,
            ));
        }
        Ok(())
    }
}

impl Default for Game {
    /// An empty game state: no pieces placed, empty hands, no moves.
    fn default() -> (g: Game)
        ensures
            g.wf(),
            g.placed@.len() == 0,
            g.p1_hand@.len() == 0,
            g.p2_hand@.len() == 0,
            g.move_list@.len() == 0,
    {
        Game {
            grid: graph_new(),
            placed: Vec::new(),
            p1_hand: Vec::new(),
            p2_hand: Vec::new(),
            move_list: Vec::new(),
        }
    }
}

/// The fourteen starting pieces of one color, in the fixed deal order.
pub open spec fn starting_piece_type(k: int) -> PieceType {
    if k == 0 {
        PieceType::QueenBee
    } else if k <= 2 {
        PieceType::Spider
    } else if k <= 4 {
        PieceType::Beetle
    } else if k <= 7 {
        PieceType::Grasshopper
    } else if k <= 10 {
        PieceType::Ant
    } else if k == 11 {
        PieceType::Mosquito
    } else if k == 12 {
        PieceType::Ladybug
    } else {
        PieceType::Pillbug
    }
}

/// The id suffix of each starting piece, in the fixed deal order.
pub open spec fn starting_suffix(k: int) -> Seq<char> {
    if k == 0 {
        "q"@
    } else if k == 1 {
        "s1"@
    } else if k == 2 {
        "s2"@
    } else if k == 3 {
        "b1"@
    } else if k == 4 {
        "b2"@
    } else if k == 5 {
        "g1"@
    } else if k == 6 {
        "g2"@
    } else if k == 7 {
        "g3"@
    } else if k == 8 {
        "a1"@
    } else if k == 9 {
        "a2"@
    } else if k == 10 {
        "a3"@
    } else if k == 11 {
        "m"@
    } else if k == 12 {
        "l"@
    } else {
        "p"@
    }
}

/// One player's full starting hand: queen, two spiders, two beetles, three
/// grasshoppers, three ants, mosquito, ladybug and pillbug, all in hand.
pub fn get_starting_hand(color: PieceColor) -> (r: Vec<Piece>)
    ensures
        r@.len() == 14,
        forall|k: int|
            0 <= k < 14 ==> (#[trigger] r@[k]).color == color && r@[k].piece_type
                == starting_piece_type(k) && r@[k].in_hand && r@[k].hex == (Hex {
                q: 0,
                r: 0,
                s: 0,
                z: isize::MAX,
            }) && r@[k].id@ == seq![crate::piece::color_prefix(color)] + starting_suffix(k),
{
    let mut v: Vec<Piece> = Vec::new();
    v.push(Piece::new(color, PieceType::QueenBee, "q"));
    v.push(Piece::new(color, PieceType::Spider, "s1"));
    v.push(Piece::new(color, PieceType::Spider, "s2"));
    v.push(Piece::new(color, PieceType::Beetle, "b1"));
    v.push(Piece::new(color, PieceType::Beetle, "b2"));
    v.push(Piece::new(color, PieceType::Grasshopper, "g1"));
    v.push(Piece::new(color, PieceType::Grasshopper, "g2"));
    v.push(Piece::new(color, PieceType::Grasshopper, "g3"));
    v.push(Piece::new(color, PieceType::Ant, "a1"));
    v.push(Piece::new(color, PieceType::Ant, "a2"));
    v.push(Piece::new(color, PieceType::Ant, "a3"));
    v.push(Piece::new(color, PieceType::Mosquito, "m"));
    v.push(Piece::new(color, PieceType::Ladybug, "l"));
    v.push(Piece::new(color, PieceType::Pillbug, "p"));
    v
}

/// True iff `v` holds `h`.
pub fn hexes_contain(v: &Vec<Hex>, h: Hex) -> (r: bool)
    ensures
        r == v@.contains(h),
{
    let mut k: usize = 0;
    while k < v.len()
        invariant
            k <= v@.len(),
            forall|j: int| 0 <= j < k ==> v@[j] != h,
        decreases v@.len() - k,
    {
        if v[k] == h {
            return true;
        }
        k += 1;
    }
    false
}

/// The slot of the piece occupying `h`, if any.
pub fn find_piece_at(placed: &Vec<Piece>, h: Hex) -> (r: Option<usize>)
    ensures
        match r {
            Some(k) => k < placed@.len() && placed@[k as int].hex == h,
            None => !occupied(placed@, h),
        },
{
    let mut k: usize = 0;
    while k < placed.len()
        invariant
            k <= placed@.len(),
            forall|j: int| 0 <= j < k ==> (#[trigger] placed@[j]).hex != h,
        decreases placed@.len() - k,
    {
        if placed[k].hex == h {
            return Some(k);
        }
        k += 1;
    }
    None
}

/// The numeric code stored as the weight of an edge in direction `d`.
fn edge_code(d: HexEdge) -> (r: u8)
    ensures
        r as int == edge_index(d),
{
    match d {
        HexEdge::N => 0,
        HexEdge::NE => 1,
        HexEdge::SE => 2,
        HexEdge::S => 3,
        HexEdge::SW => 4,
        HexEdge::NW => 5,
        HexEdge::T => 6,
        HexEdge::B => 7,
    }
}

/// Absolute value of an integer.
pub open spec fn abs_int(x: int) -> int {
    if x >= 0 {
        x
    } else {
        -x
    }
}

/// |a - b| for bounded coordinates.
fn abs_diff_isize(a: isize, b: isize) -> (r: usize)
    requires
        -crate::hex::HEX_BOUND <= a <= crate::hex::HEX_BOUND,
        -crate::hex::HEX_BOUND <= b <= crate::hex::HEX_BOUND,
    ensures
        r == abs_int(a as int - b as int),
{
    if a >= b {
        (a - b) as usize
    } else {
        (b - a) as usize
    }
}

/// Remove the first piece in `hand` matching `piece` by color and type;
/// leave the hand unchanged when nothing matches.
fn remove_from_hand(hand: &mut Vec<Piece>, piece: &Piece)
    ensures
        final(hand)@ == remove_first_match(old(hand)@, *piece),
{
    match find_hand_match(hand, piece) {
        Some(k) => {
            hand.remove(k);
        },
        None => {},
    }
}

/// The index of the first piece in `hand` matching `piece` by color and
/// type, if any.
fn find_hand_match(hand: &Vec<Piece>, piece: &Piece) -> (r: Option<usize>)
    ensures
        match r {
            Some(k) => first_match_idx(hand@, *piece) == k as int && k < hand@.len(),
            None => first_match_idx(hand@, *piece) == -1,
        },
{
    let mut k: usize = 0;
    while k < hand.len()
        invariant
            k <= hand@.len(),
            forall|j: int| 0 <= j < k ==> !piece_matches(#[trigger] hand@[j], *piece),
        decreases hand@.len() - k,
    {
        if hand[k].color == piece.color && hand[k].piece_type == piece.piece_type {
            proof {
                lemma_first_match_at(hand@, *piece, k as int);
            }
            return Some(k);
        }
        k += 1;
    }
    proof {
        lemma_no_match(hand@, *piece);
    }
    None
}

/// Removing a node by swap removal keeps the edges mirroring the adjacency
/// of the swap-removed piece sequence: relabelled endpoints line up exactly
/// with the piece that adopted the removed slot.
pub proof fn lemma_mirror_after_removal(
    es_old: Multiset<(int, int, int)>,
    es_new: Multiset<(int, int, int)>,
    ps: Seq<Piece>,
    i: int,
)
    requires
        0 <= i < ps.len(),
        edges_mirror(es_old, ps),
        forall|x: int, y: int, w: int|
            #[trigger] es_new.count((x, y, w)) == if 0 <= x < ps.len() - 1 && 0 <= y < ps.len()
                - 1 {
                es_old.count(
                    (
                        crate::adjacency::swap_relabel(x, i, ps.len() - 1),
                        crate::adjacency::swap_relabel(y, i, ps.len() - 1),
                        w,
                    ),
                )
            } else {
                0nat
            },
    ensures
        edges_mirror(es_new, swap_removed(ps, i)),
{
    let rem = swap_removed(ps, i);
    let n = ps.len() as int;
    assert forall|x: int, y: int, w: int|
        #[trigger] es_new.count((x, y, w)) == if slot_adjacent(rem, x, y) && w == adj_label(
            rem[x].hex,
            rem[y].hex,
        ) {
            1nat
        } else {
            0nat
        } by {
        if 0 <= x < n - 1 && 0 <= y < n - 1 {
            let ox = crate::adjacency::swap_relabel(x, i, n - 1);
            let oy = crate::adjacency::swap_relabel(y, i, n - 1);
            assert(es_new.count((x, y, w)) == es_old.count((ox, oy, w)));
            assert(rem[x] == ps[ox] && rem[y] == ps[oy]);
            assert(slot_adjacent(rem, x, y) == slot_adjacent(ps, ox, oy));
        } else {
            assert(!slot_adjacent(rem, x, y));
        }
    }
}

/// When slot `k` holds the first match, `first_match_idx` finds exactly `k`.
proof fn lemma_first_match_at(hand: Seq<Piece>, q: Piece, k: int)
    requires
        0 <= k < hand.len(),
        piece_matches(hand[k], q),
        forall|j: int| 0 <= j < k ==> !piece_matches(#[trigger] hand[j], q),
    ensures
        first_match_idx(hand, q) == k,
    decreases k,
{
    if k > 0 {
        lemma_first_match_at(hand.drop_first(), q, k - 1);
    }
}

/// With no match anywhere, `first_match_idx` reports -1.
proof fn lemma_no_match(hand: Seq<Piece>, q: Piece)
    requires
        forall|j: int| 0 <= j < hand.len() ==> !piece_matches(#[trigger] hand[j], q),
    ensures
        first_match_idx(hand, q) == -1,
    decreases hand.len(),
{
    if hand.len() > 0 {
        lemma_no_match(hand.drop_first(), q);
    }
}

} // verus!
