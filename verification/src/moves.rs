//! Move generation: the slide validator and one generator per piece
//! archetype, plus the per-piece dispatch and the full legal-move set.

use vstd::prelude::*;
use crate::hex::{
    Hex, HexEdge, lateral, lateral_adjacent, is_step, gate_pair, edge_order, edge_index,
    lemma_edge_index, hex_step_safe, get_edge_types, lemma_in_bounds_step_safe,
};
use crate::piece::{Piece, PieceType};
use crate::piece_move::PieceMove;
use crate::game::{
    Game, occupied, hive_adjacent, hive_adjacent_other, pieces_placed_ok, find_piece_at,
    hexes_contain,
};
use crate::walk::{step_hex, lemma_is_step_step_hex, walk_path, walk_reach_in, opt_int};
use crate::oracle::movable_spec;

verus! {

broadcast use vstd::seq_lib::group_seq_properties;

/// The slide validator: a lateral step from `h` in direction `d` is
/// physically possible when the destination is empty and the two gate hexes
/// flanking the direction are not both occupied.
pub open spec fn can_slide_spec(ps: Seq<Piece>, h: Hex, d: HexEdge) -> bool {
    &&& !occupied(ps, step_hex(h, d))
    &&& !(occupied(ps, step_hex(h, gate_pair(d).0)) && occupied(ps, step_hex(h, gate_pair(d).1)))
}

/// A legal Queen Bee destination for the piece in slot `i`: one lateral
/// step that the slide validator permits, onto a hex in contact with
/// another piece.
pub open spec fn queen_dest(ps: Seq<Piece>, i: int, h: Hex) -> bool {
    exists|d: HexEdge|
        lateral(d) && h == step_hex((#[trigger] ps[i]).hex, d) && can_slide_spec(ps, ps[i].hex, d)
            && hive_adjacent_other(ps, i, h)
}

/// A legal Beetle destination for the piece in slot `i`: either a
/// queen-style ground slide, or a climb directly on top of an occupied
/// neighboring hex.
pub open spec fn beetle_dest(ps: Seq<Piece>, i: int, h: Hex) -> bool {
    exists|d: HexEdge|
        lateral(d) && ((h == step_hex((#[trigger] ps[i]).hex, d) && can_slide_spec(
            ps,
            ps[i].hex,
            d,
        ) && hive_adjacent_other(ps, i, h)) || (occupied(ps, step_hex(ps[i].hex, d)) && h
            == step_hex(step_hex(ps[i].hex, d), HexEdge::T) && !occupied(ps, h)))
}

/// True iff `v` holds the move `m`.
pub fn moves_contain(v: &Vec<PieceMove>, m: PieceMove) -> (r: bool)
    ensures
        r == v@.contains(m),
{
    let mut k: usize = 0;
    while k < v.len()
        invariant
            k <= v@.len(),
            forall|j: int| 0 <= j < k ==> v@[j] != m,
        decreases v@.len() - k,
    {
        if v[k] == m {
            return true;
        }
        k += 1;
    }
    false
}

/// Decide lateral adjacency of two hexes.
fn lat_adjacent_exec(a: Hex, b: Hex) -> (r: bool)
    requires
        hex_step_safe(a),
    ensures
        r == lateral_adjacent(a, b),
{
    let nbs = a.get_slide_neighbors();
    hexes_contain(&nbs, b)
}

/// Decide whether `h` touches a placed piece other than slot `excl`.
pub(crate) fn hive_adjacent_other_exec(placed: &Vec<Piece>, excl: usize, h: Hex) -> (r: bool)
    requires
        pieces_placed_ok(placed@),
    ensures
        r == hive_adjacent_other(placed@, excl as int, h),
{
    let n = placed.len();
    let mut j: usize = 0;
    while j < n
        invariant
            pieces_placed_ok(placed@),
            n == placed@.len(),
            j <= n,
            forall|t: int|
                0 <= t < j && t != excl ==> !lateral_adjacent((#[trigger] placed@[t]).hex, h),
        decreases n - j,
    {
        if j != excl {
            proof {
                lemma_in_bounds_step_safe(placed@[j as int].hex);
            }
            if lat_adjacent_exec(placed[j].hex, h) {
                return true;
            }
        }
        j += 1;
    }
    false
}

/// The slide validator on the live board.
pub fn can_slide(hex: Hex, dir: HexEdge, game: &Game) -> (r: bool)
    requires
        game.wf(),
        hex_step_safe(hex),
    ensures
        r == can_slide_spec(game.placed@, hex, dir),
{
    let dest = hex.get_neighbor(dir);
    proof {
        lemma_is_step_step_hex(hex, dest, dir);
    }
    if find_piece_at(&game.placed, dest).is_some() {
        return false;
    }
    let gates = dir.get_gate_edges();
    let g0 = hex.get_neighbor(gates[0]);
    let g1 = hex.get_neighbor(gates[1]);
    proof {
        lemma_is_step_step_hex(hex, g0, gate_pair(dir).0);
        lemma_is_step_step_hex(hex, g1, gate_pair(dir).1);
    }
    let b0 = find_piece_at(&game.placed, g0).is_some();
    let b1 = find_piece_at(&game.placed, g1).is_some();
    !(b0 && b1)
}

/// All Queen Bee moves of the piece in slot `piece_node`.
pub fn get_queen_moves(game: &Game, piece_node: usize) -> (r: Vec<PieceMove>)
    requires
        game.wf(),
        piece_node < game.placed@.len(),
    ensures
        r@.no_duplicates(),
        forall|m: PieceMove|
            #[trigger] r@.contains(m) <==> (m.piece_node == piece_node && queen_dest(
                game.placed@,
                piece_node as int,
                m.hex,
            )),
{
    let ghost ps = game.placed@;
    let h = game.placed[piece_node].hex;
    proof {
        lemma_in_bounds_step_safe(h);
    }
    let dirs = get_edge_types();
    let mut r: Vec<PieceMove> = Vec::new();
    let mut di: usize = 0;
    while di < 6
        invariant
            game.wf(),
            ps == game.placed@,
            piece_node < ps.len(),
            h == ps[piece_node as int].hex,
            hex_step_safe(h),
            dirs@ == edge_order(),
            di <= 6,
            r@.no_duplicates(),
            forall|m: PieceMove|
                #[trigger] r@.contains(m) ==> m.piece_node == piece_node && queen_dest(
                    ps,
                    piece_node as int,
                    m.hex,
                ),
            forall|k: int|
                0 <= k < di && can_slide_spec(ps, h, #[trigger] edge_order()[k])
                    && hive_adjacent_other(ps, piece_node as int, step_hex(h, edge_order()[k]))
                    ==> r@.contains(
                    (PieceMove { piece_node, hex: step_hex(h, edge_order()[k]) }),
                ),
        decreases 6 - di,
    {
        let d = dirs[di];
        if can_slide(h, d, game) {
            let dest = h.get_neighbor(d);
            proof {
                lemma_is_step_step_hex(h, dest, d);
            }
            if hive_adjacent_other_exec(&game.placed, piece_node, dest) {
                let m = PieceMove { piece_node, hex: dest };
                if !moves_contain(&r, m) {
                    proof {
                        assert(lateral(edge_order()[di as int]));
                        assert(queen_dest(ps, piece_node as int, dest));
                    }
                    r.push(m);
                }
            }
        }
        di += 1;
    }
    proof {
        assert forall|m: PieceMove|
            m.piece_node == piece_node && queen_dest(
                ps,
                piece_node as int,
                m.hex,
            ) implies #[trigger] r@.contains(m) by {
            let d = choose|d: HexEdge|
                lateral(d) && m.hex == step_hex(ps[piece_node as int].hex, d) && can_slide_spec(
                    ps,
                    ps[piece_node as int].hex,
                    d,
                ) && hive_adjacent_other(ps, piece_node as int, m.hex);
            lemma_edge_index(d);
            assert(edge_order()[edge_index(d)] == d);
            assert(r@.contains((PieceMove { piece_node, hex: step_hex(h, edge_order()[edge_index(d)]) })));
        }
    }
    r
}

/// All Beetle moves of the piece in slot `piece_node`: ground slides and
/// climbs onto occupied neighbors.
pub fn get_beetle_moves(game: &Game, piece_node: usize) -> (r: Vec<PieceMove>)
    requires
        game.wf(),
        piece_node < game.placed@.len(),
    ensures
        r@.no_duplicates(),
        forall|m: PieceMove|
            #[trigger] r@.contains(m) <==> (m.piece_node == piece_node && beetle_dest(
                game.placed@,
                piece_node as int,
                m.hex,
            )),
{
    let ghost ps = game.placed@;
    let h = game.placed[piece_node].hex;
    proof {
        lemma_in_bounds_step_safe(h);
    }
    let dirs = get_edge_types();
    let mut r: Vec<PieceMove> = Vec::new();
    let mut di: usize = 0;
    while di < 6
        invariant
            game.wf(),
            ps == game.placed@,
            piece_node < ps.len(),
            h == ps[piece_node as int].hex,
            hex_step_safe(h),
            dirs@ == edge_order(),
            di <= 6,
            r@.no_duplicates(),
            forall|m: PieceMove|
                #[trigger] r@.contains(m) ==> m.piece_node == piece_node && beetle_dest(
                    ps,
                    piece_node as int,
                    m.hex,
                ),
            forall|k: int|
                0 <= k < di && can_slide_spec(ps, h, #[trigger] edge_order()[k])
                    && hive_adjacent_other(ps, piece_node as int, step_hex(h, edge_order()[k]))
                    ==> r@.contains(
                    (PieceMove { piece_node, hex: step_hex(h, edge_order()[k]) }),
                ),
            forall|k: int|
                0 <= k < di && occupied(ps, step_hex(h, #[trigger] edge_order()[k])) && !occupied(
                    ps,
                    step_hex(step_hex(h, edge_order()[k]), HexEdge::T),
                ) ==> r@.contains(
                    (PieceMove {
                        piece_node,
                        hex: step_hex(step_hex(h, edge_order()[k]), HexEdge::T),
                    }),
                ),
        decreases 6 - di,
    {
        let d = dirs[di];
        let nb = h.get_neighbor(d);
        proof {
            lemma_is_step_step_hex(h, nb, d);
        }
        if can_slide(h, d, game) {
            if hive_adjacent_other_exec(&game.placed, piece_node, nb) {
                let m = PieceMove { piece_node, hex: nb };
                if !moves_contain(&r, m) {
                    proof {
                        assert(lateral(edge_order()[di as int]));
                        assert(beetle_dest(ps, piece_node as int, nb));
                    }
                    r.push(m);
                }
            }
        }
        if find_piece_at(&game.placed, nb).is_some() {
            proof {
                let w = choose|t: int| 0 <= t < ps.len() && ps[t].hex == nb;
                lemma_in_bounds_step_safe(nb);
            }
            let climb = nb.get_neighbor(HexEdge::T);
            proof {
                lemma_is_step_step_hex(nb, climb, HexEdge::T);
            }
            if find_piece_at(&game.placed, climb).is_none() {
                let m = PieceMove { piece_node, hex: climb };
                if !moves_contain(&r, m) {
                    proof {
                        assert(lateral(edge_order()[di as int]));
                        assert(beetle_dest(ps, piece_node as int, climb));
                    }
                    r.push(m);
                }
            }
        }
        di += 1;
    }
    proof {
        assert forall|m: PieceMove|
            m.piece_node == piece_node && beetle_dest(
                ps,
                piece_node as int,
                m.hex,
            ) implies #[trigger] r@.contains(m) by {
            let d = choose|d: HexEdge|
                lateral(d) && ((m.hex == step_hex(ps[piece_node as int].hex, d) && can_slide_spec(
                    ps,
                    ps[piece_node as int].hex,
                    d,
                ) && hive_adjacent_other(ps, piece_node as int, m.hex)) || (occupied(
                    ps,
                    step_hex(ps[piece_node as int].hex, d),
                ) && m.hex == step_hex(step_hex(ps[piece_node as int].hex, d), HexEdge::T)
                    && !occupied(ps, m.hex)));
            lemma_edge_index(d);
            assert(edge_order()[edge_index(d)] == d);
            if m.hex == step_hex(ps[piece_node as int].hex, d) && can_slide_spec(
                ps,
                ps[piece_node as int].hex,
                d,
            ) && hive_adjacent_other(ps, piece_node as int, m.hex) {
                assert(r@.contains(
                    (PieceMove { piece_node, hex: step_hex(h, edge_order()[edge_index(d)]) }),
                ));
            } else {
                assert(r@.contains(
                    (PieceMove {
                        piece_node,
                        hex: step_hex(step_hex(h, edge_order()[edge_index(d)]), HexEdge::T),
                    }),
                ));
            }
        }
    }
    r
}

/// The hex `k` steps from `h` along direction `d`.
pub open spec fn line_hex(h: Hex, d: HexEdge, k: nat) -> Hex
    decreases k,
{
    if k == 0 {
        h
    } else {
        step_hex(line_hex(h, d, (k - 1) as nat), d)
    }
}

/// A legal Grasshopper destination for the piece in slot `i`: the first
/// empty hex on a straight lateral line, after jumping at least one
/// consecutively occupied hex.
pub open spec fn grasshopper_dest(ps: Seq<Piece>, i: int, h: Hex) -> bool {
    exists|d: HexEdge, k: nat|
        lateral(d) && k >= 2 && h == line_hex((#[trigger] ps[i]).hex, d, k) && !occupied(ps, h) && (
        forall|j: nat| 1 <= j < k ==> occupied(ps, line_hex(ps[i].hex, d, j)))
}

/// The set of hexes occupied by placed pieces.
pub open spec fn occupied_set(ps: Seq<Piece>) -> Set<Hex> {
    Set::new(|h: Hex| occupied(ps, h))
}

/// The occupied set is finite and no larger than the piece count.
proof fn lemma_occupied_card(ps: Seq<Piece>)
    ensures
        occupied_set(ps).finite(),
        occupied_set(ps).len() <= ps.len(),
    decreases ps.len(),
{
    if ps.len() == 0 {
        assert(occupied_set(ps) =~= Set::<Hex>::empty());
    } else {
        let ps2 = ps.drop_last();
        lemma_occupied_card(ps2);
        let last = ps.last();
        let single = Set::<Hex>::empty().insert(last.hex);
        let un = occupied_set(ps2).union(single);
        assert(occupied_set(ps).subset_of(un)) by {
            assert forall|h: Hex| occupied_set(ps).contains(h) implies un.contains(h) by {
                let j = choose|j: int| 0 <= j < ps.len() && ps[j].hex == h;
                if j < ps.len() - 1 {
                    assert(ps2[j] == ps[j]);
                    assert(occupied_set(ps2).contains(h));
                } else {
                    assert(single.contains(h));
                }
            }
        }
        vstd::set_lib::lemma_len_union(occupied_set(ps2), single);
        vstd::set_lib::lemma_len_subset(occupied_set(ps), un);
    }
}

/// Multiplying by a factor of magnitude at most one keeps or flips the
/// multiplicand.
proof fn lemma_mul_unit(a: int, x: int)
    by (nonlinear_arith)
    requires
        -1 <= x <= 1,
    ensures
        x == 1 ==> a * x == a,
        x == -1 ==> a * x == -a,
        x == 0 ==> a * x == 0,
{
}

/// Coordinates of a hex `k` steps along a line: the deltas accumulate
/// exactly, while the coordinates stay far from the integer limits.
proof fn lemma_line_coords(h: Hex, d: HexEdge, k: nat)
    requires
        crate::hex::hex_in_bounds(h),
        k <= crate::game::MAX_PIECES + 2,
    ensures
        line_hex(h, d, k).q as int == h.q as int + k * crate::hex::edge_dq(d),
        line_hex(h, d, k).r as int == h.r as int + k * crate::hex::edge_dr(d),
        line_hex(h, d, k).s as int == h.s as int + k * crate::hex::edge_ds(d),
        line_hex(h, d, k).z as int == h.z as int + k * crate::hex::edge_dz(d),
        hex_step_safe(line_hex(h, d, k)),
    decreases k,
{
    lemma_mul_unit(k as int, crate::hex::edge_dq(d));
    lemma_mul_unit(k as int, crate::hex::edge_dr(d));
    lemma_mul_unit(k as int, crate::hex::edge_ds(d));
    lemma_mul_unit(k as int, crate::hex::edge_dz(d));
    if k > 0 {
        lemma_line_coords(h, d, (k - 1) as nat);
        lemma_mul_unit((k - 1) as int, crate::hex::edge_dq(d));
        lemma_mul_unit((k - 1) as int, crate::hex::edge_dr(d));
        lemma_mul_unit((k - 1) as int, crate::hex::edge_ds(d));
        lemma_mul_unit((k - 1) as int, crate::hex::edge_dz(d));
    }
}

/// Two distinct step counts along a lateral line land on distinct hexes.
proof fn lemma_line_distinct(h: Hex, d: HexEdge, a: nat, b: nat)
    requires
        crate::hex::hex_in_bounds(h),
        lateral(d),
        a < b <= crate::game::MAX_PIECES + 2,
    ensures
        line_hex(h, d, a) != line_hex(h, d, b),
{
    lemma_line_coords(h, d, a);
    lemma_line_coords(h, d, b);
    lemma_mul_unit(a as int, crate::hex::edge_dq(d));
    lemma_mul_unit(b as int, crate::hex::edge_dq(d));
    lemma_mul_unit(a as int, crate::hex::edge_dr(d));
    lemma_mul_unit(b as int, crate::hex::edge_dr(d));
    assert(crate::hex::edge_dq(d) != 0 || crate::hex::edge_dr(d) != 0);
}

/// A straight line of consecutively occupied hexes cannot be longer than
/// the piece count.
proof fn lemma_line_occupied_bound(ps: Seq<Piece>, h: Hex, d: HexEdge, k: nat)
    requires
        ps.len() <= crate::game::MAX_PIECES,
        crate::hex::hex_in_bounds(h),
        lateral(d),
        forall|j: nat| 1 <= j <= k ==> occupied(ps, line_hex(h, d, j)),
    ensures
        k <= ps.len(),
{
    if k > ps.len() {
        let n = ps.len() as int;
        let lineseq = Seq::new((n + 1) as nat, |t: int| line_hex(h, d, (t + 1) as nat));
        assert(lineseq.no_duplicates()) by {
            assert forall|t1: int, t2: int|
                0 <= t1 < t2 < lineseq.len() implies lineseq[t1] != lineseq[t2] by {
                lemma_line_distinct(h, d, (t1 + 1) as nat, (t2 + 1) as nat);
            }
        }
        assert forall|t: int| 0 <= t < lineseq.len() implies occupied_set(ps).contains(
            #[trigger] lineseq[t],
        ) by {
            assert(1 <= t + 1 <= k);
            assert(occupied(ps, line_hex(h, d, (t + 1) as nat)));
        }
        lemma_occupied_card(ps);
        crate::walk::lemma_unique_seq_in_set(lineseq, occupied_set(ps));
        assert(false);
    }
}

/// Along a qualifying grasshopper jump, the hex just before the landing
/// hex is an occupied stepping hex, laterally adjacent to the landing hex
/// and distinct from the origin.
pub proof fn lemma_line_props(ps: Seq<Piece>, h: Hex, d: HexEdge, k: nat)
    requires
        ps.len() <= crate::game::MAX_PIECES,
        crate::hex::hex_in_bounds(h),
        lateral(d),
        k >= 2,
        forall|j: nat| 1 <= j < k ==> occupied(ps, line_hex(h, d, j)),
    ensures
        occupied(ps, line_hex(h, d, (k - 1) as nat)),
        lateral_adjacent(line_hex(h, d, (k - 1) as nat), line_hex(h, d, k)),
        line_hex(h, d, (k - 1) as nat) != h,
{
    assert forall|j: nat| 1 <= j <= k - 1 implies occupied(ps, line_hex(h, d, j)) by {
        assert(occupied(ps, line_hex(h, d, j)));
    }
    lemma_line_occupied_bound(ps, h, d, (k - 1) as nat);
    lemma_line_coords(h, d, (k - 1) as nat);
    let prev = line_hex(h, d, (k - 1) as nat);
    crate::walk::lemma_step_hex_is_step(prev, d);
    assert(line_hex(h, d, k) == step_hex(prev, d));
    lemma_line_distinct(h, d, 0, (k - 1) as nat);
}

/// Two different lateral directions never meet again: rays from a common
/// origin share no hex beyond it.
proof fn lemma_ray_separation(h: Hex, d1: HexEdge, d2: HexEdge, k1: nat, k2: nat)
    requires
        crate::hex::hex_in_bounds(h),
        lateral(d1),
        lateral(d2),
        d1 != d2,
        1 <= k1 <= crate::game::MAX_PIECES + 2,
        1 <= k2 <= crate::game::MAX_PIECES + 2,
    ensures
        line_hex(h, d1, k1) != line_hex(h, d2, k2),
{
    lemma_line_coords(h, d1, k1);
    lemma_line_coords(h, d2, k2);
    lemma_mul_unit(k1 as int, crate::hex::edge_dq(d1));
    lemma_mul_unit(k1 as int, crate::hex::edge_dr(d1));
    lemma_mul_unit(k1 as int, crate::hex::edge_ds(d1));
    lemma_mul_unit(k2 as int, crate::hex::edge_dq(d2));
    lemma_mul_unit(k2 as int, crate::hex::edge_dr(d2));
    lemma_mul_unit(k2 as int, crate::hex::edge_ds(d2));
}

/// A Grasshopper needs a springboard: whenever a legal Grasshopper
/// destination lies `k` steps out along the lateral ray `d`, the hex
/// immediately adjacent in direction `d` is occupied. A direction whose
/// immediate neighbor is empty therefore contributes no move anywhere
/// along its ray.
pub proof fn lemma_grasshopper_ray_gate(ps: Seq<Piece>, i: int, d: HexEdge, k: nat)
    requires
        0 <= i < ps.len(),
        pieces_placed_ok(ps),
        ps.len() <= crate::game::MAX_PIECES,
        lateral(d),
        1 <= k <= crate::game::MAX_PIECES + 2,
        grasshopper_dest(ps, i, line_hex(ps[i].hex, d, k)),
    ensures
        occupied(ps, line_hex(ps[i].hex, d, 1)),
{
    let h = ps[i].hex;
    let dest = line_hex(h, d, k);
    let (d2, k2): (HexEdge, nat) = choose|d2: HexEdge, k2: nat|
        lateral(d2) && k2 >= 2 && dest == line_hex(h, d2, k2) && !occupied(ps, dest) && (forall|
            j: nat,
        |
            1 <= j < k2 ==> occupied(ps, line_hex(h, d2, j)));
    if d2 == d {
        assert(occupied(ps, line_hex(h, d, 1)));
    } else {
        assert forall|j: nat| 1 <= j <= (k2 - 1) as nat implies occupied(
            ps,
            line_hex(h, d2, j),
        ) by {
            assert(occupied(ps, line_hex(h, d2, j)));
        }
        lemma_line_occupied_bound(ps, h, d2, (k2 - 1) as nat);
        lemma_ray_separation(h, d, d2, k, k2);
        assert(false);
    }
}

/// All Grasshopper moves of the piece in slot `piece_node`: one jump per
/// direction whose immediate neighbor is occupied, landing on the first
/// empty hex of the line.
pub fn get_grasshopper_moves(game: &Game, piece_node: usize) -> (r: Vec<PieceMove>)
    requires
        game.wf(),
        piece_node < game.placed@.len(),
    ensures
        r@.no_duplicates(),
        forall|m: PieceMove|
            #[trigger] r@.contains(m) <==> (m.piece_node == piece_node && grasshopper_dest(
                game.placed@,
                piece_node as int,
                m.hex,
            )),
{
    let ghost ps = game.placed@;
    let h = game.placed[piece_node].hex;
    proof {
        lemma_in_bounds_step_safe(h);
    }
    let dirs = get_edge_types();
    let mut r: Vec<PieceMove> = Vec::new();
    let mut di: usize = 0;
    while di < 6
        invariant
            game.wf(),
            ps == game.placed@,
            piece_node < ps.len(),
            h == ps[piece_node as int].hex,
            crate::hex::hex_in_bounds(h),
            hex_step_safe(h),
            dirs@ == edge_order(),
            di <= 6,
            r@.no_duplicates(),
            forall|m: PieceMove|
                #[trigger] r@.contains(m) ==> m.piece_node == piece_node && grasshopper_dest(
                    ps,
                    piece_node as int,
                    m.hex,
                ),
            forall|t: int, kk: nat|
                #![trigger line_hex(h, edge_order()[t], kk)]
                0 <= t < di && kk >= 2 && !occupied(ps, line_hex(h, edge_order()[t], kk)) && (
                forall|j: nat|
                    1 <= j < kk ==> occupied(ps, line_hex(h, edge_order()[t], j))) ==> r@.contains(
                    (PieceMove { piece_node, hex: line_hex(h, edge_order()[t], kk) }),
                ),
        decreases 6 - di,
    {
        let d = dirs[di];
        proof {
            assert(lateral(edge_order()[di as int]));
        }
        let first = h.get_neighbor(d);
        proof {
            lemma_is_step_step_hex(h, first, d);
            assert(line_hex(h, d, 0) == h);
            assert(line_hex(h, d, 1) == step_hex(line_hex(h, d, 0), d));
            assert(first == line_hex(h, d, 1));
        }
        if find_piece_at(&game.placed, first).is_some() {
            proof {
                let w = choose|t: int| 0 <= t < ps.len() && ps[t].hex == first;
                lemma_in_bounds_step_safe(first);
            }
            let mut cur = first.get_neighbor(d);
            let mut k: usize = 2;
            proof {
                lemma_is_step_step_hex(first, cur, d);
                assert(line_hex(h, d, 2) == step_hex(line_hex(h, d, 1), d));
                assert(cur == line_hex(h, d, 2));
            }
            while find_piece_at(&game.placed, cur).is_some()
                invariant
                    game.wf(),
                    ps == game.placed@,
                    piece_node < ps.len(),
                    h == ps[piece_node as int].hex,
                    crate::hex::hex_in_bounds(h),
                    d == edge_order()[di as int],
                    di < 6,
                    lateral(d),
                    2 <= k <= ps.len() + 1,
                    cur == line_hex(h, d, k as nat),
                    forall|j: nat| 1 <= j < k ==> occupied(ps, line_hex(h, d, j)),
                decreases ps.len() + 1 - k,
            {
                proof {
                    assert(occupied(ps, line_hex(h, d, k as nat)));
                    assert forall|j: nat| 1 <= j <= k implies occupied(ps, line_hex(h, d, j)) by {
                        if j < k {
                            assert(occupied(ps, line_hex(h, d, j)));
                        }
                    }
                    lemma_line_occupied_bound(ps, h, d, k as nat);
                    let w = choose|t: int| 0 <= t < ps.len() && ps[t].hex == cur;
                    lemma_in_bounds_step_safe(cur);
                }
                let nxt = cur.get_neighbor(d);
                proof {
                    lemma_is_step_step_hex(cur, nxt, d);
                }
                cur = nxt;
                k += 1;
            }
            let m = PieceMove { piece_node, hex: cur };
            if !moves_contain(&r, m) {
                proof {
                    assert(grasshopper_dest(ps, piece_node as int, cur));
                }
                r.push(m);
            }
            proof {
                // Within this direction the landing hex is unique, so the
                // recorded move covers every qualifying jump length.
                assert forall|kk: nat|
                    #![trigger line_hex(h, d, kk)]
                    kk >= 2 && !occupied(ps, line_hex(h, d, kk)) && (forall|j: nat|
                        1 <= j < kk ==> occupied(ps, line_hex(h, d, j))) implies r@.contains(
                    (PieceMove { piece_node, hex: line_hex(h, d, kk) }),
                ) by {
                    if kk < k {
                        assert(occupied(ps, line_hex(h, d, kk)));
                        assert(false);
                    } else if kk > k {
                        assert(occupied(ps, line_hex(h, d, k as nat)));
                        assert(false);
                    } else {
                        assert(r@.contains(m));
                    }
                }
            }
        }
        di += 1;
        proof {
            assert forall|t: int, kk: nat|
                #![trigger line_hex(h, edge_order()[t], kk)]
                0 <= t < di && kk >= 2 && !occupied(ps, line_hex(h, edge_order()[t], kk)) && (
                forall|j: nat|
                    1 <= j < kk ==> occupied(ps, line_hex(h, edge_order()[t], j))) implies r@
                .contains(
                (PieceMove { piece_node, hex: line_hex(h, edge_order()[t], kk) }),
            ) by {
                if t == di - 1 {
                    assert(edge_order()[t] == d);
                    assert(occupied(ps, line_hex(h, d, 1)));
                }
            }
        }
    }
    proof {
        assert forall|m: PieceMove|
            m.piece_node == piece_node && grasshopper_dest(
                ps,
                piece_node as int,
                m.hex,
            ) implies #[trigger] r@.contains(m) by {
            let (d, kk): (HexEdge, nat) = choose|d: HexEdge, kk: nat|
                lateral(d) && kk >= 2 && m.hex == line_hex(ps[piece_node as int].hex, d, kk)
                    && !occupied(ps, m.hex) && (forall|j: nat|
                    1 <= j < kk ==> occupied(ps, line_hex(ps[piece_node as int].hex, d, j)));
            lemma_edge_index(d);
            assert(edge_order()[edge_index(d)] == d);
            assert(r@.contains((PieceMove { piece_node, hex: line_hex(h, edge_order()[edge_index(d)], kk) })));
        }
    }
    r
}

/// A legal Ant destination for the piece in slot `i`: any hex reachable by
/// a perimeter walk of at least one step, the walk hexes being empty and in
/// contact with a piece other than the ant itself.
pub open spec fn ant_dest(ps: Seq<Piece>, i: int, h: Hex) -> bool {
    exists|k: nat| k >= 1 && walk_path(ps, Option::Some(i), (#[trigger] ps[i]).hex, h, k)
}

/// A legal Spider destination for the piece in slot `i`: a hex whose
/// minimum perimeter-walk (slide) distance from the spider's hex is exactly
/// three, in contact with another piece.
pub open spec fn spider_dest(ps: Seq<Piece>, i: int, h: Hex) -> bool {
    &&& walk_path(ps, Option::None, ps[i].hex, h, 3)
    &&& !walk_reach_in(ps, Option::None, ps[i].hex, h, 2)
    &&& hive_adjacent_other(ps, i, h)
}

/// All Ant moves of the piece in slot `piece_node`: the unbounded perimeter
/// walk from its hex.
#[verifier::loop_isolation(false)]
pub fn get_ant_moves(game: &Game, piece_node: usize) -> (r: Vec<PieceMove>)
    requires
        game.wf(),
        piece_node < game.placed@.len(),
    ensures
        r@.no_duplicates(),
        forall|m: PieceMove|
            #[trigger] r@.contains(m) <==> (m.piece_node == piece_node && ant_dest(
                game.placed@,
                piece_node as int,
                m.hex,
            )),
{
    let ghost ps = game.placed@;
    let origin = game.placed[piece_node].hex;
    proof {
        assert(occupied(ps, origin)) by {
            assert(ps[piece_node as int].hex == origin);
        }
    }
    let (hs, ds) = crate::walk::perimeter_walk(&game.placed, Some(piece_node), origin);
    let mut r: Vec<PieceMove> = Vec::new();
    let mut t: usize = 0;
    while t < hs.len()
        invariant
            t <= hs@.len(),
            hs@.len() == ds@.len(),
            hs@.no_duplicates(),
            forall|u: int|
                0 <= u < hs@.len() ==> 1 <= ds@[u] && walk_path(
                    ps,
                    Option::Some(piece_node as int),
                    origin,
                    #[trigger] hs@[u],
                    ds@[u] as nat,
                ),
            r@.len() == t as int,
            forall|u: int|
                0 <= u < t ==> #[trigger] r@[u] == (PieceMove { piece_node, hex: hs@[u] }),
        decreases hs@.len() - t,
    {
        r.push(PieceMove { piece_node, hex: hs[t] });
        t += 1;
    }
    proof {
        assert(r@.no_duplicates()) by {
            assert forall|u1: int, u2: int|
                0 <= u1 < u2 < r@.len() implies r@[u1] != r@[u2] by {
                assert(hs@[u1] != hs@[u2]);
            }
        }
        assert forall|m: PieceMove|
            #[trigger] r@.contains(m) implies (m.piece_node == piece_node && ant_dest(
            ps,
            piece_node as int,
            m.hex,
        )) by {
            let u = choose|u: int| 0 <= u < r@.len() && r@[u] == m;
            assert(walk_path(ps, Option::Some(piece_node as int), origin, hs@[u], ds@[u] as nat));
        }
        assert forall|m: PieceMove|
            m.piece_node == piece_node && ant_dest(
                ps,
                piece_node as int,
                m.hex,
            ) implies #[trigger] r@.contains(m) by {
            let k = choose|k: nat|
                k >= 1 && walk_path(ps, Option::Some(piece_node as int), origin, m.hex, k);
            assert(hs@.contains(m.hex));
            let u = choose|u: int| 0 <= u < hs@.len() && hs@[u] == m.hex;
            assert(r@[u] == m);
        }
    }
    r
}

/// All Spider moves of the piece in slot `piece_node`: the hexes at slide
/// distance exactly three from its hex that touch another piece.
#[verifier::loop_isolation(false)]
pub fn get_spider_moves(game: &Game, piece_node: usize) -> (r: Vec<PieceMove>)
    requires
        game.wf(),
        piece_node < game.placed@.len(),
    ensures
        r@.no_duplicates(),
        forall|m: PieceMove|
            #[trigger] r@.contains(m) <==> (m.piece_node == piece_node && spider_dest(
                game.placed@,
                piece_node as int,
                m.hex,
            )),
{
    let ghost ps = game.placed@;
    let origin = game.placed[piece_node].hex;
    proof {
        assert(occupied(ps, origin)) by {
            assert(ps[piece_node as int].hex == origin);
        }
    }
    let (hs, ds) = crate::walk::perimeter_walk(&game.placed, None, origin);
    let mut r: Vec<PieceMove> = Vec::new();
    let mut t: usize = 0;
    while t < hs.len()
        invariant
            game.wf(),
            ps == game.placed@,
            piece_node < ps.len(),
            origin == ps[piece_node as int].hex,
            t <= hs@.len(),
            hs@.len() == ds@.len(),
            hs@.no_duplicates(),
            forall|u: int|
                0 <= u < hs@.len() ==> 1 <= ds@[u] && walk_path(
                    ps,
                    Option::None,
                    origin,
                    #[trigger] hs@[u],
                    ds@[u] as nat,
                ) && !walk_reach_in(ps, Option::None, origin, hs@[u], (ds@[u] - 1) as nat),
            forall|m: PieceMove|
                #[trigger] r@.contains(m) <==> (exists|u: int|
                    0 <= u < t && ds@[u] == 3 && hive_adjacent_other(
                        ps,
                        piece_node as int,
                        #[trigger] hs@[u],
                    ) && m == (PieceMove { piece_node, hex: hs@[u] })),
            r@.no_duplicates(),
        decreases hs@.len() - t,
    {
        if ds[t] == 3 {
            if hive_adjacent_other_exec(&game.placed, piece_node, hs[t]) {
                let m = PieceMove { piece_node, hex: hs[t] };
                if !moves_contain(&r, m) {
                    r.push(m);
                }
                proof {
                    assert(r@.contains(m));
                }
            }
        }
        t += 1;
    }
    proof {
        assert forall|m: PieceMove|
            #[trigger] r@.contains(m) implies (m.piece_node == piece_node && spider_dest(
            ps,
            piece_node as int,
            m.hex,
        )) by {
            let u = choose|u: int|
                0 <= u < hs@.len() && ds@[u] == 3 && hive_adjacent_other(
                    ps,
                    piece_node as int,
                    hs@[u],
                ) && m == (PieceMove { piece_node, hex: hs@[u] });
            assert(walk_path(ps, Option::None, origin, m.hex, 3));
        }
        assert forall|m: PieceMove|
            m.piece_node == piece_node && spider_dest(
                ps,
                piece_node as int,
                m.hex,
            ) implies #[trigger] r@.contains(m) by {
            assert(walk_path(ps, Option::None, origin, m.hex, 3));
            assert(hs@.contains(m.hex));
            let u = choose|u: int| 0 <= u < hs@.len() && hs@[u] == m.hex;
            assert(ds@[u] == 3) by {
                if ds@[u] < 3 {
                    assert(walk_reach_in(ps, Option::None, origin, m.hex, 2));
                    assert(false);
                }
                if ds@[u] > 3 {
                    assert(walk_reach_in(ps, Option::None, origin, m.hex, (ds@[u] - 1) as nat));
                    assert(false);
                }
            }
        }
    }
    r
}

impl Game {
    /// Breadth-first slide distance between `start` (the hex of a placed
    /// piece) and `end`, counting hop layers over empty hexes that stay in
    /// contact with the hive. The result is the minimum number of slides.
    #[verifier::loop_isolation(false)]
    pub fn slide_distance(&self, start: Hex, end: Hex) -> (r: usize)
        requires
            self.wf(),
            occupied(self.placed@, start),
            exists|k: nat| k >= 1 && walk_path(self.placed@, Option::None, start, end, k),
        ensures
            r >= 1,
            walk_path(self.placed@, Option::None, start, end, r as nat),
            !walk_reach_in(self.placed@, Option::None, start, end, (r - 1) as nat),
    {
        let ghost ps = self.placed@;
        let (hs, ds) = crate::walk::perimeter_walk(&self.placed, None, start);
        let mut t: usize = 0;
        while t < hs.len()
            invariant
                t <= hs@.len(),
                hs@.len() == ds@.len(),
                forall|u: int|
                    0 <= u < hs@.len() ==> 1 <= ds@[u] && walk_path(
                        ps,
                        Option::None,
                        start,
                        #[trigger] hs@[u],
                        ds@[u] as nat,
                    ) && !walk_reach_in(ps, Option::None, start, hs@[u], (ds@[u] - 1) as nat),
                forall|u: int| 0 <= u < t ==> #[trigger] hs@[u] != end,
            decreases hs@.len() - t,
        {
            if hs[t] == end {
                return ds[t];
            }
            t += 1;
        }
        proof {
            let k = choose|k: nat|
                k >= 1 && walk_path(self.placed@, Option::None, start, end, k);
            assert(hs@.contains(end));
            assert(false);
        }
        0
    }
}

/// Two climbing hops for the Ladybug: slots `a` then `b` are occupied
/// stepping stones, both distinct from the mover.
pub open spec fn ladybug_hop(ps: Seq<Piece>, i: int, a: int, b: int) -> bool {
    &&& 0 <= a < ps.len()
    &&& 0 <= b < ps.len()
    &&& a != i
    &&& b != i
    &&& lateral_adjacent(ps[i].hex, ps[a].hex)
    &&& lateral_adjacent(ps[a].hex, ps[b].hex)
}

/// A legal Ladybug destination for the piece in slot `i`: exactly two hops
/// across occupied hexes, then a step down onto an empty hex.
pub open spec fn ladybug_dest(ps: Seq<Piece>, i: int, h: Hex) -> bool {
    exists|a: int, b: int|
        #![trigger ps[a], ps[b]]
        ladybug_hop(ps, i, a, b) && lateral_adjacent(ps[b].hex, h) && !occupied(ps, h)
}

/// A Pillbug throw: the piece in slot `j`, itself free to move under the
/// one-hive rule and adjacent to the pillbug in slot `i`, is relocated onto
/// an empty hex adjacent to the pillbug, bypassing the slide validator.
pub open spec fn pillbug_throw(ps: Seq<Piece>, i: int, j: int, e: Hex) -> bool {
    &&& 0 <= j < ps.len()
    &&& j != i
    &&& lateral_adjacent(ps[i].hex, ps[j].hex)
    &&& lateral_adjacent(ps[i].hex, e)
    &&& !occupied(ps, e)
    &&& movable_spec(ps, j)
}

/// A legal Pillbug move: its own queen-style slide, or a throw of an
/// adjacent piece.
pub open spec fn pillbug_move(ps: Seq<Piece>, i: int, m: PieceMove) -> bool {
    (m.piece_node == i && queen_dest(ps, i, m.hex)) || pillbug_throw(
        ps,
        i,
        m.piece_node as int,
        m.hex,
    )
}

/// The move set of archetype `t`, played by the piece in slot `i`; the
/// Mosquito archetype itself contributes nothing.
pub open spec fn type_move(ps: Seq<Piece>, i: int, t: PieceType, m: PieceMove) -> bool {
    match t {
        PieceType::QueenBee => m.piece_node == i && queen_dest(ps, i, m.hex),
        PieceType::Ant => m.piece_node == i && ant_dest(ps, i, m.hex),
        PieceType::Beetle => m.piece_node == i && beetle_dest(ps, i, m.hex),
        PieceType::Grasshopper => m.piece_node == i && grasshopper_dest(ps, i, m.hex),
        PieceType::Spider => m.piece_node == i && spider_dest(ps, i, m.hex),
        PieceType::Ladybug => m.piece_node == i && ladybug_dest(ps, i, m.hex),
        PieceType::Pillbug => pillbug_move(ps, i, m),
        PieceType::Mosquito => false,
    }
}

/// A legal Mosquito move: a move of any archetype among its occupied
/// neighbors, other than Mosquito itself.
pub open spec fn mosquito_move(ps: Seq<Piece>, i: int, m: PieceMove) -> bool {
    exists|j: int|
        0 <= j < ps.len() && j != i && lateral_adjacent(ps[i].hex, (#[trigger] ps[j]).hex)
            && ps[j].piece_type != PieceType::Mosquito && type_move(ps, i, ps[j].piece_type, m)
}

/// The full move set of the piece in slot `i`, by its own archetype.
pub open spec fn piece_moves_spec(ps: Seq<Piece>, i: int, m: PieceMove) -> bool {
    if ps[i].piece_type == PieceType::Mosquito {
        mosquito_move(ps, i, m)
    } else {
        type_move(ps, i, ps[i].piece_type, m)
    }
}

/// Append every move of `more` not already in `acc`.
fn merge_moves(acc: &mut Vec<PieceMove>, more: &Vec<PieceMove>)
    requires
        old(acc)@.no_duplicates(),
    ensures
        final(acc)@.no_duplicates(),
        forall|m: PieceMove|
            #[trigger] final(acc)@.contains(m) <==> (old(acc)@.contains(m) || more@.contains(m)),
{
    let ghost orig = acc@;
    let mut t: usize = 0;
    while t < more.len()
        invariant
            t <= more@.len(),
            acc@.no_duplicates(),
            forall|m: PieceMove|
                #[trigger] acc@.contains(m) <==> (orig.contains(m) || (exists|u: int|
                    0 <= u < t && more@[u] == m)),
        decreases more@.len() - t,
    {
        let m = more[t];
        if !moves_contain(acc, m) {
            acc.push(m);
        }
        t += 1;
        proof {
            assert(exists|u: int| 0 <= u < t && more@[u] == m) by {
                assert(more@[t - 1] == m);
            }
        }
    }
    proof {
        assert forall|m: PieceMove|
            #[trigger] acc@.contains(m) <==> (orig.contains(m) || more@.contains(m)) by {
            if more@.contains(m) {
                let u = choose|u: int| 0 <= u < more@.len() && more@[u] == m;
            }
        }
    }
}

/// Record every descent of a climbing piece standing on the stepping
/// stone in slot `b`: each empty hex laterally adjacent to that stone.
#[verifier::loop_isolation(false)]
fn push_ladybug_descents(game: &Game, piece_node: usize, b: usize, r: &mut Vec<PieceMove>)
    requires
        game.wf(),
        piece_node < game.placed@.len(),
        b < game.placed@.len(),
        old(r)@.no_duplicates(),
    ensures
        final(r)@.no_duplicates(),
        forall|m: PieceMove|
            #[trigger] final(r)@.contains(m) <==> (old(r)@.contains(m) || (m.piece_node
                == piece_node && lateral_adjacent(
                game.placed@[b as int].hex,
                m.hex,
            ) && !occupied(game.placed@, m.hex))),
{
    let ghost ps = game.placed@;
    let ghost orig = r@;
    let bh = game.placed[b].hex;
    proof {
        lemma_in_bounds_step_safe(bh);
    }
    let dirs = get_edge_types();
    let mut k: usize = 0;
    while k < 6
        invariant
            k <= 6,
            r@.no_duplicates(),
            forall|m: PieceMove|
                #[trigger] r@.contains(m) ==> (orig.contains(m) || (m.piece_node == piece_node
                    && lateral_adjacent(ps[b as int].hex, m.hex) && !occupied(ps, m.hex))),
            forall|m: PieceMove| orig.contains(m) ==> #[trigger] r@.contains(m),
            forall|kk: int|
                0 <= kk < k && !occupied(ps, step_hex(bh, #[trigger] edge_order()[kk]))
                    ==> r@.contains(
                    (PieceMove { piece_node, hex: step_hex(bh, edge_order()[kk]) }),
                ),
        decreases 6 - k,
    {
        let dh = bh.get_neighbor(dirs[k]);
        proof {
            lemma_is_step_step_hex(bh, dh, edge_order()[k as int]);
        }
        if find_piece_at(&game.placed, dh).is_none() {
            let m = PieceMove { piece_node, hex: dh };
            if !moves_contain(r, m) {
                proof {
                    assert(lateral_adjacent(ps[b as int].hex, dh)) by {
                        assert(lateral(edge_order()[k as int]));
                        assert(is_step(bh, dh, edge_order()[k as int]));
                    }
                }
                r.push(m);
            }
        }
        k += 1;
    }
    proof {
        assert forall|m: PieceMove|
            m.piece_node == piece_node && lateral_adjacent(ps[b as int].hex, m.hex) && !occupied(
                ps,
                m.hex,
            ) implies #[trigger] r@.contains(m) by {
            let d = choose|d: HexEdge| lateral(d) && is_step(ps[b as int].hex, m.hex, d);
            lemma_edge_index(d);
            lemma_is_step_step_hex(ps[b as int].hex, m.hex, d);
            assert(edge_order()[edge_index(d)] == d);
            assert(r@.contains((PieceMove { piece_node, hex: step_hex(bh, edge_order()[edge_index(d)]) })));
        }
    }
}

/// All Ladybug moves of the piece in slot `piece_node`: two hops over
/// occupied neighbors, then a descent onto any empty adjacent hex.
#[verifier::loop_isolation(false)]
#[verifier::rlimit(60)]
pub fn get_ladybug_moves(game: &Game, piece_node: usize) -> (r: Vec<PieceMove>)
    requires
        game.wf(),
        piece_node < game.placed@.len(),
    ensures
        r@.no_duplicates(),
        forall|m: PieceMove|
            #[trigger] r@.contains(m) <==> (m.piece_node == piece_node && ladybug_dest(
                game.placed@,
                piece_node as int,
                m.hex,
            )),
{
    let ghost ps = game.placed@;
    let ghost i = piece_node as int;
    let n = game.placed.len();
    let h = game.placed[piece_node].hex;
    proof {
        lemma_in_bounds_step_safe(h);
    }
    let mut r: Vec<PieceMove> = Vec::new();
    let mut a: usize = 0;
    while a < n
        invariant
            r@.no_duplicates(),
            a <= n,
            forall|m: PieceMove|
                #[trigger] r@.contains(m) ==> m.piece_node == piece_node && ladybug_dest(
                    ps,
                    i,
                    m.hex,
                ),
            forall|aa: int, bb: int, hx: Hex|
                #![trigger ps[aa], lateral_adjacent(ps[bb].hex, hx)]
                0 <= aa < a && ladybug_hop(ps, i, aa, bb) && lateral_adjacent(ps[bb].hex, hx)
                    && !occupied(ps, hx) ==> r@.contains((PieceMove { piece_node, hex: hx })),
        decreases n - a,
    {
        if a != piece_node {
            proof {
                lemma_in_bounds_step_safe(ps[a as int].hex);
            }
            if lat_adjacent_exec(h, game.placed[a].hex) {
                let ah = game.placed[a].hex;
                let mut b: usize = 0;
                while b < n
                    invariant
                        r@.no_duplicates(),
                        b <= n,
                        ah == ps[a as int].hex,
                        a != piece_node,
                        a < n,
                        lateral_adjacent(ps[i].hex, ps[a as int].hex),
                        forall|m: PieceMove|
                            #[trigger] r@.contains(m) ==> m.piece_node == piece_node
                                && ladybug_dest(ps, i, m.hex),
                        forall|aa: int, bb: int, hx: Hex|
                            #![trigger ps[aa], lateral_adjacent(ps[bb].hex, hx)]
                            0 <= aa < a && ladybug_hop(ps, i, aa, bb) && lateral_adjacent(
                                ps[bb].hex,
                                hx,
                            ) && !occupied(ps, hx) ==> r@.contains(
                                (PieceMove { piece_node, hex: hx }),
                            ),
                        forall|bb: int, hx: Hex|
                            #![trigger lateral_adjacent(ps[bb].hex, hx)]
                            0 <= bb < b && ladybug_hop(ps, i, a as int, bb) && lateral_adjacent(
                                ps[bb].hex,
                                hx,
                            ) && !occupied(ps, hx) ==> r@.contains(
                                (PieceMove { piece_node, hex: hx }),
                            ),
                    decreases n - b,
                {
                    if b != piece_node {
                        proof {
                            lemma_in_bounds_step_safe(ps[b as int].hex);
                        }
                        if lat_adjacent_exec(ah, game.placed[b].hex) {
                            proof {
                                assert(ladybug_hop(ps, i, a as int, b as int));
                            }
                            push_ladybug_descents(game, piece_node, b, &mut r);
                        }
                    }
                    b += 1;
                }
            }
        }
        a += 1;
    }
    proof {
        assert forall|m: PieceMove|
            m.piece_node == piece_node && ladybug_dest(ps, i, m.hex) implies #[trigger] r@
            .contains(m) by {
            let (aa, bb): (int, int) = choose|aa: int, bb: int|
                #![trigger ps[aa], ps[bb]]
                ladybug_hop(ps, i, aa, bb) && lateral_adjacent(ps[bb].hex, m.hex) && !occupied(
                    ps,
                    m.hex,
                );
            assert(r@.contains((PieceMove { piece_node, hex: m.hex })));
        }
    }
    r
}

/// All Pillbug moves of the piece in slot `piece_node`: its own queen-style
/// slides, plus one throw for every movable adjacent piece and empty
/// adjacent hex.
#[verifier::loop_isolation(false)]
pub fn get_pillbug_moves(game: &Game, piece_node: usize) -> (r: Vec<PieceMove>)
    requires
        game.wf(),
        piece_node < game.placed@.len(),
    ensures
        r@.no_duplicates(),
        forall|m: PieceMove|
            #[trigger] r@.contains(m) <==> pillbug_move(game.placed@, piece_node as int, m),
{
    let ghost ps = game.placed@;
    let ghost i = piece_node as int;
    let n = game.placed.len();
    let h = game.placed[piece_node].hex;
    proof {
        lemma_in_bounds_step_safe(h);
    }
    let dirs = get_edge_types();
    let mut r = get_queen_moves(game, piece_node);
    let mut k: usize = 0;
    while k < 6
        invariant
            r@.no_duplicates(),
            k <= 6,
            forall|m: PieceMove| #[trigger] r@.contains(m) ==> pillbug_move(ps, i, m),
            forall|m: PieceMove|
                m.piece_node == piece_node && queen_dest(ps, i, m.hex) ==> #[trigger] r@.contains(
                    m,
                ),
            forall|kk: int, j: int|
                #![trigger edge_order()[kk], ps[j]]
                0 <= kk < k && !occupied(ps, step_hex(h, edge_order()[kk])) && 0 <= j < n && j != i
                    && lateral_adjacent(ps[i].hex, ps[j].hex) && movable_spec(ps, j)
                    ==> r@.contains(
                    (PieceMove { piece_node: j as usize, hex: step_hex(h, edge_order()[kk]) }),
                ),
        decreases 6 - k,
    {
        let e = h.get_neighbor(dirs[k]);
        proof {
            lemma_is_step_step_hex(h, e, edge_order()[k as int]);
        }
        if find_piece_at(&game.placed, e).is_none() {
            let mut j: usize = 0;
            while j < n
                invariant
                    r@.no_duplicates(),
                    j <= n,
                    k < 6,
                    e == step_hex(h, edge_order()[k as int]),
                    !occupied(ps, e),
                    forall|m: PieceMove| #[trigger] r@.contains(m) ==> pillbug_move(ps, i, m),
                    forall|m: PieceMove|
                        m.piece_node == piece_node && queen_dest(ps, i, m.hex)
                            ==> #[trigger] r@.contains(m),
                    forall|kk: int, jj: int|
                        #![trigger edge_order()[kk], ps[jj]]
                        0 <= kk < k && !occupied(ps, step_hex(h, edge_order()[kk])) && 0 <= jj < n
                            && jj != i && lateral_adjacent(ps[i].hex, ps[jj].hex) && movable_spec(
                            ps,
                            jj,
                        ) ==> r@.contains(
                            (PieceMove {
                                piece_node: jj as usize,
                                hex: step_hex(h, edge_order()[kk]),
                            }),
                        ),
                    forall|jj: int|
                        0 <= jj < j && jj != i && lateral_adjacent(ps[i].hex, (#[trigger] ps[jj]).hex)
                            && movable_spec(ps, jj) ==> r@.contains(
                            (PieceMove { piece_node: jj as usize, hex: e }),
                        ),
                decreases n - j,
            {
                if j != piece_node {
                    proof {
                        lemma_in_bounds_step_safe(ps[j as int].hex);
                    }
                    if lat_adjacent_exec(h, game.placed[j].hex) {
                        if game.movable_slot(j) {
                            let m = PieceMove { piece_node: j, hex: e };
                            if !moves_contain(&r, m) {
                                proof {
                                    assert(lateral_adjacent(ps[i].hex, e)) by {
                                        assert(lateral(edge_order()[k as int]));
                                        assert(is_step(h, e, edge_order()[k as int]));
                                    }
                                    assert(pillbug_throw(ps, i, j as int, e));
                                }
                                r.push(m);
                            }
                        }
                    }
                }
                j += 1;
            }
        }
        k += 1;
    }
    proof {
        assert forall|m: PieceMove| pillbug_move(ps, i, m) implies #[trigger] r@.contains(m) by {
            if m.piece_node == piece_node && queen_dest(ps, i, m.hex) {
                assert(r@.contains(m));
            } else {
                assert(pillbug_throw(ps, i, m.piece_node as int, m.hex));
                let d = choose|d: HexEdge| lateral(d) && is_step(ps[i].hex, m.hex, d);
                lemma_edge_index(d);
                lemma_is_step_step_hex(ps[i].hex, m.hex, d);
                assert(edge_order()[edge_index(d)] == d);
                assert(r@.contains(
                    (PieceMove {
                        piece_node: (m.piece_node as int) as usize,
                        hex: step_hex(h, edge_order()[edge_index(d)]),
                    }),
                ));
            }
        }
    }
    r
}

/// All Mosquito moves of the piece in slot `piece_node`: the union of the
/// move sets of the archetypes found among its occupied neighbors, the
/// Mosquito archetype contributing nothing.
#[verifier::loop_isolation(false)]
pub fn get_mosquito_moves(game: &Game, piece_node: usize) -> (r: Vec<PieceMove>)
    requires
        game.wf(),
        piece_node < game.placed@.len(),
    ensures
        r@.no_duplicates(),
        forall|m: PieceMove|
            #[trigger] r@.contains(m) <==> mosquito_move(game.placed@, piece_node as int, m),
{
    let ghost ps = game.placed@;
    let ghost i = piece_node as int;
    let n = game.placed.len();
    let h = game.placed[piece_node].hex;
    proof {
        lemma_in_bounds_step_safe(h);
    }
    let mut r: Vec<PieceMove> = Vec::new();
    let mut j: usize = 0;
    while j < n
        invariant
            r@.no_duplicates(),
            j <= n,
            forall|m: PieceMove|
                #[trigger] r@.contains(m) <==> (exists|jj: int|
                    0 <= jj < j && jj != i && lateral_adjacent(
                        ps[i].hex,
                        (#[trigger] ps[jj]).hex,
                    ) && ps[jj].piece_type != PieceType::Mosquito && type_move(
                        ps,
                        i,
                        ps[jj].piece_type,
                        m,
                    )),
        decreases n - j,
    {
        if j != piece_node {
            proof {
                lemma_in_bounds_step_safe(ps[j as int].hex);
            }
            if lat_adjacent_exec(h, game.placed[j].hex) {
                let t = game.placed[j].piece_type;
                if !(t == PieceType::Mosquito) {
                    let sub: Vec<PieceMove> = match t {
                        PieceType::QueenBee => get_queen_moves(game, piece_node),
                        PieceType::Ant => get_ant_moves(game, piece_node),
                        PieceType::Beetle => get_beetle_moves(game, piece_node),
                        PieceType::Grasshopper => get_grasshopper_moves(game, piece_node),
                        PieceType::Spider => get_spider_moves(game, piece_node),
                        PieceType::Ladybug => get_ladybug_moves(game, piece_node),
                        PieceType::Pillbug => get_pillbug_moves(game, piece_node),
                        PieceType::Mosquito => Vec::new(),
                    };
                    proof {
                        assert(forall|m: PieceMove|
                            #[trigger] sub@.contains(m) <==> type_move(ps, i, ps[j as int].piece_type, m));
                    }
                    merge_moves(&mut r, &sub);
                }
            }
        }
        j += 1;
    }
    r
}

/// The move set of the piece in slot `i`, dispatched on its archetype.
pub(crate) fn moves_for_slot(game: &Game, piece_node: usize) -> (r: Vec<PieceMove>)
    requires
        game.wf(),
        piece_node < game.placed@.len(),
    ensures
        r@.no_duplicates(),
        forall|m: PieceMove|
            #[trigger] r@.contains(m) <==> piece_moves_spec(game.placed@, piece_node as int, m),
{
    let t = game.placed[piece_node].piece_type;
    match t {
        PieceType::QueenBee => get_queen_moves(game, piece_node),
        PieceType::Ant => get_ant_moves(game, piece_node),
        PieceType::Beetle => get_beetle_moves(game, piece_node),
        PieceType::Grasshopper => get_grasshopper_moves(game, piece_node),
        PieceType::Spider => get_spider_moves(game, piece_node),
        PieceType::Ladybug => get_ladybug_moves(game, piece_node),
        PieceType::Pillbug => get_pillbug_moves(game, piece_node),
        PieceType::Mosquito => get_mosquito_moves(game, piece_node),
    }
}

impl Piece {
    /// The complete move set of this piece: found on the board by id and
    /// dispatched to the generator of its archetype; a piece that is not on
    /// the board has no moves.
    pub fn get_moves(&self, game: &Game) -> (r: Vec<PieceMove>)
        requires
            game.wf(),
        ensures
            r@.no_duplicates(),
            forall|m: PieceMove|
                #[trigger] r@.contains(m) <==> (exists|i: int|
                    0 <= i < game.placed@.len() && (#[trigger] game.placed@[i]).id@ == self.id@
                        && piece_moves_spec(game.placed@, i, m)),
    {
        let ghost ps = game.placed@;
        let n = game.placed.len();
        let mut k: usize = 0;
        while k < n
            invariant
                game.wf(),
                ps == game.placed@,
                n == ps.len(),
                k <= n,
                forall|j: int| 0 <= j < k ==> (#[trigger] ps[j]).id@ != self.id@,
            decreases n - k,
        {
            if game.placed[k].id == self.id {
                let r = moves_for_slot(game, k);
                proof {
                    assert forall|i: int|
                        0 <= i < ps.len() && (#[trigger] ps[i]).id@ == self.id@ implies i
                        == k as int by {
                        if i != k as int {
                            assert(ps[i].id@ != ps[k as int].id@);
                        }
                    }
                }
                return r;
            }
            k += 1;
        }
        Vec::new()
    }
}

impl Game {
    /// The complete legal move set of the board: for every placed piece
    /// that the connectivity oracle frees to move, the moves of its
    /// archetype, deduplicated.
    #[verifier::loop_isolation(false)]
    pub fn get_all_moves(&self) -> (r: Vec<PieceMove>)
        requires
            self.wf(),
        ensures
            r@.no_duplicates(),
            forall|m: PieceMove|
                #[trigger] r@.contains(m) <==> (exists|i: int|
                    0 <= i < self.placed@.len() && movable_spec(self.placed@, i)
                        && piece_moves_spec(self.placed@, i, m)),
    {
        let ghost ps = self.placed@;
        let n = self.placed.len();
        let mut r: Vec<PieceMove> = Vec::new();
        let mut i: usize = 0;
        while i < n
            invariant
                r@.no_duplicates(),
                i <= n,
                forall|m: PieceMove|
                    #[trigger] r@.contains(m) <==> (exists|ii: int|
                        0 <= ii < i && movable_spec(ps, ii) && piece_moves_spec(ps, ii, m)),
            decreases n - i,
        {
            if self.movable_slot(i) {
                let sub = moves_for_slot(self, i);
                merge_moves(&mut r, &sub);
                proof {
                    assert forall|m: PieceMove|
                        #[trigger] r@.contains(m) implies (exists|ii: int|
                        0 <= ii < i + 1 && movable_spec(ps, ii) && piece_moves_spec(
                            ps,
                            ii,
                            m,
                        )) by {
                        if sub@.contains(m) {
                            assert(movable_spec(ps, i as int) && piece_moves_spec(
                                ps,
                                i as int,
                                m,
                            ));
                        }
                    }
                }
            }
            i += 1;
        }
        r
    }
}

} // verus!
