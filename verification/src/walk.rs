//! Perimeter walks: breadth-first traversal over empty hexes that stay in
//! contact with the hive, used by the sliding move generators and by the
//! slide-distance measure. The traversal returns every reachable hex
//! together with its exact minimum walk distance from the origin.

use vstd::prelude::*;
use vstd::set_lib::lemma_len_union;
use vstd::set_lib::lemma_len_subset;
use crate::hex::{
    Hex, HexEdge, edge_dq, edge_dr, edge_ds, edge_dz, is_step, lateral, lateral_adjacent,
    hex_in_bounds, hex_step_safe,
};
use crate::piece::Piece;
use crate::game::{occupied, pieces_placed_ok, find_piece_at, hexes_contain, MAX_PIECES};

verus! {

broadcast use vstd::seq_lib::group_seq_properties;

/// Slot `j` may lend support to a walk hex: any slot when no slot is
/// excluded, otherwise any slot but the excluded one.
pub open spec fn allowed_support(excl: Option<int>, j: int) -> bool {
    match excl {
        Option::Some(e) => j != e,
        Option::None => true,
    }
}

/// A walk may pass through (and stop on) `h`: the hex is empty and some
/// allowed placed piece is laterally adjacent to it.
pub open spec fn walk_ok(ps: Seq<Piece>, excl: Option<int>, h: Hex) -> bool {
    &&& !occupied(ps, h)
    &&& exists|j: int|
        0 <= j < ps.len() && allowed_support(excl, j) && lateral_adjacent(
            (#[trigger] ps[j]).hex,
            h,
        )
}

/// There is a walk of exactly `k` lateral steps from `origin` to `h`, every
/// intermediate hex (and `h` itself, when `k > 0`) being a permitted walk
/// hex.
pub open spec fn walk_path(ps: Seq<Piece>, excl: Option<int>, origin: Hex, h: Hex, k: nat) -> bool
    decreases k,
{
    if k == 0 {
        h == origin
    } else {
        walk_ok(ps, excl, h) && exists|prev: Hex|
            walk_path(ps, excl, origin, prev, (k - 1) as nat) && lateral_adjacent(prev, h)
    }
}

/// `h` can be reached from `origin` in at most `k` steps.
pub open spec fn walk_reach_in(
    ps: Seq<Piece>,
    excl: Option<int>,
    origin: Hex,
    h: Hex,
    k: nat,
) -> bool {
    exists|j: nat| j <= k && walk_path(ps, excl, origin, h, j)
}

/// The excluded slot as the specification sees it.
pub open spec fn opt_int(excl: Option<usize>) -> Option<int> {
    match excl {
        Option::Some(e) => Option::Some(e as int),
        Option::None => Option::None,
    }
}

/// The hex one step from `h` in direction `d` (exact when `h` is in
/// bounds).
pub open spec fn step_hex(h: Hex, d: HexEdge) -> Hex {
    (Hex {
        q: (h.q + edge_dq(d)) as isize,
        r: (h.r + edge_dr(d)) as isize,
        s: (h.s + edge_ds(d)) as isize,
        z: (h.z + edge_dz(d)) as isize,
    })
}

/// A one-step relation pins the stepped-to hex down as a value.
pub proof fn lemma_is_step_step_hex(a: Hex, b: Hex, d: HexEdge)
    requires
        is_step(a, b, d),
    ensures
        b == step_hex(a, d),
{
}

/// A step-safe hex really does step to `step_hex`.
pub proof fn lemma_step_hex_is_step(a: Hex, d: HexEdge)
    requires
        hex_step_safe(a),
    ensures
        is_step(a, step_hex(a, d), d),
{
}

/// Every hex a walk could ever visit: laterally adjacent to some placed
/// piece.
pub open spec fn support_set(ps: Seq<Piece>) -> Set<Hex> {
    Set::new(
        |h: Hex| exists|j: int| 0 <= j < ps.len() && lateral_adjacent((#[trigger] ps[j]).hex, h),
    )
}

/// The six lateral neighbor hexes of `h`, as a set.
pub open spec fn lat_neighbor_set(h: Hex) -> Set<Hex> {
    set![
        step_hex(h, HexEdge::N),
        step_hex(h, HexEdge::NE),
        step_hex(h, HexEdge::SE),
        step_hex(h, HexEdge::S),
        step_hex(h, HexEdge::SW),
        step_hex(h, HexEdge::NW),
    ]
}

/// For an in-bounds hex the lateral neighbor set is finite, holds at most
/// six hexes, and holds every laterally adjacent hex.
proof fn lemma_lat_neighbor_set(h: Hex)
    requires
        hex_in_bounds(h),
    ensures
        lat_neighbor_set(h).finite(),
        lat_neighbor_set(h).len() <= 6,
        forall|x: Hex| lateral_adjacent(h, x) ==> lat_neighbor_set(h).contains(x),
{
    assert forall|x: Hex| lateral_adjacent(h, x) implies lat_neighbor_set(h).contains(x) by {
        let d = choose|d: HexEdge| lateral(d) && is_step(h, x, d);
        assert(x == step_hex(h, d));
        match d {
            HexEdge::N => assert(lat_neighbor_set(h).contains(step_hex(h, HexEdge::N))),
            HexEdge::NE => assert(lat_neighbor_set(h).contains(step_hex(h, HexEdge::NE))),
            HexEdge::SE => assert(lat_neighbor_set(h).contains(step_hex(h, HexEdge::SE))),
            HexEdge::S => assert(lat_neighbor_set(h).contains(step_hex(h, HexEdge::S))),
            HexEdge::SW => assert(lat_neighbor_set(h).contains(step_hex(h, HexEdge::SW))),
            HexEdge::NW => assert(lat_neighbor_set(h).contains(step_hex(h, HexEdge::NW))),
            _ => assert(false),
        }
    }
}

/// The support set is finite and holds at most six hexes per placed piece.
proof fn lemma_support_card(ps: Seq<Piece>)
    requires
        pieces_placed_ok(ps),
    ensures
        support_set(ps).finite(),
        support_set(ps).len() <= 6 * ps.len(),
    decreases ps.len(),
{
    if ps.len() == 0 {
        assert(support_set(ps) =~= Set::<Hex>::empty());
    } else {
        let ps2 = ps.drop_last();
        assert(pieces_placed_ok(ps2)) by {
            assert(forall|i: int| 0 <= i < ps2.len() ==> ps2[i] == ps[i]);
        }
        lemma_support_card(ps2);
        let last = ps.last();
        lemma_lat_neighbor_set(last.hex);
        let un = support_set(ps2).union(lat_neighbor_set(last.hex));
        assert(support_set(ps).subset_of(un)) by {
            assert forall|h: Hex| support_set(ps).contains(h) implies un.contains(h) by {
                let j = choose|j: int|
                    0 <= j < ps.len() && lateral_adjacent((#[trigger] ps[j]).hex, h);
                if j < ps.len() - 1 {
                    assert(ps2[j] == ps[j]);
                    assert(support_set(ps2).contains(h));
                } else {
                    assert(lat_neighbor_set(last.hex).contains(h));
                }
            }
        }
        lemma_len_union(support_set(ps2), lat_neighbor_set(last.hex));
        lemma_len_subset(support_set(ps), un);
    }
}

/// A sequence of distinct hexes drawn from a finite set cannot be longer
/// than the set.
pub(crate) proof fn lemma_unique_seq_in_set(s: Seq<Hex>, t: Set<Hex>)
    requires
        s.no_duplicates(),
        t.finite(),
        forall|i: int| 0 <= i < s.len() ==> t.contains(#[trigger] s[i]),
    ensures
        s.len() <= t.len(),
{
    s.unique_seq_to_set();
    assert(s.to_set().subset_of(t));
    lemma_len_subset(s.to_set(), t);
}

/// All the hexes of a walk layer list sit in the support set, so the list
/// stays short.
proof fn lemma_seen_bound(ps: Seq<Piece>, excl: Option<int>, seen: Seq<Hex>)
    requires
        pieces_placed_ok(ps),
        seen.no_duplicates(),
        forall|t: int| 0 <= t < seen.len() ==> walk_ok(ps, excl, #[trigger] seen[t]),
    ensures
        seen.len() <= 6 * ps.len(),
{
    lemma_support_card(ps);
    assert forall|t: int| 0 <= t < seen.len() implies support_set(ps).contains(
        #[trigger] seen[t],
    ) by {
        assert(walk_ok(ps, excl, seen[t]));
        let j = choose|j: int|
            0 <= j < ps.len() && allowed_support(excl, j) && lateral_adjacent(
                (#[trigger] ps[j]).hex,
                seen[t],
            );
    }
    lemma_unique_seq_in_set(seen, support_set(ps));
}

/// A permitted walk hex can step in every direction without overflow.
proof fn lemma_walk_ok_step_safe(ps: Seq<Piece>, excl: Option<int>, h: Hex)
    requires
        pieces_placed_ok(ps),
        walk_ok(ps, excl, h),
    ensures
        hex_step_safe(h),
{
    let j = choose|j: int|
        0 <= j < ps.len() && allowed_support(excl, j) && lateral_adjacent((#[trigger] ps[j]).hex, h);
    let d = choose|d: HexEdge| lateral(d) && is_step(ps[j].hex, h, d);
    assert(hex_in_bounds(ps[j].hex));
}

/// Decide `walk_ok` for a candidate hex.
fn walk_ok_exec(placed: &Vec<Piece>, excl: Option<usize>, h: Hex) -> (r: bool)
    requires
        pieces_placed_ok(placed@),
    ensures
        r == walk_ok(placed@, opt_int(excl), h),
{
    if find_piece_at(placed, h).is_some() {
        proof {
            assert(occupied(placed@, h));
        }
        return false;
    }
    let n = placed.len();
    let mut j: usize = 0;
    while j < n
        invariant
            pieces_placed_ok(placed@),
            n == placed@.len(),
            j <= n,
            !occupied(placed@, h),
            forall|t: int|
                0 <= t < j ==> !(allowed_support(opt_int(excl), t) && lateral_adjacent(
                    (#[trigger] placed@[t]).hex,
                    h,
                )),
        decreases n - j,
    {
        let allowed = match excl {
            Some(e) => j != e,
            None => true,
        };
        if allowed {
            proof {
                crate::hex::lemma_in_bounds_step_safe(placed@[j as int].hex);
            }
            let nbs = placed[j].hex.get_slide_neighbors();
            if hexes_contain(&nbs, h) {
                return true;
            }
        }
        j += 1;
    }
    false
}

/// Breadth-first perimeter walk from `origin` (the hex of a placed piece):
/// returns, in parallel vectors, every hex reachable by lateral steps over
/// permitted walk hexes, each with its exact minimum distance from the
/// origin.
pub(crate) fn perimeter_walk(placed: &Vec<Piece>, excl: Option<usize>, origin: Hex) -> (r: (
    Vec<Hex>,
    Vec<usize>,
))
    requires
        pieces_placed_ok(placed@),
        placed@.len() <= MAX_PIECES,
        occupied(placed@, origin),
    ensures
        r.0@.len() == r.1@.len(),
        r.0@.no_duplicates(),
        forall|t: int|
            #![trigger r.0@[t]]
            #![trigger r.1@[t]]
            0 <= t < r.0@.len() ==> walk_ok(placed@, opt_int(excl), r.0@[t]) && 1 <= r.1@[t]
                && walk_path(placed@, opt_int(excl), origin, r.0@[t], r.1@[t] as nat)
                && !walk_reach_in(placed@, opt_int(excl), origin, r.0@[t], (r.1@[t] - 1) as nat),
        forall|h: Hex, k: nat|
            #[trigger] walk_path(placed@, opt_int(excl), origin, h, k) && k >= 1 ==> r.0@.contains(
                h,
            ),
{
    let ghost ps = placed@;
    let ghost ex = opt_int(excl);
    let mut seen_h: Vec<Hex> = Vec::new();
    let mut seen_d: Vec<usize> = Vec::new();
    let mut frontier: Vec<Hex> = Vec::new();

    proof {
        let w = choose|i: int| 0 <= i < ps.len() && ps[i].hex == origin;
        assert(hex_in_bounds(origin));
        crate::hex::lemma_in_bounds_step_safe(origin);
    }
    let nbs = origin.get_slide_neighbors();
    let mut di: usize = 0;
    while di < 6
        invariant
            pieces_placed_ok(ps),
            occupied(ps, origin),
            ps == placed@,
            ex == opt_int(excl),
            di <= 6,
            nbs@.len() == 6,
            forall|h: Hex| #[trigger] nbs@.contains(h) <==> lateral_adjacent(origin, h),
            seen_h@ == frontier@,
            seen_d@.len() == seen_h@.len(),
            frontier@.no_duplicates(),
            forall|t: int| 0 <= t < seen_d@.len() ==> #[trigger] seen_d@[t] == 1,
            forall|h: Hex|
                #[trigger] frontier@.contains(h) ==> walk_ok(ps, ex, h) && lateral_adjacent(
                    origin,
                    h,
                ),
            forall|k: int|
                0 <= k < di && walk_ok(ps, ex, #[trigger] nbs@[k]) ==> frontier@.contains(nbs@[k]),
        decreases 6 - di,
    {
        let cand = nbs[di];
        proof {
            assert(nbs@.contains(cand)) by {
                assert(nbs@[di as int] == cand);
            }
        }
        if walk_ok_exec(placed, excl, cand) {
            if !hexes_contain(&frontier, cand) {
                frontier.push(cand);
                seen_h.push(cand);
                seen_d.push(1);
            }
        }
        di += 1;
    }

    let mut depth: usize = 1;
    proof {
        // Layer one is exactly the set of hexes at minimum distance one.
        assert forall|h: Hex| #[trigger] frontier@.contains(h) implies (walk_path(
            ps,
            ex,
            origin,
            h,
            1,
        ) && !walk_reach_in(ps, ex, origin, h, 0)) by {
            assert(walk_path(ps, ex, origin, origin, 0));
            assert(h != origin);
            assert forall|j: nat| j <= 0 implies !walk_path(ps, ex, origin, h, j) by {
                assert(h != origin);
            }
        }
        assert forall|h: Hex|
            walk_path(ps, ex, origin, h, 1) && !walk_reach_in(
                ps,
                ex,
                origin,
                h,
                0,
            ) implies #[trigger] frontier@.contains(h) by {
            let prev = choose|prev: Hex|
                walk_path(ps, ex, origin, prev, 0) && lateral_adjacent(prev, h);
            assert(prev == origin);
            assert(nbs@.contains(h));
            let k = choose|k: int| 0 <= k < nbs@.len() && nbs@[k] == h;
            assert(frontier@.contains(nbs@[k]));
        }
        assert forall|t: int| 0 <= t < seen_h@.len() implies walk_ok(ps, ex, #[trigger] seen_h@[t])
            && 1 <= seen_d@[t] <= 1 && walk_path(ps, ex, origin, seen_h@[t], seen_d@[t] as nat)
            && !walk_reach_in(ps, ex, origin, seen_h@[t], (seen_d@[t] - 1) as nat) by {
            assert(frontier@.contains(seen_h@[t])) by {
                assert(frontier@[t] == seen_h@[t]);
            }
            assert(seen_d@[t] == 1);
        }
        assert forall|h: Hex| #[trigger] frontier@.contains(h) implies exists|t: int|
            0 <= t < seen_h@.len() && seen_h@[t] == h && seen_d@[t] == 1 by {
            let t = choose|t: int| 0 <= t < frontier@.len() && frontier@[t] == h;
            assert(seen_h@[t] == h && seen_d@[t] == 1);
        }
        lemma_seen_bound(ps, ex, seen_h@);
    }

    while frontier.len() > 0
        invariant
            pieces_placed_ok(ps),
            occupied(ps, origin),
            ps == placed@,
            ps.len() <= MAX_PIECES,
            ex == opt_int(excl),
            1 <= depth,
            seen_h@.len() == seen_d@.len(),
            seen_h@.len() <= 6 * ps.len(),
            seen_h@.no_duplicates(),
            forall|t: int|
                0 <= t < seen_h@.len() ==> walk_ok(ps, ex, #[trigger] seen_h@[t]) && 1 <= seen_d@[t]
                    <= depth && walk_path(ps, ex, origin, seen_h@[t], seen_d@[t] as nat)
                    && !walk_reach_in(ps, ex, origin, seen_h@[t], (seen_d@[t] - 1) as nat),
            forall|t: int| 0 <= t < seen_d@.len() ==> #[trigger] seen_d@[t] <= t + 1,
            forall|h: Hex, k: nat|
                1 <= k <= depth && #[trigger] walk_path(ps, ex, origin, h, k) ==> seen_h@.contains(
                    h,
                ),
            forall|h: Hex|
                #[trigger] frontier@.contains(h) <==> (walk_path(ps, ex, origin, h, depth as nat)
                    && !walk_reach_in(ps, ex, origin, h, (depth - 1) as nat)),
            frontier@.no_duplicates(),
            forall|h: Hex|
                #[trigger] frontier@.contains(h) ==> exists|t: int|
                    0 <= t < seen_h@.len() && seen_h@[t] == h && seen_d@[t] == depth,
        decreases 6 * ps.len() + 1 - seen_h@.len(), frontier@.len(),
    {
        proof {
            // The frontier links into the seen list at depth `depth`, and
            // recorded distances grow by at most one per entry, so the
            // depth counter stays below the list length.
            assert(frontier@.contains(frontier@[0]));
            let t0 = choose|t: int|
                0 <= t < seen_h@.len() && seen_h@[t] == frontier@[0] && seen_d@[t] == depth;
            assert(depth <= seen_h@.len());
        }
        let ghost seen0 = seen_h@;
        let ghost front0 = frontier@;
        let mut next: Vec<Hex> = Vec::new();
        let mut fi: usize = 0;
        while fi < frontier.len()
            invariant
                pieces_placed_ok(ps),
                occupied(ps, origin),
                ps == placed@,
                ex == opt_int(excl),
                1 <= depth,
                fi <= frontier@.len(),
                frontier@ == front0,
                seen_h@ == seen0,
                seen_h@.len() == seen_d@.len(),
                forall|h: Hex|
                    #[trigger] frontier@.contains(h) ==> walk_path(ps, ex, origin, h, depth as nat),
                forall|h: Hex, k: nat|
                    1 <= k <= depth && #[trigger] walk_path(ps, ex, origin, h, k)
                        ==> seen_h@.contains(h),
                next@.no_duplicates(),
                forall|h: Hex|
                    #[trigger] next@.contains(h) ==> walk_ok(ps, ex, h) && !seen_h@.contains(h) && (
                    exists|pi: int|
                        0 <= pi < frontier@.len() && lateral_adjacent(#[trigger] frontier@[pi], h)),
                forall|h: Hex|
                    walk_ok(ps, ex, h) && !seen_h@.contains(h) && (exists|pi: int|
                        0 <= pi < fi && lateral_adjacent(#[trigger] frontier@[pi], h))
                        ==> next@.contains(h),
            decreases frontier@.len() - fi,
        {
            let f = frontier[fi];
            proof {
                assert(frontier@.contains(f));
                assert(walk_path(ps, ex, origin, f, depth as nat));
                assert(walk_ok(ps, ex, f));
                lemma_walk_ok_step_safe(ps, ex, f);
            }
            let fnbs = f.get_slide_neighbors();
            let mut di2: usize = 0;
            while di2 < 6
                invariant
                    pieces_placed_ok(ps),
                    ps == placed@,
                    ex == opt_int(excl),
                    fi < frontier@.len(),
                    f == frontier@[fi as int],
                    di2 <= 6,
                    fnbs@.len() == 6,
                    forall|h: Hex| #[trigger] fnbs@.contains(h) <==> lateral_adjacent(f, h),
                    frontier@ == front0,
                    seen_h@ == seen0,
                    next@.no_duplicates(),
                    forall|h: Hex|
                        #[trigger] next@.contains(h) ==> walk_ok(ps, ex, h) && !seen_h@.contains(h)
                            && (exists|pi: int|
                            0 <= pi < frontier@.len() && lateral_adjacent(
                                #[trigger] frontier@[pi],
                                h,
                            )),
                    forall|h: Hex|
                        walk_ok(ps, ex, h) && !seen_h@.contains(h) && (exists|pi: int|
                            0 <= pi < fi && lateral_adjacent(#[trigger] frontier@[pi], h))
                            ==> next@.contains(h),
                    forall|k: int|
                        0 <= k < di2 && walk_ok(ps, ex, #[trigger] fnbs@[k]) && !seen_h@.contains(
                            fnbs@[k],
                        ) ==> next@.contains(fnbs@[k]),
                decreases 6 - di2,
            {
                let cand = fnbs[di2];
                proof {
                    assert(fnbs@.contains(cand)) by {
                        assert(fnbs@[di2 as int] == cand);
                    }
                }
                if walk_ok_exec(placed, excl, cand) {
                    if !hexes_contain(&seen_h, cand) {
                        if !hexes_contain(&next, cand) {
                            proof {
                                assert(lateral_adjacent(f, cand));
                                assert(exists|pi: int|
                                    0 <= pi < frontier@.len() && lateral_adjacent(
                                        #[trigger] frontier@[pi],
                                        cand,
                                    )) by {
                                    assert(lateral_adjacent(frontier@[fi as int], cand));
                                }
                            }
                            next.push(cand);
                        }
                    }
                }
                di2 += 1;
            }
            fi += 1;
            proof {
                assert forall|h: Hex|
                    walk_ok(ps, ex, h) && !seen_h@.contains(h) && (exists|pi: int|
                        0 <= pi < fi && lateral_adjacent(#[trigger] frontier@[pi], h))
                        implies next@.contains(h) by {
                    let pi = choose|pi: int|
                        0 <= pi < fi && lateral_adjacent(#[trigger] frontier@[pi], h);
                    if pi == fi - 1 {
                        assert(fnbs@.contains(h));
                        let k = choose|k: int| 0 <= k < fnbs@.len() && fnbs@[k] == h;
                        assert(next@.contains(fnbs@[k]));
                    }
                }
            }
        }

        // `next` is exactly the layer at minimum distance `depth + 1`.
        proof {
            assert forall|h: Hex| #[trigger] next@.contains(h) implies (walk_path(
                ps,
                ex,
                origin,
                h,
                (depth + 1) as nat,
            ) && !walk_reach_in(ps, ex, origin, h, depth as nat)) by {
                let pi = choose|pi: int|
                    0 <= pi < frontier@.len() && lateral_adjacent(#[trigger] frontier@[pi], h);
                assert(frontier@.contains(frontier@[pi]));
                assert(walk_path(ps, ex, origin, frontier@[pi], depth as nat));
                assert(walk_path(ps, ex, origin, h, (depth + 1) as nat));
                if walk_reach_in(ps, ex, origin, h, depth as nat) {
                    let j = choose|j: nat| j <= depth && walk_path(ps, ex, origin, h, j);
                    if j == 0 {
                        assert(h == origin);
                        assert(occupied(ps, h));
                        assert(false);
                    } else {
                        assert(seen_h@.contains(h));
                        assert(false);
                    }
                }
            }
            assert forall|h: Hex|
                walk_path(ps, ex, origin, h, (depth + 1) as nat) && !walk_reach_in(
                    ps,
                    ex,
                    origin,
                    h,
                    depth as nat,
                ) implies #[trigger] next@.contains(h) by {
                let prev = choose|prev: Hex|
                    walk_path(ps, ex, origin, prev, depth as nat) && lateral_adjacent(prev, h);
                assert(!walk_reach_in(ps, ex, origin, prev, (depth - 1) as nat)) by {
                    if walk_reach_in(ps, ex, origin, prev, (depth - 1) as nat) {
                        let j = choose|j: nat| j <= depth - 1 && walk_path(ps, ex, origin, prev, j);
                        assert(walk_path(ps, ex, origin, h, (j + 1) as nat));
                        assert(j + 1 <= depth);
                        assert(walk_reach_in(ps, ex, origin, h, depth as nat));
                        assert(false);
                    }
                }
                assert(frontier@.contains(prev));
                let pi = choose|pi: int| 0 <= pi < frontier@.len() && frontier@[pi] == prev;
                assert(!seen_h@.contains(h)) by {
                    if seen_h@.contains(h) {
                        let t = choose|t: int| 0 <= t < seen_h@.len() && seen_h@[t] == h;
                        assert(walk_path(ps, ex, origin, h, seen_d@[t] as nat));
                        assert(seen_d@[t] <= depth);
                        assert(walk_reach_in(ps, ex, origin, h, depth as nat));
                        assert(false);
                    }
                }
                assert(exists|pi2: int|
                    0 <= pi2 < frontier@.len() && lateral_adjacent(
                        #[trigger] frontier@[pi2],
                        h,
                    )) by {
                    assert(lateral_adjacent(frontier@[pi], h));
                }
            }
        }

        // Append the new layer to the seen lists.
        let ghost seen_h0 = seen_h@;
        let ghost seen_d0 = seen_d@;
        let mut ni: usize = 0;
        while ni < next.len()
            invariant
                ni <= next@.len(),
                depth <= seen_h0.len(),
                seen_h0.len() <= 6 * ps.len(),
                ps.len() <= MAX_PIECES,
                seen_h@.len() == seen_d@.len(),
                seen_h@.len() == seen_h0.len() + ni,
                seen_d0.len() == seen_h0.len(),
                forall|t: int| 0 <= t < seen_h0.len() ==> #[trigger] seen_h@[t] == seen_h0[t],
                forall|t: int| 0 <= t < seen_d0.len() ==> #[trigger] seen_d@[t] == seen_d0[t],
                forall|t: int|
                    #![trigger seen_h@[t]]
                    #![trigger seen_d@[t]]
                    seen_h0.len() <= t < seen_h@.len() ==> seen_h@[t] == next@[t - seen_h0.len()]
                        && seen_d@[t] == depth + 1,
            decreases next@.len() - ni,
        {
            seen_h.push(next[ni]);
            seen_d.push(depth + 1);
            ni += 1;
        }
        frontier = next;
        depth += 1;

        proof {
            // The extended seen lists keep every invariant.
            assert forall|t: int|
                0 <= t < seen_h@.len() implies walk_ok(ps, ex, #[trigger] seen_h@[t]) && 1
                <= seen_d@[t] <= depth && walk_path(ps, ex, origin, seen_h@[t], seen_d@[t] as nat)
                && !walk_reach_in(ps, ex, origin, seen_h@[t], (seen_d@[t] - 1) as nat) by {
                if t < seen_h0.len() {
                    assert(seen_h@[t] == seen_h0[t] && seen_d@[t] == seen_d0[t]);
                } else {
                    assert(seen_h@[t] == frontier@[t - seen_h0.len()]);
                    assert(frontier@.contains(seen_h@[t]));
                }
            }
            assert forall|t: int| 0 <= t < seen_d@.len() implies #[trigger] seen_d@[t] <= t
                + 1 by {
                if t < seen_d0.len() {
                    assert(seen_d@[t] == seen_d0[t]);
                } else {
                    assert(seen_h@[t] == frontier@[t - seen_h0.len()]);
                    assert(seen_d@[t] == depth);
                }
            }
            assert(seen_h@.no_duplicates()) by {
                assert forall|t1: int, t2: int|
                    0 <= t1 < t2 < seen_h@.len() implies seen_h@[t1] != seen_h@[t2] by {
                    if t1 < seen_h0.len() && t2 >= seen_h0.len() {
                        assert(seen_h@[t2] == frontier@[t2 - seen_h0.len()]);
                        assert(frontier@.contains(seen_h@[t2]));
                        if seen_h@[t1] == seen_h@[t2] {
                            assert(seen0.contains(seen_h@[t2]));
                            assert(false);
                        }
                    } else if t1 >= seen_h0.len() {
                        assert(seen_h@[t1] == frontier@[t1 - seen_h0.len()]);
                        assert(seen_h@[t2] == frontier@[t2 - seen_h0.len()]);
                    } else {
                        assert(seen_h@[t1] == seen0[t1] && seen_h@[t2] == seen0[t2]);
                    }
                }
            }
            assert forall|h: Hex, k: nat|
                1 <= k <= depth && #[trigger] walk_path(ps, ex, origin, h, k) implies seen_h@
                .contains(h) by {
                if k <= depth - 1 {
                    assert(seen0.contains(h));
                    let t = choose|t: int| 0 <= t < seen0.len() && seen0[t] == h;
                    assert(seen_h@[t] == h);
                } else {
                    if walk_reach_in(ps, ex, origin, h, (depth - 1) as nat) {
                        let j = choose|j: nat| j <= depth - 1 && walk_path(ps, ex, origin, h, j);
                        if j == 0 {
                            assert(h == origin);
                            assert(walk_ok(ps, ex, h));
                            assert(false);
                        } else {
                            assert(seen0.contains(h));
                            let t = choose|t: int| 0 <= t < seen0.len() && seen0[t] == h;
                            assert(seen_h@[t] == h);
                        }
                    } else {
                        assert(frontier@.contains(h));
                        let u = choose|u: int| 0 <= u < frontier@.len() && frontier@[u] == h;
                        assert(seen_h@[seen_h0.len() + u] == h);
                    }
                }
            }
            assert forall|h: Hex|
                #[trigger] frontier@.contains(h) implies exists|t: int|
                0 <= t < seen_h@.len() && seen_h@[t] == h && seen_d@[t] == depth by {
                let u = choose|u: int| 0 <= u < frontier@.len() && frontier@[u] == h;
                assert(seen_h@[seen_h0.len() + u] == h && seen_d@[seen_h0.len() + u] == depth);
            }
            lemma_seen_bound(ps, ex, seen_h@);
        }
    }

    // The frontier is empty: no hex has minimum distance `depth`, so every
    // reachable hex was seen at a smaller distance.
    proof {
        assert forall|h2: Hex|
            !(#[trigger] walk_path(ps, ex, origin, h2, depth as nat) && !walk_reach_in(
                ps,
                ex,
                origin,
                h2,
                (depth - 1) as nat,
            )) by {
            if walk_path(ps, ex, origin, h2, depth as nat) && !walk_reach_in(
                ps,
                ex,
                origin,
                h2,
                (depth - 1) as nat,
            ) {
                assert(frontier@.contains(h2));
                assert(false);
            }
        }
        assert forall|h: Hex, k: nat|
            #[trigger] walk_path(ps, ex, origin, h, k) && k >= 1 implies seen_h@.contains(h) by {
            lemma_walk_closure(ps, ex, origin, depth as nat, h, k);
            let j = choose|j: nat| j <= depth - 1 && walk_path(ps, ex, origin, h, j);
            assert(j >= 1) by {
                if j == 0 {
                    assert(h == origin);
                    assert(walk_ok(ps, ex, h));
                    assert(false);
                }
            }
        }
    }
    (seen_h, seen_d)
}

/// When no hex has minimum walk distance exactly `depth`, every hex with a
/// walk of any length has one of length below `depth`.
proof fn lemma_walk_closure(
    ps: Seq<Piece>,
    ex: Option<int>,
    origin: Hex,
    depth: nat,
    h: Hex,
    k: nat,
)
    requires
        1 <= depth,
        forall|h2: Hex|
            !(#[trigger] walk_path(ps, ex, origin, h2, depth) && !walk_reach_in(
                ps,
                ex,
                origin,
                h2,
                (depth - 1) as nat,
            )),
        walk_path(ps, ex, origin, h, k),
        k >= 1,
    ensures
        walk_reach_in(ps, ex, origin, h, (depth - 1) as nat),
    decreases k,
{
    if k <= depth - 1 {
        assert(walk_reach_in(ps, ex, origin, h, (depth - 1) as nat));
    } else if k == depth {
        assert(walk_path(ps, ex, origin, h, depth));
        assert(walk_reach_in(ps, ex, origin, h, (depth - 1) as nat));
    } else {
        let prev = choose|prev: Hex|
            walk_path(ps, ex, origin, prev, (k - 1) as nat) && lateral_adjacent(prev, h);
        lemma_walk_closure(ps, ex, origin, depth, prev, (k - 1) as nat);
        let j = choose|j: nat| j <= depth - 1 && walk_path(ps, ex, origin, prev, j);
        assert(walk_path(ps, ex, origin, h, (j + 1) as nat));
        if j + 1 <= depth - 1 {
            assert(walk_reach_in(ps, ex, origin, h, (depth - 1) as nat));
        } else {
            assert(j + 1 == depth);
            assert(walk_path(ps, ex, origin, h, depth));
            assert(walk_reach_in(ps, ex, origin, h, (depth - 1) as nat));
        }
    }
}

} // verus!
