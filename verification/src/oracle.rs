//! The connectivity oracle: a piece may move only if removing it from the
//! board leaves the remaining pieces in one connected component of the
//! adjacency graph (the one-hive rule).

use vstd::prelude::*;
use vstd::multiset::Multiset;
use vstd::set_lib::{set_int_range, lemma_int_range, lemma_len_subset};
use crate::hex::lemma_hex_adjacent_symmetric;
use crate::piece::Piece;
use crate::game::{Game, slot_adjacent, edges_mirror, swap_removed};
use crate::adjacency::{
    edge_connects, reach_within, reaches, reachable_set, graph_edges, graph_nodes, graph_clone,
    graph_remove_node, graph_reachable_count,
};

verus! {

/// Slot `b` can be reached from slot `a` in at most `k` hops between
/// adjacent placed pieces.
pub open spec fn slots_reach_within(ps: Seq<Piece>, a: int, b: int, k: nat) -> bool
    decreases k,
{
    a == b || (k > 0 && exists|c: int|
        0 <= c < ps.len() && slot_adjacent(ps, a, c) && slots_reach_within(
            ps,
            c,
            b,
            (k - 1) as nat,
        ))
}

/// Slot `b` is reachable from slot `a` through adjacent placed pieces.
pub open spec fn slots_reach(ps: Seq<Piece>, a: int, b: int) -> bool {
    exists|k: nat| slots_reach_within(ps, a, b, k)
}

/// All placed pieces form one connected component (vacuously true of an
/// empty board).
pub open spec fn board_connected(ps: Seq<Piece>) -> bool {
    forall|j: int| 0 <= j < ps.len() ==> slots_reach(ps, 0, j)
}

/// The one-hive rule for the piece in slot `i`: the board that remains once
/// it is lifted (the last slot adopting its index) is still one connected
/// component. A board with a single piece has nothing left to disconnect.
pub open spec fn movable_spec(ps: Seq<Piece>, i: int) -> bool {
    ps.len() <= 1 || board_connected(swap_removed(ps, i))
}

/// The piece with id equal to `p.id` is placed and may move.
pub open spec fn can_move_spec(ps: Seq<Piece>, p: Piece) -> bool {
    exists|i: int| 0 <= i < ps.len() && (#[trigger] ps[i]).id@ == p.id@ && movable_spec(ps, i)
}

/// A path between existing slots survives appending a piece.
pub(crate) proof fn lemma_reach_push(ps: Seq<Piece>, p: Piece, a: int, b: int, k: nat)
    requires
        slots_reach_within(ps, a, b, k),
    ensures
        slots_reach_within(ps.push(p), a, b, k),
    decreases k,
{
    if k > 0 && a != b {
        let c = choose|c: int|
            0 <= c < ps.len() && slot_adjacent(ps, a, c) && slots_reach_within(
                ps,
                c,
                b,
                (k - 1) as nat,
            );
        lemma_reach_push(ps, p, c, b, (k - 1) as nat);
        assert(slot_adjacent(ps.push(p), a, c)) by {
            assert(ps.push(p)[a] == ps[a] && ps.push(p)[c] == ps[c]);
        }
        assert(slots_reach_within(ps.push(p), a, b, k));
    }
}

/// A path extends by one step to an adjacent slot.
pub(crate) proof fn lemma_reach_extend(ps: Seq<Piece>, a: int, b: int, c: int, k: nat)
    requires
        slots_reach_within(ps, a, b, k),
        slot_adjacent(ps, b, c),
    ensures
        slots_reach_within(ps, a, c, (k + 1) as nat),
    decreases k,
{
    if a == b {
        assert(slots_reach_within(ps, c, c, k));
        assert(slots_reach_within(ps, a, c, (k + 1) as nat));
    } else {
        let mid = choose|mid: int|
            0 <= mid < ps.len() && slot_adjacent(ps, a, mid) && slots_reach_within(
                ps,
                mid,
                b,
                (k - 1) as nat,
            );
        lemma_reach_extend(ps, mid, b, c, (k - 1) as nat);
        assert(slots_reach_within(ps, a, c, (k + 1) as nat));
    }
}

/// With mirroring edges, the graph's connecting relation and the pieces'
/// adjacency relation agree.
proof fn lemma_connects_is_adjacent(es: Multiset<(int, int, int)>, ps: Seq<Piece>, x: int, y: int)
    requires
        edges_mirror(es, ps),
    ensures
        edge_connects(es, x, y) == slot_adjacent(ps, x, y),
{
    if slot_adjacent(ps, x, y) {
        let w0 = crate::game::adj_label(ps[x].hex, ps[y].hex);
        assert(es.count((x, y, w0)) == 1);
        assert(edge_connects(es, x, y));
    } else {
        if slot_adjacent(ps, y, x) {
            lemma_hex_adjacent_symmetric(ps[y].hex, ps[x].hex);
            assert(slot_adjacent(ps, x, y));
        }
        assert(!edge_connects(es, x, y)) by {
            if edge_connects(es, x, y) {
                let w = choose|w: int|
                    #![trigger es.count((x, y, w))]
                    #![trigger es.count((y, x, w))]
                    es.count((x, y, w)) > 0 || es.count((y, x, w)) > 0;
                assert(es.count((x, y, w)) == 0);
                assert(es.count((y, x, w)) == 0);
                assert(false);
            }
        }
    }
}

/// With mirroring edges, bounded reachability over the graph and over the
/// pieces coincide.
proof fn lemma_reach_equiv(es: Multiset<(int, int, int)>, ps: Seq<Piece>, a: int, b: int, k: nat)
    requires
        edges_mirror(es, ps),
    ensures
        reach_within(es, ps.len() as int, a, b, k) == slots_reach_within(ps, a, b, k),
    decreases k,
{
    let n = ps.len() as int;
    if k > 0 && a != b {
        if reach_within(es, n, a, b, k) {
            let c = choose|c: int|
                0 <= c < n && edge_connects(es, a, c) && reach_within(es, n, c, b, (k - 1) as nat);
            lemma_connects_is_adjacent(es, ps, a, c);
            lemma_reach_equiv(es, ps, c, b, (k - 1) as nat);
            assert(slots_reach_within(ps, a, b, k));
        }
        if slots_reach_within(ps, a, b, k) {
            let c = choose|c: int|
                0 <= c < n && slot_adjacent(ps, a, c) && slots_reach_within(
                    ps,
                    c,
                    b,
                    (k - 1) as nat,
                );
            lemma_connects_is_adjacent(es, ps, a, c);
            lemma_reach_equiv(es, ps, c, b, (k - 1) as nat);
            assert(reach_within(es, n, a, b, k));
        }
    }
}

/// The number of graph-reachable slots equals the slot count exactly when
/// every slot of the mirrored board is reachable from `start`.
proof fn lemma_full_reachability(es: Multiset<(int, int, int)>, ps: Seq<Piece>, start: int)
    requires
        edges_mirror(es, ps),
        0 <= start < ps.len(),
    ensures
        reachable_set(es, ps.len() as int, start).len() == ps.len() <==> (forall|j: int|
            0 <= j < ps.len() ==> slots_reach(ps, start, j)),
{
    let n = ps.len() as int;
    let rset = reachable_set(es, n, start);
    let full = set_int_range(0, n);
    lemma_int_range(0, n);
    assert(rset.subset_of(full));
    lemma_len_subset(rset, full);
    if rset.len() == n {
        assert forall|j: int| 0 <= j < n implies slots_reach(ps, start, j) by {
            assert(rset.contains(j)) by {
                if !rset.contains(j) {
                    assert(rset.subset_of(full.remove(j)));
                    lemma_len_subset(rset, full.remove(j));
                    assert(full.remove(j).len() == n - 1);
                }
            }
            let k = choose|k: nat| reach_within(es, n, start, j, k);
            lemma_reach_equiv(es, ps, start, j, k);
            assert(slots_reach_within(ps, start, j, k));
        }
    }
    if forall|j: int| 0 <= j < n ==> slots_reach(ps, start, j) {
        assert forall|j: int| 0 <= j < n implies rset.contains(j) by {
            assert(slots_reach(ps, start, j));
            let k = choose|k: nat| slots_reach_within(ps, start, j, k);
            lemma_reach_equiv(es, ps, start, j, k);
            assert(reach_within(es, n, start, j, k));
            assert(reaches(es, n, start, j));
        }
        assert(rset =~= full);
    }
}

impl Game {
    /// The connectivity oracle for the piece in slot `i`: clone the graph,
    /// remove the node, count the nodes a traversal from an arbitrary
    /// remaining node reaches, and compare with the remaining node count.
    pub fn movable_slot(&self, i: usize) -> (r: bool)
        requires
            self.wf(),
            i < self.placed@.len(),
        ensures
            r == movable_spec(self.placed@, i as int),
    {
        let n = self.placed.len();
        if n == 1 {
            return true;
        }
        let mut g2 = graph_clone(&self.grid);
        graph_remove_node(&mut g2, i);
        let ghost rem = swap_removed(self.placed@, i as int);
        proof {
            crate::game::lemma_mirror_after_removal(
                graph_edges(self.grid),
                graph_edges(g2),
                self.placed@,
                i as int,
            );
            assert(graph_nodes(g2).len() == n - 1);
        }
        let cnt = graph_reachable_count(&g2, 0);
        proof {
            lemma_full_reachability(graph_edges(g2), rem, 0);
        }
        cnt == n - 1
    }
}

impl Piece {
    /// Whether this piece may move at all under the one-hive rule: it must
    /// be placed (found on the board by id), and lifting it must leave the
    /// remaining pieces connected.
    pub fn can_move(&self, game: &Game) -> (r: bool)
        requires
            game.wf(),
        ensures
            r == can_move_spec(game.placed@, *self),
    {
        let n = game.placed.len();
        let mut k: usize = 0;
        while k < n
            invariant
                game.wf(),
                n == game.placed@.len(),
                k <= n,
                forall|j: int| 0 <= j < k ==> (#[trigger] game.placed@[j]).id@ != self.id@,
            decreases n - k,
        {
            if game.placed[k].id == self.id {
                let m = game.movable_slot(k);
                proof {
                    assert forall|i: int|
                        0 <= i < game.placed@.len() && (#[trigger] game.placed@[i]).id@
                            == self.id@ implies i == k as int by {
                        if i != k as int {
                            assert(game.placed@[i].id@ != game.placed@[k as int].id@);
                        }
                    }
                }
                return m;
            }
            k += 1;
        }
        proof {
            assert(!can_move_spec(game.placed@, *self));
        }
        false
    }
}

} // verus!
