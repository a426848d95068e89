//! Pure hex-grid geometry: cube coordinates with a stack level, the eight
//! adjacency directions, opposite and gate relations, and neighbor queries.

use vstd::prelude::*;

verus! {

/// One of the eight adjacency directions between hexes: the six lateral
/// directions around a hexagon, plus top and bottom for stacking.
#[derive(Debug, PartialEq, Eq, Clone, Copy, Structural)]
pub enum HexEdge {
    N,
    NE,
    SE,
    S,
    SW,
    NW,
    T,
    B,
}

/// A board position: cube coordinates `(q, r, s)` plus a stack level `z`
/// (0 is the ground; larger `z` is higher up a stack). A piece still in hand
/// carries the sentinel position with `z == isize::MAX`.
#[derive(Debug, PartialEq, Eq, Clone, Copy, Structural)]
pub struct Hex {
    pub q: isize,
    pub r: isize,
    pub s: isize,
    pub z: isize,
}

/// Bound on the coordinates of every placed hex. It leaves ample headroom in
/// `isize` so that walks that step a bounded number of hexes past the board
/// can never overflow.
pub const HEX_BOUND: isize = 0x10_0000;

/// Change of `q` for one step in direction `d`.
pub open spec fn edge_dq(d: HexEdge) -> int {
    match d {
        HexEdge::NE | HexEdge::SE => 1,
        HexEdge::SW | HexEdge::NW => -1,
        _ => 0,
    }
}

/// Change of `r` for one step in direction `d`.
pub open spec fn edge_dr(d: HexEdge) -> int {
    match d {
        HexEdge::S | HexEdge::SW => 1,
        HexEdge::N | HexEdge::NE => -1,
        _ => 0,
    }
}

/// Change of `s` for one step in direction `d`.
pub open spec fn edge_ds(d: HexEdge) -> int {
    match d {
        HexEdge::N | HexEdge::NW => 1,
        HexEdge::SE | HexEdge::S => -1,
        _ => 0,
    }
}

/// Change of `z` for one step in direction `d`.
pub open spec fn edge_dz(d: HexEdge) -> int {
    match d {
        HexEdge::T => 1,
        HexEdge::B => -1,
        _ => 0,
    }
}

/// `b` lies exactly one step from `a` in direction `d`.
pub open spec fn is_step(a: Hex, b: Hex, d: HexEdge) -> bool {
    &&& b.q as int == a.q as int + edge_dq(d)
    &&& b.r as int == a.r as int + edge_dr(d)
    &&& b.s as int == a.s as int + edge_ds(d)
    &&& b.z as int == a.z as int + edge_dz(d)
}

/// The direction is one of the six lateral (same-level) ones.
pub open spec fn lateral(d: HexEdge) -> bool {
    d != HexEdge::T && d != HexEdge::B
}

/// `b` is one lateral step away from `a` (same stack level).
pub open spec fn lateral_adjacent(a: Hex, b: Hex) -> bool {
    exists|d: HexEdge| lateral(d) && is_step(a, b, d)
}

/// `b` is adjacent to `a` in any of the eight directions.
pub open spec fn hex_adjacent(a: Hex, b: Hex) -> bool {
    exists|d: HexEdge| is_step(a, b, d)
}

/// Every coordinate of `h` is within the board bound.
pub open spec fn hex_in_bounds(h: Hex) -> bool {
    &&& -HEX_BOUND <= h.q <= HEX_BOUND
    &&& -HEX_BOUND <= h.r <= HEX_BOUND
    &&& -HEX_BOUND <= h.s <= HEX_BOUND
    &&& -HEX_BOUND <= h.z <= HEX_BOUND
}

/// Every coordinate of `h` can move one step in either direction without
/// leaving `isize`.
pub open spec fn hex_step_safe(h: Hex) -> bool {
    &&& isize::MIN < h.q < isize::MAX
    &&& isize::MIN < h.r < isize::MAX
    &&& isize::MIN < h.s < isize::MAX
    &&& isize::MIN < h.z < isize::MAX
}

/// The step from `h` in direction `d` stays within `isize`: only the
/// coordinates that `d` changes are constrained.
pub open spec fn step_fits(h: Hex, d: HexEdge) -> bool {
    &&& isize::MIN <= h.q as int + edge_dq(d) <= isize::MAX
    &&& isize::MIN <= h.r as int + edge_dr(d) <= isize::MAX
    &&& isize::MIN <= h.s as int + edge_ds(d) <= isize::MAX
    &&& isize::MIN <= h.z as int + edge_dz(d) <= isize::MAX
}

/// The opposite of each direction: N-S, NE-SW, SE-NW, T-B.
pub open spec fn opposite(d: HexEdge) -> HexEdge {
    match d {
        HexEdge::N => HexEdge::S,
        HexEdge::NE => HexEdge::SW,
        HexEdge::SE => HexEdge::NW,
        HexEdge::S => HexEdge::N,
        HexEdge::SW => HexEdge::NE,
        HexEdge::NW => HexEdge::SE,
        HexEdge::T => HexEdge::B,
        HexEdge::B => HexEdge::T,
    }
}

/// The two lateral directions flanking `d`; sliding in direction `d` is
/// blocked when the hexes in both flanking directions are occupied.
/// Vertical directions have no gates; they map to an arbitrary fixed pair.
pub open spec fn gate_pair(d: HexEdge) -> (HexEdge, HexEdge) {
    match d {
        HexEdge::N => (HexEdge::NW, HexEdge::NE),
        HexEdge::NE => (HexEdge::N, HexEdge::SE),
        HexEdge::SE => (HexEdge::NE, HexEdge::S),
        HexEdge::S => (HexEdge::SE, HexEdge::SW),
        HexEdge::SW => (HexEdge::S, HexEdge::NW),
        HexEdge::NW => (HexEdge::SW, HexEdge::N),
        _ => (HexEdge::N, HexEdge::S),
    }
}

/// The eight directions in their canonical order.
pub open spec fn edge_order() -> Seq<HexEdge> {
    seq![
        HexEdge::N,
        HexEdge::NE,
        HexEdge::SE,
        HexEdge::S,
        HexEdge::SW,
        HexEdge::NW,
        HexEdge::T,
        HexEdge::B,
    ]
}

impl Hex {
    /// The sentinel position of a piece that has not been placed yet.
    pub fn new() -> (h: Hex)
        ensures
            h.q == 0,
            h.r == 0,
            h.s == 0,
            h.z == isize::MAX,
    {
        Hex { q: 0, r: 0, s: 0, z: isize::MAX }
    }

    /// The hex one step away in direction `dir`.
    pub fn get_neighbor(&self, dir: HexEdge) -> (r: Hex)
        requires
            step_fits(*self, dir),
        ensures
            is_step(*self, r, dir),
    {
        match dir {
            HexEdge::N => Hex { q: self.q, r: self.r - 1, s: self.s + 1, z: self.z },
            HexEdge::NE => Hex { q: self.q + 1, r: self.r - 1, s: self.s, z: self.z },
            HexEdge::SE => Hex { q: self.q + 1, r: self.r, s: self.s - 1, z: self.z },
            HexEdge::S => Hex { q: self.q, r: self.r + 1, s: self.s - 1, z: self.z },
            HexEdge::SW => Hex { q: self.q - 1, r: self.r + 1, s: self.s, z: self.z },
            HexEdge::NW => Hex { q: self.q - 1, r: self.r, s: self.s + 1, z: self.z },
            HexEdge::T => Hex { q: self.q, r: self.r, s: self.s, z: self.z + 1 },
            HexEdge::B => Hex { q: self.q, r: self.r, s: self.s, z: self.z - 1 },
        }
    }

    /// The six lateral neighbors, in the canonical direction order.
    pub fn get_slide_neighbors(&self) -> (r: Vec<Hex>)
        requires
            forall|d: HexEdge| lateral(d) ==> #[trigger] step_fits(*self, d),
        ensures
            r@.len() == 6,
            forall|k: int| 0 <= k < 6 ==> is_step(*self, #[trigger] r@[k], edge_order()[k]),
            forall|h: Hex| #[trigger] r@.contains(h) <==> lateral_adjacent(*self, h),
    {
        let mut n: Vec<Hex> = Vec::new();
        n.push(self.get_neighbor(HexEdge::N));
        n.push(self.get_neighbor(HexEdge::NE));
        n.push(self.get_neighbor(HexEdge::SE));
        n.push(self.get_neighbor(HexEdge::S));
        n.push(self.get_neighbor(HexEdge::SW));
        n.push(self.get_neighbor(HexEdge::NW));
        proof {
            assert forall|h: Hex| #[trigger] n@.contains(h) implies lateral_adjacent(*self, h) by {
                let k = choose|k: int| 0 <= k < n@.len() && n@[k] == h;
                assert(lateral(edge_order()[k]) && is_step(*self, h, edge_order()[k]));
            }
            assert forall|h: Hex| lateral_adjacent(*self, h) implies n@.contains(h) by {
                let d = choose|d: HexEdge| lateral(d) && is_step(*self, h, d);
                match d {
                    HexEdge::N => assert(n@[0] == h),
                    HexEdge::NE => assert(n@[1] == h),
                    HexEdge::SE => assert(n@[2] == h),
                    HexEdge::S => assert(n@[3] == h),
                    HexEdge::SW => assert(n@[4] == h),
                    HexEdge::NW => assert(n@[5] == h),
                    _ => assert(false),
                }
            }
        }
        n
    }

    /// All eight neighbors, in the canonical direction order.
    pub fn get_neighbors(&self) -> (r: Vec<Hex>)
        requires
            forall|d: HexEdge| #[trigger] step_fits(*self, d),
        ensures
            r@.len() == 8,
            forall|k: int| 0 <= k < 8 ==> is_step(*self, #[trigger] r@[k], edge_order()[k]),
            forall|h: Hex| #[trigger] r@.contains(h) <==> hex_adjacent(*self, h),
    {
        let mut n: Vec<Hex> = Vec::new();
        n.push(self.get_neighbor(HexEdge::N));
        n.push(self.get_neighbor(HexEdge::NE));
        n.push(self.get_neighbor(HexEdge::SE));
        n.push(self.get_neighbor(HexEdge::S));
        n.push(self.get_neighbor(HexEdge::SW));
        n.push(self.get_neighbor(HexEdge::NW));
        n.push(self.get_neighbor(HexEdge::T));
        n.push(self.get_neighbor(HexEdge::B));
        proof {
            assert forall|h: Hex| #[trigger] n@.contains(h) implies hex_adjacent(*self, h) by {
                let k = choose|k: int| 0 <= k < n@.len() && n@[k] == h;
                assert(is_step(*self, h, edge_order()[k]));
            }
            assert forall|h: Hex| hex_adjacent(*self, h) implies n@.contains(h) by {
                let d = choose|d: HexEdge| is_step(*self, h, d);
                match d {
                    HexEdge::N => assert(n@[0] == h),
                    HexEdge::NE => assert(n@[1] == h),
                    HexEdge::SE => assert(n@[2] == h),
                    HexEdge::S => assert(n@[3] == h),
                    HexEdge::SW => assert(n@[4] == h),
                    HexEdge::NW => assert(n@[5] == h),
                    HexEdge::T => assert(n@[6] == h),
                    HexEdge::B => assert(n@[7] == h),
                }
            }
        }
        n
    }
}

impl HexEdge {
    /// The opposite direction; an involution pairing N with S, NE with SW,
    /// SE with NW and T with B.
    pub fn get_opposite(self) -> (r: Self)
        ensures
            r == opposite(self),
    {
        match self {
            Self::N => Self::S,
            Self::NE => Self::SW,
            Self::SE => Self::NW,
            Self::S => Self::N,
            Self::SW => Self::NE,
            Self::NW => Self::SE,
            Self::T => Self::B,
            Self::B => Self::T,
        }
    }

    /// The two gate directions flanking `self`.
    pub fn get_gate_edges(self) -> (r: [Self; 2])
        ensures
            r@.len() == 2,
            r@[0] == gate_pair(self).0,
            r@[1] == gate_pair(self).1,
    {
        match self {
            Self::N => [Self::NW, Self::NE],
            Self::NE => [Self::N, Self::SE],
            Self::SE => [Self::NE, Self::S],
            Self::S => [Self::SE, Self::SW],
            Self::SW => [Self::S, Self::NW],
            Self::NW => [Self::SW, Self::N],
            _ => [Self::N, Self::S],
        }
    }
}

/// All eight directions, in the canonical order.
pub fn get_edge_types() -> (r: [HexEdge; 8])
    ensures
        r@ == edge_order(),
{
    let r = [
        HexEdge::N,
        HexEdge::NE,
        HexEdge::SE,
        HexEdge::S,
        HexEdge::SW,
        HexEdge::NW,
        HexEdge::T,
        HexEdge::B,
    ];
    proof {
        assert(r@ =~= edge_order());
    }
    r
}

/// The position of each direction in the canonical order.
pub open spec fn edge_index(d: HexEdge) -> int {
    match d {
        HexEdge::N => 0,
        HexEdge::NE => 1,
        HexEdge::SE => 2,
        HexEdge::S => 3,
        HexEdge::SW => 4,
        HexEdge::NW => 5,
        HexEdge::T => 6,
        HexEdge::B => 7,
    }
}

/// `edge_index` inverts the canonical order, and the lateral directions are
/// exactly the first six.
pub proof fn lemma_edge_index(d: HexEdge)
    ensures
        0 <= edge_index(d) < 8,
        edge_order()[edge_index(d)] == d,
        lateral(d) <==> edge_index(d) < 6,
{
}

/// Taking the opposite direction twice returns to the original direction.
pub proof fn lemma_opposite_involution(d: HexEdge)
    ensures
        opposite(opposite(d)) == d,
{
}

/// One step in direction `d` is undone by one step in the opposite direction.
pub proof fn lemma_step_opposite(a: Hex, b: Hex, d: HexEdge)
    requires
        is_step(a, b, d),
    ensures
        is_step(b, a, opposite(d)),
{
}

/// Lateral adjacency is symmetric.
pub proof fn lemma_lateral_adjacent_symmetric(a: Hex, b: Hex)
    requires
        lateral_adjacent(a, b),
    ensures
        lateral_adjacent(b, a),
{
    let d = choose|d: HexEdge| lateral(d) && is_step(a, b, d);
    lemma_step_opposite(a, b, d);
    assert(lateral(opposite(d)) && is_step(b, a, opposite(d)));
}

/// Adjacency in the eight directions is symmetric.
pub proof fn lemma_hex_adjacent_symmetric(a: Hex, b: Hex)
    requires
        hex_adjacent(a, b),
    ensures
        hex_adjacent(b, a),
{
    let d = choose|d: HexEdge| is_step(a, b, d);
    lemma_step_opposite(a, b, d);
    assert(is_step(b, a, opposite(d)));
}

/// A hex whose coordinates can all move by one can step in every
/// direction.
pub proof fn lemma_step_safe_fits(h: Hex)
    requires
        hex_step_safe(h),
    ensures
        forall|d: HexEdge| step_fits(h, d),
{
}

/// A hex within the board bound can always step safely, in every direction.
pub proof fn lemma_in_bounds_step_safe(h: Hex)
    requires
        hex_in_bounds(h),
    ensures
        hex_step_safe(h),
        forall|d: HexEdge| step_fits(h, d),
{
}

} // verus!
