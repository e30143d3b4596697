//! The point store and the graph it carries: materialized globe samples,
//! adjacency lists, and the terrain-aware edge cost.

use crate::grid::{abs_i, valid_grid, GridPoint, GRID_SIZE_MAX};
use crate::numeric::{lemma_sqrt_floor_below, sqrt_floor};
use vstd::arithmetic::div_mod::{
    lemma_div_is_ordered, lemma_fundamental_div_mod, lemma_fundamental_div_mod_converse,
};
use vstd::prelude::*;

verus! {

/// Fixed-point unit: world lengths, penalties and costs carry `SCALE`
/// sub-units per world unit.
pub const SCALE: u64 = 256;

/// Largest magnitude of a stored position component, in `SCALE` sub-units.
pub const POS_LIMIT: i64 = 65536;

/// Largest stored movement penalty, in `SCALE` sub-units.
pub const PENALTY_LIMIT: u64 = 1048576;

/// Largest accepted climbing-cost coefficient, in `SCALE` sub-units.
pub const CLIMBING_LIMIT: u64 = 1048576;

/// One materialized sample of the globe surface: its displaced 3D position
/// (in `SCALE` sub-units), whether it is under water, and the movement
/// penalty of its terrain (at least `SCALE`, i.e. at least one).
#[derive(Clone, Copy, Debug)]
pub struct GlobePoint {
    pub pos: [i64; 3],
    pub water: bool,
    pub penalty: u64,
}

/// A directed adjacency record: the neighbor reached, the traversal cost in
/// `SCALE` sub-units, and whether the one-time reuse discount was applied.
#[derive(Clone, Copy, Debug)]
pub struct Edge {
    pub to: GridPoint,
    pub cost: u64,
    pub discounted: bool,
}

/// A stored sample keeps its position and penalty inside the fixed-point
/// range the cost arithmetic is sized for.
pub open spec fn point_wf(p: GlobePoint) -> bool {
    &&& -POS_LIMIT <= p.pos[0] <= POS_LIMIT
    &&& -POS_LIMIT <= p.pos[1] <= POS_LIMIT
    &&& -POS_LIMIT <= p.pos[2] <= POS_LIMIT
    &&& SCALE <= p.penalty <= PENALTY_LIMIT
}

/// Number of grid slots of a globe of resolution `size`: six faces of
/// `(size+1) * (size+1)` samples.
pub open spec fn slot_count(size: int) -> int {
    6 * (size + 1) * (size + 1)
}

/// Dense slot index of a grid coordinate.
pub open spec fn idx_spec(g: GridPoint, size: int) -> int {
    ((g.0 as int) * (size + 1) + (g.1 as int)) * (size + 1) + (g.2 as int)
}

/// Inverse of `idx_spec`: the grid coordinate stored at a slot.
pub open spec fn grid_of_spec(i: int, size: int) -> GridPoint {
    let m = size + 1;
    let q1 = i / m;
    (((q1 / m) as u32), ((q1 % m) as u32), ((i % m) as u32))
}

/// The slot index is within range and decodes back to the grid coordinate.
pub proof fn lemma_idx_roundtrip(g: GridPoint, size: int)
    requires
        1 <= size <= GRID_SIZE_MAX,
        valid_grid(g, size as u32),
    ensures
        0 <= idx_spec(g, size) < slot_count(size),
        grid_of_spec(idx_spec(g, size), size) == g,
{
    let m = size + 1;
    let f = g.0 as int;
    let r = g.1 as int;
    let c = g.2 as int;
    let q1 = f * m + r;
    let i = q1 * m + c;
    assert(i == idx_spec(g, size));
    assert(0 <= q1 < 6 * m) by (nonlinear_arith)
        requires
            0 <= f < 6,
            0 <= r < m,
            q1 == f * m + r,
    ;
    assert(0 <= i < 6 * m * m) by (nonlinear_arith)
        requires
            0 <= q1 < 6 * m,
            0 <= c < m,
            i == q1 * m + c,
            m >= 1,
    ;
    assert(slot_count(size) == 6 * m * m) by (nonlinear_arith)
        requires
            m == size + 1,
    ;
    lemma_fundamental_div_mod_converse(i, m, q1, c);
    lemma_fundamental_div_mod_converse(q1, m, f, r);
}

/// Every in-range slot index decodes to a valid grid coordinate that encodes
/// back to the same index.
pub proof fn lemma_grid_of_valid(i: int, size: int)
    requires
        1 <= size <= GRID_SIZE_MAX,
        0 <= i < slot_count(size),
    ensures
        valid_grid(grid_of_spec(i, size), size as u32),
        idx_spec(grid_of_spec(i, size), size) == i,
{
    let m = size + 1;
    let q1 = i / m;
    let c = i % m;
    let f = q1 / m;
    let r = q1 % m;
    lemma_fundamental_div_mod(i, m);
    lemma_fundamental_div_mod(q1, m);
    assert(0 <= c < m);
    assert(i < 6 * m * m);
    assert(q1 < 6 * m) by (nonlinear_arith)
        requires
            i == m * q1 + c,
            0 <= c < m,
            i < 6 * m * m,
            m >= 1,
            q1 >= 0,
    ;
    assert(0 <= r < m);
    assert(f < 6) by (nonlinear_arith)
        requires
            q1 == m * f + r,
            0 <= r < m,
            q1 < 6 * m,
            m >= 1,
            f >= 0,
    ;
    assert(q1 >= 0) by {
        lemma_div_is_ordered(0, i, m);
    }
    assert(f >= 0) by {
        lemma_div_is_ordered(0, q1, m);
    }
    assert(idx_spec(grid_of_spec(i, size), size) == (f * m + r) * m + c);
    assert((f * m + r) * m + c == i) by (nonlinear_arith)
        requires
            i == m * q1 + c,
            q1 == m * f + r,
    ;
}

/// The point store together with the adjacency graph built over it.
pub struct GlobePoints {
    pub grid_size: u32,
    pub points: Vec<Option<GlobePoint>>,
    pub graph: Vec<Vec<Edge>>,
}

impl GlobePoints {
    /// Structural well-formedness: the store holds one slot per grid
    /// coordinate, every stored sample is in range, and every edge points at
    /// a valid, stored neighbor. A slot with edges always holds a sample.
    pub open spec fn wf(self) -> bool {
        &&& 1 <= self.grid_size <= GRID_SIZE_MAX
        &&& self.points@.len() == slot_count(self.grid_size as int)
        &&& self.graph@.len() == slot_count(self.grid_size as int)
        &&& (forall|i: int|
            0 <= i < self.points@.len() && self.points@[i] is Some ==> point_wf(
                #[trigger] self.points@[i]->0,
            ))
        &&& (forall|i: int, k: int|
            0 <= i < self.graph@.len() && 0 <= k < self.graph@[i].len() ==> {
                let e = #[trigger] self.graph@[i][k];
                &&& valid_grid(e.to, self.grid_size)
                &&& self.points@[idx_spec(e.to, self.grid_size as int)] is Some
            })
        &&& (forall|i: int|
            0 <= i < self.graph@.len() && #[trigger] self.graph@[i].len() > 0
                ==> self.points@[i] is Some)
    }

    /// The grid coordinate has a stored sample.
    pub open spec fn stored(self, g: GridPoint) -> bool {
        &&& valid_grid(g, self.grid_size)
        &&& self.points@[idx_spec(g, self.grid_size as int)] is Some
    }

    /// The stored sample of a grid coordinate.
    pub open spec fn point_at(self, g: GridPoint) -> GlobePoint {
        self.points@[idx_spec(g, self.grid_size as int)]->0
    }

    /// The adjacency list of a grid coordinate.
    pub open spec fn edges_at(self, g: GridPoint) -> Seq<Edge> {
        self.graph@[idx_spec(g, self.grid_size as int)]@
    }

    /// A directed edge from `u` to `v` exists.
    pub open spec fn has_edge(self, u: GridPoint, v: GridPoint) -> bool {
        &&& valid_grid(u, self.grid_size)
        &&& exists|k: int| 0 <= k < self.edges_at(u).len() && self.edges_at(u)[k].to == v
    }

    /// A directed edge from `u` to `v` with cost `c` exists.
    pub open spec fn has_edge_cost(self, u: GridPoint, v: GridPoint, c: u64) -> bool {
        &&& valid_grid(u, self.grid_size)
        &&& exists|k: int|
            0 <= k < self.edges_at(u).len() && self.edges_at(u)[k].to == v
                && self.edges_at(u)[k].cost == c
    }

    /// Every edge has a reverse edge: the graph is logically undirected.
    pub open spec fn symmetric(self) -> bool {
        forall|u: GridPoint, v: GridPoint| #[trigger]
            self.has_edge(u, v) ==> self.has_edge(v, u)
    }

    /// Consecutive entries of the sequence are all connected by edges.
    pub open spec fn is_chain(self, p: Seq<GridPoint>) -> bool {
        forall|i: int| 0 <= i < p.len() - 1 ==> self.has_edge(#[trigger] p[i], p[i + 1])
    }

    /// The sequence walks the graph from `s` to `t`.
    pub open spec fn is_path(self, p: Seq<GridPoint>, s: GridPoint, t: GridPoint) -> bool {
        &&& p.len() >= 1
        &&& p[0] == s
        &&& p[p.len() - 1] == t
        &&& self.is_chain(p)
    }

    /// `t` can be reached from `s` along edges.
    pub open spec fn reachable(self, s: GridPoint, t: GridPoint) -> bool {
        exists|p: Seq<GridPoint>| self.is_path(p, s, t)
    }

    /// An empty globe of the given resolution: every slot unset, no edges.
    pub fn new(grid_size: u32) -> (r: GlobePoints)
        requires
            1 <= grid_size <= GRID_SIZE_MAX,
        ensures
            r.wf(),
            r.grid_size == grid_size,
            forall|i: int| 0 <= i < r.points@.len() ==> r.points@[i] is None,
            forall|i: int| 0 <= i < r.graph@.len() ==> r.graph@[i].len() == 0,
    {
        let n = slots(grid_size);
        let mut points: Vec<Option<GlobePoint>> = Vec::new();
        let mut graph: Vec<Vec<Edge>> = Vec::new();
        while points.len() < n
            invariant
                points@.len() <= n,
                forall|i: int| 0 <= i < points@.len() ==> points@[i] is None,
            decreases n - points@.len(),
        {
            points.push(None);
        }
        while graph.len() < n
            invariant
                graph@.len() <= n,
                forall|i: int| 0 <= i < graph@.len() ==> graph@[i].len() == 0,
            decreases n - graph@.len(),
        {
            graph.push(Vec::new());
        }
        GlobePoints { grid_size, points, graph }
    }

    /// Stores (or replaces) the sample of one grid coordinate. The graph is
    /// untouched: samples are laid down before any edges are built.
    pub fn add_point(&mut self, grid: GridPoint, point: GlobePoint)
        requires
            old(self).wf(),
            valid_grid(grid, old(self).grid_size),
            point_wf(point),
        ensures
            final(self).wf(),
            final(self).grid_size == old(self).grid_size,
            final(self).graph == old(self).graph,
            final(self).points@ == old(self).points@.update(
                idx_spec(grid, old(self).grid_size as int),
                Some(point),
            ),
    {
        let i = idx_of(grid, self.grid_size);
        self.points[i] = Some(point);
        proof {
            let sz = self.grid_size as int;
            assert forall|j: int|
                0 <= j < self.points@.len() && self.points@[j] is Some implies point_wf(
                #[trigger] self.points@[j]->0,
            ) by {
                if j != i as int {
                    assert(old(self).points@[j] is Some);
                }
            }
            assert forall|j: int, k: int|
                0 <= j < self.graph@.len() && 0 <= k < self.graph@[j].len() implies {
                    let e = #[trigger] self.graph@[j][k];
                    &&& valid_grid(e.to, self.grid_size)
                    &&& self.points@[idx_spec(e.to, sz)] is Some
                } by {
                let e = self.graph@[j][k];
                assert(old(self).graph@[j][k] == e);
                assert(valid_grid(e.to, old(self).grid_size));
                lemma_idx_roundtrip(e.to, sz);
                if idx_spec(e.to, sz) != i as int {
                    assert(old(self).points@[idx_spec(e.to, sz)] is Some);
                }
            }
            assert forall|j: int|
                0 <= j < self.graph@.len() && #[trigger] self.graph@[j].len() > 0 implies self
                .points@[j] is Some by {
                if j != i as int {
                    assert(old(self).points@[j] is Some);
                }
            }
        }
    }

    /// The stored sample of a grid coordinate, if any.
    pub fn point(&self, grid: GridPoint) -> (r: Option<GlobePoint>)
        requires
            self.wf(),
            valid_grid(grid, self.grid_size),
        ensures
            r == self.points@[idx_spec(grid, self.grid_size as int)],
    {
        let i = idx_of(grid, self.grid_size);
        self.points[i]
    }

    /// A copy of the adjacency list of a grid coordinate.
    pub fn edge_list(&self, grid: GridPoint) -> (r: Vec<Edge>)
        requires
            self.wf(),
            valid_grid(grid, self.grid_size),
        ensures
            r@ == self.edges_at(grid),
    {
        let i = idx_of(grid, self.grid_size);
        let src = &self.graph[i];
        let mut out: Vec<Edge> = Vec::new();
        let mut k: usize = 0;
        while k < src.len()
            invariant
                k <= src@.len(),
                out@ == src@.take(k as int),
            decreases src@.len() - k,
        {
            out.push(src[k]);
            proof {
                assert(out@ == src@.take(k as int + 1));
            }
            k = k + 1;
        }
        proof {
            assert(src@.take(src@.len() as int) == src@);
        }
        out
    }
}

/// Number of grid slots of a globe of resolution `grid_size`.
pub fn slots(grid_size: u32) -> (r: usize)
    requires
        1 <= grid_size <= GRID_SIZE_MAX,
    ensures
        r == slot_count(grid_size as int),
{
    let m = grid_size as usize + 1;
    proof {
        assert(6 * (m as int) * (m as int) <= 6 * 4097 * 4097) by (nonlinear_arith)
            requires
                0 < m <= 4097,
        ;
    }
    6 * m * m
}

/// Dense slot index of a valid grid coordinate.
pub fn idx_of(grid: GridPoint, grid_size: u32) -> (r: usize)
    requires
        1 <= grid_size <= GRID_SIZE_MAX,
        valid_grid(grid, grid_size),
    ensures
        r == idx_spec(grid, grid_size as int),
        r < slot_count(grid_size as int),
{
    let m = grid_size as usize + 1;
    proof {
        lemma_idx_roundtrip(grid, grid_size as int);
        assert((grid.0 as int) * (m as int) <= 5 * 4097 && 0 <= (grid.0 as int) * (m as int) && (
        (grid.0 as int) * (m as int) + (grid.1 as int)) * (m as int) <= (5 * 4097 + 4096) * 4097
            && 0 <= ((grid.0 as int) * (m as int) + (grid.1 as int)) * (m as int))
            by (nonlinear_arith)
            requires
                0 <= (grid.0 as int) && (grid.0 as int) < 6,
                0 <= (grid.1 as int) && (grid.1 as int) < (m as int),
                0 < (m as int) && (m as int) <= 4097,
        ;
    }
    ((grid.0 as usize) * m + (grid.1 as usize)) * m + (grid.2 as usize)
}

/// The grid coordinate stored at a slot index.
pub fn grid_at(i: usize, grid_size: u32) -> (g: GridPoint)
    requires
        1 <= grid_size <= GRID_SIZE_MAX,
        i < slot_count(grid_size as int),
    ensures
        g == grid_of_spec(i as int, grid_size as int),
        valid_grid(g, grid_size),
        idx_spec(g, grid_size as int) == i,
{
    proof {
        lemma_grid_of_valid(i as int, grid_size as int);
    }
    let m = grid_size as usize + 1;
    let q1 = i / m;
    ((q1 / m) as u32, (q1 % m) as u32, (i % m) as u32)
}

/// Squared 3D distance between two samples' positions.
pub open spec fn pos_dist2(p: GlobePoint, q: GlobePoint) -> int {
    let dx = p.pos[0] - q.pos[0];
    let dy = p.pos[1] - q.pos[1];
    let dz = p.pos[2] - q.pos[2];
    dx * dx + dy * dy + dz * dz
}

/// Squared distance of a sample's position from the globe's center.
pub open spec fn pos_norm2(p: GlobePoint) -> int {
    (p.pos[0] as int) * (p.pos[0] as int) + (p.pos[1] as int) * (p.pos[1] as int) + (
    p.pos[2] as int) * (p.pos[2] as int)
}

/// The larger of the two endpoint penalties: one bad endpoint taints the
/// whole edge.
pub open spec fn max_penalty(p: GlobePoint, q: GlobePoint) -> int {
    if p.penalty >= q.penalty {
        p.penalty as int
    } else {
        q.penalty as int
    }
}

/// The cost of traversing between two adjacent samples, in `SCALE`
/// sub-units: the 3D distance raised to the sub-linear power 3/4 (slightly
/// favoring longer single hops), plus a climbing term proportional to the
/// height difference, all scaled by the worse of the two terrain penalties.
pub open spec fn cost_spec(p: GlobePoint, q: GlobePoint, climbing_cost: u64) -> int {
    let d = sqrt_floor(pos_dist2(p, q) as nat) as int;
    let sub = sqrt_floor(sqrt_floor(((SCALE as int) * d * d * d) as nat)) as int;
    let hp = sqrt_floor(pos_norm2(p) as nat) as int;
    let hq = sqrt_floor(pos_norm2(q) as nat) as int;
    let climb = ((climbing_cost as int) * abs_i(hp - hq)) / (SCALE as int);
    ((sub + climb) * max_penalty(p, q)) / (SCALE as int)
}

/// The edge cost is symmetric in its two endpoints.
pub proof fn lemma_cost_symmetric(p: GlobePoint, q: GlobePoint, climbing_cost: u64)
    ensures
        cost_spec(p, q, climbing_cost) == cost_spec(q, p, climbing_cost),
{
    assert(pos_dist2(p, q) == pos_dist2(q, p)) by (nonlinear_arith);
    assert(max_penalty(p, q) == max_penalty(q, p));
    let hp = sqrt_floor(pos_norm2(p) as nat) as int;
    let hq = sqrt_floor(pos_norm2(q) as nat) as int;
    assert(abs_i(hp - hq) == abs_i(hq - hp));
}

/// The edge cost is never negative.
pub proof fn lemma_cost_nonneg(p: GlobePoint, q: GlobePoint, climbing_cost: u64)
    ensures
        cost_spec(p, q, climbing_cost) >= 0,
{
    let d = sqrt_floor(pos_dist2(p, q) as nat) as int;
    let sub = sqrt_floor(sqrt_floor(((SCALE as int) * d * d * d) as nat)) as int;
    let hp = sqrt_floor(pos_norm2(p) as nat) as int;
    let hq = sqrt_floor(pos_norm2(q) as nat) as int;
    let climb = ((climbing_cost as int) * abs_i(hp - hq)) / (SCALE as int);
    assert(climb >= 0) by (nonlinear_arith)
        requires
            climb == ((climbing_cost as int) * abs_i(hp - hq)) / (SCALE as int),
            climbing_cost as int >= 0,
            abs_i(hp - hq) >= 0,
    ;
    assert(((sub + climb) * max_penalty(p, q)) / (SCALE as int) >= 0) by (nonlinear_arith)
        requires
            sub >= 0,
            climb >= 0,
            max_penalty(p, q) >= 0,
    ;
}

/// Computes the traversal cost between two stored samples.
pub fn cost(p: &GlobePoint, q: &GlobePoint, climbing_cost: u64) -> (r: u64)
    requires
        point_wf(*p),
        point_wf(*q),
        climbing_cost <= CLIMBING_LIMIT,
    ensures
        r as int == cost_spec(*p, *q, climbing_cost),
{
    let dx = p.pos[0] - q.pos[0];
    let dy = p.pos[1] - q.pos[1];
    let dz = p.pos[2] - q.pos[2];
    proof {
        assert(dx * dx + dy * dy + dz * dz <= 3 * (2 * (POS_LIMIT as int)) * (2 * (
        POS_LIMIT as int)) && dx * dx >= 0 && dy * dy >= 0 && dz * dz >= 0) by (nonlinear_arith)
            requires
                -2 * (POS_LIMIT as int) <= dx <= 2 * (POS_LIMIT as int),
                -2 * (POS_LIMIT as int) <= dy <= 2 * (POS_LIMIT as int),
                -2 * (POS_LIMIT as int) <= dz <= 2 * (POS_LIMIT as int),
        ;
        assert(3 * (2 * (POS_LIMIT as int)) * (2 * (POS_LIMIT as int)) < 262144 * 262144)
            by (nonlinear_arith);
    }
    let dist2 = (dx * dx + dy * dy + dz * dz) as u64;
    let d = crate::numeric::isqrt(dist2);
    proof {
        lemma_sqrt_floor_below(dist2 as nat, 262144);
    }
    let t1 = SCALE * d;
    proof {
        assert((t1 as int) * (d as int) < 0x1000_0000_0000) by (nonlinear_arith)
            requires
                0 <= (t1 as int) && (t1 as int) <= 256 * 262143,
                0 <= (d as int) && (d as int) < 262144,
        ;
    }
    let t2 = t1 * d;
    proof {
        assert((t2 as int) * (d as int) < 0x4000_0000_0000_0000) by (nonlinear_arith)
            requires
                0 <= (t2 as int) && (t2 as int) < 0x1000_0000_0000,
                0 <= (d as int) && (d as int) < 262144,
        ;
    }
    let t = t2 * d;
    proof {
        assert((t as int) < 0x8000_0000 * 0x8000_0000) by (nonlinear_arith)
            requires
                (t as int) < 0x4000_0000_0000_0000,
        ;
        lemma_sqrt_floor_below(t as nat, 0x8000_0000);
    }
    let s1 = crate::numeric::isqrt(t);
    proof {
        assert((s1 as int) < 65536 * 65536) by (nonlinear_arith)
            requires
                (s1 as int) < 0x8000_0000,
        ;
        lemma_sqrt_floor_below(s1 as nat, 65536);
    }
    let sub = crate::numeric::isqrt(s1);
    let np = pos_norm2_exec(p);
    let nq = pos_norm2_exec(q);
    proof {
        assert((np as int) < 131072 * 131072 && (nq as int) < 131072 * 131072)
            by (nonlinear_arith)
            requires
                (np as int) <= 3 * 65536 * 65536,
                (nq as int) <= 3 * 65536 * 65536,
        ;
        lemma_sqrt_floor_below(np as nat, 131072);
        lemma_sqrt_floor_below(nq as nat, 131072);
    }
    let hp = crate::numeric::isqrt(np);
    let hq = crate::numeric::isqrt(nq);
    let dh = if hp >= hq {
        hp - hq
    } else {
        hq - hp
    };
    proof {
        assert(abs_i(hp as int - hq as int) == dh as int);
        assert((climbing_cost as int) * (dh as int) <= 1048576 * 131072 && 0 <= (
        climbing_cost as int) * (dh as int)) by (nonlinear_arith)
            requires
                0 <= (climbing_cost as int) && (climbing_cost as int) <= 1048576,
                0 <= (dh as int) && (dh as int) < 131072,
        ;
    }
    let climb = (climbing_cost * dh) / SCALE;
    proof {
        lemma_div_is_ordered((climbing_cost as int) * (dh as int), (1048576 * 131072) as int, 256);
    }
    let pen = if p.penalty >= q.penalty {
        p.penalty
    } else {
        q.penalty
    };
    let sum = sub + climb;
    proof {
        assert((sum as int) * (pen as int) <= 0x2_0000_0000 * 1048576 && 0 <= (sum as int) * (
        pen as int)) by (nonlinear_arith)
            requires
                0 <= (sum as int) && (sum as int) <= 0x2_0000_0000,
                0 <= (pen as int) && (pen as int) <= 1048576,
        ;
    }
    (sum * pen) / SCALE
}

/// Squared distance of a sample's position from the globe's center.
fn pos_norm2_exec(p: &GlobePoint) -> (r: u64)
    requires
        point_wf(*p),
    ensures
        r as int == pos_norm2(*p),
        r as int <= 3 * 65536 * 65536,
{
    proof {
        assert((p.pos[0] as int) * (p.pos[0] as int) + (p.pos[1] as int) * (p.pos[1] as int) + (
        p.pos[2] as int) * (p.pos[2] as int) <= 3 * (POS_LIMIT as int) * (POS_LIMIT as int)
            && (p.pos[0] as int) * (p.pos[0] as int) >= 0 && (p.pos[1] as int) * (p.pos[1] as int)
            >= 0 && (p.pos[2] as int) * (p.pos[2] as int) >= 0) by (nonlinear_arith)
            requires
                -(POS_LIMIT as int) <= (p.pos[0] as int) <= (POS_LIMIT as int),
                -(POS_LIMIT as int) <= (p.pos[1] as int) <= (POS_LIMIT as int),
                -(POS_LIMIT as int) <= (p.pos[2] as int) <= (POS_LIMIT as int),
        ;
    }
    let x = p.pos[0];
    let y = p.pos[1];
    let z = p.pos[2];
    (x * x + y * y + z * z) as u64
}

} // verus!
