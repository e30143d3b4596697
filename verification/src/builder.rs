//! The graph builder: discovers every near neighbor of every stored sample,
//! same-face neighbors by raster offset and cross-face neighbors by
//! cube-space distance, and inserts one weighted edge per direction.

use crate::globe::{
    cost, cost_spec, grid_at, grid_of_spec, idx_of, idx_spec, lemma_cost_symmetric, lemma_grid_of_valid,
    lemma_idx_roundtrip, point_wf, slot_count, slots, Edge, GlobePoint, GlobePoints,
    CLIMBING_LIMIT,
};
use crate::grid::{cube_dist2, cubic, cubic_spec, valid_grid, GridPoint, GRID_SIZE_MAX};
use vstd::prelude::*;

verus! {

/// How far, in raster steps, the builder looks for neighbors.
pub const STEP_RADIUS: u32 = 7;

/// The point sits within `STEP_RADIUS` of one of the four edges of its face,
/// so neighbors may also sit on other faces.
pub open spec fn near_boundary(g: GridPoint, size: int) -> bool {
    ||| g.1 <= STEP_RADIUS
    ||| g.1 + STEP_RADIUS >= size
    ||| g.2 <= STEP_RADIUS
    ||| g.2 + STEP_RADIUS >= size
}

/// `n` is a same-face neighbor of `g`: a distinct point within the raster
/// step radius.
pub open spec fn raster_neighbor(g: GridPoint, n: GridPoint, size: int) -> bool {
    let di = n.1 as int - g.1 as int;
    let dj = n.2 as int - g.2 as int;
    &&& n.0 == g.0
    &&& n.1 <= size
    &&& n.2 <= size
    &&& -(STEP_RADIUS as int) <= di <= STEP_RADIUS as int
    &&& -(STEP_RADIUS as int) <= dj <= STEP_RADIUS as int
    &&& !(di == 0 && dj == 0)
    &&& di * di + dj * dj <= (STEP_RADIUS as int) * (STEP_RADIUS as int)
}

/// `n` is a candidate for a cross-seam neighbor of points on `face`: it lies
/// on another face, within the step radius of one of that face's edges.
pub open spec fn seam_candidate(face: u32, size: int, n: GridPoint) -> bool {
    &&& n.0 < 6
    &&& n.0 != face
    &&& n.1 <= size
    &&& n.2 <= size
    &&& near_boundary(n, size)
}

/// `n` is a cross-seam neighbor of `g`: both sit near their faces' edges and
/// their cube-space positions are within the step radius (and not
/// coincident, which happens for the coordinate aliases of seam samples).
pub open spec fn seam_neighbor(g: GridPoint, n: GridPoint, size: int) -> bool {
    &&& near_boundary(g, size)
    &&& seam_candidate(g.0, size, n)
    &&& 0 < cube_dist2(cubic_spec(g, size), cubic_spec(n, size))
    &&& cube_dist2(cubic_spec(g, size), cubic_spec(n, size)) <= (STEP_RADIUS as int) * (
    STEP_RADIUS as int)
}

/// The grid coordinate has a stored sample in the given point store.
pub open spec fn stored_pts(points: Seq<Option<GlobePoint>>, size: u32, g: GridPoint) -> bool {
    &&& valid_grid(g, size)
    &&& points[idx_spec(g, size as int)] is Some
}

/// The stored sample of a grid coordinate in the given point store.
pub open spec fn pt_at(points: Seq<Option<GlobePoint>>, size: u32, g: GridPoint) -> GlobePoint {
    points[idx_spec(g, size as int)]->0
}

/// The builder links `g` to `n` exactly when both are stored and `n` is a
/// raster or a seam neighbor of `g`.
pub open spec fn discovered_pts(
    points: Seq<Option<GlobePoint>>,
    size: u32,
    g: GridPoint,
    n: GridPoint,
) -> bool {
    &&& stored_pts(points, size, g)
    &&& stored_pts(points, size, n)
    &&& (raster_neighbor(g, n, size as int) || seam_neighbor(g, n, size as int))
}

/// `discovered_pts` over a globe's own store.
pub open spec fn discovered(gp: GlobePoints, g: GridPoint, n: GridPoint) -> bool {
    discovered_pts(gp.points@, gp.grid_size, g, n)
}

/// Some edge of the list points at `t`.
pub open spec fn contains_tgt(s: Seq<Edge>, t: GridPoint) -> bool {
    exists|k: int| 0 <= k < s.len() && s[k].to == t
}

/// No two edges of the list point at the same neighbor.
pub open spec fn distinct_tgts(s: Seq<Edge>) -> bool {
    forall|k1: int, k2: int|
        0 <= k1 < s.len() && 0 <= k2 < s.len() && s[k1].to == s[k2].to ==> k1 == k2
}

/// An adjacency list is exactly what the builder discovers for `g`: one
/// fresh, correctly priced edge per discovered neighbor.
pub open spec fn row_built(
    points: Seq<Option<GlobePoint>>,
    size: u32,
    row: Seq<Edge>,
    g: GridPoint,
    climbing_cost: u64,
) -> bool {
    &&& distinct_tgts(row)
    &&& (forall|k: int|
        0 <= k < row.len() ==> {
            let e = #[trigger] row[k];
            &&& discovered_pts(points, size, g, e.to)
            &&& e.cost as int == cost_spec(
                pt_at(points, size, g),
                pt_at(points, size, e.to),
                climbing_cost,
            )
            &&& !e.discounted
        })
    &&& (forall|n: GridPoint| discovered_pts(points, size, g, n) ==> contains_tgt(row, n))
}

/// The adjacency list of slot `j` is exactly what the builder discovers for
/// its grid coordinate.
pub open spec fn slot_built(gp: GlobePoints, j: int, climbing_cost: u64) -> bool {
    row_built(
        gp.points@,
        gp.grid_size,
        gp.graph@[j]@,
        grid_of_spec(j, gp.grid_size as int),
        climbing_cost,
    )
}

/// The whole graph is exactly what the builder produces.
pub open spec fn built_from(gp: GlobePoints, climbing_cost: u64) -> bool {
    forall|j: int| 0 <= j < gp.graph@.len() ==> slot_built(gp, j, climbing_cost)
}

/// Discovery is symmetric: raster offsets negate, and the cube-space
/// distance together with the two band conditions read the same from both
/// sides of a seam.
pub proof fn lemma_discovered_symmetric(gp: GlobePoints, g: GridPoint, n: GridPoint)
    requires
        discovered(gp, g, n),
    ensures
        discovered(gp, n, g),
{
    let size = gp.grid_size as int;
    if raster_neighbor(g, n, size) {
        let di = n.1 as int - g.1 as int;
        let dj = n.2 as int - g.2 as int;
        let ei = g.1 as int - n.1 as int;
        let ej = g.2 as int - n.2 as int;
        assert(ei * ei + ej * ej == di * di + dj * dj) by (nonlinear_arith)
            requires
                ei == -di,
                ej == -dj,
        ;
    } else {
        let a = cubic_spec(g, size);
        let b = cubic_spec(n, size);
        assert(cube_dist2(b, a) == cube_dist2(a, b)) by (nonlinear_arith);
    }
}

/// Symmetry of adjacency: whenever the builder inserts an edge `u -> v` with
/// cost `c`, it also inserts `v -> u` with the same cost.
pub proof fn lemma_adjacency_symmetric(
    gp: GlobePoints,
    climbing_cost: u64,
    u: GridPoint,
    v: GridPoint,
    c: u64,
)
    requires
        gp.wf(),
        built_from(gp, climbing_cost),
        gp.has_edge_cost(u, v, c),
    ensures
        gp.has_edge_cost(v, u, c),
{
    let size = gp.grid_size as int;
    let iu = idx_spec(u, size);
    lemma_idx_roundtrip(u, size);
    let k = choose|k: int|
        0 <= k < gp.edges_at(u).len() && gp.edges_at(u)[k].to == v && gp.edges_at(u)[k].cost == c;
    assert(slot_built(gp, iu, climbing_cost));
    assert(discovered(gp, u, v));
    lemma_discovered_symmetric(gp, u, v);
    let iv = idx_spec(v, size);
    lemma_idx_roundtrip(v, size);
    assert(slot_built(gp, iv, climbing_cost));
    assert(contains_tgt(gp.graph@[iv]@, u));
    let k2 = choose|k2: int| 0 <= k2 < gp.graph@[iv]@.len() && gp.graph@[iv]@[k2].to == u;
    lemma_cost_symmetric(gp.point_at(u), gp.point_at(v), climbing_cost);
    assert(gp.edges_at(v)[k2].to == u && gp.edges_at(v)[k2].cost == c);
}

/// A freshly built graph is logically undirected.
pub proof fn lemma_built_symmetric(gp: GlobePoints, climbing_cost: u64)
    requires
        gp.wf(),
        built_from(gp, climbing_cost),
    ensures
        gp.symmetric(),
{
    assert forall|u: GridPoint, v: GridPoint| #[trigger] gp.has_edge(u, v) implies gp.has_edge(
        v,
        u,
    ) by {
        let k = choose|k: int| 0 <= k < gp.edges_at(u).len() && gp.edges_at(u)[k].to == v;
        let size = gp.grid_size as int;
        lemma_idx_roundtrip(u, size);
        assert(slot_built(gp, idx_spec(u, size), climbing_cost));
        assert(discovered(gp, u, v));
        lemma_discovered_symmetric(gp, u, v);
        lemma_idx_roundtrip(v, size);
        assert(slot_built(gp, idx_spec(v, size), climbing_cost));
        assert(contains_tgt(gp.graph@[idx_spec(v, size)]@, u));
        let k2 = choose|k2: int|
            0 <= k2 < gp.edges_at(v).len() && gp.edges_at(v)[k2].to == u;
        assert(gp.edges_at(v)[k2].to == u);
    }
}

/// True when the edge list already points at `t`.
fn contains_target(edges: &Vec<Edge>, t: GridPoint) -> (r: bool)
    ensures
        r == contains_tgt(edges@, t),
{
    let mut k: usize = 0;
    while k < edges.len()
        invariant
            k <= edges@.len(),
            forall|j: int| 0 <= j < k ==> edges@[j].to != t,
        decreases edges@.len() - k,
    {
        let e = &edges[k];
        if e.to.0 == t.0 && e.to.1 == t.1 && e.to.2 == t.2 {
            assert(edges@[k as int].to == t);
            return true;
        }
        k = k + 1;
    }
    false
}

/// One band of seam candidates: every point of some other face whose row
/// (column, when `transpose`) is within `smax` of the low (high, when
/// `!low`) end of its range.
pub open spec fn band_cond(
    face: u32,
    size: int,
    smax: int,
    low: bool,
    transpose: bool,
    n: GridPoint,
) -> bool {
    let w = if transpose {
        n.2 as int
    } else {
        n.1 as int
    };
    &&& n.0 < 6
    &&& n.0 != face
    &&& n.1 <= size
    &&& n.2 <= size
    &&& (if low {
        w <= smax
    } else {
        w + smax >= size
    })
}

/// The band coordinate that the `sm` loop of `push_band` reaches `n` at.
pub open spec fn band_rank(size: int, smax: int, low: bool, transpose: bool, n: GridPoint) -> int {
    let w = if transpose {
        n.2 as int
    } else {
        n.1 as int
    };
    if low {
        w
    } else {
        size - w
    }
}

/// Membership in a list after a push: the old entries plus the new one.
proof fn lemma_contains_push(s: Seq<GridPoint>, v: GridPoint, n: GridPoint)
    ensures
        contains_pt(s.push(v), n) <==> (contains_pt(s, n) || n == v),
{
    if contains_pt(s.push(v), n) {
        let k = choose|k: int| 0 <= k < s.push(v).len() && s.push(v)[k] == n;
        if k < s.len() {
            assert(s[k] == n);
        }
    }
    if contains_pt(s, n) {
        let k = choose|k: int| 0 <= k < s.len() && s[k] == n;
        assert(s.push(v)[k] == n);
    }
    if n == v {
        assert(s.push(v)[s.len() as int] == n);
    }
}

/// Appends one band of seam candidates to `out`.
fn push_band(out: &mut Vec<GridPoint>, face: u32, size: u32, smax: u32, low: bool, transpose: bool)
    requires
        face < 6,
        1 <= size <= GRID_SIZE_MAX,
        smax <= size,
    ensures
        forall|n: GridPoint| #![trigger contains_pt(final(out)@, n)] #![trigger contains_pt(old(out)@, n)] #![trigger band_cond(face, size as int, smax as int, low, transpose, n)]
            contains_pt(final(out)@, n) <==> contains_pt(old(out)@, n) || band_cond(
                face,
                size as int,
                smax as int,
                low,
                transpose,
                n,
            ),
{
    let ghost orig = out@;
    let ghost sz = size as int;
    let ghost sx = smax as int;
    let mut of: u32 = 0;
    while of < 6
        invariant
            of <= 6,
            face < 6,
            1 <= size <= GRID_SIZE_MAX,
            smax <= size,
            sz == size as int,
            sx == smax as int,
            forall|n: GridPoint| #![trigger contains_pt(out@, n)] #![trigger contains_pt(orig, n)] #![trigger band_cond(face, sz, sx, low, transpose, n)]
                contains_pt(out@, n) <==> contains_pt(orig, n) || (band_cond(
                    face,
                    sz,
                    sx,
                    low,
                    transpose,
                    n,
                ) && n.0 < of),
        decreases 6 - of,
    {
        if of != face {
            let mut sm: u32 = 0;
            while sm <= smax
                invariant
                    of < 6,
                    of != face,
                    sm <= smax + 1,
                    smax <= size,
                    1 <= size <= GRID_SIZE_MAX,
                    sz == size as int,
                    sx == smax as int,
                    forall|n: GridPoint| #![trigger contains_pt(out@, n)] #![trigger contains_pt(orig, n)] #![trigger band_cond(face, sz, sx, low, transpose, n)]
                        contains_pt(out@, n) <==> contains_pt(orig, n) || (band_cond(
                            face,
                            sz,
                            sx,
                            low,
                            transpose,
                            n,
                        ) && (n.0 < of || (n.0 == of && band_rank(sz, sx, low, transpose, n)
                            < sm))),
                decreases smax + 1 - sm,
            {
                let w = if low {
                    sm
                } else {
                    size - sm
                };
                let mut bg: u32 = 0;
                while bg <= size
                    invariant
                        of < 6,
                        of != face,
                        sm <= smax,
                        smax <= size,
                        1 <= size <= GRID_SIZE_MAX,
                        sz == size as int,
                        sx == smax as int,
                        w as int == (if low {
                            sm as int
                        } else {
                            sz - sm
                        }),
                        bg <= size + 1,
                        forall|n: GridPoint| #![trigger contains_pt(out@, n)] #![trigger contains_pt(orig, n)] #![trigger band_cond(face, sz, sx, low, transpose, n)]
                            contains_pt(out@, n) <==> contains_pt(orig, n) || (band_cond(
                                face,
                                sz,
                                sx,
                                low,
                                transpose,
                                n,
                            ) && (n.0 < of || (n.0 == of && band_rank(sz, sx, low, transpose, n)
                                < sm) || (n.0 == of && band_rank(sz, sx, low, transpose, n) == sm
                                && (if transpose {
                                n.1 as int
                            } else {
                                n.2 as int
                            }) < bg))),
                    decreases size + 1 - bg,
                {
                    let cand: GridPoint = if transpose {
                        (of, bg, w)
                    } else {
                        (of, w, bg)
                    };
                    let ghost prev = out@;
                    out.push(cand);
                    proof {
                        assert forall|n: GridPoint| #![trigger contains_pt(out@, n)] #![trigger contains_pt(prev, n)]
                            contains_pt(out@, n) <==> (contains_pt(prev, n) || n == cand) by {
                            if contains_pt(out@, n) {
                                let k = choose|k: int| 0 <= k < out@.len() && out@[k] == n;
                                if k < prev.len() {
                                    assert(prev[k] == n);
                                }
                            }
                            if contains_pt(prev, n) {
                                let k = choose|k: int| 0 <= k < prev.len() && prev[k] == n;
                                assert(out@[k] == n);
                            }
                            if n == cand {
                                assert(out@[out@.len() - 1] == n);
                            }
                        }
                        assert(band_cond(face, sz, sx, low, transpose, cand));
                        assert(band_rank(sz, sx, low, transpose, cand) == sm as int);
                        assert forall|n: GridPoint| #![trigger contains_pt(out@, n)] #![trigger contains_pt(orig, n)] #![trigger band_cond(face, sz, sx, low, transpose, n)]
                            contains_pt(out@, n) <==> contains_pt(orig, n) || (band_cond(
                                face,
                                sz,
                                sx,
                                low,
                                transpose,
                                n,
                            ) && (n.0 < of || (n.0 == of && band_rank(sz, sx, low, transpose, n)
                                < sm) || (n.0 == of && band_rank(sz, sx, low, transpose, n) == sm
                                && (if transpose {
                                n.1 as int
                            } else {
                                n.2 as int
                            }) < bg + 1))) by {
                            assert(contains_pt(out@, n) <==> (contains_pt(prev, n) || n == cand));
                            if band_cond(face, sz, sx, low, transpose, n) && n.0 == of
                                && band_rank(sz, sx, low, transpose, n) == sm && (if transpose {
                                n.1 as int
                            } else {
                                n.2 as int
                            }) == bg {
                                assert(n.0 == cand.0 && n.1 == cand.1 && n.2 == cand.2);
                                assert(n == cand);
                            }
                        }
                    }
                    bg = bg + 1;
                }
                proof {
                    assert forall|n: GridPoint| #![trigger contains_pt(out@, n)] #![trigger contains_pt(orig, n)] #![trigger band_cond(face, sz, sx, low, transpose, n)]
                        contains_pt(out@, n) <==> contains_pt(orig, n) || (band_cond(
                            face,
                            sz,
                            sx,
                            low,
                            transpose,
                            n,
                        ) && (n.0 < of || (n.0 == of && band_rank(sz, sx, low, transpose, n) < sm
                            + 1))) by {
                        assert(contains_pt(out@, n) <==> contains_pt(orig, n) || (band_cond(
                            face,
                            sz,
                            sx,
                            low,
                            transpose,
                            n,
                        ) && (n.0 < of || (n.0 == of && band_rank(sz, sx, low, transpose, n)
                            < sm) || (n.0 == of && band_rank(sz, sx, low, transpose, n) == sm
                            && (if transpose {
                            n.1 as int
                        } else {
                            n.2 as int
                        }) < bg))));
                    }
                }
                sm = sm + 1;
            }
            proof {
                assert forall|n: GridPoint| #![trigger contains_pt(out@, n)] #![trigger contains_pt(orig, n)] #![trigger band_cond(face, sz, sx, low, transpose, n)]
                    contains_pt(out@, n) <==> contains_pt(orig, n) || (band_cond(
                        face,
                        sz,
                        sx,
                        low,
                        transpose,
                        n,
                    ) && n.0 < of + 1) by {
                    assert(contains_pt(out@, n) <==> contains_pt(orig, n) || (band_cond(
                        face,
                        sz,
                        sx,
                        low,
                        transpose,
                        n,
                    ) && (n.0 < of || (n.0 == of && band_rank(sz, sx, low, transpose, n)
                        < sm))));
                }
            }
        } else {
            proof {
                assert forall|n: GridPoint| #![trigger contains_pt(out@, n)] #![trigger contains_pt(orig, n)] #![trigger band_cond(face, sz, sx, low, transpose, n)]
                    contains_pt(out@, n) <==> contains_pt(orig, n) || (band_cond(
                        face,
                        sz,
                        sx,
                        low,
                        transpose,
                        n,
                    ) && n.0 < of + 1) by {
                    if band_cond(face, sz, sx, low, transpose, n) {
                        assert(n.0 != face);
                    }
                }
            }
        }
        of = of + 1;
    }
}

/// Some entry of the list equals `t`.
pub open spec fn contains_pt(s: Seq<GridPoint>, t: GridPoint) -> bool {
    exists|k: int| 0 <= k < s.len() && s[k] == t
}

/// All cross-seam candidates for points on `face`: the four boundary bands
/// of every other face. The list may repeat a point; it misses none.
fn seam_candidates(face: u32, size: u32) -> (r: Vec<GridPoint>)
    requires
        face < 6,
        1 <= size <= GRID_SIZE_MAX,
    ensures
        forall|n: GridPoint| #![trigger contains_pt(r@, n)] #![trigger seam_candidate(face, size as int, n)]
            contains_pt(r@, n) <==> seam_candidate(face, size as int, n),
{
    let smax = if STEP_RADIUS <= size {
        STEP_RADIUS
    } else {
        size
    };
    let mut out: Vec<GridPoint> = Vec::new();
    push_band(&mut out, face, size, smax, true, false);
    push_band(&mut out, face, size, smax, false, false);
    push_band(&mut out, face, size, smax, true, true);
    push_band(&mut out, face, size, smax, false, true);
    proof {
        assert forall|n: GridPoint| #![trigger contains_pt(out@, n)] #![trigger seam_candidate(face, size as int, n)]
            contains_pt(out@, n) <==> seam_candidate(face, size as int, n) by {
            if seam_candidate(face, size as int, n) {
                assert(band_cond(face, size as int, smax as int, true, false, n) || band_cond(
                    face,
                    size as int,
                    smax as int,
                    false,
                    false,
                    n,
                ) || band_cond(face, size as int, smax as int, true, true, n) || band_cond(
                    face,
                    size as int,
                    smax as int,
                    false,
                    true,
                    n,
                ));
            }
        }
    }
    out
}


/// Builds the adjacency list of one slot: every stored raster neighbor and,
/// for points near a face boundary, every stored seam neighbor, each linked
/// exactly once with its cost.
fn build_slot(
    points: &Vec<Option<GlobePoint>>,
    grid_size: u32,
    i: usize,
    climbing_cost: u64,
) -> (edges: Vec<Edge>)
    requires
        1 <= grid_size <= GRID_SIZE_MAX,
        points@.len() == slot_count(grid_size as int),
        forall|j: int|
            0 <= j < points@.len() && points@[j] is Some ==> point_wf(#[trigger] points@[j]->0),
        i < slot_count(grid_size as int),
        climbing_cost <= CLIMBING_LIMIT,
    ensures
        row_built(
            points@,
            grid_size,
            edges@,
            grid_of_spec(i as int, grid_size as int),
            climbing_cost,
        ),
        edges@.len() > 0 ==> points@[i as int] is Some,
{
    let ghost gsz = grid_size as int;
    let g = grid_at(i, grid_size);
    let mut edges: Vec<Edge> = Vec::new();
    let p_opt: Option<GlobePoint> = points[i];
    if p_opt.is_none() {
        proof {
            assert(!stored_pts(points@, grid_size, g));
            assert forall|n: GridPoint|
                discovered_pts(points@, grid_size, g, n) implies contains_tgt(edges@, n) by {
                assert(stored_pts(points@, grid_size, g));
            }
        }
        return edges;
    }
    let p = p_opt.unwrap();
    proof {
        assert forall|n: GridPoint|
            #![trigger contains_tgt(edges@, n)]
            #![trigger raster_neighbor(g, n, gsz)]
            contains_tgt(edges@, n) <==> (raster_neighbor(g, n, gsz) && stored_pts(
                points@,
                grid_size,
                n,
            ) && (n.1 as int) + 7 < (g.1 as int) + 0) by {
            assert(edges@.len() == 0);
        }
    }
    let mut a: u32 = 0;
    while a < 15
        invariant
            1 <= grid_size <= GRID_SIZE_MAX,
            gsz == grid_size as int,
            points@.len() == slot_count(gsz),
            forall|j: int|
                0 <= j < points@.len() && points@[j] is Some ==> point_wf(
                    #[trigger] points@[j]->0,
                ),
            i < slot_count(gsz),
            climbing_cost <= CLIMBING_LIMIT,
            valid_grid(g, grid_size),
            idx_spec(g, gsz) == i as int,
            points@[i as int] is Some,
            p == pt_at(points@, grid_size, g),
            a <= 15,
            distinct_tgts(edges@),
            forall|k: int|
                0 <= k < edges@.len() ==> {
                    let e = #[trigger] edges@[k];
                    &&& discovered_pts(points@, grid_size, g, e.to)
                    &&& e.cost as int == cost_spec(
                        p,
                        pt_at(points@, grid_size, e.to),
                        climbing_cost,
                    )
                    &&& !e.discounted
                },
            forall|n: GridPoint|
                #![trigger contains_tgt(edges@, n)]
                #![trigger raster_neighbor(g, n, gsz)]
                contains_tgt(edges@, n) <==> (raster_neighbor(g, n, gsz) && stored_pts(
                    points@,
                    grid_size,
                    n,
                ) && (n.1 as int) + 7 < (g.1 as int) + a),
        decreases 15 - a,
    {
        let di: i64 = a as i64 - 7;
        let mut b: u32 = 0;
        while b < 15
            invariant
                1 <= grid_size <= GRID_SIZE_MAX,
                gsz == grid_size as int,
                points@.len() == slot_count(gsz),
                forall|j: int|
                    0 <= j < points@.len() && points@[j] is Some ==> point_wf(
                        #[trigger] points@[j]->0,
                    ),
                i < slot_count(gsz),
                climbing_cost <= CLIMBING_LIMIT,
                valid_grid(g, grid_size),
                idx_spec(g, gsz) == i as int,
                points@[i as int] is Some,
                p == pt_at(points@, grid_size, g),
                a < 15,
                b <= 15,
                di == a as i64 - 7,
                distinct_tgts(edges@),
                forall|k: int|
                    0 <= k < edges@.len() ==> {
                        let e = #[trigger] edges@[k];
                        &&& discovered_pts(points@, grid_size, g, e.to)
                        &&& e.cost as int == cost_spec(
                            p,
                            pt_at(points@, grid_size, e.to),
                            climbing_cost,
                        )
                        &&& !e.discounted
                    },
                forall|n: GridPoint|
                    #![trigger contains_tgt(edges@, n)]
                    #![trigger raster_neighbor(g, n, gsz)]
                    contains_tgt(edges@, n) <==> (raster_neighbor(g, n, gsz) && stored_pts(
                        points@,
                        grid_size,
                        n,
                    ) && ((n.1 as int) + 7 < (g.1 as int) + a || ((n.1 as int) + 7 == (
                    g.1 as int) + a && (n.2 as int) + 7 < (g.2 as int) + b))),
            decreases 15 - b,
        {
            let dj: i64 = b as i64 - 7;
            let mut pushed_none = true;
            proof {
                assert(0 <= di * di <= 49 && 0 <= dj * dj <= 49) by (nonlinear_arith)
                    requires
                        -7 <= di <= 7,
                        -7 <= dj <= 7,
                ;
            }
            if !(di == 0 && dj == 0) && di * di + dj * dj <= 49 {
                let nr = g.1 as i64 + di;
                let nc = g.2 as i64 + dj;
                if 0 <= nr && nr <= grid_size as i64 && 0 <= nc && nc <= grid_size as i64 {
                    let ng: GridPoint = (g.0, nr as u32, nc as u32);
                    let jdx = idx_of(ng, grid_size);
                    let q_opt: Option<GlobePoint> = points[jdx];
                    if q_opt.is_some() {
                        let q = q_opt.unwrap();
                        let c = cost(&p, &q, climbing_cost);
                        proof {
                            assert(raster_neighbor(g, ng, gsz));
                            assert(stored_pts(points@, grid_size, ng));
                            assert(!contains_tgt(edges@, ng));
                            assert(q == pt_at(points@, grid_size, ng));
                        }
                        let ghost prev = edges@;
                        edges.push(Edge { to: ng, cost: c, discounted: false });
                        pushed_none = false;
                        proof {
                            assert forall|n: GridPoint|
                                #![trigger contains_tgt(edges@, n)]
                                #![trigger raster_neighbor(g, n, gsz)]
                                contains_tgt(edges@, n) <==> (contains_tgt(prev, n) || n
                                    == ng) by {
                                if contains_tgt(edges@, n) {
                                    let k = choose|k: int|
                                        0 <= k < edges@.len() && edges@[k].to == n;
                                    if k < prev.len() {
                                        assert(prev[k].to == n);
                                    }
                                }
                                if contains_tgt(prev, n) {
                                    let k = choose|k: int| 0 <= k < prev.len() && prev[k].to == n;
                                    assert(edges@[k].to == n);
                                }
                                if n == ng {
                                    assert(edges@[edges@.len() - 1].to == n);
                                }
                            }
                            assert forall|n: GridPoint|
                                #![trigger contains_tgt(edges@, n)]
                                #![trigger raster_neighbor(g, n, gsz)]
                                contains_tgt(edges@, n) <==> (raster_neighbor(g, n, gsz)
                                    && stored_pts(points@, grid_size, n) && ((n.1 as int) + 7 < (
                                g.1 as int) + a || ((n.1 as int) + 7 == (g.1 as int) + a && (
                                n.2 as int) + 7 < (g.2 as int) + b + 1))) by {
                                assert(contains_tgt(edges@, n) <==> (contains_tgt(prev, n) || n
                                    == ng));
                                if raster_neighbor(g, n, gsz) && stored_pts(points@, grid_size, n)
                                    && (n.1 as int) + 7 == (g.1 as int) + a && (n.2 as int) + 7
                                    == (g.2 as int) + b {
                                    assert(n.0 == ng.0 && n.1 == ng.1 && n.2 == ng.2);
                                    assert(n == ng);
                                }
                            }
                            assert(distinct_tgts(edges@)) by {
                                assert forall|k1: int, k2: int|
                                    0 <= k1 < edges@.len() && 0 <= k2 < edges@.len() && edges@[
                                k1].to == edges@[k2].to implies k1 == k2 by {
                                    if k1 < prev.len() && k2 < prev.len() {
                                        assert(prev[k1].to == prev[k2].to);
                                    } else if k1 < prev.len() {
                                        assert(contains_tgt(prev, ng));
                                    } else if k2 < prev.len() {
                                        assert(contains_tgt(prev, ng));
                                    }
                                }
                            }
                        }
                    }
                }
            }
            proof {
                if pushed_none {
                    assert forall|n: GridPoint|
                        #![trigger contains_tgt(edges@, n)]
                        #![trigger raster_neighbor(g, n, gsz)]
                        contains_tgt(edges@, n) <==> (raster_neighbor(g, n, gsz) && stored_pts(
                            points@,
                            grid_size,
                            n,
                        ) && ((n.1 as int) + 7 < (g.1 as int) + a || ((n.1 as int) + 7 == (
                        g.1 as int) + a && (n.2 as int) + 7 < (g.2 as int) + b + 1))) by {
                        if raster_neighbor(g, n, gsz) && stored_pts(points@, grid_size, n) && (
                        n.1 as int) + 7 == (g.1 as int) + a && (n.2 as int) + 7 == (g.2 as int)
                            + b {
                            let ndi = n.1 as int - g.1 as int;
                            let ndj = n.2 as int - g.2 as int;
                            assert(ndi == di as int && ndj == dj as int);
                            assert(ndi * ndi + ndj * ndj <= 49);
                            assert(!(ndi == 0 && ndj == 0));
                            assert(0 <= n.1 as int <= gsz && 0 <= n.2 as int <= gsz);
                            lemma_idx_roundtrip(n, gsz);
                            assert(false);
                        }
                    }
                }
            }
            b = b + 1;
        }
        proof {
            assert forall|n: GridPoint|
                #![trigger contains_tgt(edges@, n)]
                #![trigger raster_neighbor(g, n, gsz)]
                contains_tgt(edges@, n) <==> (raster_neighbor(g, n, gsz) && stored_pts(
                    points@,
                    grid_size,
                    n,
                ) && (n.1 as int) + 7 < (g.1 as int) + a + 1) by {
                assert(contains_tgt(edges@, n) <==> (raster_neighbor(g, n, gsz) && stored_pts(
                    points@,
                    grid_size,
                    n,
                ) && ((n.1 as int) + 7 < (g.1 as int) + a || ((n.1 as int) + 7 == (g.1 as int)
                    + a && (n.2 as int) + 7 < (g.2 as int) + b))));
            }
        }
        a = a + 1;
    }
    proof {
        assert forall|n: GridPoint|
            #![trigger contains_tgt(edges@, n)]
            #![trigger raster_neighbor(g, n, gsz)]
            contains_tgt(edges@, n) <==> (raster_neighbor(g, n, gsz) && stored_pts(
                points@,
                grid_size,
                n,
            )) by {
            assert(contains_tgt(edges@, n) <==> (raster_neighbor(g, n, gsz) && stored_pts(
                points@,
                grid_size,
                n,
            ) && (n.1 as int) + 7 < (g.1 as int) + 15));
        }
    }
    let nb = g.1 <= STEP_RADIUS || g.1 + STEP_RADIUS >= grid_size || g.2 <= STEP_RADIUS || g.2
        + STEP_RADIUS >= grid_size;
    if !nb {
        proof {
            assert forall|n: GridPoint|
                discovered_pts(points@, grid_size, g, n) implies contains_tgt(edges@, n) by {
                assert(!near_boundary(g, gsz));
            }
        }
        return edges;
    }
    let cands = seam_candidates(g.0, grid_size);
    let tc = cubic(g, grid_size);
    let mut t: usize = 0;
    while t < cands.len()
        invariant
            1 <= grid_size <= GRID_SIZE_MAX,
            gsz == grid_size as int,
            points@.len() == slot_count(gsz),
            forall|j: int|
                0 <= j < points@.len() && points@[j] is Some ==> point_wf(
                    #[trigger] points@[j]->0,
                ),
            i < slot_count(gsz),
            climbing_cost <= CLIMBING_LIMIT,
            valid_grid(g, grid_size),
            idx_spec(g, gsz) == i as int,
            points@[i as int] is Some,
            p == pt_at(points@, grid_size, g),
            near_boundary(g, gsz),
            tc[0] == cubic_spec(g, gsz).0,
            tc[1] == cubic_spec(g, gsz).1,
            tc[2] == cubic_spec(g, gsz).2,
            t <= cands@.len(),
            forall|n: GridPoint|
                #![trigger contains_pt(cands@, n)]
                #![trigger seam_candidate(g.0, gsz, n)]
                contains_pt(cands@, n) <==> seam_candidate(g.0, gsz, n),
            distinct_tgts(edges@),
            forall|k: int|
                0 <= k < edges@.len() ==> {
                    let e = #[trigger] edges@[k];
                    &&& discovered_pts(points@, grid_size, g, e.to)
                    &&& e.cost as int == cost_spec(
                        p,
                        pt_at(points@, grid_size, e.to),
                        climbing_cost,
                    )
                    &&& !e.discounted
                },
            forall|n: GridPoint|
                #![trigger contains_tgt(edges@, n)]
                #![trigger seam_neighbor(g, n, gsz)]
                contains_tgt(edges@, n) <==> ((raster_neighbor(g, n, gsz) && stored_pts(
                    points@,
                    grid_size,
                    n,
                )) || (seam_neighbor(g, n, gsz) && stored_pts(points@, grid_size, n)
                    && contains_pt(cands@.take(t as int), n))),
        decreases cands@.len() - t,
    {
        let cd = cands[t];
        proof {
            assert(contains_pt(cands@, cd));
            assert(seam_candidate(g.0, gsz, cd));
            assert(cands@.take(t as int + 1) =~= cands@.take(t as int).push(cd));
        }
        let oc = cubic(cd, grid_size);
        let dx = oc[0] as i64 - tc[0] as i64;
        let dy = oc[1] as i64 - tc[1] as i64;
        let dz = oc[2] as i64 - tc[2] as i64;
        proof {
            assert(0 <= cubic_spec(g, gsz).0 <= gsz && 0 <= cubic_spec(g, gsz).1 <= gsz && 0
                <= cubic_spec(g, gsz).2 <= gsz);
            assert(0 <= cubic_spec(cd, gsz).0 <= gsz && 0 <= cubic_spec(cd, gsz).1 <= gsz && 0
                <= cubic_spec(cd, gsz).2 <= gsz);
            assert(0 <= dx * dx <= 4097 * 4097 && 0 <= dy * dy <= 4097 * 4097 && 0 <= dz * dz
                <= 4097 * 4097) by (nonlinear_arith)
                requires
                    -4097 <= dx <= 4097,
                    -4097 <= dy <= 4097,
                    -4097 <= dz <= 4097,
            ;
            assert(dx * dx + dy * dy + dz * dz == cube_dist2(cubic_spec(g, gsz), cubic_spec(cd, gsz))
                && dx * dx + dy * dy + dz * dz >= 0) by (nonlinear_arith)
                requires
                    dx == cubic_spec(cd, gsz).0 - cubic_spec(g, gsz).0,
                    dy == cubic_spec(cd, gsz).1 - cubic_spec(g, gsz).1,
                    dz == cubic_spec(cd, gsz).2 - cubic_spec(g, gsz).2,
                    cube_dist2(cubic_spec(g, gsz), cubic_spec(cd, gsz)) == (cubic_spec(g, gsz).0
                        - cubic_spec(cd, gsz).0) * (cubic_spec(g, gsz).0 - cubic_spec(cd, gsz).0)
                        + (cubic_spec(g, gsz).1 - cubic_spec(cd, gsz).1) * (cubic_spec(g, gsz).1
                        - cubic_spec(cd, gsz).1) + (cubic_spec(g, gsz).2 - cubic_spec(cd, gsz).2)
                        * (cubic_spec(g, gsz).2 - cubic_spec(cd, gsz).2),
            ;
        }
        let d2 = dx * dx + dy * dy + dz * dz;
        let mut pushed_none = true;
        if 0 < d2 && d2 <= 49 {
            let jdx = idx_of(cd, grid_size);
            let q_opt: Option<GlobePoint> = points[jdx];
            if q_opt.is_some() {
                let q = q_opt.unwrap();
                if !contains_target(&edges, cd) {
                    let c = cost(&p, &q, climbing_cost);
                    proof {
                        assert(seam_neighbor(g, cd, gsz));
                        assert(stored_pts(points@, grid_size, cd));
                        assert(q == pt_at(points@, grid_size, cd));
                    }
                    let ghost prev = edges@;
                    edges.push(Edge { to: cd, cost: c, discounted: false });
                    pushed_none = false;
                    proof {
                        assert forall|n: GridPoint|
                            #![trigger contains_tgt(edges@, n)]
                            #![trigger seam_neighbor(g, n, gsz)]
                            contains_tgt(edges@, n) <==> (contains_tgt(prev, n) || n == cd) by {
                            if contains_tgt(edges@, n) {
                                let k = choose|k: int| 0 <= k < edges@.len() && edges@[k].to == n;
                                if k < prev.len() {
                                    assert(prev[k].to == n);
                                }
                            }
                            if contains_tgt(prev, n) {
                                let k = choose|k: int| 0 <= k < prev.len() && prev[k].to == n;
                                assert(edges@[k].to == n);
                            }
                            if n == cd {
                                assert(edges@[edges@.len() - 1].to == n);
                            }
                        }
                        assert forall|n: GridPoint|
                            #![trigger contains_tgt(edges@, n)]
                            #![trigger seam_neighbor(g, n, gsz)]
                            contains_tgt(edges@, n) <==> ((raster_neighbor(g, n, gsz)
                                && stored_pts(points@, grid_size, n)) || (seam_neighbor(g, n, gsz)
                                && stored_pts(points@, grid_size, n) && contains_pt(
                                cands@.take(t as int + 1),
                                n,
                            ))) by {
                            assert(contains_tgt(edges@, n) <==> (contains_tgt(prev, n) || n
                                == cd));
                            lemma_contains_push(cands@.take(t as int), cd, n);
                            assert(contains_pt(cands@.take(t as int + 1), n) <==> (contains_pt(
                                cands@.take(t as int),
                                n,
                            ) || n == cd));
                        }
                        assert(distinct_tgts(edges@)) by {
                            assert forall|k1: int, k2: int|
                                0 <= k1 < edges@.len() && 0 <= k2 < edges@.len() && edges@[k1].to
                                    == edges@[k2].to implies k1 == k2 by {
                                if k1 < prev.len() && k2 < prev.len() {
                                    assert(prev[k1].to == prev[k2].to);
                                } else if k1 < prev.len() {
                                    assert(contains_tgt(prev, cd));
                                } else if k2 < prev.len() {
                                    assert(contains_tgt(prev, cd));
                                }
                            }
                        }
                    }
                }
            }
        }
        proof {
            if pushed_none {
                assert forall|n: GridPoint|
                    #![trigger contains_tgt(edges@, n)]
                    #![trigger seam_neighbor(g, n, gsz)]
                    contains_tgt(edges@, n) <==> ((raster_neighbor(g, n, gsz) && stored_pts(
                        points@,
                        grid_size,
                        n,
                    )) || (seam_neighbor(g, n, gsz) && stored_pts(points@, grid_size, n)
                        && contains_pt(cands@.take(t as int + 1), n))) by {
                    lemma_contains_push(cands@.take(t as int), cd, n);
                    assert(contains_pt(cands@.take(t as int + 1), n) <==> (contains_pt(
                        cands@.take(t as int),
                        n,
                    ) || n == cd));
                    if n == cd && seam_neighbor(g, n, gsz) && stored_pts(points@, grid_size, n) {
                        assert(0 < cube_dist2(cubic_spec(g, gsz), cubic_spec(cd, gsz)) <= 49);
                        lemma_idx_roundtrip(cd, gsz);
                        assert(contains_tgt(edges@, cd));
                    }
                }
            }
        }
        t = t + 1;
    }
    proof {
        assert(cands@.take(cands@.len() as int) =~= cands@);
        assert forall|n: GridPoint|
            discovered_pts(points@, grid_size, g, n) implies contains_tgt(edges@, n) by {
            if seam_neighbor(g, n, gsz) {
                assert(seam_candidate(g.0, gsz, n));
                assert(contains_pt(cands@, n));
            }
        }
    }
    edges
}

impl GlobePoints {
    /// Builds the whole adjacency graph over the stored samples: for every
    /// stored point, one directed edge per discovered neighbor in each
    /// direction, priced by `cost`. Any previously built edges are replaced.
    pub fn build_graph(&mut self, climbing_cost: u64)
        requires
            old(self).wf(),
            climbing_cost <= CLIMBING_LIMIT,
        ensures
            final(self).wf(),
            final(self).grid_size == old(self).grid_size,
            final(self).points == old(self).points,
            built_from(*final(self), climbing_cost),
    {
        let n = slots(self.grid_size);
        let mut i: usize = 0;
        while i < n
            invariant
                self.wf(),
                self.grid_size == old(self).grid_size,
                self.points == old(self).points,
                n == slot_count(self.grid_size as int),
                i <= n,
                climbing_cost <= CLIMBING_LIMIT,
                forall|j: int|
                    0 <= j < i ==> row_built(
                        self.points@,
                        self.grid_size,
                        #[trigger] self.graph@[j]@,
                        grid_of_spec(j, self.grid_size as int),
                        climbing_cost,
                    ),
            decreases n - i,
        {
            let edges = build_slot(&self.points, self.grid_size, i, climbing_cost);
            let ghost old_graph = self.graph@;
            self.graph[i] = edges;
            proof {
                let sz = self.grid_size as int;
                assert forall|j: int|
                    0 <= j < i + 1 implies row_built(
                    self.points@,
                    self.grid_size,
                    #[trigger] self.graph@[j]@,
                    grid_of_spec(j, sz),
                    climbing_cost,
                ) by {
                    if j < i {
                        assert(self.graph@[j] == old_graph[j]);
                    }
                }
                assert forall|a: int, k: int|
                    0 <= a < self.graph@.len() && 0 <= k < self.graph@[a].len() implies {
                        let e = #[trigger] self.graph@[a][k];
                        &&& valid_grid(e.to, self.grid_size)
                        &&& self.points@[idx_spec(e.to, sz)] is Some
                    } by {
                    if a == i as int {
                        assert(discovered_pts(self.points@, self.grid_size, grid_of_spec(
                            i as int,
                            sz,
                        ), self.graph@[a][k].to));
                    } else {
                        assert(self.graph@[a] == old_graph[a]);
                    }
                }
                assert forall|a: int|
                    0 <= a < self.graph@.len() && #[trigger] self.graph@[a].len() > 0 implies self
                    .points@[a] is Some by {
                    if a != i as int {
                        assert(self.graph@[a] == old_graph[a]);
                    }
                }
            }
            i = i + 1;
        }
        proof {
            assert forall|j: int| 0 <= j < self.graph@.len() implies slot_built(
                *self,
                j,
                climbing_cost,
            ) by {
            }
        }
    }
}

} // verus!
