//! Cost discounting: after a route is built along a path, every edge the
//! path traverses becomes cheaper once, in both directions, to model reuse
//! of existing rail infrastructure.

use crate::globe::{idx_of, idx_spec, lemma_idx_roundtrip, Edge, GlobePoints};
use crate::grid::{valid_grid, GridPoint};
use vstd::prelude::*;

verus! {

/// Consecutive entries of `path` include the unordered pair `{u, v}`.
pub open spec fn pair_in_path(path: Seq<GridPoint>, u: GridPoint, v: GridPoint) -> bool {
    exists|w: int|
        #![trigger path[w]]
        0 <= w < path.len() - 1 && ((path[w] == u && path[w + 1] == v) || (path[w] == v && path[w
            + 1] == u))
}

/// What one directed edge of `u`'s adjacency list becomes when the path is
/// discounted: its cost divided by the factor and its flag set, once ever.
pub open spec fn edge_after(e: Edge, u: GridPoint, path: Seq<GridPoint>, f: u64) -> Edge {
    if pair_in_path(path, u, e.to) && !e.discounted {
        Edge { to: e.to, cost: ((e.cost as int) / (f as int)) as u64, discounted: true }
    } else {
        e
    }
}

/// What one edge becomes when the single neighbor `v` is discounted.
pub open spec fn edge_toward(e: Edge, v: GridPoint, f: u64) -> Edge {
    if e.to == v && !e.discounted {
        Edge { to: e.to, cost: ((e.cost as int) / (f as int)) as u64, discounted: true }
    } else {
        e
    }
}

/// Discounting never increases a cost, and costs stay non-negative.
pub proof fn lemma_discount_monotone(e: Edge, u: GridPoint, path: Seq<GridPoint>, f: u64)
    requires
        f >= 2,
    ensures
        edge_after(e, u, path, f).cost <= e.cost,
        edge_after(e, u, path, f).cost >= 0,
{
    assert(0 <= (e.cost as int) / (f as int) <= e.cost as int) by (nonlinear_arith)
        requires
            f >= 2,
            e.cost >= 0,
    ;
}

/// Discounting is idempotent: an edge the rule has already touched is left
/// exactly as it is.
pub proof fn lemma_discount_idempotent(e: Edge, u: GridPoint, path: Seq<GridPoint>, f: u64)
    ensures
        edge_after(edge_after(e, u, path, f), u, path, f) == edge_after(e, u, path, f),
{
}

/// Discounting changes no edge's endpoint, so edge existence, and with it
/// the graph's undirectedness, is untouched.
pub proof fn lemma_discount_preserves_edges(g1: GlobePoints, g2: GlobePoints, path: Seq<GridPoint>, f: u64)
    requires
        g1.wf(),
        g1.grid_size == g2.grid_size,
        g1.graph@.len() == g2.graph@.len(),
        forall|i: int| 0 <= i < g1.graph@.len() ==> #[trigger] g2.graph@[i]@.len() == g1.graph@[i]@.len(),
        forall|i: int, k: int|
            0 <= i < g1.graph@.len() && 0 <= k < g1.graph@[i]@.len() ==> #[trigger] g2.graph@[i]@[k]
                == edge_after(
                g1.graph@[i]@[k],
                crate::globe::grid_of_spec(i, g1.grid_size as int),
                path,
                f,
            ),
        g1.symmetric(),
    ensures
        g2.symmetric(),
{
    assert forall|u: GridPoint, v: GridPoint| #[trigger] g2.has_edge(u, v) implies g2.has_edge(
        v,
        u,
    ) by {
        let szi = g1.grid_size as int;
        let k = choose|k: int| 0 <= k < g2.edges_at(u).len() && g2.edges_at(u)[k].to == v;
        lemma_idx_roundtrip(u, szi);
        let iu = idx_spec(u, szi);
        assert(g2.edges_at(u) == g2.graph@[iu]@);
        assert(0 <= iu < g1.graph@.len());
        assert(g2.graph@[iu]@.len() == g1.graph@[iu]@.len());
        assert(g2.graph@[iu]@[k] == edge_after(
            g1.graph@[iu]@[k],
            crate::globe::grid_of_spec(iu, szi),
            path,
            f,
        ));
        assert(g1.graph@[iu]@[k].to == v);
        assert(g1.edges_at(u)[k].to == v);
        assert(g1.has_edge(u, v));
        assert(g1.has_edge(v, u));
        let k2 = choose|k2: int| 0 <= k2 < g1.edges_at(v).len() && g1.edges_at(v)[k2].to == u;
        lemma_idx_roundtrip(v, szi);
        let iv = idx_spec(v, szi);
        assert(g1.edges_at(v) == g1.graph@[iv]@);
        assert(g2.graph@[iv]@[k2] == edge_after(
            g1.graph@[iv]@[k2],
            crate::globe::grid_of_spec(iv, szi),
            path,
            f,
        ));
        assert(g2.graph@[iv]@[k2].to == u);
        assert(g2.edges_at(v)[k2].to == u);
    }
}

/// Divides by `f` the cost of every not-yet-discounted edge of the list that
/// points at `v`, and marks those edges discounted.
fn discount_row(row: &mut Vec<Edge>, v: GridPoint, f: u64)
    requires
        f >= 2,
    ensures
        final(row)@.len() == old(row)@.len(),
        forall|k: int|
            0 <= k < old(row)@.len() ==> #[trigger] final(row)@[k] == edge_toward(
                old(row)@[k],
                v,
                f,
            ),
{
    let mut k: usize = 0;
    while k < row.len()
        invariant
            f >= 2,
            row@.len() == old(row)@.len(),
            k <= row@.len(),
            forall|j: int|
                0 <= j < k ==> #[trigger] row@[j] == edge_toward(old(row)@[j], v, f),
            forall|j: int| k <= j < row@.len() ==> #[trigger] row@[j] == old(row)@[j],
        decreases row@.len() - k,
    {
        let e = row[k];
        if e.to.0 == v.0 && e.to.1 == v.1 && e.to.2 == v.2 && !e.discounted {
            row[k] = Edge { to: e.to, cost: e.cost / f, discounted: true };
            proof {
                assert(e.to == v);
                assert(row@[k as int] == edge_toward(old(row)@[k as int], v, f));
            }
        } else {
            proof {
                assert(row@[k as int] == edge_toward(old(row)@[k as int], v, f));
            }
        }
        k = k + 1;
    }
}

/// The new window `(path[w], path[w+1])` is exactly what a one-step longer
/// prefix adds to the discounted pairs.
proof fn lemma_pair_prefix_step(path: Seq<GridPoint>, w: int, u: GridPoint, v: GridPoint)
    requires
        0 <= w < path.len() - 1,
    ensures
        pair_in_path(path.take(w + 2), u, v) <==> (pair_in_path(path.take(w + 1), u, v) || ((u
            == path[w] && v == path[w + 1]) || (u == path[w + 1] && v == path[w]))),
{
    let p2 = path.take(w + 2);
    let p1 = path.take(w + 1);
    if pair_in_path(p2, u, v) {
        let j = choose|j: int|
            #![trigger p2[j]]
            0 <= j < p2.len() - 1 && ((p2[j] == u && p2[j + 1] == v) || (p2[j] == v && p2[j + 1]
                == u));
        if j < w {
            assert((p1[j] == u && p1[j + 1] == v) || (p1[j] == v && p1[j + 1] == u));
        }
    }
    if pair_in_path(p1, u, v) {
        let j = choose|j: int|
            #![trigger p1[j]]
            0 <= j < p1.len() - 1 && ((p1[j] == u && p1[j + 1] == v) || (p1[j] == v && p1[j + 1]
                == u));
        assert((p2[j] == u && p2[j + 1] == v) || (p2[j] == v && p2[j + 1] == u));
    }
    if (u == path[w] && v == path[w + 1]) || (u == path[w + 1] && v == path[w]) {
        assert((p2[w] == u && p2[w + 1] == v) || (p2[w] == v && p2[w + 1] == u));
    }
}

/// Structural well-formedness survives any change that keeps every edge's
/// endpoint, every row length and the whole point store.
proof fn lemma_wf_preserved(g1: GlobePoints, g2: GlobePoints)
    requires
        g1.wf(),
        g2.grid_size == g1.grid_size,
        g2.points == g1.points,
        g2.graph@.len() == g1.graph@.len(),
        forall|i: int|
            0 <= i < g1.graph@.len() ==> #[trigger] g2.graph@[i]@.len() == g1.graph@[i]@.len(),
        forall|i: int, k: int|
            0 <= i < g1.graph@.len() && 0 <= k < g1.graph@[i]@.len() ==> #[trigger] g2.graph@[
            i]@[k].to == g1.graph@[i]@[k].to,
    ensures
        g2.wf(),
{
    let sz = g1.grid_size as int;
    assert forall|i: int, k: int|
        0 <= i < g2.graph@.len() && 0 <= k < g2.graph@[i].len() implies {
            let e = #[trigger] g2.graph@[i][k];
            &&& valid_grid(e.to, g2.grid_size)
            &&& g2.points@[idx_spec(e.to, sz)] is Some
        } by {
        assert(g2.graph@[i]@[k].to == g1.graph@[i]@[k].to);
        assert(valid_grid(g1.graph@[i][k].to, g1.grid_size));
    }
    assert forall|i: int|
        0 <= i < g2.graph@.len() && #[trigger] g2.graph@[i].len() > 0 implies g2.points@[i]
        is Some by {
        assert(g1.graph@[i].len() > 0);
    }
}

/// Applies the one-time reuse discount along a computed path: for every
/// consecutive pair of the path, every edge between the two points (in both
/// directions) that was never discounted before has its cost divided by
/// `reduction_factor` and its flag set. Pairs naming coordinates outside the
/// grid are ignored. Everything else in the globe is left untouched.
pub fn apply_discount(globe_points: &mut GlobePoints, path: &Vec<GridPoint>, reduction_factor: u64)
    requires
        old(globe_points).wf(),
        reduction_factor >= 2,
    ensures
        final(globe_points).wf(),
        final(globe_points).grid_size == old(globe_points).grid_size,
        final(globe_points).points == old(globe_points).points,
        final(globe_points).graph@.len() == old(globe_points).graph@.len(),
        forall|i: int|
            0 <= i < old(globe_points).graph@.len() ==> #[trigger] final(globe_points).graph@[i]@
                .len() == old(globe_points).graph@[i]@.len(),
        forall|i: int, k: int|
            0 <= i < old(globe_points).graph@.len() && 0 <= k < old(globe_points).graph@[i]@.len()
                ==> #[trigger] final(globe_points).graph@[i]@[k] == edge_after(
                old(globe_points).graph@[i]@[k],
                crate::globe::grid_of_spec(i, old(globe_points).grid_size as int),
                path@,
                reduction_factor,
            ),
{
    let ghost sz = globe_points.grid_size as int;
    if path.len() < 2 {
        proof {
            assert forall|i: int, k: int|
                0 <= i < globe_points.graph@.len() && 0 <= k < globe_points.graph@[i]@.len()
                    implies #[trigger] globe_points.graph@[i]@[k] == edge_after(
                globe_points.graph@[i]@[k],
                crate::globe::grid_of_spec(i, sz),
                path@,
                reduction_factor,
            ) by {
                assert(!pair_in_path(path@, crate::globe::grid_of_spec(i, sz), globe_points
                    .graph@[i]@[k].to));
            }
        }
        return ;
    }
    let mut w: usize = 0;
    while w < path.len() - 1
        invariant
            globe_points.wf(),
            globe_points.grid_size == old(globe_points).grid_size,
            globe_points.points == old(globe_points).points,
            sz == globe_points.grid_size as int,
            globe_points.graph@.len() == old(globe_points).graph@.len(),
            path@.len() >= 2,
            w <= path@.len() - 1,
            reduction_factor >= 2,
            forall|i: int|
                0 <= i < old(globe_points).graph@.len() ==> #[trigger] globe_points.graph@[i]@
                    .len() == old(globe_points).graph@[i]@.len(),
            forall|i: int, k: int|
                0 <= i < old(globe_points).graph@.len() && 0 <= k < old(
                    globe_points,
                ).graph@[i]@.len() ==> #[trigger] globe_points.graph@[i]@[k] == edge_after(
                    old(globe_points).graph@[i]@[k],
                    crate::globe::grid_of_spec(i, sz),
                    path@.take(w as int + 1),
                    reduction_factor,
                ),
        decreases path@.len() - 1 - w,
    {
        let a = path[w];
        let b = path[w + 1];
        let ghost gp0 = *globe_points;
        let ghost mid = globe_points.graph@;
        if a.0 < 6 && a.1 <= globe_points.grid_size && a.2 <= globe_points.grid_size && b.0 < 6
            && b.1 <= globe_points.grid_size && b.2 <= globe_points.grid_size {
            proof {
                lemma_idx_roundtrip(a, sz);
                lemma_idx_roundtrip(b, sz);
            }
            let ia = idx_of(a, globe_points.grid_size);
            let row_a = &mut globe_points.graph[ia];
            discount_row(row_a, b, reduction_factor);
            let ghost g1 = globe_points.graph@;
            proof {
                assert(g1 =~= mid.update(ia as int, g1[ia as int]));
            }
            let ib = idx_of(b, globe_points.grid_size);
            let row_b = &mut globe_points.graph[ib];
            discount_row(row_b, a, reduction_factor);
            let ghost g2 = globe_points.graph@;
            proof {
                assert(g2 =~= g1.update(ib as int, g2[ib as int]));
                assert(forall|k: int|
                    0 <= k < mid[ia as int]@.len() ==> #[trigger] g1[ia as int]@[k] == edge_toward(
                        mid[ia as int]@[k],
                        b,
                        reduction_factor,
                    ));
                assert(forall|k: int|
                    0 <= k < g1[ib as int]@.len() ==> #[trigger] g2[ib as int]@[k] == edge_toward(
                        g1[ib as int]@[k],
                        a,
                        reduction_factor,
                    ));
                assert forall|i: int|
                    0 <= i < old(globe_points).graph@.len() implies #[trigger] g2[i]@.len() == old(
                    globe_points,
                ).graph@[i]@.len() by {}
                assert forall|i: int, k: int|
                    0 <= i < mid.len() && 0 <= k < mid[i]@.len() implies #[trigger] g2[i]@[k].to
                    == mid[i]@[k].to by {}
                assert forall|i: int|
                    0 <= i < gp0.graph@.len() implies #[trigger] globe_points.graph@[i]@.len()
                    == gp0.graph@[i]@.len() by {}
                lemma_wf_preserved(gp0, *globe_points);
                assert forall|i: int, k: int|
                    0 <= i < old(globe_points).graph@.len() && 0 <= k < old(
                        globe_points,
                    ).graph@[i]@.len() implies #[trigger] g2[i]@[k] == edge_after(
                    old(globe_points).graph@[i]@[k],
                    crate::globe::grid_of_spec(i, sz),
                    path@.take(w as int + 2),
                    reduction_factor,
                ) by {
                    let u = crate::globe::grid_of_spec(i, sz);
                    let e0 = old(globe_points).graph@[i]@[k];
                    let e1 = mid[i]@[k];
                    crate::globe::lemma_grid_of_valid(i, sz);
                    lemma_pair_prefix_step(path@, w as int, u, e0.to);
                    assert(e1 == edge_after(e0, u, path@.take(w as int + 1), reduction_factor));
                    assert(e1.to == e0.to);
                    if i == ia as int && i == ib as int {
                        assert(a == b);
                        assert(u == a);
                        assert(g2[i]@[k] == edge_toward(edge_toward(e1, b, reduction_factor), a,
                            reduction_factor));
                    } else if i == ia as int {
                        assert(u == a);
                        assert(a != b);
                        assert(g2[i]@[k] == edge_toward(e1, b, reduction_factor));
                    } else if i == ib as int {
                        assert(u == b);
                        assert(a != b);
                        assert(g2[i]@[k] == edge_toward(e1, a, reduction_factor));
                    } else {
                        assert(g2[i]@[k] == e1);
                        assert(u != a && u != b) by {
                            if u == a {
                                assert(idx_spec(u, sz) == i && idx_spec(a, sz) == ia as int);
                            }
                            if u == b {
                                assert(idx_spec(u, sz) == i && idx_spec(b, sz) == ib as int);
                            }
                        }
                    }
                }
            }
        } else {
            proof {
                assert forall|i: int, k: int|
                    0 <= i < old(globe_points).graph@.len() && 0 <= k < old(
                        globe_points,
                    ).graph@[i]@.len() implies #[trigger] globe_points.graph@[i]@[k] == edge_after(
                    old(globe_points).graph@[i]@[k],
                    crate::globe::grid_of_spec(i, sz),
                    path@.take(w as int + 2),
                    reduction_factor,
                ) by {
                    let u = crate::globe::grid_of_spec(i, sz);
                    let e0 = old(globe_points).graph@[i]@[k];
                    lemma_pair_prefix_step(path@, w as int, u, e0.to);
                    crate::globe::lemma_grid_of_valid(i, sz);
                    assert(valid_grid(u, globe_points.grid_size));
                    let ecur = globe_points.graph@[i]@[k];
                    assert(ecur == edge_after(e0, u, path@.take(w as int + 1), reduction_factor));
                    assert(valid_grid(ecur.to, globe_points.grid_size));
                    assert(ecur.to == e0.to);
                }
            }
        }
        w = w + 1;
    }
    proof {
        assert(path@.take(path@.len() as int) =~= path@);
    }
}

} // verus!
