//! The pathfinding engine: Dijkstra searches over the globe graph, in a
//! unidirectional and a bidirectional variant.
//!
//! Each search keeps, for every reached node, a predecessor and a ghost
//! witness path from its origin; settling nodes in priority order until the
//! two endpoints are joined (or the frontier runs dry) yields either a real
//! path through the graph or the certainty that none exists.

use crate::globe::{
    grid_at, grid_of_spec, idx_of, idx_spec, lemma_grid_of_valid, lemma_idx_roundtrip, slot_count, slots,
    GlobePoints,
};
use crate::grid::{valid_grid, GridPoint, GRID_SIZE_MAX};
use crate::pq::{pq_change_priority, pq_contents, pq_get_priority, pq_new, pq_pop, pq_push};
use priority_queue::PriorityQueue;
use vstd::prelude::*;

verus! {

/// Why a path query failed.
#[derive(Clone, Copy, Debug, PartialEq, Eq, Structural)]
pub enum PathError {
    /// A queried coordinate lies outside the grid.
    InvalidGridCoordinate,
    /// A queried coordinate has no stored sample.
    NodeNotFound,
    /// No chain of edges joins the two points.
    Unreachable,
}

/// How many entries of the sequence are `true`.
pub open spec fn count_true(s: Seq<bool>) -> int
    decreases s.len(),
{
    if s.len() == 0 {
        0
    } else {
        count_true(s.drop_last()) + if s.last() {
            1int
        } else {
            0int
        }
    }
}

proof fn lemma_count_true_le(s: Seq<bool>)
    ensures
        count_true(s) <= s.len(),
    decreases s.len(),
{
    if s.len() > 0 {
        lemma_count_true_le(s.drop_last());
    }
}

proof fn lemma_count_true_update(s: Seq<bool>, j: int)
    requires
        0 <= j < s.len(),
        !s[j],
    ensures
        count_true(s.update(j, true)) == count_true(s) + 1,
    decreases s.len(),
{
    let t = s.update(j, true);
    if j == s.len() - 1 {
        assert(t.drop_last() =~= s.drop_last());
    } else {
        assert(t.drop_last() =~= s.drop_last().update(j, true));
        lemma_count_true_update(s.drop_last(), j);
    }
}

/// The node of slot `j` has been reached: settled, or on the frontier.
pub open spec fn active(visited: Seq<bool>, qc: Map<u64, u64>, j: int) -> bool {
    visited[j] || qc.dom().contains(j as u64)
}

/// The frontier is finite and holds only in-range, unsettled slots.
#[verifier::opaque]
pub open spec fn frontier_ok(n: int, visited: Seq<bool>, qc: Map<u64, u64>) -> bool {
    &&& qc.dom().finite()
    &&& forall|q: u64|
        #[trigger] qc.dom().contains(q) ==> 0 <= (q as int) && (q as int) < n && !visited[q as int]
}

/// Every reached node carries a witness path from the start and, except for
/// the start itself, a settled predecessor whose witness is one step
/// shorter.
#[verifier::opaque]
pub open spec fn routes_ok(
    gp: GlobePoints,
    start: GridPoint,
    si: int,
    n: int,
    visited: Seq<bool>,
    come_from: Seq<Option<GridPoint>>,
    route: Map<int, Seq<GridPoint>>,
    qc: Map<u64, u64>,
) -> bool {
    let sz = gp.grid_size as int;
    forall|j: int|
        #![trigger visited[j]]
        #![trigger qc.dom().contains(j as u64)]
        0 <= j < n && active(visited, qc, j) ==> {
            &&& route.contains_key(j)
            &&& route[j].len() >= 1
            &&& route[j][0] == start
            &&& route[j].last() == grid_of_spec(j, sz)
            &&& gp.is_chain(route[j])
            &&& (j == si ==> route[j] == seq![start])
            &&& (j != si ==> {
                &&& route[j].len() >= 2
                &&& come_from[j] is Some
                &&& {
                    let p = come_from[j]->0;
                    let pi = idx_spec(p, sz);
                    &&& p == route[j][route[j].len() - 2]
                    &&& valid_grid(p, gp.grid_size)
                    &&& 0 <= pi < n
                    &&& visited[pi]
                    &&& route.contains_key(pi)
                    &&& route[pi] == route[j].drop_last()
                }
            })
        }
}

/// Every settled node has every neighbor settled or on the frontier.
#[verifier::opaque]
pub open spec fn closure_ok(gp: GlobePoints, n: int, visited: Seq<bool>, qc: Map<u64, u64>) -> bool {
    let sz = gp.grid_size as int;
    forall|j: int, k: int|
        0 <= j < n && visited[j] && 0 <= k < gp.graph@[j]@.len() ==> active(
            visited,
            qc,
            idx_spec((#[trigger] gp.graph@[j]@[k]).to, sz),
        )
}

/// Like `closure_ok`, but one (freshly settled) slot is exempt while its
/// edges are still being relaxed.
#[verifier::opaque]
pub open spec fn closure_except(
    gp: GlobePoints,
    n: int,
    visited: Seq<bool>,
    qc: Map<u64, u64>,
    x: int,
) -> bool {
    let sz = gp.grid_size as int;
    forall|j: int, k: int|
        0 <= j < n && j != x && visited[j] && 0 <= k < gp.graph@[j]@.len() ==> active(
            visited,
            qc,
            idx_spec((#[trigger] gp.graph@[j]@[k]).to, sz),
        )
}

/// Settling the popped slot keeps every other settled slot's neighbors
/// reached.
proof fn lemma_closure_settle(
    gp: GlobePoints,
    n: int,
    visited_b: Seq<bool>,
    visited_a: Seq<bool>,
    qc_pre: Map<u64, u64>,
    qc_post: Map<u64, u64>,
    i: int,
)
    requires
        gp.wf(),
        n == slot_count(gp.grid_size as int),
        n <= 0x1_0000_0000,
        visited_b.len() == n,
        closure_ok(gp, n, visited_b, qc_pre),
        0 <= i < n,
        visited_a == visited_b.update(i, true),
        qc_post == qc_pre.remove(i as u64),
    ensures
        closure_except(gp, n, visited_a, qc_post, i),
{
    reveal(closure_ok);
    reveal(closure_except);
    let sz = gp.grid_size as int;
    assert forall|j: int, k: int|
        0 <= j < n && j != i && visited_a[j] && 0 <= k < gp.graph@[j]@.len() implies active(
        visited_a,
        qc_post,
        idx_spec((#[trigger] gp.graph@[j]@[k]).to, sz),
    ) by {
        assert(visited_b[j]);
        let tt = idx_spec(gp.graph@[j]@[k].to, sz);
        assert(valid_grid(gp.graph@[j]@[k].to, gp.grid_size));
        lemma_idx_roundtrip(gp.graph@[j]@[k].to, sz);
        assert(active(visited_b, qc_pre, tt));
        if !visited_b[tt] {
            if tt == i {
                assert(visited_a[tt]);
            } else {
                assert(tt as u64 != i as u64) by {
                    assert(0 <= tt < n && 0 <= i < n && tt != i);
                }
                assert(qc_post.dom().contains(tt as u64));
            }
        }
    }
}

/// A growing frontier keeps every already-reached neighbor reached.
proof fn lemma_closure_grow(
    gp: GlobePoints,
    n: int,
    visited: Seq<bool>,
    qc_b: Map<u64, u64>,
    qc_a: Map<u64, u64>,
    x: int,
)
    requires
        closure_except(gp, n, visited, qc_b, x),
        forall|q: u64| #[trigger] qc_b.dom().contains(q) ==> qc_a.dom().contains(q),
    ensures
        closure_except(gp, n, visited, qc_a, x),
{
    reveal(closure_except);
    let sz = gp.grid_size as int;
    assert forall|j: int, k: int|
        0 <= j < n && j != x && visited[j] && 0 <= k < gp.graph@[j]@.len() implies active(
        visited,
        qc_a,
        idx_spec((#[trigger] gp.graph@[j]@[k]).to, sz),
    ) by {
        assert(active(visited, qc_b, idx_spec(gp.graph@[j]@[k].to, sz)));
    }
}

/// A full relaxation pass restores closure for the freshly settled slot.
proof fn lemma_closure_finish(
    gp: GlobePoints,
    n: int,
    visited: Seq<bool>,
    qc: Map<u64, u64>,
    i: int,
)
    requires
        closure_except(gp, n, visited, qc, i),
        forall|k2: int|
            0 <= k2 < gp.graph@[i]@.len() ==> active(
                visited,
                qc,
                idx_spec((#[trigger] gp.graph@[i]@[k2]).to, gp.grid_size as int),
            ),
    ensures
        closure_ok(gp, n, visited, qc),
{
    reveal(closure_ok);
    reveal(closure_except);
}

/// Settling the popped slot keeps the frontier well-formed.
proof fn lemma_frontier_settle(
    n: int,
    visited_b: Seq<bool>,
    visited_a: Seq<bool>,
    qc_pre: Map<u64, u64>,
    qc_post: Map<u64, u64>,
    i: int,
)
    requires
        frontier_ok(n, visited_b, qc_pre),
        visited_b.len() == n,
        0 <= i < n,
        visited_a == visited_b.update(i, true),
        qc_post == qc_pre.remove(i as u64),
    ensures
        frontier_ok(n, visited_a, qc_post),
{
    reveal(frontier_ok);
    assert forall|q: u64| #[trigger]
        qc_post.dom().contains(q) implies 0 <= (q as int) && (q as int) < n && !visited_a[
        q as int] by {
        assert(q != i as u64);
        assert(qc_pre.dom().contains(q));
    }
}

/// Queuing one more unsettled, in-range slot keeps the frontier
/// well-formed.
proof fn lemma_frontier_grow(
    n: int,
    visited: Seq<bool>,
    qc_b: Map<u64, u64>,
    qc_a: Map<u64, u64>,
    t: int,
)
    requires
        frontier_ok(n, visited, qc_b),
        n <= 0x1_0000_0000,
        0 <= t < n,
        !visited[t],
        qc_a.dom() == qc_b.dom().insert(t as u64),
    ensures
        frontier_ok(n, visited, qc_a),
{
    reveal(frontier_ok);
    assert forall|q: u64| #[trigger]
        qc_a.dom().contains(q) implies 0 <= (q as int) && (q as int) < n && !visited[q as int] by {
        if q != t as u64 {
            assert(qc_b.dom().contains(q));
        } else {
            assert(q as int == t);
        }
    }
}

/// A settled set that contains the start, is closed under edges, and misses
/// `end` rules out any path from start to end.
proof fn lemma_closed_unreachable(
    gp: GlobePoints,
    start: GridPoint,
    end: GridPoint,
    visited: Seq<bool>,
    qc: Map<u64, u64>,
)
    requires
        gp.wf(),
        valid_grid(start, gp.grid_size),
        valid_grid(end, gp.grid_size),
        visited.len() == slot_count(gp.grid_size as int),
        frontier_ok(visited.len() as int, visited, qc),
        closure_ok(gp, visited.len() as int, visited, qc),
        forall|q: u64| !(#[trigger] qc.dom().contains(q)),
        visited[idx_spec(start, gp.grid_size as int)],
        !visited[idx_spec(end, gp.grid_size as int)],
    ensures
        !gp.reachable(start, end),
{
    let sz = gp.grid_size as int;
    if gp.reachable(start, end) {
        let p = choose|p: Seq<GridPoint>| gp.is_path(p, start, end);
        lemma_chain_stays(gp, start, visited, qc, p, p.len() - 1);
        lemma_idx_roundtrip(end, sz);
    }
}

/// Walking any chain from a settled start through a closed settled set keeps
/// every step settled.
proof fn lemma_chain_stays(
    gp: GlobePoints,
    start: GridPoint,
    visited: Seq<bool>,
    qc: Map<u64, u64>,
    p: Seq<GridPoint>,
    m: int,
)
    requires
        gp.wf(),
        valid_grid(start, gp.grid_size),
        visited.len() == slot_count(gp.grid_size as int),
        frontier_ok(visited.len() as int, visited, qc),
        closure_ok(gp, visited.len() as int, visited, qc),
        forall|q: u64| !(#[trigger] qc.dom().contains(q)),
        visited[idx_spec(start, gp.grid_size as int)],
        p.len() >= 1,
        p[0] == start,
        gp.is_chain(p),
        0 <= m < p.len(),
    ensures
        valid_grid(p[m], gp.grid_size) && visited[idx_spec(p[m], gp.grid_size as int)],
    decreases m,
{
    reveal(closure_ok);
    reveal(frontier_ok);
    let sz = gp.grid_size as int;
    if m == 0 {
        lemma_idx_roundtrip(start, sz);
    } else {
        lemma_chain_stays(gp, start, visited, qc, p, m - 1);
        let u = p[m - 1];
        let v = p[m];
        assert(gp.has_edge(u, v));
        let k = choose|k: int| 0 <= k < gp.edges_at(u).len() && gp.edges_at(u)[k].to == v;
        let iu = idx_spec(u, sz);
        lemma_idx_roundtrip(u, sz);
        assert(gp.graph@[iu]@[k].to == v);
        assert(valid_grid(v, gp.grid_size));
        lemma_idx_roundtrip(v, sz);
        assert(active(visited, qc, idx_spec(v, sz)));
    }
}

/// Reverses a list of grid points.
fn reverse_vec(v: &Vec<GridPoint>) -> (r: Vec<GridPoint>)
    ensures
        r@.len() == v@.len(),
        forall|m: int| 0 <= m < v@.len() ==> #[trigger] r@[m] == v@[v@.len() - 1 - m],
{
    let mut r: Vec<GridPoint> = Vec::new();
    let mut m: usize = 0;
    while m < v.len()
        invariant
            m <= v@.len(),
            r@.len() == m,
            forall|x: int| 0 <= x < m ==> #[trigger] r@[x] == v@[v@.len() - 1 - x],
        decreases v@.len() - m,
    {
        r.push(v[v.len() - 1 - m]);
        m = m + 1;
    }
    r
}

/// Settling one frontier node keeps every reached node's witness intact.
proof fn lemma_routes_settle(
    gp: GlobePoints,
    start: GridPoint,
    si: int,
    n: int,
    visited_b: Seq<bool>,
    visited_a: Seq<bool>,
    cf: Seq<Option<GridPoint>>,
    route: Map<int, Seq<GridPoint>>,
    qc_b: Map<u64, u64>,
    qc_a: Map<u64, u64>,
    i: int,
)
    requires
        routes_ok(gp, start, si, n, visited_b, cf, route, qc_b),
        visited_b.len() == n,
        0 <= i < n,
        visited_a == visited_b.update(i, true),
        qc_b.dom().contains(i as u64),
        qc_a == qc_b.remove(i as u64),
    ensures
        routes_ok(gp, start, si, n, visited_a, cf, route, qc_a),
{
    reveal(routes_ok);
    let sz = gp.grid_size as int;
    assert forall|j: int|
        #![trigger visited_a[j]]
        #![trigger qc_a.dom().contains(j as u64)]
        0 <= j < n && active(visited_a, qc_a, j) implies {
        &&& route.contains_key(j)
        &&& route[j].len() >= 1
        &&& route[j][0] == start
        &&& route[j].last() == grid_of_spec(j, sz)
        &&& gp.is_chain(route[j])
        &&& (j == si ==> route[j] == seq![start])
        &&& (j != si ==> {
            &&& route[j].len() >= 2
            &&& cf[j] is Some
            &&& {
                let p = cf[j]->0;
                let pi = idx_spec(p, sz);
                &&& p == route[j][route[j].len() - 2]
                &&& valid_grid(p, gp.grid_size)
                &&& 0 <= pi < n
                &&& visited_a[pi]
                &&& route.contains_key(pi)
                &&& route[pi] == route[j].drop_last()
            }
        })
    } by {
        if j == i {
            assert(qc_b.dom().contains(i as u64));
        } else {
            if visited_a[j] {
                assert(visited_b[j]);
            }
            if qc_a.dom().contains(j as u64) {
                assert(qc_b.dom().contains(j as u64));
            }
        }
        assert(active(visited_b, qc_b, j));
        if j != si && active(visited_b, qc_b, j) {
            let p = cf[j]->0;
            let pi = idx_spec(p, sz);
            assert(visited_b[pi]);
            assert(visited_a[pi]);
        }
    }
}

/// Queuing (or re-queuing) a neighbor with its predecessor extends the
/// witnesses consistently.
#[verifier::rlimit(100)]
proof fn lemma_routes_relax(
    gp: GlobePoints,
    start: GridPoint,
    si: int,
    n: int,
    visited: Seq<bool>,
    cf_b: Seq<Option<GridPoint>>,
    cf_a: Seq<Option<GridPoint>>,
    route_b: Map<int, Seq<GridPoint>>,
    route_a: Map<int, Seq<GridPoint>>,
    qc_b: Map<u64, u64>,
    qc_a: Map<u64, u64>,
    i: int,
    t: int,
    e_to: GridPoint,
    k: int,
)
    requires
        gp.wf(),
        routes_ok(gp, start, si, n, visited, cf_b, route_b, qc_b),
        visited.len() == n,
        cf_b.len() == n,
        n == slot_count(gp.grid_size as int),
        0 <= i < n,
        visited[i],
        0 <= t < n,
        !visited[t],
        t != si,
        0 <= k < gp.graph@[i]@.len(),
        gp.graph@[i]@[k].to == e_to,
        valid_grid(e_to, gp.grid_size),
        idx_spec(e_to, gp.grid_size as int) == t,
        n <= 0x1_0000_0000,
        qc_a.dom() == qc_b.dom().insert(t as u64),
        cf_a == cf_b.update(t, Some(grid_of_spec(i, gp.grid_size as int))),
        route_a == route_b.insert(t, route_b[i].push(e_to)),
    ensures
        routes_ok(gp, start, si, n, visited, cf_a, route_a, qc_a),
{
    reveal(routes_ok);
    let sz = gp.grid_size as int;
    let g = grid_of_spec(i, sz);
    lemma_grid_of_valid(i, sz);
    assert(active(visited, qc_b, i));
    let ri = route_b[i];
    let rt = route_a[t];
    assert(rt == ri.push(e_to));
    assert(gp.has_edge(g, e_to)) by {
        assert(gp.edges_at(g)[k].to == e_to);
    }
    assert forall|j: int|
        #![trigger visited[j]]
        #![trigger qc_a.dom().contains(j as u64)]
        0 <= j < n && active(visited, qc_a, j) implies {
        &&& route_a.contains_key(j)
        &&& route_a[j].len() >= 1
        &&& route_a[j][0] == start
        &&& route_a[j].last() == grid_of_spec(j, sz)
        &&& gp.is_chain(route_a[j])
        &&& (j == si ==> route_a[j] == seq![start])
        &&& (j != si ==> {
            &&& route_a[j].len() >= 2
            &&& cf_a[j] is Some
            &&& {
                let p = cf_a[j]->0;
                let pi = idx_spec(p, sz);
                &&& p == route_a[j][route_a[j].len() - 2]
                &&& valid_grid(p, gp.grid_size)
                &&& 0 <= pi < n
                &&& visited[pi]
                &&& route_a.contains_key(pi)
                &&& route_a[pi] == route_a[j].drop_last()
            }
        })
    } by {
        if j == t {
            assert(rt.len() == ri.len() + 1);
            assert(rt[0] == ri[0]);
            assert(rt.last() == e_to);
            assert(grid_of_spec(t, sz) == e_to) by {
                lemma_idx_roundtrip(e_to, sz);
            }
            assert(gp.is_chain(rt)) by {
                assert forall|m: int| 0 <= m < rt.len() - 1 implies gp.has_edge(
                    #[trigger] rt[m],
                    rt[m + 1],
                ) by {
                    if m < rt.len() - 2 {
                        assert(rt[m] == ri[m]);
                        assert(rt[m + 1] == ri[m + 1]);
                        assert(gp.is_chain(ri));
                    } else {
                        assert(rt[m] == ri.last());
                        assert(ri.last() == g);
                        assert(rt[m + 1] == e_to);
                    }
                }
            }
            assert(cf_a[t] == Some(g));
            assert(route_a[i] == ri);
            assert(rt.drop_last() =~= ri);
            assert(rt[rt.len() - 2] == g);
        } else {
            if qc_a.dom().contains(j as u64) && !visited[j] {
                assert(qc_b.dom().contains(j as u64) || j as u64 == t as u64);
                assert(j as u64 != t as u64) by {
                    assert(0 <= j < 0x1_0000_0000 && 0 <= t < 0x1_0000_0000 && j != t);
                }
                assert(qc_b.dom().contains(j as u64));
            }
            assert(active(visited, qc_b, j));
            assert(route_a[j] == route_b[j]);
            assert(cf_a[j] == cf_b[j]);
            if j != si {
                let p = cf_b[j]->0;
                let pi = idx_spec(p, sz);
                assert(visited[pi]);
                assert(pi != t);
                assert(route_a[pi] == route_b[pi]);
            }
        }
    }
}

/// Rebuilds the found route by walking predecessor links back from the end
/// slot; the result is exactly the end slot's witness path.
#[verifier::rlimit(100)]
fn rebuild_path(
    globe_points: &GlobePoints,
    start: GridPoint,
    end: GridPoint,
    si: usize,
    ei: usize,
    visited: &Vec<bool>,
    come_from: &Vec<Option<GridPoint>>,
    Ghost(route): Ghost<Map<int, Seq<GridPoint>>>,
    Ghost(qc): Ghost<Map<u64, u64>>,
) -> (out: Vec<GridPoint>)
    requires
        globe_points.wf(),
        si as int == idx_spec(start, globe_points.grid_size as int),
        ei as int == idx_spec(end, globe_points.grid_size as int),
        si < slot_count(globe_points.grid_size as int),
        ei < slot_count(globe_points.grid_size as int),
        start == grid_of_spec(si as int, globe_points.grid_size as int),
        end == grid_of_spec(ei as int, globe_points.grid_size as int),
        visited@.len() == slot_count(globe_points.grid_size as int),
        come_from@.len() == slot_count(globe_points.grid_size as int),
        visited@[ei as int],
        routes_ok(
            *globe_points,
            start,
            si as int,
            slot_count(globe_points.grid_size as int),
            visited@,
            come_from@,
            route,
            qc,
        ),
    ensures
        out@ == route[ei as int],
        globe_points.is_path(out@, start, end),
{
    let size = globe_points.grid_size;
    let ghost sz = size as int;
    let ghost n = slot_count(sz);
    let ghost full: Seq<GridPoint> = route[ei as int];
    let mut rev: Vec<GridPoint> = Vec::new();
    let mut cur: GridPoint = end;
    let mut ci: usize = ei;
    proof {
        reveal(routes_ok);
        assert(visited@[ei as int]);
        assert(active(visited@, qc, ei as int));
        assert(route[ei as int].last() == end);
        assert(full.take(full.len() as int) =~= full);
    }
    loop
        invariant_except_break
            globe_points.wf(),
            1 <= size <= GRID_SIZE_MAX,
            size == globe_points.grid_size,
            sz == size as int,
            n == slot_count(sz),
            si as int == idx_spec(start, sz),
            si < n,
            start == grid_of_spec(si as int, sz),
            visited@.len() == n,
            come_from@.len() == n,
            routes_ok(*globe_points, start, si as int, n, visited@, come_from@, route, qc),
            0 <= ci < n,
            visited@[ci as int],
            cur == grid_of_spec(ci as int, sz),
            ci as int == idx_spec(cur, sz),
            route.contains_key(ci as int),
            rev@.len() < full.len(),
            route[ci as int] == full.take(full.len() - rev@.len()),
            cur == full[full.len() - 1 - rev@.len() as int],
            forall|m: int| 0 <= m < rev@.len() ==> #[trigger] rev@[m] == full[full.len() - 1 - m],
        ensures
            rev@.len() == full.len(),
            forall|m: int| 0 <= m < rev@.len() ==> #[trigger] rev@[m] == full[full.len() - 1 - m],
        decreases full.len() - rev@.len(),
    {
        let ghost rl = rev@.len() as int;
        rev.push(cur);
        if ci == si {
            proof {
                reveal(routes_ok);
                assert(visited@[si as int]);
                assert(route[si as int] == seq![start]);
                assert(full.take(full.len() - rl).len() == 1);
                assert(rev@.len() == full.len());
            }
            break ;
        }
        proof {
            reveal(routes_ok);
            assert(visited@[ci as int]);
            assert(come_from@[ci as int] is Some);
        }
        let parent_opt = come_from[ci];
        let parent = parent_opt.unwrap();
        proof {
            reveal(routes_ok);
            assert(parent == come_from@[ci as int]->0);
            assert(valid_grid(parent, size));
        }
        let pi = idx_of(parent, size);
        proof {
            reveal(routes_ok);
            assert(pi as int == idx_spec(parent, sz));
            assert(route[pi as int] == route[ci as int].drop_last());
            assert(route[ci as int].drop_last() =~= full.take(full.len() - rl - 1));
            assert(parent == route[ci as int][route[ci as int].len() - 2]);
            assert(route[pi as int].last() == grid_of_spec(pi as int, sz));
            assert(full.take(full.len() - rl - 1).last() == full[full.len() - rl - 2]);
            assert(parent == full[full.len() - rl - 2]);
            assert(parent == grid_of_spec(pi as int, sz));
            assert(visited@[pi as int]);
        }
        cur = parent;
        ci = pi;
    }
    let out = reverse_vec(&rev);
    proof {
        reveal(routes_ok);
        assert(visited@[ei as int]);
        assert(out@ =~= full);
    }
    out
}

/// Computes a route from `start` to `end` through the globe's graph with a
/// single Dijkstra search from the start side, settling nodes in order of
/// tentative distance and stopping as soon as the end is settled. Returns
/// the route as the full node sequence (both endpoints included), an error
/// naming an out-of-grid endpoint, an endpoint without a sample, or the
/// certainty that no route exists.
#[verifier::rlimit(100)]
pub fn dijkstra(start: GridPoint, end: GridPoint, globe_points: &GlobePoints) -> (r: Result<
    Vec<GridPoint>,
    PathError,
>)
    requires
        globe_points.wf(),
    ensures
        r == Err::<Vec<GridPoint>, PathError>(PathError::InvalidGridCoordinate) <==> !(valid_grid(
            start,
            globe_points.grid_size,
        ) && valid_grid(end, globe_points.grid_size)),
        r == Err::<Vec<GridPoint>, PathError>(PathError::NodeNotFound) <==> (valid_grid(
            start,
            globe_points.grid_size,
        ) && valid_grid(end, globe_points.grid_size) && !(globe_points.stored(start)
            && globe_points.stored(end))),
        globe_points.stored(start) && globe_points.stored(end) ==> ((r is Ok)
            <==> globe_points.reachable(start, end)),
        globe_points.stored(start) && globe_points.stored(end) && !globe_points.reachable(
            start,
            end,
        ) ==> r == Err::<Vec<GridPoint>, PathError>(PathError::Unreachable),
        r is Ok ==> globe_points.is_path((r->Ok_0)@, start, end),
        globe_points.stored(start) && globe_points.stored(end) && start == end ==> r is Ok && (
        r->Ok_0)@ == seq![start],
{
    let size = globe_points.grid_size;
    let ghost sz = size as int;
    if !(start.0 < 6 && start.1 <= size && start.2 <= size && end.0 < 6 && end.1 <= size && end.2
        <= size) {
        return Err(PathError::InvalidGridCoordinate);
    }
    let si = idx_of(start, size);
    let ei = idx_of(end, size);
    proof {
        lemma_idx_roundtrip(start, sz);
        lemma_idx_roundtrip(end, sz);
    }
    let start_stored = globe_points.points[si].is_some();
    let end_stored = globe_points.points[ei].is_some();
    if !(start_stored && end_stored) {
        return Err(PathError::NodeNotFound);
    }
    if si == ei {
        proof {
            assert(start == end);
            assert(globe_points.is_path(seq![start], start, end));
        }
        let mut single: Vec<GridPoint> = Vec::new();
        single.push(start);
        proof {
            assert(single@ == seq![start]);
        }
        return Ok(single);
    }
    proof {
        assert(start != end);
    }
    let n = slots(size);
    let mut visited: Vec<bool> = vec![false; n];
    let mut come_from: Vec<Option<GridPoint>> = vec![None; n];
    let mut queue: PriorityQueue<u64, u64> = pq_new();
    pq_push(&mut queue, si as u64, u64::MAX);
    let ghost route0: Map<int, Seq<GridPoint>> = Map::empty().insert(si as int, seq![start]);
    let mut route: Ghost<Map<int, Seq<GridPoint>>> = Ghost(route0);
    let mut found = false;
    proof {
        assert(n <= 0x1_0000_0000) by (nonlinear_arith)
            requires
                n == 6 * (sz + 1) * (sz + 1),
                1 <= sz <= 4096,
        ;
        assert(pq_contents(queue).dom() =~= Set::<u64>::empty().insert(si as u64));
        lemma_count_true_le(visited@);
        assert(route0[si as int] == seq![start]);
        assert(globe_points.is_chain(seq![start]));
        assert(frontier_ok(n as int, visited@, pq_contents(queue))) by {
            reveal(frontier_ok);
            assert forall|q: u64| #[trigger]
                pq_contents(queue).dom().contains(q) implies 0 <= (q as int) && (q as int) < n
                && !visited@[q as int] by {
                assert(q == si as u64);
            }
        }
        assert(routes_ok(
            *globe_points,
            start,
            si as int,
            n as int,
            visited@,
            come_from@,
            route@,
            pq_contents(queue),
        )) by {
            reveal(routes_ok);
            assert forall|j: int|
                #![trigger visited@[j]]
                #![trigger pq_contents(queue).dom().contains(j as u64)]
                0 <= j < n && active(visited@, pq_contents(queue), j) implies j == si as int by {
                assert(!visited@[j]);
                assert(pq_contents(queue).dom().contains(j as u64));
                assert(j as u64 == si as u64);
            }
        }
        assert(closure_ok(*globe_points, n as int, visited@, pq_contents(queue))) by {
            reveal(closure_ok);
        }
    }
    loop
        invariant_except_break
            globe_points.wf(),
            1 <= size <= GRID_SIZE_MAX,
            size == globe_points.grid_size,
            sz == size as int,
            n == slot_count(sz),
            n <= 0x1_0000_0000,
            si as int == idx_spec(start, sz),
            ei as int == idx_spec(end, sz),
            si < n,
            ei < n,
            si != ei,
            start == grid_of_spec(si as int, sz),
            end == grid_of_spec(ei as int, sz),
            globe_points.stored(start),
            globe_points.stored(end),
            visited@.len() == n,
            come_from@.len() == n,
            count_true(visited@) <= n,
            !found,
            !visited@[ei as int],
            active(visited@, pq_contents(queue), si as int),
            !visited@[si as int] ==> (forall|q: u64| #[trigger]
                pq_contents(queue).dom().contains(q) ==> q == si as u64),
            frontier_ok(n as int, visited@, pq_contents(queue)),
            routes_ok(
                *globe_points,
                start,
                si as int,
                n as int,
                visited@,
                come_from@,
                route@,
                pq_contents(queue),
            ),
            closure_ok(*globe_points, n as int, visited@, pq_contents(queue)),
        ensures
            globe_points.wf(),
            1 <= size <= GRID_SIZE_MAX,
            size == globe_points.grid_size,
            sz == size as int,
            n == slot_count(sz),
            n <= 0x1_0000_0000,
            si as int == idx_spec(start, sz),
            ei as int == idx_spec(end, sz),
            si < n,
            ei < n,
            si != ei,
            start == grid_of_spec(si as int, sz),
            end == grid_of_spec(ei as int, sz),
            visited@.len() == n,
            come_from@.len() == n,
            routes_ok(
                *globe_points,
                start,
                si as int,
                n as int,
                visited@,
                come_from@,
                route@,
                pq_contents(queue),
            ),
            found ==> visited@[ei as int],
            !found ==> {
                &&& (forall|q: u64| !(#[trigger] pq_contents(queue).dom().contains(q)))
                &&& closure_ok(*globe_points, n as int, visited@, pq_contents(queue))
                &&& frontier_ok(n as int, visited@, pq_contents(queue))
                &&& visited@[si as int]
                &&& !visited@[ei as int]
            },
        decreases n - count_true(visited@),
    {
        let ghost qc_pre = pq_contents(queue);
        let popped = pq_pop(&mut queue);
        match popped {
            None => {
                proof {
                    assert(visited@[si as int]);
                }
                break ;
            },
            Some((qi, prio)) => {
                let i = qi as usize;
                proof {
                    assert(qc_pre.dom().contains(qi));
                    assert(0 <= (qi as int) && (qi as int) < n && !visited@[qi as int]) by {
                        reveal(frontier_ok);
                    }
                    assert(i as int == qi as int);
                }
                let ghost visited_before = visited@;
                proof {
                    lemma_count_true_update(visited@, i as int);
                }
                visited[i] = true;
                proof {
                    assert(visited@ == visited_before.update(i as int, true));
                    lemma_count_true_le(visited@);
                    assert(i as u64 == qi);
                    lemma_frontier_settle(
                        n as int,
                        visited_before,
                        visited@,
                        qc_pre,
                        pq_contents(queue),
                        i as int,
                    );
                    assert(visited@[si as int]) by {
                        if !visited_before[si as int] {
                            assert(qc_pre.dom().contains(qi));
                            assert(qi == si as u64);
                            assert(i == si);
                        }
                    }
                    lemma_routes_settle(
                        *globe_points,
                        start,
                        si as int,
                        n as int,
                        visited_before,
                        visited@,
                        come_from@,
                        route@,
                        qc_pre,
                        pq_contents(queue),
                        i as int,
                    );
                    lemma_closure_settle(
                        *globe_points,
                        n as int,
                        visited_before,
                        visited@,
                        qc_pre,
                        pq_contents(queue),
                        i as int,
                    );
                }
                if i == ei {
                    found = true;
                    break ;
                }
                let g = grid_at(i, size);
                proof {
                    assert(globe_points.graph@.len() == n);
                }
                let edge_count = globe_points.graph[i].len();
                let current_prio = prio;
                let mut k: usize = 0;
                while k < edge_count
                    invariant
                        globe_points.wf(),
                        1 <= size <= GRID_SIZE_MAX,
                        size == globe_points.grid_size,
                        sz == size as int,
                        n == slot_count(sz),
                        n <= 0x1_0000_0000,
                        globe_points.graph@.len() == n,
                        si as int == idx_spec(start, sz),
                        ei as int == idx_spec(end, sz),
                        si < n,
                        ei < n,
                        si != ei,
                        start == grid_of_spec(si as int, sz),
                        end == grid_of_spec(ei as int, sz),
                        globe_points.stored(start),
                        globe_points.stored(end),
                        visited@.len() == n,
                        come_from@.len() == n,
                        count_true(visited@) <= n,
                        i < n,
                        i != ei,
                        visited@[si as int],
                        visited@[i as int],
                        !visited@[ei as int],
                        g == grid_of_spec(i as int, sz),
                        edge_count == globe_points.graph@[i as int]@.len(),
                        k <= edge_count,
                        frontier_ok(n as int, visited@, pq_contents(queue)),
                        routes_ok(
                            *globe_points,
                            start,
                            si as int,
                            n as int,
                            visited@,
                            come_from@,
                            route@,
                            pq_contents(queue),
                        ),
                        closure_except(
                            *globe_points,
                            n as int,
                            visited@,
                            pq_contents(queue),
                            i as int,
                        ),
                        forall|k2: int|
                            0 <= k2 < k ==> active(
                                visited@,
                                pq_contents(queue),
                                idx_spec((#[trigger] globe_points.graph@[i as int]@[k2]).to, sz),
                            ),
                    decreases edge_count - k,
                {
                    let e = globe_points.graph[i][k];
                    proof {
                        assert(globe_points.graph@[i as int][k as int] == e);
                        assert(valid_grid(e.to, size));
                        lemma_idx_roundtrip(e.to, sz);
                    }
                    let t = idx_of(e.to, size);
                    if !visited[t] {
                        let step = e.cost;
                        let current_dist = u64::MAX - current_prio;
                        let nd = if current_dist > u64::MAX - step {
                            u64::MAX
                        } else {
                            current_dist + step
                        };
                        let np = u64::MAX - nd;
                        let old_prio = pq_get_priority(&queue, t as u64);
                        let improved = match old_prio {
                            None => true,
                            Some(op) => np > op,
                        };
                        if improved {
                            let ghost qc0 = pq_contents(queue);
                            let ghost route_b = route@;
                            let ghost cf_b = come_from@;
                            match old_prio {
                                None => {
                                    pq_push(&mut queue, t as u64, np);
                                },
                                Some(_) => {
                                    pq_change_priority(&mut queue, t as u64, np);
                                },
                            }
                            come_from[t] = Some(g);
                            proof {
                                reveal(routes_ok);
                                route@ = route@.insert(t as int, route@[i as int].push(e.to));
                            }
                            proof {
                                assert(pq_contents(queue).dom() =~= qc0.dom().insert(t as u64));
                                assert(t != si) by {
                                    assert(visited@[si as int]);
                                }
                                lemma_routes_relax(
                                    *globe_points,
                                    start,
                                    si as int,
                                    n as int,
                                    visited@,
                                    cf_b,
                                    come_from@,
                                    route_b,
                                    route@,
                                    qc0,
                                    pq_contents(queue),
                                    i as int,
                                    t as int,
                                    e.to,
                                    k as int,
                                );
                                lemma_closure_grow(
                                    *globe_points,
                                    n as int,
                                    visited@,
                                    qc0,
                                    pq_contents(queue),
                                    i as int,
                                );
                                lemma_frontier_grow(
                                    n as int,
                                    visited@,
                                    qc0,
                                    pq_contents(queue),
                                    t as int,
                                );
                                assert forall|k2: int|
                                    0 <= k2 < k implies active(
                                    visited@,
                                    pq_contents(queue),
                                    idx_spec(
                                        (#[trigger] globe_points.graph@[i as int]@[k2]).to,
                                        sz,
                                    ),
                                ) by {
                                    assert(active(
                                        visited@,
                                        qc0,
                                        idx_spec(globe_points.graph@[i as int]@[k2].to, sz),
                                    ));
                                }
                            }
                        }
                    }
                    proof {
                        assert(active(visited@, pq_contents(queue), t as int));
                    }
                    k = k + 1;
                }
                proof {
                    lemma_closure_finish(
                        *globe_points,
                        n as int,
                        visited@,
                        pq_contents(queue),
                        i as int,
                    );
                }
            },
        }
    }
    if !found {
        proof {
            lemma_closed_unreachable(*globe_points, start, end, visited@, pq_contents(queue));
        }
        return Err(PathError::Unreachable);
    }
    let out = rebuild_path(
        globe_points,
        start,
        end,
        si,
        ei,
        &visited,
        &come_from,
        Ghost(route@),
        Ghost(pq_contents(queue)),
    );
    proof {
        assert(globe_points.reachable(start, end));
    }
    Ok(out)
}


/// The single bidirectional queue holds each side's frontier under an even
/// (start side) or odd (end side) tag; the two shadow maps are its two
/// halves.
#[verifier::opaque]
pub open spec fn split_ok(qc: Map<u64, u64>, qs: Map<u64, u64>, qe: Map<u64, u64>) -> bool {
    &&& forall|q: u64|
        #[trigger] qc.dom().contains(q) ==> (if q % 2 == 0 {
            qs.dom().contains(q / 2)
        } else {
            qe.dom().contains(q / 2)
        })
    &&& forall|j: u64| #[trigger] qs.dom().contains(j) ==> j < 0x4000_0000_0000_0000 && qc.dom().contains((2 * j) as u64)
    &&& forall|j: u64|
        #[trigger] qe.dom().contains(j) ==> j < 0x4000_0000_0000_0000 && qc.dom().contains((2 * j + 1) as u64)
}

/// Stitches the start-side route (start to meeting point) and the end-side
/// route (end to meeting point) into one sequence from start to end; the
/// meeting point appears once.
fn join_routes(out_s: &Vec<GridPoint>, out_e: &Vec<GridPoint>) -> (out: Vec<GridPoint>)
    requires
        out_s@.len() >= 1,
        out_e@.len() >= 1,
    ensures
        out@.len() == out_s@.len() + out_e@.len() - 1,
        forall|m: int| 0 <= m < out_s@.len() ==> #[trigger] out@[m] == out_s@[m],
        forall|m: int|
            out_s@.len() <= m < out@.len() ==> #[trigger] out@[m] == out_e@[out_e@.len() - 2 - (m
                - out_s@.len())],
{
    let mut out: Vec<GridPoint> = Vec::new();
    let mut m: usize = 0;
    while m < out_s.len()
        invariant
            m <= out_s@.len(),
            out@.len() == m,
            forall|x: int| 0 <= x < m ==> #[trigger] out@[x] == out_s@[x],
        decreases out_s@.len() - m,
    {
        out.push(out_s[m]);
        m = m + 1;
    }
    let mut w: usize = 1;
    while w < out_e.len()
        invariant
            out_s@.len() >= 1,
            out_e@.len() >= 1,
            1 <= w <= out_e@.len(),
            out@.len() == out_s@.len() + w - 1,
            forall|x: int| 0 <= x < out_s@.len() ==> #[trigger] out@[x] == out_s@[x],
            forall|x: int|
                out_s@.len() <= x < out@.len() ==> #[trigger] out@[x] == out_e@[out_e@.len() - 2 - (
                x - out_s@.len())],
        decreases out_e@.len() - w,
    {
        out.push(out_e[out_e.len() - 1 - w]);
        w = w + 1;
    }
    out
}

/// Two witness routes that meet in one node stitch into a path from start
/// to end, using the graph's undirectedness for the reversed end side.
proof fn lemma_join_is_path(
    gp: GlobePoints,
    start: GridPoint,
    end: GridPoint,
    meet: GridPoint,
    rs: Seq<GridPoint>,
    re: Seq<GridPoint>,
    out: Seq<GridPoint>,
)
    requires
        gp.symmetric(),
        gp.is_path(rs, start, meet),
        gp.is_path(re, end, meet),
        out.len() == rs.len() + re.len() - 1,
        forall|m: int| 0 <= m < rs.len() ==> #[trigger] out[m] == rs[m],
        forall|m: int|
            rs.len() <= m < out.len() ==> #[trigger] out[m] == re[re.len() - 2 - (m - rs.len())],
    ensures
        gp.is_path(out, start, end),
{
    assert(out[0] == start);
    if re.len() == 1 {
        assert(out.len() == rs.len());
        assert(out[out.len() - 1] == rs[rs.len() - 1]);
        assert(meet == end);
    } else {
        assert(out[out.len() - 1] == re[0]);
    }
    assert forall|m: int| 0 <= m < out.len() - 1 implies gp.has_edge(
        #[trigger] out[m],
        out[m + 1],
    ) by {
        if m < rs.len() - 1 {
            assert(out[m] == rs[m]);
            assert(out[m + 1] == rs[m + 1]);
            assert(gp.is_chain(rs));
        } else {
            if m == rs.len() - 1 {
                assert(out[m] == rs[rs.len() - 1]);
                assert(out[m + 1] == re[re.len() - 2]);
                assert(gp.has_edge(re[re.len() - 2], re[re.len() - 1]));
                assert(re[re.len() - 1] == meet);
                assert(gp.has_edge(meet, re[re.len() - 2]));
            } else {
                let y = re.len() - 2 - (m - rs.len() as int);
                assert(out[m] == re[y]);
                assert(out[m + 1] == re[y - 1]);
                assert(gp.has_edge(re[y - 1], re[y]));
                assert(gp.has_edge(re[y], re[y - 1]));
            }
        }
    }
}

/// Computes a route from `start` to `end` with two simultaneous Dijkstra
/// frontiers, one growing from each endpoint through one shared priority
/// queue, stopping at the first node settled by both sides. The two witness
/// chains through that meeting point are stitched into the returned route;
/// the graph's undirectedness makes the reversed end-side chain walkable.
/// Errors are reported exactly as for `dijkstra`.
#[verifier::rlimit(100)]
pub fn bidirectional_dijkstra(
    start: GridPoint,
    end: GridPoint,
    globe_points: &GlobePoints,
) -> (r: Result<Vec<GridPoint>, PathError>)
    requires
        globe_points.wf(),
        globe_points.symmetric(),
    ensures
        r == Err::<Vec<GridPoint>, PathError>(PathError::InvalidGridCoordinate) <==> !(valid_grid(
            start,
            globe_points.grid_size,
        ) && valid_grid(end, globe_points.grid_size)),
        r == Err::<Vec<GridPoint>, PathError>(PathError::NodeNotFound) <==> (valid_grid(
            start,
            globe_points.grid_size,
        ) && valid_grid(end, globe_points.grid_size) && !(globe_points.stored(start)
            && globe_points.stored(end))),
        globe_points.stored(start) && globe_points.stored(end) ==> ((r is Ok)
            <==> globe_points.reachable(start, end)),
        globe_points.stored(start) && globe_points.stored(end) && !globe_points.reachable(
            start,
            end,
        ) ==> r == Err::<Vec<GridPoint>, PathError>(PathError::Unreachable),
        r is Ok ==> globe_points.is_path((r->Ok_0)@, start, end),
        globe_points.stored(start) && globe_points.stored(end) && start == end ==> r is Ok && (
        r->Ok_0)@ == seq![start],
{
    let size = globe_points.grid_size;
    let ghost sz = size as int;
    if !(start.0 < 6 && start.1 <= size && start.2 <= size && end.0 < 6 && end.1 <= size && end.2
        <= size) {
        return Err(PathError::InvalidGridCoordinate);
    }
    let si = idx_of(start, size);
    let ei = idx_of(end, size);
    proof {
        lemma_idx_roundtrip(start, sz);
        lemma_idx_roundtrip(end, sz);
    }
    let start_stored = globe_points.points[si].is_some();
    let end_stored = globe_points.points[ei].is_some();
    if !(start_stored && end_stored) {
        return Err(PathError::NodeNotFound);
    }
    if si == ei {
        proof {
            assert(start == end);
            assert(globe_points.is_path(seq![start], start, end));
        }
        let mut single: Vec<GridPoint> = Vec::new();
        single.push(start);
        proof {
            assert(single@ == seq![start]);
        }
        return Ok(single);
    }
    proof {
        assert(start != end);
    }
    let n = slots(size);
    let mut vs: Vec<bool> = vec![false; n];
    let mut ve: Vec<bool> = vec![false; n];
    let mut cfs: Vec<Option<GridPoint>> = vec![None; n];
    let mut cfe: Vec<Option<GridPoint>> = vec![None; n];
    let mut queue: PriorityQueue<u64, u64> = pq_new();
    proof {
        assert(n <= 0x1_0000_0000) by (nonlinear_arith)
            requires
                n == 6 * (sz + 1) * (sz + 1),
                1 <= sz <= 4096,
        ;
    }
    pq_push(&mut queue, (si as u64) * 2, u64::MAX);
    pq_push(&mut queue, (ei as u64) * 2 + 1, u64::MAX);
    let mut route_s: Ghost<Map<int, Seq<GridPoint>>> = Ghost(
        Map::empty().insert(si as int, seq![start]),
    );
    let mut route_e: Ghost<Map<int, Seq<GridPoint>>> = Ghost(
        Map::empty().insert(ei as int, seq![end]),
    );
    let mut qs: Ghost<Map<u64, u64>> = Ghost(Map::empty().insert(si as u64, u64::MAX));
    let mut qe: Ghost<Map<u64, u64>> = Ghost(Map::empty().insert(ei as u64, u64::MAX));
    let mut found = false;
    let mut meet: usize = 0;
    proof {
        assert(n <= 0x1_0000_0000) by (nonlinear_arith)
            requires
                n == 6 * (sz + 1) * (sz + 1),
                1 <= sz <= 4096,
        ;
        lemma_count_true_le(vs@);
        lemma_count_true_le(ve@);
        assert(pq_contents(queue).dom() =~= Set::<u64>::empty().insert(((si as u64) * 2) as u64).insert(
            ((ei as u64) * 2 + 1) as u64,
        ));
        assert(split_ok(pq_contents(queue), qs@, qe@)) by {
            reveal(split_ok);
            assert(qs@.dom() =~= Set::<u64>::empty().insert(si as u64));
            assert(qe@.dom() =~= Set::<u64>::empty().insert(ei as u64));
        }
        assert(frontier_ok(n as int, vs@, qs@)) by {
            reveal(frontier_ok);
            assert(qs@.dom() =~= Set::<u64>::empty().insert(si as u64));
        }
        assert(frontier_ok(n as int, ve@, qe@)) by {
            reveal(frontier_ok);
            assert(qe@.dom() =~= Set::<u64>::empty().insert(ei as u64));
        }
        assert(routes_ok(*globe_points, start, si as int, n as int, vs@, cfs@, route_s@, qs@))
            by {
            reveal(routes_ok);
            assert(qs@.dom() =~= Set::<u64>::empty().insert(si as u64));
            assert forall|j: int|
                #![trigger vs@[j]]
                #![trigger qs@.dom().contains(j as u64)]
                0 <= j < n && active(vs@, qs@, j) implies j == si as int by {
                assert(!vs@[j]);
                assert(qs@.dom().contains(j as u64));
                assert(j as u64 == si as u64);
            }
            assert(globe_points.is_chain(seq![start]));
        }
        assert(routes_ok(*globe_points, end, ei as int, n as int, ve@, cfe@, route_e@, qe@)) by {
            reveal(routes_ok);
            assert(qe@.dom() =~= Set::<u64>::empty().insert(ei as u64));
            assert forall|j: int|
                #![trigger ve@[j]]
                #![trigger qe@.dom().contains(j as u64)]
                0 <= j < n && active(ve@, qe@, j) implies j == ei as int by {
                assert(!ve@[j]);
                assert(qe@.dom().contains(j as u64));
                assert(j as u64 == ei as u64);
            }
            assert(globe_points.is_chain(seq![end]));
        }
        assert(closure_ok(*globe_points, n as int, vs@, qs@)) by {
            reveal(closure_ok);
        }
        assert(closure_ok(*globe_points, n as int, ve@, qe@)) by {
            reveal(closure_ok);
        }
    }
    loop
        invariant_except_break
            globe_points.wf(),
            globe_points.symmetric(),
            1 <= size <= GRID_SIZE_MAX,
            size == globe_points.grid_size,
            sz == size as int,
            n == slot_count(sz),
            n <= 0x1_0000_0000,
            si as int == idx_spec(start, sz),
            ei as int == idx_spec(end, sz),
            si < n,
            ei < n,
            si != ei,
            start == grid_of_spec(si as int, sz),
            end == grid_of_spec(ei as int, sz),
            globe_points.stored(start),
            globe_points.stored(end),
            vs@.len() == n,
            ve@.len() == n,
            cfs@.len() == n,
            cfe@.len() == n,
            count_true(vs@) <= n,
            count_true(ve@) <= n,
            !found,
            split_ok(pq_contents(queue), qs@, qe@),
            active(vs@, qs@, si as int),
            active(ve@, qe@, ei as int),
            !vs@[si as int] ==> (forall|j: u64| #[trigger]
                qs@.dom().contains(j) ==> j == si as u64),
            !ve@[ei as int] ==> (forall|j: u64| #[trigger]
                qe@.dom().contains(j) ==> j == ei as u64),
            forall|j: int| 0 <= j < n ==> !(#[trigger] vs@[j] && ve@[j]),
            frontier_ok(n as int, vs@, qs@),
            frontier_ok(n as int, ve@, qe@),
            routes_ok(*globe_points, start, si as int, n as int, vs@, cfs@, route_s@, qs@),
            routes_ok(*globe_points, end, ei as int, n as int, ve@, cfe@, route_e@, qe@),
            closure_ok(*globe_points, n as int, vs@, qs@),
            closure_ok(*globe_points, n as int, ve@, qe@),
        ensures
            globe_points.wf(),
            globe_points.symmetric(),
            1 <= size <= GRID_SIZE_MAX,
            size == globe_points.grid_size,
            sz == size as int,
            n == slot_count(sz),
            si as int == idx_spec(start, sz),
            ei as int == idx_spec(end, sz),
            si < n,
            ei < n,
            si != ei,
            start == grid_of_spec(si as int, sz),
            end == grid_of_spec(ei as int, sz),
            vs@.len() == n,
            ve@.len() == n,
            cfs@.len() == n,
            cfe@.len() == n,
            routes_ok(*globe_points, start, si as int, n as int, vs@, cfs@, route_s@, qs@),
            routes_ok(*globe_points, end, ei as int, n as int, ve@, cfe@, route_e@, qe@),
            found ==> meet < n && vs@[meet as int] && ve@[meet as int],
            !found ==> {
                &&& (forall|q: u64| !(#[trigger] qs@.dom().contains(q)))
                &&& (forall|q: u64| !(#[trigger] qe@.dom().contains(q)))
                &&& closure_ok(*globe_points, n as int, vs@, qs@)
                &&& closure_ok(*globe_points, n as int, ve@, qe@)
                &&& frontier_ok(n as int, vs@, qs@)
                &&& frontier_ok(n as int, ve@, qe@)
                &&& vs@[si as int]
                &&& ve@[ei as int]
                &&& (forall|j: int| 0 <= j < n ==> !(#[trigger] vs@[j] && ve@[j]))
            },
        decreases 2 * n - count_true(vs@) - count_true(ve@),
    {
        let ghost qc_pre = pq_contents(queue);
        let popped = pq_pop(&mut queue);
        match popped {
            None => {
                proof {
                    reveal(split_ok);
                    assert forall|q: u64| !(#[trigger] qs@.dom().contains(q)) by {
                        if qs@.dom().contains(q) {
                            assert(qc_pre.dom().contains((2 * q) as u64));
                        }
                    }
                    assert forall|q: u64| !(#[trigger] qe@.dom().contains(q)) by {
                        if qe@.dom().contains(q) {
                            assert(qc_pre.dom().contains((2 * q + 1) as u64));
                        }
                    }
                    assert(vs@[si as int]);
                    assert(ve@[ei as int]);
                }
                break ;
            },
            Some((qtag, prio)) => {
                let from_start = qtag % 2 == 0;
                let i = (qtag / 2) as usize;
                proof {
                    reveal(split_ok);
                    assert(qc_pre.dom().contains(qtag));
                    if from_start {
                        assert(qs@.dom().contains(qtag / 2));
                    } else {
                        assert(qe@.dom().contains(qtag / 2));
                    }
                    assert(0 <= ((qtag / 2) as int) && ((qtag / 2) as int) < n) by {
                        reveal(frontier_ok);
                    }
                    assert(i as int == (qtag / 2) as int);
                    assert(i as u64 == qtag / 2);
                }
                if from_start {
                    let ghost qs_pre = qs@;
                    proof {
                        qs@ = qs@.remove(i as u64);
                        assert(split_ok(pq_contents(queue), qs@, qe@)) by {
                            reveal(split_ok);
                            assert forall|q: u64| #[trigger]
                                pq_contents(queue).dom().contains(q) implies (if q % 2 == 0 {
                                qs@.dom().contains(q / 2)
                            } else {
                                qe@.dom().contains(q / 2)
                            }) by {
                                assert(qc_pre.dom().contains(q) && q != qtag);
                                if q % 2 == 0 {
                                    assert(qs_pre.dom().contains(q / 2));
                                    assert(q / 2 != i as u64);
                                }
                            }
                            assert forall|j: u64| #[trigger]
                                qs@.dom().contains(j) implies j < 0x4000_0000_0000_0000
                                && pq_contents(queue).dom().contains((2 * j) as u64) by {
                                assert(qs_pre.dom().contains(j));
                                assert(2 * j != qtag);
                            }
                            assert forall|j: u64| #[trigger]
                                qe@.dom().contains(j) implies j < 0x4000_0000_0000_0000
                                && pq_contents(queue).dom().contains((2 * j + 1) as u64) by {
                                assert(2 * j + 1 != qtag);
                            }
                        }
                        assert(!vs@[i as int]) by {
                            reveal(frontier_ok);
                        }
                        lemma_count_true_update(vs@, i as int);
                    }
                    let ghost vs_before = vs@;
                    vs[i] = true;
                    proof {
                        lemma_count_true_le(vs@);
                        lemma_frontier_settle(n as int, vs_before, vs@, qs_pre, qs@, i as int);
                        assert(vs@[si as int]) by {
                            if !vs_before[si as int] {
                                assert(qs_pre.dom().contains(i as u64));
                                assert(i == si);
                            }
                        }
                        lemma_routes_settle(
                            *globe_points,
                            start,
                            si as int,
                            n as int,
                            vs_before,
                            vs@,
                            cfs@,
                            route_s@,
                            qs_pre,
                            qs@,
                            i as int,
                        );
                        lemma_closure_settle(
                            *globe_points,
                            n as int,
                            vs_before,
                            vs@,
                            qs_pre,
                            qs@,
                            i as int,
                        );
                        assert(routes_ok(
                            *globe_points,
                            end,
                            ei as int,
                            n as int,
                            ve@,
                            cfe@,
                            route_e@,
                            qe@,
                        ));
                    }
                    if ve[i] {
                        found = true;
                        meet = i;
                        break ;
                    }
                    proof {
                        assert forall|j: int| 0 <= j < n implies !(#[trigger] vs@[j]
                            && ve@[j]) by {
                            if j != i as int {
                                assert(!(vs_before[j] && ve@[j]));
                            }
                        }
                    }
                    let g = grid_at(i, size);
                    proof {
                        assert(globe_points.graph@.len() == n);
                    }
                    let edge_count = globe_points.graph[i].len();
                    let mut k: usize = 0;
                    while k < edge_count
                        invariant
                            globe_points.wf(),
                            1 <= size <= GRID_SIZE_MAX,
                            size == globe_points.grid_size,
                            sz == size as int,
                            n == slot_count(sz),
                            n <= 0x1_0000_0000,
                            globe_points.graph@.len() == n,
                            si as int == idx_spec(start, sz),
                            si < n,
                            start == grid_of_spec(si as int, sz),
                            vs@.len() == n,
                            cfs@.len() == n,
                            i < n,
                            vs@[si as int],
                            vs@[i as int],
                            g == grid_of_spec(i as int, sz),
                            edge_count == globe_points.graph@[i as int]@.len(),
                            k <= edge_count,
                            split_ok(pq_contents(queue), qs@, qe@),
                            frontier_ok(n as int, vs@, qs@),
                            routes_ok(
                                *globe_points,
                                start,
                                si as int,
                                n as int,
                                vs@,
                                cfs@,
                                route_s@,
                                qs@,
                            ),
                            closure_except(*globe_points, n as int, vs@, qs@, i as int),
                            forall|k2: int|
                                0 <= k2 < k ==> active(
                                    vs@,
                                    qs@,
                                    idx_spec(
                                        (#[trigger] globe_points.graph@[i as int]@[k2]).to,
                                        sz,
                                    ),
                                ),
                        decreases edge_count - k,
                    {
                        let e = globe_points.graph[i][k];
                        proof {
                            assert(globe_points.graph@[i as int][k as int] == e);
                            assert(valid_grid(e.to, size));
                            lemma_idx_roundtrip(e.to, sz);
                        }
                        let t = idx_of(e.to, size);
                        if !vs[t] {
                            let current_dist = u64::MAX - prio;
                            let nd = if current_dist > u64::MAX - e.cost {
                                u64::MAX
                            } else {
                                current_dist + e.cost
                            };
                            let np = u64::MAX - nd;
                            let old_prio = pq_get_priority(&queue, (t as u64) * 2);
                            let improved = match old_prio {
                                None => true,
                                Some(op) => np > op,
                            };
                            if improved {
                                let ghost qc0 = pq_contents(queue);
                                let ghost qs0 = qs@;
                                let ghost route_b = route_s@;
                                let ghost cf_b = cfs@;
                                match old_prio {
                                    None => {
                                        pq_push(&mut queue, (t as u64) * 2, np);
                                    },
                                    Some(_) => {
                                        pq_change_priority(&mut queue, (t as u64) * 2, np);
                                    },
                                }
                                cfs[t] = Some(g);
                                proof {
                                    reveal(routes_ok);
                                    route_s@ = route_s@.insert(
                                        t as int,
                                        route_s@[i as int].push(e.to),
                                    );
                                    qs@ = qs@.insert(t as u64, np);
                                    assert(pq_contents(queue).dom() =~= qc0.dom().insert(
                                        ((t as u64) * 2) as u64,
                                    ));
                                    assert(qs@.dom() =~= qs0.dom().insert(t as u64));
                                    assert(split_ok(pq_contents(queue), qs@, qe@)) by {
                                        reveal(split_ok);
                                        assert forall|q: u64| #[trigger]
                                            pq_contents(queue).dom().contains(q) implies (if q % 2
                                            == 0 {
                                            qs@.dom().contains(q / 2)
                                        } else {
                                            qe@.dom().contains(q / 2)
                                        }) by {
                                            if q != (t as u64) * 2 {
                                                assert(qc0.dom().contains(q));
                                            }
                                        }
                                        assert forall|j: u64| #[trigger]
                                            qs@.dom().contains(j) implies j
                                            < 0x4000_0000_0000_0000 && pq_contents(
                                            queue,
                                        ).dom().contains((2 * j) as u64) by {
                                            if j != t as u64 {
                                                assert(qs0.dom().contains(j));
                                            }
                                        }
                                        assert forall|j: u64| #[trigger]
                                            qe@.dom().contains(j) implies j
                                            < 0x4000_0000_0000_0000 && pq_contents(
                                            queue,
                                        ).dom().contains((2 * j + 1) as u64) by {
                                            assert(2 * j + 1 != (t as u64) * 2);
                                        }
                                    }
                                    assert(t != si) by {
                                        assert(vs@[si as int]);
                                    }
                                    lemma_routes_relax(
                                        *globe_points,
                                        start,
                                        si as int,
                                        n as int,
                                        vs@,
                                        cf_b,
                                        cfs@,
                                        route_b,
                                        route_s@,
                                        qs0,
                                        qs@,
                                        i as int,
                                        t as int,
                                        e.to,
                                        k as int,
                                    );
                                    lemma_closure_grow(
                                        *globe_points,
                                        n as int,
                                        vs@,
                                        qs0,
                                        qs@,
                                        i as int,
                                    );
                                    lemma_frontier_grow(n as int, vs@, qs0, qs@, t as int);
                                    assert forall|k2: int|
                                        0 <= k2 < k implies active(
                                        vs@,
                                        qs@,
                                        idx_spec(
                                            (#[trigger] globe_points.graph@[i as int]@[k2]).to,
                                            sz,
                                        ),
                                    ) by {
                                        assert(active(
                                            vs@,
                                            qs0,
                                            idx_spec(globe_points.graph@[i as int]@[k2].to, sz),
                                        ));
                                    }
                                }
                            }
                        }
                        proof {
                            reveal(split_ok);
                            assert(active(vs@, qs@, t as int));
                        }
                        k = k + 1;
                    }
                    proof {
                        lemma_closure_finish(*globe_points, n as int, vs@, qs@, i as int);
                        assert(active(ve@, qe@, ei as int)) by {
                            if !ve@[ei as int] {
                                assert(qe@.dom().contains(ei as u64));
                            }
                        }
                    }
                } else {
                    let ghost qe_pre = qe@;
                    proof {
                        qe@ = qe@.remove(i as u64);
                        assert(split_ok(pq_contents(queue), qs@, qe@)) by {
                            reveal(split_ok);
                            assert forall|q: u64| #[trigger]
                                pq_contents(queue).dom().contains(q) implies (if q % 2 == 0 {
                                qs@.dom().contains(q / 2)
                            } else {
                                qe@.dom().contains(q / 2)
                            }) by {
                                assert(qc_pre.dom().contains(q) && q != qtag);
                                if q % 2 == 1 {
                                    assert(qe_pre.dom().contains(q / 2));
                                    assert(q / 2 != i as u64);
                                }
                            }
                            assert forall|j: u64| #[trigger]
                                qe@.dom().contains(j) implies j < 0x4000_0000_0000_0000
                                && pq_contents(queue).dom().contains((2 * j + 1) as u64) by {
                                assert(qe_pre.dom().contains(j));
                                assert(2 * j + 1 != qtag);
                            }
                            assert forall|j: u64| #[trigger]
                                qs@.dom().contains(j) implies j < 0x4000_0000_0000_0000
                                && pq_contents(queue).dom().contains((2 * j) as u64) by {
                                assert(2 * j != qtag);
                            }
                        }
                        assert(!ve@[i as int]) by {
                            reveal(frontier_ok);
                        }
                        lemma_count_true_update(ve@, i as int);
                    }
                    let ghost ve_before = ve@;
                    ve[i] = true;
                    proof {
                        lemma_count_true_le(ve@);
                        lemma_frontier_settle(n as int, ve_before, ve@, qe_pre, qe@, i as int);
                        assert(ve@[ei as int]) by {
                            if !ve_before[ei as int] {
                                assert(qe_pre.dom().contains(i as u64));
                                assert(i == ei);
                            }
                        }
                        lemma_routes_settle(
                            *globe_points,
                            end,
                            ei as int,
                            n as int,
                            ve_before,
                            ve@,
                            cfe@,
                            route_e@,
                            qe_pre,
                            qe@,
                            i as int,
                        );
                        lemma_closure_settle(
                            *globe_points,
                            n as int,
                            ve_before,
                            ve@,
                            qe_pre,
                            qe@,
                            i as int,
                        );
                    }
                    if vs[i] {
                        found = true;
                        meet = i;
                        break ;
                    }
                    proof {
                        assert forall|j: int| 0 <= j < n implies !(#[trigger] vs@[j]
                            && ve@[j]) by {
                            if j != i as int {
                                assert(!(vs@[j] && ve_before[j]));
                            }
                        }
                    }
                    let g = grid_at(i, size);
                    proof {
                        assert(globe_points.graph@.len() == n);
                    }
                    let edge_count = globe_points.graph[i].len();
                    let mut k: usize = 0;
                    while k < edge_count
                        invariant
                            globe_points.wf(),
                            1 <= size <= GRID_SIZE_MAX,
                            size == globe_points.grid_size,
                            sz == size as int,
                            n == slot_count(sz),
                            n <= 0x1_0000_0000,
                            globe_points.graph@.len() == n,
                            ei as int == idx_spec(end, sz),
                            ei < n,
                            end == grid_of_spec(ei as int, sz),
                            ve@.len() == n,
                            cfe@.len() == n,
                            i < n,
                            ve@[ei as int],
                            ve@[i as int],
                            g == grid_of_spec(i as int, sz),
                            edge_count == globe_points.graph@[i as int]@.len(),
                            k <= edge_count,
                            split_ok(pq_contents(queue), qs@, qe@),
                            frontier_ok(n as int, ve@, qe@),
                            routes_ok(
                                *globe_points,
                                end,
                                ei as int,
                                n as int,
                                ve@,
                                cfe@,
                                route_e@,
                                qe@,
                            ),
                            closure_except(*globe_points, n as int, ve@, qe@, i as int),
                            forall|k2: int|
                                0 <= k2 < k ==> active(
                                    ve@,
                                    qe@,
                                    idx_spec(
                                        (#[trigger] globe_points.graph@[i as int]@[k2]).to,
                                        sz,
                                    ),
                                ),
                        decreases edge_count - k,
                    {
                        let e = globe_points.graph[i][k];
                        proof {
                            assert(globe_points.graph@[i as int][k as int] == e);
                            assert(valid_grid(e.to, size));
                            lemma_idx_roundtrip(e.to, sz);
                        }
                        let t = idx_of(e.to, size);
                        if !ve[t] {
                            let current_dist = u64::MAX - prio;
                            let nd = if current_dist > u64::MAX - e.cost {
                                u64::MAX
                            } else {
                                current_dist + e.cost
                            };
                            let np = u64::MAX - nd;
                            let old_prio = pq_get_priority(&queue, (t as u64) * 2 + 1);
                            let improved = match old_prio {
                                None => true,
                                Some(op) => np > op,
                            };
                            if improved {
                                let ghost qc0 = pq_contents(queue);
                                let ghost qe0 = qe@;
                                let ghost route_b = route_e@;
                                let ghost cf_b = cfe@;
                                match old_prio {
                                    None => {
                                        pq_push(&mut queue, (t as u64) * 2 + 1, np);
                                    },
                                    Some(_) => {
                                        pq_change_priority(&mut queue, (t as u64) * 2 + 1, np);
                                    },
                                }
                                cfe[t] = Some(g);
                                proof {
                                    reveal(routes_ok);
                                    route_e@ = route_e@.insert(
                                        t as int,
                                        route_e@[i as int].push(e.to),
                                    );
                                    qe@ = qe@.insert(t as u64, np);
                                    assert(pq_contents(queue).dom() =~= qc0.dom().insert(
                                        ((t as u64) * 2 + 1) as u64,
                                    ));
                                    assert(qe@.dom() =~= qe0.dom().insert(t as u64));
                                    assert(split_ok(pq_contents(queue), qs@, qe@)) by {
                                        reveal(split_ok);
                                        assert forall|q: u64| #[trigger]
                                            pq_contents(queue).dom().contains(q) implies (if q % 2
                                            == 0 {
                                            qs@.dom().contains(q / 2)
                                        } else {
                                            qe@.dom().contains(q / 2)
                                        }) by {
                                            if q != (t as u64) * 2 + 1 {
                                                assert(qc0.dom().contains(q));
                                            }
                                        }
                                        assert forall|j: u64| #[trigger]
                                            qe@.dom().contains(j) implies j
                                            < 0x4000_0000_0000_0000 && pq_contents(
                                            queue,
                                        ).dom().contains((2 * j + 1) as u64) by {
                                            if j != t as u64 {
                                                assert(qe0.dom().contains(j));
                                            }
                                        }
                                        assert forall|j: u64| #[trigger]
                                            qs@.dom().contains(j) implies j
                                            < 0x4000_0000_0000_0000 && pq_contents(
                                            queue,
                                        ).dom().contains((2 * j) as u64) by {
                                            assert(2 * j != (t as u64) * 2 + 1);
                                        }
                                    }
                                    assert(t != ei) by {
                                        assert(ve@[ei as int]);
                                    }
                                    lemma_routes_relax(
                                        *globe_points,
                                        end,
                                        ei as int,
                                        n as int,
                                        ve@,
                                        cf_b,
                                        cfe@,
                                        route_b,
                                        route_e@,
                                        qe0,
                                        qe@,
                                        i as int,
                                        t as int,
                                        e.to,
                                        k as int,
                                    );
                                    lemma_closure_grow(
                                        *globe_points,
                                        n as int,
                                        ve@,
                                        qe0,
                                        qe@,
                                        i as int,
                                    );
                                    lemma_frontier_grow(n as int, ve@, qe0, qe@, t as int);
                                    assert forall|k2: int|
                                        0 <= k2 < k implies active(
                                        ve@,
                                        qe@,
                                        idx_spec(
                                            (#[trigger] globe_points.graph@[i as int]@[k2]).to,
                                            sz,
                                        ),
                                    ) by {
                                        assert(active(
                                            ve@,
                                            qe0,
                                            idx_spec(globe_points.graph@[i as int]@[k2].to, sz),
                                        ));
                                    }
                                }
                            }
                        }
                        proof {
                            reveal(split_ok);
                            assert(active(ve@, qe@, t as int));
                        }
                        k = k + 1;
                    }
                    proof {
                        lemma_closure_finish(*globe_points, n as int, ve@, qe@, i as int);
                        assert(active(vs@, qs@, si as int)) by {
                            if !vs@[si as int] {
                                assert(qs@.dom().contains(si as u64));
                            }
                        }
                    }
                }
            },
        }
    }
    if !found {
        proof {
            lemma_closed_unreachable(*globe_points, start, end, vs@, qs@);
        }
        return Err(PathError::Unreachable);
    }
    let meet_grid = grid_at(meet, size);
    proof {
        reveal(routes_ok);
        assert(vs@[meet as int]);
        assert(ve@[meet as int]);
    }
    let out_s = rebuild_path(
        globe_points,
        start,
        meet_grid,
        si,
        meet,
        &vs,
        &cfs,
        Ghost(route_s@),
        Ghost(qs@),
    );
    let out_e = rebuild_path(
        globe_points,
        end,
        meet_grid,
        ei,
        meet,
        &ve,
        &cfe,
        Ghost(route_e@),
        Ghost(qe@),
    );
    let out = join_routes(&out_s, &out_e);
    proof {
        lemma_join_is_path(
            *globe_points,
            start,
            end,
            meet_grid,
            out_s@,
            out_e@,
            out@,
        );
        assert(globe_points.reachable(start, end));
    }
    Ok(out)
}

} // verus!
