use globe_rails::apply_discount;
use globe_rails::bidirectional_dijkstra;
use globe_rails::dijkstra;
use globe_rails::GlobePoint;
use globe_rails::GlobePoints;
use globe_rails::GridPoint;
use globe_rails::PathError;

/// A sparse globe: only the listed samples exist; adjacency follows from
/// raster distance on the (large) grid, so the spacing of the coordinates
/// decides the graph's shape.
fn sparse_globe(points: &[(GridPoint, [i64; 3], u64)]) -> GlobePoints {
    let mut gp = GlobePoints::new(64);
    for (g, pos, penalty) in points {
        gp.add_point(*g, GlobePoint { pos: *pos, water: false, penalty: *penalty });
    }
    gp.build_graph(512);
    gp
}

/// A straight chain of four samples: consecutive ones are 5 raster steps
/// apart (linked), others at least 10 apart (not linked).
fn line_globe() -> (GlobePoints, Vec<GridPoint>) {
    let nodes: Vec<GridPoint> = vec![(0, 10, 10), (0, 10, 15), (0, 10, 20), (0, 10, 25)];
    let gp = sparse_globe(&[
        (nodes[0], [800, 800, 1280], 256),
        (nodes[1], [800, 1200, 1296], 288),
        (nodes[2], [800, 1600, 1280], 256),
        (nodes[3], [800, 2000, 1312], 320),
    ]);
    (gp, nodes)
}

fn edge_cost(gp: &GlobePoints, u: GridPoint, v: GridPoint) -> u64 {
    let hits: Vec<u64> =
        gp.edge_list(u).into_iter().filter(|e| e.to == v).map(|e| e.cost).collect();
    assert_eq!(hits.len(), 1, "expected exactly one edge {:?} -> {:?}", u, v);
    hits[0]
}

fn path_cost(gp: &GlobePoints, path: &[GridPoint]) -> u64 {
    path.windows(2).map(|w| edge_cost(gp, w[0], w[1])).sum()
}

/// All simple paths from `at` to `end`, minimized over their total cost.
fn brute_force_min(gp: &GlobePoints, at: GridPoint, end: GridPoint, seen: &mut Vec<GridPoint>) -> Option<u64> {
    if at == end {
        return Some(0);
    }
    let mut best: Option<u64> = None;
    for e in gp.edge_list(at) {
        if seen.contains(&e.to) {
            continue;
        }
        seen.push(e.to);
        if let Some(rest) = brute_force_min(gp, e.to, end, seen) {
            let total = e.cost + rest;
            if best.map_or(true, |b| total < b) {
                best = Some(total);
            }
        }
        seen.pop();
    }
    best
}

#[test]
fn start_equals_end_returns_single_node() {
    let (gp, nodes) = line_globe();
    for n in &nodes {
        assert_eq!(dijkstra(*n, *n, &gp), Ok(vec![*n]));
        assert_eq!(bidirectional_dijkstra(*n, *n, &gp), Ok(vec![*n]));
    }
}

#[test]
fn unreachable_components_are_reported() {
    // Two stored samples more than the step radius apart form two
    // disconnected components.
    let a: GridPoint = (0, 10, 10);
    let b: GridPoint = (0, 40, 40);
    let gp = sparse_globe(&[
        (a, [800, 800, 1280], 256),
        (b, [3200, 3200, 1280], 256),
    ]);
    assert!(gp.edge_list(a).is_empty());
    assert_eq!(dijkstra(a, b, &gp), Err(PathError::Unreachable));
    assert_eq!(bidirectional_dijkstra(a, b, &gp), Err(PathError::Unreachable));
}

#[test]
fn invalid_and_missing_endpoints_are_distinguished() {
    let (gp, nodes) = line_globe();
    let bad_face: GridPoint = (7, 0, 0);
    let bad_row: GridPoint = (0, 65, 0);
    let unstored: GridPoint = (0, 1, 1);
    assert_eq!(dijkstra(bad_face, nodes[0], &gp), Err(PathError::InvalidGridCoordinate));
    assert_eq!(dijkstra(nodes[0], bad_row, &gp), Err(PathError::InvalidGridCoordinate));
    assert_eq!(dijkstra(unstored, nodes[0], &gp), Err(PathError::NodeNotFound));
    assert_eq!(dijkstra(nodes[0], unstored, &gp), Err(PathError::NodeNotFound));
    assert_eq!(
        bidirectional_dijkstra(bad_face, nodes[0], &gp),
        Err(PathError::InvalidGridCoordinate)
    );
    assert_eq!(bidirectional_dijkstra(unstored, nodes[0], &gp), Err(PathError::NodeNotFound));
}

#[test]
fn line_graph_is_walked_in_order() {
    let (gp, nodes) = line_globe();
    let path = dijkstra(nodes[0], nodes[3], &gp).expect("route exists");
    assert_eq!(path, nodes);
    let back = dijkstra(nodes[3], nodes[0], &gp).expect("route exists");
    let mut rev = nodes.clone();
    rev.reverse();
    assert_eq!(back, rev);
}

#[test]
fn dijkstra_matches_brute_force_optimum() {
    // A small cluster with mixed penalties and heights; adjacency is partial
    // (the two far corners are more than 7 raster steps apart).
    let nodes: Vec<GridPoint> = vec![
        (0, 10, 10),
        (0, 10, 14),
        (0, 14, 10),
        (0, 14, 14),
        (0, 12, 17),
        (0, 17, 12),
    ];
    let gp = sparse_globe(&[
        (nodes[0], [800, 800, 1280], 256),
        (nodes[1], [800, 1120, 1400], 512),
        (nodes[2], [1120, 800, 1300], 256),
        (nodes[3], [1120, 1120, 1280], 288),
        (nodes[4], [960, 1360, 1500], 640),
        (nodes[5], [1360, 960, 1280], 256),
    ]);
    // The far corners are not directly linked.
    assert!(gp.edge_list(nodes[4]).iter().all(|e| e.to != nodes[5]));
    for (s, t) in [(nodes[0], nodes[4]), (nodes[4], nodes[5]), (nodes[1], nodes[5])] {
        let path = dijkstra(s, t, &gp).expect("route exists");
        assert_eq!(path.first(), Some(&s));
        assert_eq!(path.last(), Some(&t));
        let mut seen = vec![s];
        let best = brute_force_min(&gp, s, t, &mut seen).expect("brute force finds a route");
        assert_eq!(path_cost(&gp, &path), best, "suboptimal route {:?} -> {:?}", s, t);
    }
}

#[test]
fn bidirectional_agrees_with_unidirectional_on_chain() {
    // On a chain there is exactly one route, so both variants must return
    // the same total cost.
    let (gp, nodes) = line_globe();
    let uni = dijkstra(nodes[0], nodes[3], &gp).expect("route exists");
    let bi = bidirectional_dijkstra(nodes[0], nodes[3], &gp).expect("route exists");
    assert_eq!(bi.first(), Some(&nodes[0]));
    assert_eq!(bi.last(), Some(&nodes[3]));
    assert_eq!(path_cost(&gp, &uni), path_cost(&gp, &bi));
}

#[test]
fn discount_halves_path_edges_once() {
    let (mut gp, nodes) = line_globe();
    let path = dijkstra(nodes[0], nodes[3], &gp).expect("route exists");
    let before: Vec<(u64, u64)> = path
        .windows(2)
        .map(|w| (edge_cost(&gp, w[0], w[1]), edge_cost(&gp, w[1], w[0])))
        .collect();
    apply_discount(&mut gp, &path, 2);
    for (w, (fwd, back)) in path.windows(2).zip(before.iter()) {
        assert_eq!(edge_cost(&gp, w[0], w[1]), fwd / 2);
        assert_eq!(edge_cost(&gp, w[1], w[0]), back / 2);
        for e in gp.edge_list(w[0]) {
            if e.to == w[1] {
                assert!(e.discounted);
            }
        }
    }
    // A second discount along the same path changes nothing: every edge was
    // already marked.
    let after_once: Vec<(u64, u64)> = path
        .windows(2)
        .map(|w| (edge_cost(&gp, w[0], w[1]), edge_cost(&gp, w[1], w[0])))
        .collect();
    apply_discount(&mut gp, &path, 2);
    let after_twice: Vec<(u64, u64)> = path
        .windows(2)
        .map(|w| (edge_cost(&gp, w[0], w[1]), edge_cost(&gp, w[1], w[0])))
        .collect();
    assert_eq!(after_once, after_twice);
}

#[test]
fn discount_leaves_other_edges_alone() {
    let (mut gp, nodes) = line_globe();
    // Discount only the first hop; the rest of the chain keeps its costs.
    let partial = vec![nodes[0], nodes[1]];
    let untouched_before = edge_cost(&gp, nodes[1], nodes[2]);
    apply_discount(&mut gp, &partial, 2);
    assert_eq!(edge_cost(&gp, nodes[1], nodes[2]), untouched_before);
    for e in gp.edge_list(nodes[2]) {
        assert!(!e.discounted);
    }
}

#[test]
fn discount_ignores_out_of_grid_pairs() {
    let (mut gp, nodes) = line_globe();
    let before = edge_cost(&gp, nodes[0], nodes[1]);
    let junk: Vec<GridPoint> = vec![(9, 0, 0), (9, 0, 1)];
    apply_discount(&mut gp, &junk, 2);
    assert_eq!(edge_cost(&gp, nodes[0], nodes[1]), before);
}

#[test]
fn routes_use_cheaper_discounted_corridors() {
    // After a corridor is discounted, a detour through it can beat the
    // previously direct route; queries see the mutated graph.
    let (mut gp, nodes) = line_globe();
    let first = dijkstra(nodes[0], nodes[3], &gp).expect("route exists");
    let cost_before = path_cost(&gp, &first);
    apply_discount(&mut gp, &first, 2);
    let second = dijkstra(nodes[0], nodes[3], &gp).expect("route exists");
    let cost_after = path_cost(&gp, &second);
    assert!(cost_after <= cost_before / 2 + 1);
}

#[test]
fn routes_cross_face_seams() {
    // On a fully populated small globe, a route between samples on
    // different faces exists and every hop is a real edge.
    let size = 4;
    let mut gp = GlobePoints::new(size);
    for face in 0..6 {
        for row in 0..=size {
            for col in 0..=size {
                let g: GridPoint = (face, row, col);
                let p = globe_rails::cube_position(g, size);
                gp.add_point(
                    g,
                    GlobePoint {
                        pos: [p[0] * 64, p[1] * 64, p[2] * 64],
                        water: false,
                        penalty: 256,
                    },
                );
            }
        }
    }
    gp.build_graph(512);
    let from: GridPoint = (0, 2, 2);
    let to: GridPoint = (1, 2, 2);
    for path in [
        dijkstra(from, to, &gp).expect("route exists"),
        bidirectional_dijkstra(from, to, &gp).expect("route exists"),
    ] {
        assert_eq!(path.first(), Some(&from));
        assert_eq!(path.last(), Some(&to));
        assert!(path.windows(2).all(|w| {
            gp.edge_list(w[0]).iter().any(|e| e.to == w[1])
        }));
        assert!(path.iter().any(|g| g.0 != 0), "route never left the start face");
    }
}
