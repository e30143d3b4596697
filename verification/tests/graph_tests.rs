use globe_rails::cost;
use globe_rails::cube_position;
use globe_rails::cubic;
use globe_rails::GlobePoint;
use globe_rails::GlobePoints;
use globe_rails::GridPoint;

/// A fully populated cube-shaped globe: every sample sits on the cube
/// surface itself, with a penalty that varies with the raster position.
fn cube_globe(size: u32) -> GlobePoints {
    let mut gp = GlobePoints::new(size);
    for face in 0..6 {
        for row in 0..=size {
            for col in 0..=size {
                let g: GridPoint = (face, row, col);
                let p = cube_position(g, size);
                gp.add_point(
                    g,
                    GlobePoint {
                        pos: [p[0] * 64, p[1] * 64, p[2] * 64],
                        water: false,
                        penalty: 256 + 16 * (((row + col) % 3) as u64),
                    },
                );
            }
        }
    }
    gp.build_graph(512);
    gp
}

#[test]
fn adjacency_is_symmetric_with_equal_costs() {
    let size = 4;
    let gp = cube_globe(size);
    for face in 0..6 {
        for row in 0..=size {
            for col in 0..=size {
                let u: GridPoint = (face, row, col);
                for e in gp.edge_list(u) {
                    let back = gp.edge_list(e.to);
                    let reverse: Vec<_> = back.iter().filter(|b| b.to == u).collect();
                    assert_eq!(reverse.len(), 1, "missing reverse edge {:?} -> {:?}", e.to, u);
                    assert_eq!(reverse[0].cost, e.cost);
                    assert!(!e.discounted);
                }
            }
        }
    }
}

#[test]
fn no_duplicate_edges_and_no_self_loops() {
    let size = 4;
    let gp = cube_globe(size);
    for face in 0..6 {
        for row in 0..=size {
            for col in 0..=size {
                let u: GridPoint = (face, row, col);
                let edges = gp.edge_list(u);
                for (i, e) in edges.iter().enumerate() {
                    assert_ne!(e.to, u, "self loop at {:?}", u);
                    for f in edges.iter().skip(i + 1) {
                        assert_ne!(e.to, f.to, "duplicate edge {:?} -> {:?}", u, e.to);
                    }
                }
            }
        }
    }
}

#[test]
fn cross_face_neighbors_are_discovered() {
    // A point on a face boundary must be linked across the seam: at least
    // one neighbor on another face, within the step radius in cube space.
    let size = 4;
    let gp = cube_globe(size);
    let g: GridPoint = (0, 0, 2);
    let this = cubic(g, size);
    let cross: Vec<_> = gp.edge_list(g).into_iter().filter(|e| e.to.0 != 0).collect();
    assert!(!cross.is_empty(), "no cross-face neighbor found for {:?}", g);
    for e in &cross {
        let other = cubic(e.to, size);
        let d2: i64 = (0..3)
            .map(|i| (other[i] as i64 - this[i] as i64) * (other[i] as i64 - this[i] as i64))
            .sum();
        assert!(d2 > 0 && d2 <= 49, "cross-face neighbor {:?} out of range (d2={})", e.to, d2);
    }
}

#[test]
fn interior_point_has_full_raster_neighborhood() {
    // Deep inside a face (on a large enough grid), the neighborhood is the
    // full raster disc of radius 7 minus the point itself: 149 samples.
    let size = 64;
    let mut gp = GlobePoints::new(size);
    for row in 20..=40u32 {
        for col in 20..=40u32 {
            let g: GridPoint = (0, row, col);
            gp.add_point(
                g,
                GlobePoint { pos: [row as i64 * 8, col as i64 * 8, 1280], water: false, penalty: 256 },
            );
        }
    }
    gp.build_graph(512);
    let edges = gp.edge_list((0, 30, 30));
    let disc: usize = {
        let mut count = 0;
        for di in -7i32..=7 {
            for dj in -7i32..=7 {
                if (di != 0 || dj != 0) && di * di + dj * dj <= 49 {
                    count += 1;
                }
            }
        }
        count
    };
    assert_eq!(edges.len(), disc);
}

#[test]
fn cost_matches_fixed_point_formula() {
    let p = GlobePoint { pos: [0, 0, 1280], water: false, penalty: 256 };
    let q = GlobePoint { pos: [256, 0, 1280], water: true, penalty: 512 };
    // Distance of one world unit, a height climb of 25 sub-units and the
    // larger penalty of two: (256 + 1280*25/256) * 512 / 256 = 762.
    assert_eq!(cost(&p, &q, 1280), 762);
    assert_eq!(cost(&q, &p, 1280), 762);
    let r = GlobePoint { pos: [100, 200, 1300], water: false, penalty: 300 };
    assert_eq!(cost(&p, &r, 512), 362);
    assert_eq!(cost(&r, &p, 512), 362);
    // Zero distance and zero climb cost nothing.
    assert_eq!(cost(&p, &p, 1280), 0);
}

#[test]
fn unstored_points_get_no_edges() {
    let size = 16;
    let mut gp = GlobePoints::new(size);
    gp.add_point((0, 3, 3), GlobePoint { pos: [24, 24, 1280], water: false, penalty: 256 });
    gp.add_point((0, 3, 5), GlobePoint { pos: [24, 40, 1280], water: false, penalty: 256 });
    gp.build_graph(512);
    // The two stored points link to each other and to nothing else.
    let e = gp.edge_list((0, 3, 3));
    assert_eq!(e.len(), 1);
    assert_eq!(e[0].to, (0, 3, 5));
    assert!(gp.edge_list((0, 8, 8)).is_empty());
    assert!(gp.point((0, 8, 8)).is_none());
    assert!(gp.point((0, 3, 3)).is_some());
}
