use globe_rails::cube_position;
use globe_rails::cubic;
use globe_rails::get_closest_gridpoint;
use globe_rails::GridPoint;

#[test]
fn test_grid_point() {
    let point1: GridPoint = (1, 2, 3);
    let point2: GridPoint = (1, 2, 3);
    let point3: GridPoint = (1, 2, 4);
    let point4: GridPoint = (2, 2, 3);
    assert_eq!(point1, point2);
    assert_ne!(point1, point3);
    assert_ne!(point2, point3);
    assert_ne!(point1, point4);
}

#[test]
fn cubic_pins_one_axis_per_face() {
    let size = 4;
    assert_eq!(cubic((0, 1, 2), size), [1, 2, 4]);
    assert_eq!(cubic((1, 1, 2), size), [3, 2, 0]);
    assert_eq!(cubic((2, 1, 2), size), [4, 2, 3]);
    assert_eq!(cubic((3, 1, 2), size), [0, 2, 1]);
    assert_eq!(cubic((4, 1, 2), size), [1, 4, 2]);
    assert_eq!(cubic((5, 1, 2), size), [1, 0, 2]);
}

#[test]
fn round_trip_interior_points() {
    // Every grid point strictly inside a face comes back exactly from its
    // cube-space position.
    let size = 4;
    for face in 0..6 {
        for row in 1..size {
            for col in 1..size {
                let g: GridPoint = (face, row, col);
                let pos = cube_position(g, size);
                assert_eq!(get_closest_gridpoint(pos, size), g);
            }
        }
    }
}

#[test]
fn round_trip_larger_grid() {
    let size = 64;
    for face in 0..6 {
        for (row, col) in [(1, 1), (7, 55), (32, 32), (63, 2)] {
            let g: GridPoint = (face, row, col);
            let pos = cube_position(g, size);
            assert_eq!(get_closest_gridpoint(pos, size), g);
        }
    }
}

#[test]
fn round_trip_scale_invariant() {
    // The nearest grid point depends only on the direction of the position.
    let size = 8;
    let g: GridPoint = (3, 2, 5);
    let pos = cube_position(g, size);
    let scaled = [pos[0] * 1000, pos[1] * 1000, pos[2] * 1000];
    assert_eq!(get_closest_gridpoint(scaled, size), g);
}

#[test]
fn boundary_points_resolve_deterministically() {
    // A sample on a face boundary is shared between faces; the dominant-axis
    // rule picks one representative, and it has the same cube-space
    // position as the queried point.
    let size = 4;
    let g: GridPoint = (0, 0, 2);
    let pos = cube_position(g, size);
    let back = get_closest_gridpoint(pos, size);
    let back_pos = cube_position(back, size);
    assert_eq!(pos, back_pos);
}

#[test]
fn closest_rounds_to_nearest_sample() {
    // A position just off a sample still resolves to that sample.
    let size = 4;
    let g: GridPoint = (0, 2, 3);
    let pos = cube_position(g, size);
    // Nudge by far less than half a grid step (one step is 2 units here,
    // scaled up by 1000 below).
    let nudged = [pos[0] * 1000 + 90, pos[1] * 1000 - 90, pos[2] * 1000];
    assert_eq!(get_closest_gridpoint(nudged, size), g);
}
