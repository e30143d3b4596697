//! Grid addressing: the bidirectional mapping between cube-space positions
//! and discrete `(face, row, column)` grid coordinates.

use vstd::arithmetic::div_mod::lemma_fundamental_div_mod_converse;
use vstd::prelude::*;

verus! {

/// Identifies one sample on the cube-sphere grid: `(face, row, column)` with
/// `face < 6` and `row, column <= grid_size`.
pub type GridPoint = (u32, u32, u32);

/// Largest supported grid resolution.
pub const GRID_SIZE_MAX: u32 = 4096;

/// Largest magnitude accepted for a coordinate handed to
/// `get_closest_gridpoint`.
pub const COORD_LIMIT: i64 = 0x2000_0000_0000;

/// A coordinate triple addresses a real sample of a globe of resolution
/// `size`.
pub open spec fn valid_grid(g: GridPoint, size: u32) -> bool {
    g.0 < 6 && g.1 <= size && g.2 <= size
}

/// Cube-surface coordinates of a grid point on an axis-aligned cube with
/// corners `(0,0,0)` and `(size,size,size)`: one axis is pinned per face.
/// Adjacency across face seams is measured in this space.
pub open spec fn cubic_spec(g: GridPoint, size: int) -> (int, int, int) {
    let u = g.1 as int;
    let v = g.2 as int;
    if g.0 == 0 {
        (u, v, size)
    } else if g.0 == 1 {
        (size - u, v, 0)
    } else if g.0 == 2 {
        (size, v, size - u)
    } else if g.0 == 3 {
        (0, v, u)
    } else if g.0 == 4 {
        (u, size, size - v)
    } else {
        (u, 0, v)
    }
}

/// Squared Euclidean distance between two cube-space positions.
pub open spec fn cube_dist2(a: (int, int, int), b: (int, int, int)) -> int {
    (a.0 - b.0) * (a.0 - b.0) + (a.1 - b.1) * (a.1 - b.1) + (a.2 - b.2) * (a.2 - b.2)
}

/// Maps a grid point to the surface of the axis-aligned cube of side `size`
/// whose corners are `(0,0,0)` and `(size,size,size)`.
pub fn cubic(grid: GridPoint, size: u32) -> (r: [i32; 3])
    requires
        valid_grid(grid, size),
        size <= GRID_SIZE_MAX,
    ensures
        r[0] == cubic_spec(grid, size as int).0,
        r[1] == cubic_spec(grid, size as int).1,
        r[2] == cubic_spec(grid, size as int).2,
{
    let u = grid.1 as i32;
    let v = grid.2 as i32;
    let s = size as i32;
    match grid.0 {
        0 => [u, v, s],
        1 => [s - u, v, 0],
        2 => [s, v, s - u],
        3 => [0, v, u],
        4 => [u, s, s - v],
        _ => [u, 0, v],
    }
}

/// The centered cube-space position of a grid point, doubled so that it stays
/// integral: each component lies in `[-size, size]` and the direction from the
/// cube's center is the same as for the `cubic_spec` position.
pub open spec fn cube_position_spec(g: GridPoint, size: int) -> (int, int, int) {
    let c = cubic_spec(g, size);
    (2 * c.0 - size, 2 * c.1 - size, 2 * c.2 - size)
}

/// The centered, doubled cube-space position of a grid point; feeding it to
/// `get_closest_gridpoint` recovers an interior grid point exactly
/// (`lemma_round_trip`).
pub fn cube_position(grid: GridPoint, size: u32) -> (r: [i64; 3])
    requires
        valid_grid(grid, size),
        size <= GRID_SIZE_MAX,
    ensures
        r[0] == cube_position_spec(grid, size as int).0,
        r[1] == cube_position_spec(grid, size as int).1,
        r[2] == cube_position_spec(grid, size as int).2,
{
    let c = cubic(grid, size);
    let s = size as i64;
    [2 * (c[0] as i64) - s, 2 * (c[1] as i64) - s, 2 * (c[2] as i64) - s]
}

pub open spec fn abs_i(x: int) -> int {
    if x < 0 {
        -x
    } else {
        x
    }
}

/// Which axis has the largest magnitude; ties go to `x` before `y` before `z`.
pub open spec fn dominant_axis(x: int, y: int, z: int) -> int {
    if abs_i(x) >= abs_i(y) && abs_i(x) >= abs_i(z) {
        0
    } else if abs_i(y) >= abs_i(z) {
        1
    } else {
        2
    }
}

/// The face a direction projects to: decided by the dominant axis and its
/// sign (a zero component counts as positive).
pub open spec fn face_of(x: int, y: int, z: int) -> int {
    let a = dominant_axis(x, y, z);
    if a == 0 {
        if x >= 0 {
            2
        } else {
            3
        }
    } else if a == 1 {
        if y >= 0 {
            4
        } else {
            5
        }
    } else {
        if z >= 0 {
            0
        } else {
            1
        }
    }
}

/// The in-face numerators of a direction: the row (first) and column (second)
/// coordinates of the projected point are `(size*(n + m) + m) / (2*m)` where
/// `m` is the magnitude of the dominant component and `n` the matching
/// numerator.
pub open spec fn face_numerators(x: int, y: int, z: int) -> (int, int) {
    let f = face_of(x, y, z);
    if f == 0 {
        (x, y)
    } else if f == 1 {
        (-x, y)
    } else if f == 2 {
        (-z, y)
    } else if f == 3 {
        (z, y)
    } else if f == 4 {
        (x, -z)
    } else {
        (x, z)
    }
}

/// Projects a rounded grid coordinate out of a numerator: the nearest integer
/// to `size * (n/(2m) + 1/2)`, with halves rounded up.
pub open spec fn round_coord(n: int, m: int, size: int) -> int {
    (size * (n + m) + m) / (2 * m)
}

/// The grid point nearest to the direction `(x, y, z)`.
pub open spec fn closest_spec(x: int, y: int, z: int, size: int) -> (int, int, int) {
    let a = dominant_axis(x, y, z);
    let m = if a == 0 {
        abs_i(x)
    } else if a == 1 {
        abs_i(y)
    } else {
        abs_i(z)
    };
    let nums = face_numerators(x, y, z);
    (face_of(x, y, z), round_coord(nums.0, m, size), round_coord(nums.1, m, size))
}

fn abs64(x: i64) -> (r: i64)
    requires
        x > i64::MIN,
    ensures
        r == abs_i(x as int),
{
    if x < 0 {
        -x
    } else {
        x
    }
}

/// Rounded division used by `get_closest_gridpoint`: both operands are small
/// enough that the arithmetic stays inside `u64`.
fn project_coord(n: i64, m: i64, size: u32) -> (r: u32)
    requires
        0 < m <= COORD_LIMIT,
        -m <= n <= m,
        1 <= size <= GRID_SIZE_MAX,
    ensures
        r == round_coord(n as int, m as int, size as int),
        r <= size,
{
    proof {
        assert((size as int) * ((n + m) as int) <= (size as int) * (2 * (m as int)))
            by (nonlinear_arith)
            requires
                n <= m,
                m > 0,
                size >= 1,
        ;
        assert((size as int) * (2 * (m as int)) <= 4096 * (2 * (COORD_LIMIT as int)))
            by (nonlinear_arith)
            requires
                size <= 4096,
                0 < m <= COORD_LIMIT as int,
        ;
        assert((size as int) * ((n + m) as int) >= 0) by (nonlinear_arith)
            requires
                n + m >= 0,
                size >= 1,
        ;
    }
    let num: u64 = (size as u64) * ((n + m) as u64) + (m as u64);
    let den: u64 = 2 * (m as u64);
    let q: u64 = num / den;
    proof {
        // num < (size + 1) * den, so the quotient stays within the grid.
        assert(num < ((size as int) + 1) * (den as int)) by (nonlinear_arith)
            requires
                num == (size as int) * ((n + m) as int) + (m as int),
                den == 2 * (m as int),
                n <= m,
                m > 0,
        ;
        assert(q <= size) by (nonlinear_arith)
            requires
                q == (num as int) / (den as int),
                num < ((size as int) + 1) * (den as int),
                den > 0,
        ;
    }
    q as u32
}

/// Determines which grid point an arbitrary direction (a position anywhere
/// near the globe, in any uniform scale) is closest to: the dominant axis and
/// its sign pick the face, and the remaining two components are projected
/// into that face's `[0, grid_size]` row/column range and rounded.
pub fn get_closest_gridpoint(pos: [i64; 3], grid_size: u32) -> (g: GridPoint)
    requires
        1 <= grid_size <= GRID_SIZE_MAX,
        -COORD_LIMIT <= pos[0] <= COORD_LIMIT,
        -COORD_LIMIT <= pos[1] <= COORD_LIMIT,
        -COORD_LIMIT <= pos[2] <= COORD_LIMIT,
        !(pos[0] == 0 && pos[1] == 0 && pos[2] == 0),
    ensures
        (g.0 as int, g.1 as int, g.2 as int) == closest_spec(
            pos[0] as int,
            pos[1] as int,
            pos[2] as int,
            grid_size as int,
        ),
        valid_grid(g, grid_size),
{
    let x = pos[0];
    let y = pos[1];
    let z = pos[2];
    let ax = abs64(x);
    let ay = abs64(y);
    let az = abs64(z);
    let (face, m, nx, ny): (u32, i64, i64, i64) = if ax >= ay && ax >= az {
        if x >= 0 {
            (2, ax, -z, y)
        } else {
            (3, ax, z, y)
        }
    } else if ay >= az {
        if y >= 0 {
            (4, ay, x, -z)
        } else {
            (5, ay, x, z)
        }
    } else {
        if z >= 0 {
            (0, az, x, y)
        } else {
            (1, az, -x, y)
        }
    };
    let row = project_coord(nx, m, grid_size);
    let col = project_coord(ny, m, grid_size);
    (face, row, col)
}

/// Round-trip addressing: a grid point strictly inside its face is recovered
/// exactly from its centered cube-space position. On a face's boundary rows
/// and columns the sample is shared with a neighboring face and the
/// dominant-axis tie rule deterministically picks one of the sharers, so
/// exact recovery is promised only for interior points.
pub proof fn lemma_round_trip(g: GridPoint, size: u32)
    requires
        1 <= size <= GRID_SIZE_MAX,
        g.0 < 6,
        0 < g.1 < size,
        0 < g.2 < size,
    ensures
        ({
            let p = cube_position_spec(g, size as int);
            closest_spec(p.0, p.1, p.2, size as int) == (g.0 as int, g.1 as int, g.2 as int)
        }),
{
    let s = size as int;
    let u = g.1 as int;
    let v = g.2 as int;
    let p = cube_position_spec(g, size as int);
    assert(-s < 2 * u - s < s);
    assert(-s < 2 * v - s < s);
    lemma_round_coord_exact(2 * u - s, s, u);
    lemma_round_coord_exact(2 * v - s, s, v);
}

/// `round_coord` recovers `w` exactly from the centered numerator `2w - s`
/// when the dominant magnitude is `s` itself.
proof fn lemma_round_coord_exact(n: int, s: int, w: int)
    requires
        s >= 1,
        n == 2 * w - s,
    ensures
        round_coord(n, s, s) == w,
{
    assert(s * (n + s) + s == w * (2 * s) + s) by (nonlinear_arith)
        requires
            n == 2 * w - s,
    ;
    lemma_fundamental_div_mod_converse(s * (n + s) + s, 2 * s, w, s);
}

} // verus!
