//! Geodesic grid pathfinding over a cube-projected sphere.
//!
//! The globe surface is addressed by a discrete grid on the six faces of a
//! cube. A point store keeps one materialized sample per grid coordinate, a
//! graph builder links nearby samples (also across cube-face seams) with
//! terrain-aware edge costs, and a pathfinding engine answers lowest-cost
//! route queries with unidirectional and bidirectional Dijkstra searches.
//! After a route is found, its edges can be discounted once to model reuse
//! of existing rail infrastructure.
//!
//! All geometry and all costs are held as fixed-point integers (`SCALE`
//! sub-units per world unit), so every rule of the engine is stated and
//! checked exactly.

pub mod builder;
pub mod discount;
pub mod globe;
pub mod grid;
pub mod numeric;
pub mod paths;
pub mod pq;

pub use builder::STEP_RADIUS;
pub use discount::apply_discount;
pub use globe::cost;
pub use globe::Edge;
pub use globe::GlobePoint;
pub use globe::GlobePoints;
pub use globe::CLIMBING_LIMIT;
pub use globe::PENALTY_LIMIT;
pub use globe::POS_LIMIT;
pub use globe::SCALE;
pub use grid::cube_position;
pub use grid::cubic;
pub use grid::get_closest_gridpoint;
pub use grid::GridPoint;
pub use grid::GRID_SIZE_MAX;
pub use paths::bidirectional_dijkstra;
pub use paths::dijkstra;
pub use paths::PathError;
