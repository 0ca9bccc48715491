//! Pole-of-inaccessibility search for polygons over fixed-point integer
//! coordinates.
//!
//! Given a polygon (an exterior ring and zero or more hole rings) whose
//! vertices are integer coordinates — typically a caller-chosen fixed-point
//! scaling of map coordinates — `polylabel` returns a label anchor point: the
//! best point the branch-and-bound search examines by signed distance to the
//! polygon outline (positive inside the exterior and outside every hole,
//! negative otherwise).

mod geometry;
mod distance;
mod errors;
mod cell;
mod queue;
mod seed;
mod search;

pub use geometry::Point;
pub use geometry::Polygon;
pub use geometry::COORD_LIMIT;
pub use geometry::QUERY_LIMIT;
pub use geometry::VERTEX_LIMIT;
pub use distance::signed_distance;
pub use distance::contains_point;
pub use errors::PolylabelError;
pub use cell::Cell;
pub use queue::CellQueue;
pub use search::polylabel;
