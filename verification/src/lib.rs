//! Collision detection between convex polygons by the separating axis
//! theorem, over exact fixed-point integer coordinates.
//!
//! A [`shape::BoundingPolygon`] stores a polygon's corners together with the
//! deduplicated directions of its edge normals; [`sat::collides`] projects
//! both polygons onto every candidate axis and reports overlap.

pub mod geom;
pub mod num;
pub mod sat;
pub mod shape;

pub use geom::Point;
pub use sat::MinMax;
pub use sat::collides;
pub use sat::find_max_min_projection;
pub use shape::BoundingPolygon;
