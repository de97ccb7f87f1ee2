//! Turns a raster image into per-colour shapes: each connected group of
//! same-coloured foreground pixels becomes a single pixel, a filled
//! rectangle, or a decomposition into non-overlapping rectangles and single
//! pixels that covers the group exactly.

pub mod band;
pub mod components;
pub mod geometry;
pub mod grid;
pub mod laws;
pub mod layout;
pub mod pieces;
pub mod points;
pub mod types;
pub mod uniqueness;

pub use crate::components::{extract_components, NeighboursMap};
pub use crate::geometry::{ComplexGeometry, Shape, SplittedComplexGeometry};
pub use crate::grid::{get_neighbours_map, is_solid_color, PixelGrid};
pub use crate::layout::{get_shapes, get_shapes_by_neighbour_points, get_shapes_layout, ShapesLayout};
pub use crate::points::{are_points_is_bbox, calc_bbox_by_points};
pub use crate::types::{BBox, Color, Point};
