//! A verified abelian sandpile engine: stabilization by toppling on a
//! finite rectangular grid or a torus with a sink, and the group
//! operations (addition, neutral element, inverse, order) built on it.
pub mod model;
pub mod sandpile;
pub mod raster;
pub mod termination;
pub mod text;

pub use model::GridType;
pub use sandpile::{Cell, Grid, GridSandpile, SandpileError};
pub use raster::png_data;
