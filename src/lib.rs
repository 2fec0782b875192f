//! Content-aware image resizing by seam carving.
//!
//! The library works on plain pixel buffers of RGBA colours. A `Carver`
//! shrinks an image by removing its cheapest seams one at a time, or grows it
//! by inserting averaged pixels where those seams would have been removed.

pub mod carve;
pub mod energy;
pub mod energy_grid;
pub mod grid;
pub mod pixel;
pub mod seam;
