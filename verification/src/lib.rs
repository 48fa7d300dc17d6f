//! Approximates a raster image by stamping coloured circles onto a blank
//! canvas, keeping only the stamps that lower the squared colour error
//! against the target.
//!
//! The pieces, leaf first: the pixel buffer (`image`), the circle rasterizer
//! (`raster`), the colour estimator (`estimate`), the loss evaluator
//! (`loss`), the search step (`search`) and the ensemble driver (`ensemble`).

pub mod ensemble;
pub mod estimate;
pub mod image;
pub mod loss;
pub mod raster;
pub mod search;

pub use crate::ensemble::{
    best_color, best_member, compose, compose_image, export_bytes, new_ensemble, next_action,
    pack_color, run_member, run_round, RoundAction,
};
pub use crate::estimate::calculate_weighted_color;
pub use crate::image::{Change, Color, Image, Point};
pub use crate::raster::generate_circle_points;
pub use crate::search::{
    apply_if_better, candidate_changes, random_color, stamp, tick, tick_at, tick_uniform,
};
