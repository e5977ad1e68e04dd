//! Extraction of a ranked color palette from raw pixel data.
//!
//! Given a flat sequence of pixels, the library estimates how many distinct
//! color families the image contains, groups the pixels into that many
//! clusters by iterative k-means, and returns the cluster centroids ordered
//! by cluster population, most dominant first.

pub mod clusterer;
pub mod color_cluster;
pub mod colors;
pub mod image;
pub mod palette;
pub mod palette_options;
pub mod rgb;

pub use color_cluster::ColorCluster;
pub use colors::Colors;
pub use palette::{Palette, PaletteError};
pub use palette_options::PaletteOptions;
pub use rgb::Rgb;
