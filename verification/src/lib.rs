//! Dominant colours of a raster image.
//!
//! The pixels of an image are clustered in colour space by k-means, and the
//! centroids of the clusters are reported with the share of the image that
//! each cluster covers, the most prevalent first.
//!
//! The analysis runs in four stages, each a pure function of its input:
//!
//! 1. [`sampler`] turns the pixels into colour samples;
//! 2. [`kmeans`] partitions the samples into clusters, starting from the
//!    seeds that [`seeding`] chooses and comparing distances as [`centroid`]
//!    defines them;
//! 3. [`prevalence`] counts the samples of each cluster;
//! 4. [`ranking`] orders the colours by prevalence.
//!
//! [`analysis`] runs the stages one after the other. [`colour`] and [`render`]
//! write colours out as text, and [`config`] holds the settings of a run.
//! [`fraction`] and [`wide`] hold the arithmetic behind the exact comparisons.
//!
//! All arithmetic is exact. Centroids are held as sums and counts, distances
//! are compared by cross-multiplication, and a percentage is a count out of a
//! total. Turning that share into a number with decimal places is left to the
//! caller.

pub mod error;
pub mod fraction;
pub mod wide;
pub mod text;
pub mod colour;
pub mod sampler;
pub mod centroid;
pub mod seeding;
pub mod kmeans;
pub mod prevalence;
pub mod ranking;
pub mod render;
pub mod config;
pub mod analysis;

pub use analysis::analyze_pixels;
pub use centroid::Centroid;
pub use colour::{hex_to_rgb, rgb_to_hex};
pub use config::{Args, OutputFormat};
pub use error::AnalysisError;
pub use kmeans::{fit, Clustering};
pub use prevalence::{aggregate, ColourInfo};
pub use ranking::rank;
pub use render::{colour_line, colour_swatch, ColourLabel};
pub use sampler::sample_pixels;
