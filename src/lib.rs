//! Focal-length statistics: turns the focal-length tags found in image
//! files into a frequency series ordered by focal length.
//!
//! - `extract` reads the tag's text out of a file's bytes;
//! - `normalize` reads that text as a whole number of micrometres;
//! - `frequency` counts each value and orders the counts into a series;
//! - `series` runs the whole computation and states the laws it obeys;
//! - `points` holds the series' point type and the facts proved about it.
pub mod extract;
pub mod frequency;
pub mod normalize;
pub mod points;
pub mod series;

pub use extract::extract_focal_length;
pub use frequency::{aggregate, build_series, FrequencyTable, InvalidFocalLength};
pub use normalize::{parse_focal_length, MICROS_PER_MM};
pub use points::SeriesPoint;
pub use series::{focal_length_series, series_total};
