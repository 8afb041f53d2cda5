//! The integer core of a banded escape-time plotter of the Mandelbrot set:
//! counting the steps of an orbit, shading and painting a greyscale raster,
//! and dividing the rows of an image into bands that can be painted apart.
//! Beside it live two small helpers of the command-line tools built on it:
//! reading a pair of values from a text, and the greatest common divisor.
//!
//! The arithmetic on the points of the plane is left to the caller, who
//! hands it in as a function. Everything here is proved against its
//! contract.

pub mod banded;
pub mod bands;
pub mod escape;
pub mod gcd;
pub mod parse;
pub mod raster;

pub use banded::{render_all, split_bands};
pub use bands::{plan_bands, Band};
pub use escape::escape_time;
pub use gcd::{gcd, gcd_of_all};
pub use parse::{find_separator, pair_of, parse_pair, split_pair};
pub use raster::{raster_size, render, shade, ITERATION_LIMIT};
