//! Fixed-bucket frequency histograms of decimal samples, rendered as text bars.
//!
//! A histogram is built from the lines of a text, each of which writes one
//! number, and an optional bin width. The samples are sorted and swept once
//! into contiguous bins of equal width; the bars that result are rendered
//! one per line, with a legend of two lines below them.
//!
//! All quantities are exact. A sample is a decimal number, and every derived
//! value (bin width, bin edges, representatives) is a whole number of
//! *ticks*: at scale `f`, the largest number of decimal places among the
//! samples and the bin width, a unit has `60 * 10^f` ticks, so that a
//! thirtieth of a difference of samples, and half of that, are whole.

pub mod bins;
pub mod counts;
pub mod decimal;
pub mod format;
pub mod histogram;
pub mod outside;
pub mod render;
pub mod text;
pub mod theorems;

pub use crate::bins::Bar;
pub use crate::decimal::Decimal;
pub use crate::histogram::BuildError;
pub use crate::histogram::Histgram;
pub use crate::render::present_histogram;
