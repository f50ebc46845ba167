//! Removal of a uniform background color from raster images.
//!
//! Each pixel of an image is read as a linear blend of one or more
//! foreground colors over a single background color.  The library recovers a
//! per-pixel opacity and foreground color, deduces foreground colors that the
//! caller left unspecified, and re-encodes the result.  All color arithmetic
//! is carried out exactly, over integers and rationals scaled by 255, so that
//! every numeric claim in the contracts is exact.

pub mod background;
pub mod color;
pub mod deduce;
pub mod engine;
pub mod hist;
pub mod math;
pub mod process;
pub mod raster;
pub mod unmix;
