//! Pixel transforms on in-memory raster images and the planning and
//! bookkeeping of batch jobs over many images.
//!
//! Every function states what it returns in a contract that Verus proves.
//! Calls into the `image`, `imageproc` and `palette` crates, and into two
//! functions of `std` that come without a specification, are made through
//! small wrappers whose contracts are believed, not proved; each says so.
//!
//! - [`raster`]: the image type and its pixel formats.
//! - [`sharpen`]: sharpening by a 3x3 convolution.
//! - [`edges`]: luminance and edge detection.
//! - [`sepia`]: the sepia tone.
//! - [`color`]: colour spaces, hue and brightness.
//! - [`overlay`]: compositing with a blend factor.
//! - [`naming`] and [`batch`]: output names and the progress of a batch.

pub mod batch;
pub mod color;
pub mod edges;
pub mod error;
pub mod naming;
pub mod overlay;
pub mod raster;
pub mod sepia;
pub mod sharpen;
