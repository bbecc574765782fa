//! Processinator: astronomy image processing library.
//!
//! Converts linear FITS data into visually useful images using nonlinear
//! stretch algorithms, with optional background gradient removal, starlet
//! wavelet denoising, and dark stacking-edge detection.
//!
//! Lower-level entry points: [`stretch`] for a plain stretch, [`process`] for
//! full pipeline control over in-memory data, and [`make_test_image`] for
//! synthetic frames with known ground truth.
//!
//! The samples of an image can be of any type: every operation on them goes
//! through an [`Arithmetic`] that the caller supplies, and every contract says
//! which operations are applied to which samples.

pub mod arith;
pub mod autocrop;
pub mod denoise;
pub mod enhance;
mod error;
pub mod fits_io;
pub mod frame;
pub mod gradient;
pub mod laws;
pub mod linear;
mod parallel;
pub mod pipeline;
pub mod plane;
pub mod stats;
pub mod stretch;
pub mod synthetic;

pub use self::arith::{Arithmetic, Sample};
pub use self::autocrop::{AutocropParams, CropBounds, autocrop, detect_edges};
pub use self::denoise::{DenoiseParams, ThresholdMode, denoise};
pub use self::error::Error;
pub use self::fits_io::to_dynamic_image;
pub use self::frame::Image;
pub use self::gradient::{GradientParams, remove_gradient};
pub use self::pipeline::{PipelineConfig, prepare, process};
pub use self::stretch::{
    MtfSolution, MtfStats, StretchAlgorithm, StretchOptions, mtf_display_solution,
    mtf_stats_channel, mtf_stats_linked, remove_green, saturate, stretch,
};
pub use self::synthetic::{Star, SyntheticImage, SyntheticParams, make_test_image};
