//! What holds of the library as a whole.
//!
//! The contracts of the stages are relations: they say which operations of the
//! arithmetic lead from the input to the output. Where the arithmetic gives
//! one answer to each question, as any real one does, each of these relations
//! holds of one output only, so equal inputs give equal outputs.

pub mod answers;
pub mod blurring;
pub mod calibration;
pub mod chroma;
pub mod clipping;
pub mod curve;
pub mod denoising;
pub mod dimming;
pub mod display;
pub mod edges;
pub mod enhancement;
pub mod exact;
pub mod exchange;
pub mod flattening;
pub mod gain;
pub mod generation;
pub mod landing;
pub mod normalizing;
pub mod order;
pub mod peaks;
pub mod processing;
pub mod range;
pub mod reals;
pub mod restoring;
pub mod scaling;
pub mod scenery;
pub mod showing;
pub mod solving;
pub mod statistics;
pub mod stretching;
pub mod surfaces;
pub mod toning;
pub mod transposing;
pub mod units;
