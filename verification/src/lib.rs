//! Problem-specific layer of a random-key genetic search for the Maximum
//! Diversity Problem: instance and solution models, the objective function,
//! and the decoders that turn a vector of random keys into a solution.
//!
//! Distances and keys are unsigned integers. Real-valued data is mapped by
//! the caller to integers (fixed-point distances, an order-preserving image
//! of the keys); the decoders read keys only through their total order, so
//! any order-preserving image yields the same selection.
pub mod compact_decoder;
pub mod decoder;
pub mod laws;
pub mod loader;
pub mod matrix;
pub mod problem;
pub mod rank_decoder;

pub use compact_decoder::ExperimentalDecoder;
pub use decoder::Decoder;
pub use loader::LoadError;
pub use matrix::DistanceMatrix;
pub use problem::MaximumDiversity;
pub use problem::MdpSolution;
pub use rank_decoder::CurrentDecoder;
pub use matrix::mat_elems;
pub use matrix::mat_side;
