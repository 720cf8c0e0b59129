//! A small text-regression data pipeline: corpus parsing, word segmentation,
//! vocabulary construction, fixed-length sequence encoding, train/validation
//! splitting and batch assembly, each with a verified contract. The tensor
//! runtime that consumes the batches lives outside this library.
pub mod batcher;
pub mod csv;
pub mod dataset;
pub mod seg;
pub mod train;
pub mod vocab;
