//! Perceptual rate-distortion image optimization.
//!
//! The optimizer searches the quality axis of codecs for the smallest encoding that passes
//! every quality gate, or encodes at a fixed quality under a hard byte budget.

pub mod amount;
pub mod bench;
pub mod binary64;
pub mod budget;
mod clock;
pub mod codecs;
pub mod engine;
pub mod geometry;
pub mod metrics;
pub mod optimize;
pub mod parameters;
pub mod pipeline;
pub mod report;
pub mod request;
pub mod scan;
pub mod search;
pub mod sweep;
pub mod text;
pub mod types;
pub mod web;
