//! What a caller asks of the optimizer.

use vstd::prelude::*;

use crate::binary64::Binary64;
use crate::geometry::DimensionPolicy;
use crate::types::ImageFormat;

verus! {

#[derive(Debug, Clone, Copy, PartialEq)]
pub enum AlphaPolicy {
    /// Transparency must survive. Formats without alpha are skipped for transparent images.
    Preserve,
    /// Transparent images may be composited onto this background for alpha-less formats.
    FlattenOnto { background: [u8; 3] },
}

impl Default for AlphaPolicy {
    fn default() -> (r: Self)
        ensures
            r == AlphaPolicy::Preserve,
    {
        AlphaPolicy::Preserve
    }
}

#[derive(Debug, Clone, Copy, PartialEq, Eq, Structural)]
pub enum MetadataPolicy {
    /// Keep only the ICC profile; drop EXIF/XMP (removes GPS and other private data).
    KeepIccOnly,
    StripAll,
}

impl Default for MetadataPolicy {
    fn default() -> (r: Self)
        ensures
            r == MetadataPolicy::KeepIccOnly,
    {
        MetadataPolicy::KeepIccOnly
    }
}

/// A candidate is acceptable only when every gate passes.
#[derive(Debug, PartialEq)]
pub struct QualityGate {
    /// Must match the name of a registered metric.
    pub metric: String,
    pub threshold: Binary64,
}

impl Clone for QualityGate {
    fn clone(&self) -> (r: Self)
        ensures
            r == *self,
    {
        QualityGate { metric: self.metric.clone(), threshold: self.threshold }
    }
}

#[derive(Debug, Clone, Copy, PartialEq, Eq)]
pub struct SearchBudget {
    /// Maximum encode+measure evaluations per format.
    pub max_evaluations_per_format: u32,
    /// Levels checked on each side of the binary-search boundary.
    pub sweep_radius: u32,
}

impl Default for SearchBudget {
    fn default() -> (r: Self)
        ensures
            r.max_evaluations_per_format == 16,
            r.sweep_radius == 2,
    {
        SearchBudget { max_evaluations_per_format: 16, sweep_radius: 2 }
    }
}

#[derive(Debug, PartialEq)]
pub struct OptimizationRequest {
    pub allowed_formats: Vec<ImageFormat>,
    pub quality: Vec<QualityGate>,
    pub dimensions: DimensionPolicy,
    pub alpha: AlphaPolicy,
    pub metadata: MetadataPolicy,
    pub budget: SearchBudget,
    /// Include every evaluated candidate in the result.
    pub trace: bool,
}

impl Clone for OptimizationRequest {
    fn clone(&self) -> (r: Self)
        ensures
            r.allowed_formats@ == self.allowed_formats@,
            r.quality@ == self.quality@,
            r.dimensions == self.dimensions,
            r.alpha == self.alpha,
            r.metadata == self.metadata,
            r.budget == self.budget,
            r.trace == self.trace,
    {
        OptimizationRequest {
            allowed_formats: self.allowed_formats.clone(),
            quality: self.quality.clone(),
            dimensions: self.dimensions,
            alpha: self.alpha,
            metadata: self.metadata,
            budget: self.budget,
            trace: self.trace,
        }
    }
}

} // verus!
