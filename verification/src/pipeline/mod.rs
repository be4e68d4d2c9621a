//! Image-processing boundary: decode, orientation, color, resize. Encoding is deliberately
//! not part of this trait; the optimizer calls codec adapters directly.

use vstd::prelude::*;

use crate::geometry::Dimensions;
use crate::types::{Image, ImageFormat};

pub mod image_rs;
pub mod orientation;

verus! {

#[derive(Debug, PartialEq, Eq)]
pub enum PipelineError {
    BackendUnavailable(String),
    Unsupported(String),
    Processing(String),
}

impl PipelineError {
    pub open spec fn message_spec(self) -> Seq<char> {
        match self {
            PipelineError::BackendUnavailable(detail) => "pipeline backend unavailable: "@
                + detail@,
            PipelineError::Unsupported(detail) => "unsupported input: "@ + detail@,
            PipelineError::Processing(detail) => "processing failed: "@ + detail@,
        }
    }

    /// What went wrong, in words.
    pub fn message(&self) -> (r: String)
        ensures
            r@ == self.message_spec(),
    {
        match self {
            PipelineError::BackendUnavailable(detail) => {
                let mut out: String = "pipeline backend unavailable: ".to_string();
                out.append(detail.as_str());
                out
            },
            PipelineError::Unsupported(detail) => {
                let mut out: String = "unsupported input: ".to_string();
                out.append(detail.as_str());
                out
            },
            PipelineError::Processing(detail) => {
                let mut out: String = "processing failed: ".to_string();
                out.append(detail.as_str());
                out
            },
        }
    }
}

#[derive(Debug)]
pub struct DecodedSource {
    /// Orientation-normalized pixels, with the source ICC profile attached.
    pub image: Image,
    /// Container format of the input, if it is one the engine can output.
    pub format: Option<ImageFormat>,
    /// True if the input carries EXIF/XMP or other non-ICC metadata. The original file
    /// cannot be returned unchanged when the metadata policy requires stripping it.
    pub has_strippable_metadata: bool,
}

impl Clone for DecodedSource {
    fn clone(&self) -> (r: Self)
        ensures
            r.image@ == self.image@,
            r.format == self.format,
            r.has_strippable_metadata == self.has_strippable_metadata,
    {
        DecodedSource {
            image: self.image.clone(),
            format: self.format,
            has_strippable_metadata: self.has_strippable_metadata,
        }
    }
}

pub trait ImagePipeline: Send + Sync {
    fn decode(&self, input: &[u8]) -> Result<DecodedSource, PipelineError>;

    /// High-quality (linear-light) downscale to exactly `dimensions`.
    fn resize(&self, image: &Image, dimensions: Dimensions) -> Result<Image, PipelineError>;
}

/// Whether an image is the source at certain dimensions: itself where it has them, and
/// otherwise what the pipeline makes of it.
pub open spec fn fitted<P: ImagePipeline>(
    pipeline: &P,
    source: &Image,
    dimensions: Dimensions,
    r: Result<Image, PipelineError>,
) -> bool {
    if dimensions == source@.dimensions {
        r is Ok && r->Ok_0@ == source@
    } else {
        call_ensures(P::resize, (pipeline, source, dimensions), r)
    }
}

/// The source at certain dimensions.
pub fn fit<P: ImagePipeline>(pipeline: &P, source: &Image, dimensions: Dimensions) -> (r: Result<
    Image,
    PipelineError,
>)
    ensures
        fitted(pipeline, source, dimensions, r),
{
    if dimensions == source.dimensions() {
        Ok(source.clone())
    } else {
        pipeline.resize(source, dimensions)
    }
}

} // verus!
