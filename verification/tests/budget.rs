//! Encoding under a byte budget, with deterministic mocks.

use smartimg::binary64::Binary64;
use smartimg::budget::{encode_on_axis, encode_within_budget, shrink, BudgetOptions};
use smartimg::codecs::{Capabilities, Codec, CodecError, EncodeSettings, Encoded, QualityAxis};
use smartimg::engine::EngineError;
use smartimg::geometry::Dimensions;
use smartimg::parameters::EncoderParameters;
use smartimg::pipeline::{DecodedSource, ImagePipeline, PipelineError};
use smartimg::report::CodecId;
use smartimg::request::MetadataPolicy;
use smartimg::types::{Image, ImageFormat, PixelFormat};

struct MockPipeline {
    fail: bool,
}

impl ImagePipeline for MockPipeline {
    fn decode(&self, _input: &[u8]) -> Result<DecodedSource, PipelineError> {
        Err(PipelineError::BackendUnavailable("mock".to_string()))
    }

    fn resize(&self, image: &Image, dimensions: Dimensions) -> Result<Image, PipelineError> {
        if self.fail {
            return Err(PipelineError::Processing("mock".to_string()));
        }
        let channels = image.format().channels();
        Ok(Image::new(dimensions, image.format(), vec![128; dimensions.pixels() as usize * channels]).unwrap())
    }
}

/// Output is `size(level)` bytes long.
struct MockCodec {
    size: fn(u32) -> usize,
    fail_below: u32,
}

impl MockCodec {
    fn new(size: fn(u32) -> usize) -> Self {
        Self { size, fail_below: 0 }
    }
}

impl Codec for MockCodec {
    fn id(&self) -> CodecId {
        CodecId::new("mock-avif", "0")
    }
    fn format(&self) -> ImageFormat {
        ImageFormat::Avif
    }
    fn capabilities(&self) -> Capabilities {
        Capabilities { alpha: true }
    }
    fn quality_axis(&self) -> QualityAxis {
        QualityAxis { min: 0, max: 100 }
    }
    fn encode(&self, _image: &Image, settings: &EncodeSettings) -> Result<Encoded, CodecError> {
        if settings.level < self.fail_below {
            return Err(CodecError::Encode("too low".to_string()));
        }
        Ok(Encoded { bytes: vec![0; (self.size)(settings.level)], parameters: EncoderParameters::new() })
    }
    fn decode(&self, _encoded: &[u8]) -> Result<Image, CodecError> {
        Err(CodecError::Decode("mock".to_string()))
    }
}

fn pipeline() -> MockPipeline {
    MockPipeline { fail: false }
}

fn image() -> Image {
    Image::new(Dimensions::new(100, 50), PixelFormat::Rgb8, vec![128; 100 * 50 * 3]).unwrap()
}

// Size grows with level and with pixel count: bytes = level * pixels / 100.
fn codec() -> MockCodec {
    MockCodec::new(|l| l as usize * 50)
}

#[test]
fn no_budget_is_a_single_encode_at_the_requested_level() {
    let r = encode_within_budget(&pipeline(), &codec(), &image(), &BudgetOptions::default()).unwrap();
    assert_eq!((r.level, r.attempts, r.within_budget), (60, 1, true));
    assert_eq!(r.dimensions, Dimensions::new(100, 50));
}

#[test]
fn lowers_level_until_it_fits() {
    let opts = BudgetOptions { max_bytes: Some(2_600), ..Default::default() };
    let r = encode_within_budget(&pipeline(), &codec(), &image(), &opts).unwrap();
    // 60 -> 3000, 55 -> 2750, 50 -> 2500 fits.
    assert_eq!((r.level, r.attempts, r.within_budget), (50, 3, true));
    assert_eq!(r.encoded.bytes.len(), 2_500);
}

#[test]
fn downscales_only_after_reaching_the_floor() {
    // Mock size depends on level only, so the resized image never fits either:
    // the result is the smallest attempt, flagged as over budget.
    let opts = BudgetOptions { max_bytes: Some(100), max_downscales: 2, ..Default::default() };
    let r = encode_within_budget(&pipeline(), &codec(), &image(), &opts).unwrap();
    assert!(!r.within_budget);
    assert_eq!(r.level, 40);
    // 5 levels (60..=40) at each of 3 scales.
    assert_eq!(r.attempts, 15);
    // The first of the smallest attempts was made at full size.
    assert_eq!(r.dimensions, Dimensions::new(100, 50));
}

struct PixelSized(MockCodec);

impl Codec for PixelSized {
    fn id(&self) -> CodecId {
        self.0.id()
    }
    fn format(&self) -> ImageFormat {
        self.0.format()
    }
    fn capabilities(&self) -> Capabilities {
        self.0.capabilities()
    }
    fn quality_axis(&self) -> QualityAxis {
        self.0.quality_axis()
    }
    fn encode(&self, image: &Image, s: &EncodeSettings) -> Result<Encoded, CodecError> {
        let mut e = self.0.encode(image, s)?;
        e.bytes.resize(s.level as usize * image.dimensions().pixels() as usize / 100, 0);
        Ok(e)
    }
    fn decode(&self, b: &[u8]) -> Result<Image, CodecError> {
        self.0.decode(b)
    }
}

#[test]
fn downscaling_rescues_an_oversized_image() {
    // Size proportional to pixels: 100x50 at level 40 is 2000; 85x43 is ~1462.
    let codec = MockCodec::new(|l| l as usize * 50);
    let opts = BudgetOptions { max_bytes: Some(1_500), ..Default::default() };
    let r = encode_within_budget(&pipeline(), &PixelSized(codec), &image(), &opts).unwrap();
    assert!(r.within_budget);
    assert_eq!(r.dimensions, Dimensions::new(85, 43));
    assert!(r.encoded.bytes.len() <= 1_500);
    assert_eq!((r.level, r.attempts), (40, 10));
}

#[test]
fn levels_are_clamped_to_the_axis() {
    let opts = BudgetOptions { level: 99, min_level: 10, max_bytes: Some(0), ..Default::default() };
    let axis = QualityAxis { min: 20, max: 32 };
    assert!(opts.works_on(axis));
    let r = encode_on_axis(&pipeline(), &codec(), axis, &image(), &opts).unwrap();
    // 32, 27, 22 and 20, on five images.
    assert_eq!((r.level, r.attempts, r.within_budget), (20, 20, false));
}

#[test]
fn options_that_never_end_are_told_apart() {
    let axis = QualityAxis { min: 0, max: 100 };
    let stuck = BudgetOptions { max_bytes: Some(1), level_step: 0, ..Default::default() };
    assert!(!stuck.works_on(axis));
    assert!(stuck.works_on(QualityAxis { min: 70, max: 100 }));
    assert!(BudgetOptions { max_bytes: None, ..stuck }.works_on(axis));
    assert!(!stuck.works_on(QualityAxis { min: 1, max: 0 }));
    let endless = BudgetOptions { max_bytes: Some(1), max_downscales: u32::MAX, ..Default::default() };
    assert!(!endless.works_on(axis));
    let countable = BudgetOptions { max_bytes: Some(1), max_downscales: 858_993_458, ..Default::default() };
    assert!(countable.works_on(axis));
    let too_many = BudgetOptions { max_downscales: 858_993_459, ..countable };
    assert!(!too_many.works_on(axis));
}

#[test]
fn failures_stop_the_attempts() {
    let opts = BudgetOptions { max_bytes: Some(1), ..Default::default() };
    let failing = MockCodec { size: |l| l as usize * 50, fail_below: 50 };
    let e = encode_within_budget(&pipeline(), &failing, &image(), &opts).unwrap_err();
    assert_eq!(e.message(), "codec failed: encoding failed: too low");
    let e = encode_within_budget(&MockPipeline { fail: true }, &codec(), &image(), &opts).unwrap_err();
    assert!(matches!(e, EngineError::Pipeline(PipelineError::Processing(_))));
}

#[test]
fn shrinks_as_doubles_do() {
    for factor in [0.85, 0.5, 0.1, 0.999, 1.0, 1.37, 0.0, -0.85, 1e-300, 1e300] {
        for n in 1..6u32 {
            for side in [1u32, 2, 3, 50, 100, 1_999, 2_560, 65_535, 4_000_000_000] {
                let expected = ((f64::from(side) * f64::powi(factor, n as i32)).round() as u32).max(1);
                let bits = Binary64::from_bits(f64::to_bits(factor));
                let d = shrink(Dimensions::new(side, 7), bits, n);
                assert_eq!(d.width, expected, "{side} * {factor}^{n}");
            }
        }
    }
    let d = Dimensions::new(8, 8);
    let shrunk = |f: f64, n| shrink(d, Binary64::from_bits(f.to_bits()), n);
    assert_eq!(shrunk(f64::INFINITY, 1), Dimensions::new(u32::MAX, u32::MAX));
    assert_eq!(shrunk(f64::NEG_INFINITY, 1), Dimensions::new(1, 1));
    assert_eq!(shrunk(f64::NEG_INFINITY, 2), Dimensions::new(u32::MAX, u32::MAX));
    assert_eq!(shrunk(f64::NAN, 1), Dimensions::new(1, 1));
}

#[test]
fn defaults_are_those_of_web_delivery() {
    let o = BudgetOptions::default();
    assert_eq!((o.level, o.min_level, o.level_step, o.max_bytes, o.max_downscales), (60, 40, 5, None, 4));
    assert_eq!(f64::from_bits(o.downscale_factor.to_bits()), 0.85);
    assert_eq!(o.metadata, MetadataPolicy::KeepIccOnly);
}
