//! The optimizer loop, with deterministic mocks.
//!
//! The mock codec encodes the level into its output; the mock metric reads it back and maps it
//! through a quality curve. That lets each test define exact size and quality curves and assert
//! precisely which candidate the search must pick.

use std::sync::atomic::{AtomicU32, Ordering};
use std::sync::Arc;

use smartimg::binary64::Binary64;
use smartimg::codecs::{Capabilities, Codec, CodecError, EncodeSettings, Encoded, QualityAxis};
use smartimg::engine::{keeps_original, Engine, EngineError};
use smartimg::geometry::{DimensionPolicy, Dimensions};
use smartimg::metrics::{Metric, MetricError};
use smartimg::parameters::EncoderParameters;
use smartimg::pipeline::{DecodedSource, ImagePipeline, PipelineError};
use smartimg::report::{
    CodecId, Direction, Evaluation, FormatOutcome, FormatReport, MetricId, OptimizationResult,
    Selection,
};
use smartimg::request::{
    AlphaPolicy, MetadataPolicy, OptimizationRequest, QualityGate, SearchBudget,
};
use smartimg::types::{Image, ImageFormat, PixelFormat};

fn double(v: f64) -> Binary64 {
    Binary64::from_bits(v.to_bits())
}

struct MockPipeline {
    image: Image,
    format: Option<ImageFormat>,
    has_strippable_metadata: bool,
    fail: bool,
}

impl MockPipeline {
    fn opaque() -> Self {
        Self::with(Image::new(Dimensions::new(40, 30), PixelFormat::Rgb8, vec![128; 40 * 30 * 3]).unwrap())
    }

    fn transparent() -> Self {
        let mut data = vec![128; 40 * 30 * 4];
        data[3] = 0;
        Self::with(Image::new(Dimensions::new(40, 30), PixelFormat::Rgba8, data).unwrap())
    }

    fn with(image: Image) -> Self {
        Self { image, format: Some(ImageFormat::Png), has_strippable_metadata: false, fail: false }
    }
}

impl ImagePipeline for MockPipeline {
    fn decode(&self, _input: &[u8]) -> Result<DecodedSource, PipelineError> {
        if self.fail {
            return Err(PipelineError::Unsupported("mock input".to_string()));
        }
        Ok(DecodedSource {
            image: self.image.clone(),
            format: self.format,
            has_strippable_metadata: self.has_strippable_metadata,
        })
    }

    fn resize(&self, image: &Image, dimensions: Dimensions) -> Result<Image, PipelineError> {
        let channels = image.format().channels();
        Ok(Image::new(dimensions, image.format(), vec![128; dimensions.pixels() as usize * channels]).unwrap())
    }
}

/// Output is `[level, width(4), height(4), padding...]`, `size(level)` bytes long.
struct MockCodec {
    format: ImageFormat,
    alpha: bool,
    size: fn(u32) -> usize,
    fail: bool,
    /// Decoded image is this much wider than the input, to simulate a broken codec.
    decode_width_error: u32,
    encodes: Arc<AtomicU32>,
}

impl MockCodec {
    fn new(format: ImageFormat, size: fn(u32) -> usize) -> Self {
        Self { format, alpha: true, size, fail: false, decode_width_error: 0, encodes: Arc::default() }
    }
}

impl Codec for MockCodec {
    fn id(&self) -> CodecId {
        CodecId::new(&format!("mock-{}", self.format.extension()), "0")
    }
    fn format(&self) -> ImageFormat {
        self.format
    }
    fn capabilities(&self) -> Capabilities {
        Capabilities { alpha: self.alpha }
    }
    fn quality_axis(&self) -> QualityAxis {
        QualityAxis { min: 0, max: 100 }
    }
    fn encode(&self, image: &Image, settings: &EncodeSettings) -> Result<Encoded, CodecError> {
        if self.fail {
            return Err(CodecError::Encode("mock failure".into()));
        }
        self.encodes.fetch_add(1, Ordering::Relaxed);
        let d = image.dimensions();
        let mut bytes = vec![settings.level as u8];
        bytes.extend((d.width + self.decode_width_error).to_le_bytes());
        bytes.extend(d.height.to_le_bytes());
        bytes.resize((self.size)(settings.level).max(bytes.len()), 0);
        let mut parameters = EncoderParameters::new();
        parameters.insert("level".to_string(), settings.level.to_string());
        Ok(Encoded { bytes, parameters })
    }
    fn decode(&self, encoded: &[u8]) -> Result<Image, CodecError> {
        let w = u32::from_le_bytes(encoded[1..5].try_into().unwrap());
        let h = u32::from_le_bytes(encoded[5..9].try_into().unwrap());
        let format = if self.alpha { PixelFormat::Rgba8 } else { PixelFormat::Rgb8 };
        let data = vec![encoded[0]; (w * h) as usize * format.channels()];
        Image::new(Dimensions::new(w, h), format, data).map_err(|e| CodecError::Decode(e.message()))
    }
}

/// Reads the level back from the decoded pixels and maps it through `curve`.
struct MockMetric {
    name: &'static str,
    direction: Direction,
    curve: fn(u32) -> f64,
}

impl Metric for MockMetric {
    fn id(&self) -> MetricId {
        MetricId::new(self.name, "0")
    }
    fn direction(&self) -> Direction {
        self.direction
    }
    fn score(&self, _reference: &Image, candidate: &Image) -> Result<Binary64, MetricError> {
        Ok(double((self.curve)(u32::from(candidate.data()[0]))))
    }
}

fn quality() -> MockMetric {
    MockMetric { name: "quality", direction: Direction::HigherIsBetter, curve: |l| f64::from(l) / 100.0 }
}

fn request(formats: &[ImageFormat], threshold: f64) -> OptimizationRequest {
    OptimizationRequest {
        allowed_formats: formats.to_vec(),
        quality: vec![QualityGate { metric: "quality".into(), threshold: double(threshold) }],
        dimensions: DimensionPolicy::Preserve,
        alpha: AlphaPolicy::Preserve,
        metadata: MetadataPolicy::default(),
        budget: SearchBudget { max_evaluations_per_format: 32, sweep_radius: 2 },
        trace: false,
    }
}

// Large enough that no candidate ever falls under it by accident.
const INPUT: &[u8] = &[0; 1 << 20];

fn encoded_best(result: &OptimizationResult) -> &Evaluation {
    match &result.selection {
        Selection::Encoded { best } => best,
        other => panic!("expected an encoded winner, got {other:?}"),
    }
}

fn outcome(result: &[FormatReport], format: ImageFormat) -> &FormatOutcome {
    &result.iter().find(|r| r.format == format).unwrap().outcome
}

#[test]
fn finds_lowest_passing_level() {
    let engine = Engine::new(MockPipeline::opaque())
        .with_codec(MockCodec::new(ImageFormat::WebP, |l| 100 + 10 * l as usize))
        .with_metric(quality());
    let result = engine.optimize(INPUT, &request(&[ImageFormat::WebP], 0.5)).unwrap();
    let best = encoded_best(&result);
    assert_eq!(best.level, 50);
    assert_eq!(best.bytes, 600);
    assert_eq!(result.output.len(), 600);
    assert_eq!(best.encoder_parameters.get("level"), Some("50"));
}

#[test]
fn smallest_format_wins_and_every_format_is_reported() {
    let engine = Engine::new(MockPipeline::opaque())
        .with_codec(MockCodec::new(ImageFormat::Jpeg, |l| 200 + 10 * l as usize))
        .with_codec(MockCodec::new(ImageFormat::Avif, |l| 50 + 10 * l as usize))
        .with_metric(quality());
    let result = engine.optimize(INPUT, &request(&[ImageFormat::Jpeg, ImageFormat::Avif], 0.5)).unwrap();
    assert_eq!(encoded_best(&result).format, ImageFormat::Avif);
    assert!(matches!(outcome(&result.formats, ImageFormat::Jpeg), FormatOutcome::Found { best } if best.bytes == 700));
    assert!(matches!(outcome(&result.formats, ImageFormat::Avif), FormatOutcome::Found { best } if best.bytes == 550));
}

#[test]
fn sweep_catches_non_monotonic_size() {
    // Level 52 is smaller than the boundary level 50 while still passing.
    let engine = Engine::new(MockPipeline::opaque())
        .with_codec(MockCodec::new(ImageFormat::WebP, |l| if l == 52 { 300 } else { 100 + 10 * l as usize }))
        .with_metric(quality());
    let result = engine.optimize(INPUT, &request(&[ImageFormat::WebP], 0.5)).unwrap();
    assert_eq!(encoded_best(&result).level, 52);
    assert_eq!(encoded_best(&result).bytes, 300);
}

#[test]
fn every_gate_must_pass() {
    // Secondary lower-is-better metric: error = (100 - level) / 100 must be <= 0.3.
    let engine = Engine::new(MockPipeline::opaque())
        .with_codec(MockCodec::new(ImageFormat::WebP, |l| 100 + l as usize))
        .with_metric(quality())
        .with_metric(MockMetric {
            name: "error",
            direction: Direction::LowerIsBetter,
            curve: |l| f64::from(100 - l) / 100.0,
        });
    let mut req = request(&[ImageFormat::WebP], 0.5);
    req.quality.push(QualityGate { metric: "error".into(), threshold: double(0.3) });
    let best = engine.optimize(INPUT, &req).map(|r| encoded_best(&r).clone()).unwrap();
    assert_eq!(best.level, 70);
    assert_eq!(best.metrics.len(), 2);
}

#[test]
fn transparency_is_never_silently_dropped() {
    let mut jpeg = MockCodec::new(ImageFormat::Jpeg, |l| 10 + l as usize);
    jpeg.alpha = false;
    let engine = Engine::new(MockPipeline::transparent())
        .with_codec(jpeg)
        .with_codec(MockCodec::new(ImageFormat::Png, |l| 1000 + l as usize))
        .with_metric(quality());

    let result = engine.optimize(INPUT, &request(&[ImageFormat::Jpeg, ImageFormat::Png], 0.5)).unwrap();
    assert_eq!(encoded_best(&result).format, ImageFormat::Png);
    assert!(!result.alpha_flattened);
    assert!(matches!(outcome(&result.formats, ImageFormat::Jpeg), FormatOutcome::Skipped { .. }));

    let mut req = request(&[ImageFormat::Jpeg, ImageFormat::Png], 0.5);
    req.alpha = AlphaPolicy::FlattenOnto { background: [255, 255, 255] };
    let result = engine.optimize(INPUT, &req).unwrap();
    assert_eq!(encoded_best(&result).format, ImageFormat::Jpeg);
    assert!(result.alpha_flattened);
}

#[test]
fn failing_codec_does_not_abort_other_formats() {
    let mut broken = MockCodec::new(ImageFormat::Avif, |l| l as usize);
    broken.fail = true;
    let mut wrong_size = MockCodec::new(ImageFormat::Jpeg, |l| l as usize);
    wrong_size.decode_width_error = 1;
    let engine = Engine::new(MockPipeline::opaque())
        .with_codec(broken)
        .with_codec(wrong_size)
        .with_codec(MockCodec::new(ImageFormat::WebP, |l| 100 + l as usize))
        .with_metric(quality());
    let result = engine
        .optimize(INPUT, &request(&[ImageFormat::Avif, ImageFormat::Jpeg, ImageFormat::WebP], 0.5))
        .unwrap();
    assert_eq!(encoded_best(&result).format, ImageFormat::WebP);
    assert!(matches!(outcome(&result.formats, ImageFormat::Avif), FormatOutcome::Failed { .. }));
    assert!(matches!(outcome(&result.formats, ImageFormat::Jpeg), FormatOutcome::Failed { .. }));
    assert_eq!(
        outcome(&result.formats, ImageFormat::Avif),
        &FormatOutcome::Failed { error: "encoding failed: mock failure".to_string() }
    );
    assert_eq!(
        outcome(&result.formats, ImageFormat::Jpeg),
        &FormatOutcome::Failed {
            error: "reference is Dimensions { width: 40, height: 30 } but candidate is Dimensions { width: 41, height: 30 }"
                .to_string()
        }
    );
}

#[test]
fn unreachable_target_reports_every_format() {
    let engine = Engine::new(MockPipeline::opaque())
        .with_codec(MockCodec::new(ImageFormat::WebP, |l| l as usize))
        .with_metric(quality());
    match engine.optimize(INPUT, &request(&[ImageFormat::WebP, ImageFormat::Avif], 1.5)) {
        Err(EngineError::NoAcceptableCandidate { formats }) => {
            assert!(matches!(outcome(&formats, ImageFormat::WebP), FormatOutcome::NoAcceptableCandidate));
            assert!(matches!(outcome(&formats, ImageFormat::Avif), FormatOutcome::Skipped { .. }));
        }
        other => panic!("expected NoAcceptableCandidate, got {other:?}"),
    }
}

#[test]
fn keeps_original_only_when_it_is_a_valid_answer() {
    let small_input = [0u8; 100];
    let engine = |pipeline| {
        Engine::new(pipeline)
            .with_codec(MockCodec::new(ImageFormat::Png, |l| 500 + l as usize))
            .with_metric(quality())
    };

    let result = engine(MockPipeline::opaque()).optimize(&small_input, &request(&[ImageFormat::Png], 0.5)).unwrap();
    assert_eq!(result.selection, Selection::KeptOriginal { format: ImageFormat::Png });
    assert_eq!(result.output, small_input);

    // Original format not allowed → must encode.
    let mut pipeline = MockPipeline::opaque();
    pipeline.format = Some(ImageFormat::Jpeg);
    let result = engine(pipeline).optimize(&small_input, &request(&[ImageFormat::Png], 0.5)).unwrap();
    assert!(matches!(result.selection, Selection::Encoded { .. }));

    // Metadata must be stripped → must re-encode.
    let mut pipeline = MockPipeline::opaque();
    pipeline.has_strippable_metadata = true;
    let result = engine(pipeline).optimize(&small_input, &request(&[ImageFormat::Png], 0.5)).unwrap();
    assert!(matches!(result.selection, Selection::Encoded { .. }));

    // Resized → original dimensions are no longer valid.
    let mut req = request(&[ImageFormat::Png], 0.5);
    req.dimensions = DimensionPolicy::MaxDimension { max: 20 };
    let result = engine(MockPipeline::opaque()).optimize(&small_input, &req).unwrap();
    assert!(matches!(result.selection, Selection::Encoded { .. }));
    assert_eq!(result.output_dimensions, Dimensions::new(20, 15));
}

#[test]
fn budget_caps_evaluations() {
    let codec = MockCodec::new(ImageFormat::WebP, |l| 100 + l as usize);
    let engine = Engine::new(MockPipeline::opaque()).with_codec(codec).with_metric(quality());
    let mut req = request(&[ImageFormat::WebP], 0.5);
    req.budget.max_evaluations_per_format = 3;
    req.trace = true;
    let result = engine.optimize(INPUT, &req).unwrap();
    assert_eq!(result.formats[0].evaluations, 3);
    assert_eq!(result.trace.len(), 3);
}

#[test]
fn search_is_deterministic_and_memoized() {
    let codec = MockCodec::new(ImageFormat::WebP, |l| 100 + 3 * l as usize);
    let encodes = Arc::clone(&codec.encodes);
    let engine = Engine::new(MockPipeline::opaque()).with_codec(codec).with_metric(quality());
    let mut req = request(&[ImageFormat::WebP], 0.37);
    req.trace = true;

    let a = engine.optimize(INPUT, &req).unwrap();
    // The sweep revisits levels the binary search already tried; none may be re-encoded.
    assert_eq!(encodes.load(Ordering::Relaxed), a.formats[0].evaluations);

    let b = engine.optimize(INPUT, &req).unwrap();
    assert_eq!(a.trace, b.trace);
    assert_eq!(a.selection, b.selection);
}

#[test]
fn rejects_invalid_requests() {
    let engine = Engine::new(MockPipeline::opaque())
        .with_codec(MockCodec::new(ImageFormat::WebP, |l| l as usize))
        .with_metric(quality());
    let mut req = request(&[ImageFormat::WebP], 0.5);
    req.quality[0].metric = "butteraugli".into();
    assert!(matches!(engine.optimize(INPUT, &req), Err(EngineError::InvalidRequest(_))));
    assert!(matches!(engine.optimize(INPUT, &request(&[], 0.5)), Err(EngineError::InvalidRequest(_))));
}

#[test]
fn invalid_requests_say_why() {
    let engine = Engine::new(MockPipeline::opaque())
        .with_codec(MockCodec::new(ImageFormat::WebP, |l| l as usize))
        .with_metric(quality());
    let message = |req: &OptimizationRequest| engine.optimize(INPUT, req).unwrap_err().message();
    let mut unknown = request(&[ImageFormat::WebP], 0.5);
    unknown.quality[0].metric = "butteraugli".into();
    assert_eq!(message(&unknown), "invalid request: unknown metric `butteraugli`");
    assert_eq!(message(&request(&[], 0.5)), "invalid request: no output formats allowed");
    let mut ungated = request(&[ImageFormat::WebP], 0.5);
    ungated.quality.clear();
    assert_eq!(message(&ungated), "invalid request: at least one quality gate is required");
}

#[test]
fn pipeline_errors_are_passed_on() {
    let mut pipeline = MockPipeline::opaque();
    pipeline.fail = true;
    let engine = Engine::new(pipeline)
        .with_codec(MockCodec::new(ImageFormat::WebP, |l| l as usize))
        .with_metric(quality());
    let e = engine.optimize(INPUT, &request(&[ImageFormat::WebP], 0.5)).unwrap_err();
    assert_eq!(e.message(), "pipeline failed: unsupported input: mock input");
    assert_eq!(
        EngineError::Codec(CodecError::BackendUnavailable("x".to_string())).message(),
        "codec failed: codec backend unavailable: x"
    );
    assert_eq!(
        EngineError::NoAcceptableCandidate { formats: vec![] }.message(),
        "no candidate met the quality target in any allowed format"
    );
}

#[test]
fn repeated_formats_are_tried_once_in_order() {
    let engine = Engine::new(MockPipeline::opaque())
        .with_codec(MockCodec::new(ImageFormat::WebP, |l| 100 + l as usize))
        .with_metric(quality());
    let req = request(&[ImageFormat::Png, ImageFormat::WebP, ImageFormat::Png, ImageFormat::WebP], 0.5);
    let result = engine.optimize(INPUT, &req).unwrap();
    let formats: Vec<ImageFormat> = result.formats.iter().map(|r| r.format).collect();
    assert_eq!(formats, [ImageFormat::Png, ImageFormat::WebP]);
    assert_eq!(
        result.formats[0].outcome,
        FormatOutcome::Skipped { reason: "no codec registered".to_string() }
    );
    assert_eq!(result.formats[0].codec, None);
    assert_eq!(result.formats[1].codec, Some(CodecId::new("mock-webp", "0")));
}

#[test]
fn ties_go_to_the_higher_level_and_the_first_format() {
    let engine = Engine::new(MockPipeline::opaque())
        .with_codec(MockCodec::new(ImageFormat::WebP, |_| 500))
        .with_codec(MockCodec::new(ImageFormat::Avif, |_| 500))
        .with_metric(quality());
    let result = engine.optimize(INPUT, &request(&[ImageFormat::Avif, ImageFormat::WebP], 0.5)).unwrap();
    let best = encoded_best(&result);
    assert_eq!(best.format, ImageFormat::Avif);
    // All sizes are equal, so the highest level that was evaluated wins.
    assert_eq!(best.level, 52);
    let mut req = request(&[ImageFormat::Avif], 0.505);
    req.trace = true;
    let result = engine.optimize(INPUT, &req).unwrap();
    let levels: Vec<u32> = result.trace.iter().map(|e| e.level).collect();
    assert_eq!(levels, [49, 50, 51, 52, 53, 56, 62, 75]);
    assert_eq!(encoded_best(&result).level, 75);
    assert_eq!(result.source_bytes, 1 << 20);
    assert_eq!(result.output_bytes, 500);
}

#[test]
fn probes_halve_the_axis_and_then_sweep() {
    let engine = Engine::new(MockPipeline::opaque())
        .with_codec(MockCodec::new(ImageFormat::WebP, |l| 100 + l as usize))
        .with_metric(quality());
    let mut req = request(&[ImageFormat::WebP], 1.0);
    req.trace = true;
    let result = engine.optimize(INPUT, &req).unwrap();
    let levels: Vec<u32> = result.trace.iter().map(|e| e.level).collect();
    // 50, 75, 88, 94, 97, 99, 100; then 98 and again 99 and 100.
    assert_eq!(levels, [50, 75, 88, 94, 97, 98, 99, 100]);
    assert_eq!(result.formats[0].evaluations, 8);
    req.budget.max_evaluations_per_format = 0;
    assert!(matches!(engine.optimize(INPUT, &req), Err(EngineError::NoAcceptableCandidate { .. })));
}

#[test]
fn scores_that_are_no_numbers_pass_no_gate() {
    let engine = Engine::new(MockPipeline::opaque())
        .with_codec(MockCodec::new(ImageFormat::WebP, |l| 100 + l as usize))
        .with_metric(MockMetric { name: "quality", direction: Direction::HigherIsBetter, curve: |_| f64::NAN });
    let e = engine.optimize(INPUT, &request(&[ImageFormat::WebP], f64::NEG_INFINITY)).unwrap_err();
    assert!(matches!(e, EngineError::NoAcceptableCandidate { .. }));
}

#[test]
fn the_original_is_kept_only_if_nothing_is_smaller() {
    let allowed = vec![ImageFormat::Png];
    assert!(keeps_original(false, false, false, 100, 100, Some(ImageFormat::Png), &allowed));
    assert!(!keeps_original(false, false, false, 99, 100, Some(ImageFormat::Png), &allowed));
    assert!(!keeps_original(true, false, false, 100, 100, Some(ImageFormat::Png), &allowed));
    assert!(!keeps_original(false, false, true, 100, 100, Some(ImageFormat::Png), &allowed));
    assert!(!keeps_original(false, true, false, 100, 100, Some(ImageFormat::Png), &allowed));
    assert!(!keeps_original(false, false, false, 100, 100, Some(ImageFormat::Jpeg), &allowed));
    assert!(!keeps_original(false, false, false, 100, 100, None, &allowed));
}

#[test]
fn a_profile_that_must_go_rules_the_original_out() {
    let small_input = [0u8; 100];
    let optimized = |profile: Option<Vec<u8>>, metadata| {
        let image = Image::new(Dimensions::new(40, 30), PixelFormat::Rgb8, vec![128; 40 * 30 * 3]).unwrap();
        let engine = Engine::new(MockPipeline::with(image.with_icc_profile(profile)))
            .with_codec(MockCodec::new(ImageFormat::Png, |l| 500 + l as usize))
            .with_metric(quality());
        let mut req = request(&[ImageFormat::Png], 0.5);
        req.metadata = metadata;
        engine.optimize(&small_input, &req).unwrap()
    };
    let kept = Selection::KeptOriginal { format: ImageFormat::Png };
    assert_eq!(optimized(Some(vec![1, 2, 3]), MetadataPolicy::KeepIccOnly).selection, kept);
    assert_eq!(optimized(None, MetadataPolicy::StripAll).selection, kept);
    let stripped = optimized(Some(vec![1, 2, 3]), MetadataPolicy::StripAll);
    assert!(matches!(stripped.selection, Selection::Encoded { .. }));
    assert_ne!(stripped.output, small_input);
}
