//! Benchmark corpora and sweeps.

use smartimg::bench::{arrange, fingerprint, parse_corpus, CorpusArg, CorpusDir, Split};
use smartimg::binary64::Binary64;
use smartimg::codecs::{Capabilities, Codec, CodecError, EncodeSettings, Encoded, QualityAxis};
use smartimg::geometry::{DimensionPolicy, Dimensions};
use smartimg::metrics::{Metric, MetricError};
use smartimg::parameters::EncoderParameters;
use smartimg::pipeline::{DecodedSource, ImagePipeline, PipelineError};
use smartimg::report::{CodecId, Direction, MetricId};
use smartimg::sweep::{
    levels_done, pending_levels, sweep_image, sweep_levels, CodecSetup, DoneRow, RunConfig,
};
use smartimg::types::{Image, ImageFormat, PixelFormat};

fn corpus(name: &str, dir: CorpusDir, sample: Option<usize>) -> CorpusArg {
    CorpusArg { name: name.to_string(), dir, sample }
}

#[test]
fn corpora_have_a_name_a_directory_and_a_sample() {
    let path = |p: &str| CorpusDir::Path(p.to_string());
    assert_eq!(parse_corpus("kodak=data/kodak"), Ok(corpus("kodak", path("data/kodak"), None)));
    assert_eq!(
        parse_corpus("web=~/path/to/images@100"),
        Ok(corpus("web", CorpusDir::InHome("path/to/images".to_string()), Some(100)))
    );
    assert_eq!(parse_corpus("a=b=c@d@7"), Ok(corpus("a", path("b=c@d"), Some(7))));
    assert_eq!(parse_corpus("="), Ok(corpus("", path(""), None)));
    assert_eq!(parse_corpus("a=~"), Ok(corpus("a", path("~"), None)));
    let message = |s: &str| parse_corpus(s).unwrap_err();
    assert_eq!(message("kodak"), "expected NAME=DIR[@SAMPLE]");
    for n in ["", "x", "-1", "+", "1x", "99999999999999999999999999", "99999999999999999999999999x"] {
        let expected = n.parse::<usize>().unwrap_err().to_string();
        assert_eq!(message(&format!("a=b@{n}")), expected);
    }
}

#[test]
fn files_are_known_by_their_content() {
    // The digest of `abc` is a standard example.
    let f = fingerprint(b"abc");
    assert_eq!(f.sha256, "ba7816bf8f01cfea414140de5dae2223b00361a396177a9cb410ff61f20015ad");
    assert_eq!(f.id, "ba7816bf8f01cfea");
    assert_eq!((f.split, f.split.name()), (Split::Dev, "dev"));
    let f = fingerprint(b"");
    assert_eq!(f.sha256, "e3b0c44298fc1c149afbf4c8996fb92427ae41e4649b934ca495991b7852b855");
    assert_eq!(f.split, Split::Dev);
    let even = (0u8..=255).map(|i| fingerprint(&[i])).find(|f| f.split == Split::Test).unwrap();
    assert!("02468ace".contains(even.sha256.chars().last().unwrap()));
    assert_eq!(even.split.name(), "test");
}

fn strings(list: &[&str]) -> Vec<String> {
    list.iter().map(|s| s.to_string()).collect()
}

#[test]
fn corpora_are_ordered_by_hash_without_duplicates() {
    let hashes = strings(&["c", "a", "b", "a", "c", "ab"]);
    assert_eq!(arrange(&hashes, None), [1, 5, 2, 0]);
    assert_eq!(arrange(&hashes, Some(2)), [1, 5]);
    assert_eq!(arrange(&hashes, Some(9)), [1, 5, 2, 0]);
    assert_eq!(arrange(&hashes, Some(0)), Vec::<usize>::new());
    assert_eq!(arrange(&vec![], None), Vec::<usize>::new());
}

#[test]
fn a_sample_depends_on_content_only() {
    let pick = |hashes: &Vec<String>| -> Vec<String> {
        arrange(hashes, Some(3)).into_iter().map(|i| hashes[i].clone()).collect()
    };
    let a = strings(&["f0", "17", "9c", "17", "b2", "00"]);
    let b = strings(&["00", "b2", "b2", "9c", "17", "f0", "9c"]);
    assert_eq!(pick(&a), ["00", "17", "9c"]);
    assert_eq!(pick(&a), pick(&b));
}

#[test]
fn sweeps_skip_what_is_done() {
    let axis = QualityAxis { min: 10, max: 20 };
    assert_eq!(pending_levels(axis, 3, &vec![]), [10, 13, 16, 19]);
    assert_eq!(pending_levels(axis, 3, &vec![13, 12, 19]), [10, 16]);
    assert_eq!(pending_levels(axis, 100, &vec![]), [10]);
    assert_eq!(pending_levels(QualityAxis { min: 5, max: 4 }, 1, &vec![]), Vec::<u32>::new());
    let top = QualityAxis { min: u32::MAX - 1, max: u32::MAX };
    assert_eq!(pending_levels(top, u32::MAX, &vec![]), [u32::MAX - 1]);
    assert_eq!(pending_levels(top, 1, &vec![]), [u32::MAX - 1, u32::MAX]);
}

/// Fails above a level; otherwise gives the level as its only sample.
struct LevelCodec(u32);

impl Codec for LevelCodec {
    fn id(&self) -> CodecId {
        CodecId::new("level", "1")
    }
    fn format(&self) -> ImageFormat {
        ImageFormat::WebP
    }
    fn capabilities(&self) -> Capabilities {
        Capabilities { alpha: true }
    }
    fn quality_axis(&self) -> QualityAxis {
        QualityAxis { min: 0, max: 9 }
    }
    fn encode(&self, _image: &Image, settings: &EncodeSettings) -> Result<Encoded, CodecError> {
        if settings.level > self.0 {
            return Err(CodecError::Encode(format!("level {}", settings.level)));
        }
        let bytes = vec![settings.level as u8; 3 + settings.level as usize];
        Ok(Encoded { bytes, parameters: EncoderParameters::new() })
    }
    fn decode(&self, encoded: &[u8]) -> Result<Image, CodecError> {
        Ok(Image::new(Dimensions::new(1, 1), PixelFormat::Rgb8, vec![encoded[0]; 3]).unwrap())
    }
}

struct FirstSample(&'static str);

impl Metric for FirstSample {
    fn id(&self) -> MetricId {
        MetricId::new(self.0, "1")
    }
    fn direction(&self) -> Direction {
        Direction::LowerIsBetter
    }
    fn score(&self, _reference: &Image, candidate: &Image) -> Result<Binary64, MetricError> {
        let v = candidate.data()[0];
        if v == 8 {
            return Err(MetricError::Evaluation("eight".to_string()));
        }
        Ok(Binary64::from_bits(f64::from(v).to_bits()))
    }
}

#[test]
fn sweeps_measure_every_level() {
    let image = Image::new(Dimensions::new(1, 1), PixelFormat::Rgb8, vec![0; 3]).unwrap();
    let metrics = vec![FirstSample("a"), FirstSample("b")];
    let rows = sweep_levels(&LevelCodec(7), &metrics, &image, &vec![2, 7]).unwrap();
    let seen: Vec<(u32, u64, usize)> = rows.iter().map(|r| (r.level, r.bytes, r.metric_times.len())).collect();
    assert_eq!(seen, [(2, 5, 2), (7, 10, 2)]);
    assert_eq!(rows[1].format, ImageFormat::WebP);
    let scores: Vec<(&str, f64)> =
        rows[1].metrics.iter().map(|m| (m.metric.name.as_str(), f64::from_bits(m.score.to_bits()))).collect();
    assert_eq!(scores, [("a", 7.0), ("b", 7.0)]);
    let e = sweep_levels(&LevelCodec(7), &metrics, &image, &vec![2, 9, 7]).unwrap_err();
    assert_eq!(e, "encoding failed: level 9");
    let e = sweep_levels(&LevelCodec(9), &metrics, &image, &vec![8]).unwrap_err();
    assert_eq!(e, "metric evaluation failed: eight");
}

/// Knows two inputs: one that decodes to a transparent image of four by two, and one that cannot
/// be resized.
struct TwoInputs;

impl ImagePipeline for TwoInputs {
    fn decode(&self, input: &[u8]) -> Result<DecodedSource, PipelineError> {
        if input.is_empty() {
            return Err(PipelineError::Unsupported("nothing".to_string()));
        }
        let image = Image::new(Dimensions::new(4, 2), PixelFormat::Rgba8, vec![input[0]; 32]).unwrap();
        Ok(DecodedSource { image, format: None, has_strippable_metadata: false })
    }
    fn resize(&self, image: &Image, dimensions: Dimensions) -> Result<Image, PipelineError> {
        if image.data()[0] == 9 {
            return Err(PipelineError::Processing("stuck".to_string()));
        }
        let data = vec![3; 3 * dimensions.pixels() as usize];
        Ok(Image::new(dimensions, PixelFormat::Rgb8, data).unwrap())
    }
}

fn done(rows: &[(&str, ImageFormat, u32)]) -> Vec<DoneRow> {
    rows.iter().map(|&(image, format, level)| DoneRow { image: image.to_string(), format, level }).collect()
}

/// Measures whatever it is given.
struct Zero;

impl Metric for Zero {
    fn id(&self) -> MetricId {
        MetricId::new("zero", "1")
    }
    fn direction(&self) -> Direction {
        Direction::LowerIsBetter
    }
    fn score(&self, _reference: &Image, _candidate: &Image) -> Result<Binary64, MetricError> {
        Ok(Binary64::from_bits(0))
    }
    fn measure(
        &self,
        reference: &Image,
        candidate: &Image,
    ) -> Result<smartimg::report::MetricResult, MetricError> {
        let score = self.score(reference, candidate)?;
        Ok(smartimg::report::MetricResult { metric: self.id(), direction: self.direction(), score })
    }
}

#[test]
fn images_are_swept_at_the_size_asked_for() {
    let codecs = vec![LevelCodec(9), LevelCodec(9)];
    let policy = DimensionPolicy::MaxDimension { max: 2 };
    let before = done(&[
        ("a", ImageFormat::WebP, 0),
        ("a", ImageFormat::WebP, 8),
        ("a", ImageFormat::Avif, 4),
        ("b", ImageFormat::WebP, 4),
    ]);
    assert_eq!(levels_done(&before, "a", ImageFormat::WebP), [0, 8]);
    let sweep = sweep_image(&TwoInputs, policy, &codecs, &vec![Zero], 4, &before, "a", &[1]).unwrap();
    assert_eq!((sweep.source, sweep.dimensions), (Dimensions::new(4, 2), Dimensions::new(2, 1)));
    // The resized image has no alpha channel.
    assert!(!sweep.has_alpha);
    assert_eq!(sweep.rows.iter().map(|r| r.level).collect::<Vec<_>>(), [4, 4]);
    let keep = DimensionPolicy::Preserve;
    let sweep = sweep_image(&TwoInputs, keep, &codecs, &vec![Zero], 4, &done(&[]), "a", &[1]).unwrap();
    assert!(sweep.has_alpha);
    assert_eq!(sweep.dimensions, Dimensions::new(4, 2));
    assert_eq!(sweep.rows.iter().map(|r| r.level).collect::<Vec<_>>(), [0, 4, 8, 0, 4, 8]);
}

#[test]
fn a_failed_sweep_says_why() {
    let sweep = |codecs: Vec<LevelCodec>, input: &[u8]| {
        let policy = DimensionPolicy::MaxDimension { max: 2 };
        sweep_image(&TwoInputs, policy, &codecs, &vec![Zero], 4, &done(&[]), "a", input).unwrap_err()
    };
    assert_eq!(sweep(vec![], &[]), "unsupported input: nothing");
    assert_eq!(sweep(vec![], &[9]), "processing failed: stuck");
    assert_eq!(sweep(vec![LevelCodec(9), LevelCodec(5)], &[1]), "encoding failed: level 8");
}

#[test]
fn a_run_goes_on_with_the_same_settings_only() {
    let config = |max_dimension, version: &str, settings: &str| RunConfig {
        max_dimension,
        step: 1,
        codecs: vec![CodecSetup {
            format: "webp".to_string(),
            id: CodecId::new("libwebp", version),
            settings: settings.to_string(),
        }],
        metrics: vec![MetricId::new("ssim-y-gauss11", "1")],
    };
    let a = config(1600, "1.3.2", "s");
    assert!(a.continues(&config(1600, "1.3.2", "s")));
    assert!(!a.continues(&config(1601, "1.3.2", "s")));
    assert!(!a.continues(&config(1600, "1.4.0", "s")));
    assert!(!a.continues(&config(1600, "1.3.2", "t")));
    let mut b = config(1600, "1.3.2", "s");
    b.metrics.push(MetricId::new("zero", "1"));
    assert!(!a.continues(&b) && !b.continues(&a));
}
