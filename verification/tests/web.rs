//! Web delivery: names, sizes, plans, markup.

use std::path::Path;

use smartimg::amount::parse_bytes;
use smartimg::budget::BudgetedEncode;
use smartimg::codecs::{Capabilities, Codec, CodecError, EncodeSettings, Encoded, QualityAxis};
use smartimg::geometry::Dimensions;
use smartimg::metrics::Ssimulacra2;
use smartimg::optimize::{
    limit_side, outcome_summary, request_for, resolve_output, selected_format, AskedPath, OutputPath,
};
use smartimg::geometry::DimensionPolicy;
use smartimg::binary64::Binary64;
use smartimg::parameters::EncoderParameters;
use smartimg::pipeline::fit;
use smartimg::pipeline::image_rs::ImageRsPipeline;
use smartimg::report::{CodecId, Evaluation, FormatOutcome, Selection};
use smartimg::types::{Image, ImageFormat, PixelFormat};
use smartimg::web::markup::{file_report, find_fallback, snippets, FileReport, ImageReport};
use smartimg::web::names::{is_output, output_name, slug, unique_names, variant_name, Input};
use smartimg::web::plan::{budget_for, extra_widths, parse_jobs, scaled, share_cores, start_level};
use smartimg::web::process::{process, Encoder, Outcome, Script, Settings, Step};
use smartimg::web::render::{cap_warnings, encode_image, score_output};
use smartimg::web::summary::{failure_line, input_line, kb, totals_line, ScoreText};
use smartimg::web::totals::{input_total, totals, Totals};

fn is_image(path: &Path, suffix: &str) -> bool {
    let stem = path.file_stem().unwrap_or_default().to_string_lossy();
    smartimg::web::names::is_image(path.extension().and_then(|e| e.to_str()), &stem, suffix)
}

#[test]
fn parses_sizes() {
    assert_eq!(parse_bytes("1MB").unwrap(), 1_000_000);
    assert_eq!(parse_bytes("500kb").unwrap(), 500_000);
    assert_eq!(parse_bytes("1.5M").unwrap(), 1_500_000);
    assert_eq!(parse_bytes("0").unwrap(), 0);
    assert!(parse_bytes("12 parsecs").is_err());
}

#[test]
fn slugs_are_url_friendly() {
    assert_eq!(slug("AERIAL VIEW"), "aerial-view");
    assert_eq!(slug("1_11 - Photo"), "1-11-photo");
    assert_eq!(slug("OVERALL Landscape X bridge"), "overall-landscape-x-bridge");
    assert_eq!(slug("   "), "image");
}

#[test]
fn skips_previous_outputs() {
    assert!(is_image(Path::new("a/hero.jpg"), "_web"));
    assert!(!is_image(Path::new("a/hero_web.avif"), "_web"));
    assert!(!is_image(Path::new("a/hero_web-640.webp"), "_web"));
    assert!(!is_image(Path::new("a/hero_compressed.jpg"), "_web"));
    assert!(!is_image(Path::new("a/Thumbs.db"), "_web"));
}

#[test]
fn empty_suffix_keeps_inputs() {
    assert!(is_image(Path::new("a/hero.jpg"), ""));
    assert!(is_image(Path::new("a/hero-640.png"), ""));
    assert!(!is_image(Path::new("a/hero_compressed.jpg"), ""));
}

#[test]
fn clamps_quality_to_codec_axis() {
    let axis = QualityAxis { min: 20, max: 95 };
    assert_eq!(start_level("avif", 60, axis), (60, None));
    assert_eq!(start_level("avif", 20, axis), (20, None));
    let (level, note) = start_level("avif", 10, axis);
    assert_eq!(level, 20);
    assert!(note.unwrap().contains("avif quality 10 is outside the supported range 20-95; using 20"));
    assert_eq!(start_level("webp", 100, QualityAxis { min: 10, max: 95 }).0, 95);
}

#[test]
fn rejects_zero_jobs() {
    assert!(parse_jobs("0").is_err());
    assert!(parse_jobs("x").is_err());
    assert_eq!(parse_jobs("4").unwrap(), 4);
}

#[test]
fn scales_preserving_aspect() {
    assert_eq!(scaled(Dimensions::new(3840, 2160), 1280), Dimensions::new(1280, 720));
}

/// The same in floating point.
fn bytes(s: &str) -> Result<u64, String> {
    let t = s.trim().to_ascii_uppercase();
    let (number, unit) = match t.find(|c: char| c.is_ascii_alphabetic()) {
        Some(i) => t.split_at(i),
        None => (t.as_str(), ""),
    };
    let value: f64 = number.trim().parse().map_err(|_| format!("invalid size `{s}`"))?;
    let multiplier = match unit.trim() {
        "" | "B" => 1.0,
        "KB" | "K" => 1_000.0,
        "MB" | "M" => 1_000_000.0,
        "KIB" => 1_024.0,
        "MIB" => 1_048_576.0,
        other => return Err(format!("unknown unit `{other}`")),
    };
    Ok((value * multiplier).round() as u64)
}

#[test]
fn sizes_round_as_doubles_do() {
    let long = format!("0.{}5", "0".repeat(400));
    let huge = format!("1{}", "0".repeat(400));
    let third = format!("0.{}", "3".repeat(60));
    let numbers = [
        "0", "1", "00", "007", "2.5", ".5", "5.", ".", "", "+", "-", "+3", "-3", "-0", "1.2.3", "0.1", "0.0005",
        "0.00049999999999999999", "4503599627370496.5", "4503599627370497.5", "9007199254740993",
        "9007199254740992.999", "18446744073709551615", "18446744073709551616", "123456789012345678901234567890",
        "0.49999999999999994", "1 2", "1_000", "٣", "999.9995", "1.0000000000000002220446", long.as_str(),
        huge.as_str(), third.as_str(),
    ];
    let units = ["", "b", "B", "kb", "K", " KB ", "m", "MB", "kib", "MiB", "GB", "é", "k é", " "];
    for n in numbers {
        for u in units {
            let s = format!(" {n}{u}\u{3000}");
            assert_eq!(parse_bytes(&s), bytes(&s), "{s:?}");
        }
    }
    assert_eq!(parse_bytes("1e3"), Err("unknown unit `E3`".to_string()));
    assert_eq!(parse_bytes("nan"), Err("invalid size `nan`".to_string()));
}

#[test]
fn jobs_are_whole_numbers() {
    assert_eq!(parse_jobs(" +8\n"), Ok(8));
    assert_eq!(parse_jobs("0"), Err("must be at least 1".to_string()));
    for s in ["", " ", "+", "-1", "1.0", "1 2", "99999999999999999999999"] {
        assert_eq!(parse_jobs(s), Err(format!("invalid number `{s}`")));
    }
    assert_eq!(parse_jobs("18446744073709551615"), Ok(usize::MAX));
}

#[test]
fn cores_are_shared_out() {
    assert_eq!(share_cores(None, 8, 100), (4, 2));
    assert_eq!(share_cores(None, 8, 2), (2, 4));
    assert_eq!(share_cores(Some(16), 8, 100), (16, 1));
    assert_eq!(share_cores(None, 1, 1), (1, 1));
    assert_eq!(share_cores(Some(3), 8, 0), (1, 8));
}

#[test]
fn heights_round_as_doubles_do() {
    let sides = [0u32, 1, 2, 3, 7, 100, 1_999, 65_537, 4_294_967_295];
    for w in sides {
        for h in sides {
            for width in sides {
                let height = (f64::from(h) * f64::from(width) / f64::from(w)).round() as u32;
                let expected = Dimensions::new(width, height.max(1));
                assert_eq!(scaled(Dimensions::new(w, h), width), expected, "{w}x{h} {width}");
            }
        }
    }
}

#[test]
fn widths_are_sorted_and_smaller_than_the_main_one() {
    assert_eq!(extra_widths(&vec![1920, 640, 1280, 640, 2560], 1920), [640, 1280]);
    assert_eq!(extra_widths(&vec![], 1920), Vec::<u32>::new());
    assert_eq!(extra_widths(&vec![5, 4, 3], 1), Vec::<u32>::new());
}

#[test]
fn a_cap_of_zero_is_none() {
    assert_eq!(budget_for(70, 0).max_bytes, None);
    let b = budget_for(70, 5);
    assert_eq!((b.level, b.min_level, b.level_step, b.max_bytes, b.max_downscales), (70, 40, 5, Some(5), 4));
}

#[test]
fn slugs_keep_letters_and_digits() {
    assert_eq!(slug("--Hero__2024--"), "hero-2024");
    assert_eq!(slug("Žluťoučký"), "lu-ou-k");
    assert_eq!(slug(""), "image");
    assert_eq!(slug("a"), "a");
}

fn inputs(list: &[(u64, &str)]) -> Vec<Input> {
    list.iter().map(|&(folder, stem)| Input { folder, stem: stem.to_string() }).collect()
}

#[test]
fn names_are_unique_per_folder() {
    let files = inputs(&[(0, "A B"), (0, "a_b"), (1, "a-b"), (0, "a b"), (0, "a-b-2"), (0, "a-b-3")]);
    assert_eq!(unique_names(&files, false), ["a-b", "a-b-2", "a-b", "a-b-3", "a-b-2-2", "a-b-3-2"]);
    assert_eq!(unique_names(&files, true), ["A B", "a_b", "a-b", "a b", "a-b-2", "a-b-3"]);
    let same = inputs(&[(7, "x"), (7, "x"), (7, "x")]);
    assert_eq!(unique_names(&same, true), ["x", "x-2", "x-3"]);
    assert_eq!(output_name("hero", "_web", ImageFormat::Avif), "hero_web.avif");
    assert_eq!(variant_name("hero", "_web", 640, ImageFormat::WebP), "hero_web-640.webp");
}

#[test]
fn extensions_may_be_in_any_case() {
    for name in ["a.JPG", "a.Jpeg", "a.png", "a.WEBP", "a.tif", "a.TIFF"] {
        assert!(is_image(Path::new(name), "_web"), "{name}");
    }
    for name in ["a", "a.avif", "a.gif", ".jpg", "a.jpg.bak"] {
        assert!(!is_image(Path::new(name), "_web"), "{name}");
    }
    assert!(!is_image(Path::new("photo.optimized.png"), "_web"));
    assert!(is_image(Path::new("photo_web2.png"), "_web"));
}

fn budgeted(level: u32, bytes: usize, d: Dimensions, within_budget: bool) -> BudgetedEncode {
    let encoded = Encoded { bytes: vec![0; bytes], parameters: EncoderParameters::new() };
    BudgetedEncode { encoded, level, dimensions: d, attempts: 1, within_budget }
}

#[test]
fn degraded_results_are_warned_of() {
    let d = Dimensions::new(800, 600);
    assert_eq!(cap_warnings("avif", 60, d, &budgeted(60, 10, d, true)), Vec::<String>::new());
    assert_eq!(
        cap_warnings("avif", 60, d, &budgeted(45, 10, d, true)),
        ["avif quality lowered 60 -> 45 to fit the cap"]
    );
    assert_eq!(
        cap_warnings("webp", 60, d, &budgeted(40, 12, Dimensions::new(680, 510), false)),
        ["webp is still over the size cap (12 bytes)", "webp downscaled to 680x510 to fit the cap"]
    );
}

fn file(name: &str, format: ImageFormat, width: u32, bytes: u64, within_budget: bool) -> FileReport {
    FileReport { name: name.to_string(), format, width, height: width / 2, bytes, quality: 60, within_budget }
}

fn report(stem: &str, outputs: Vec<FileReport>, variants: Vec<FileReport>, failed: bool) -> ImageReport {
    ImageReport {
        input_name: format!("{stem}.jpg"),
        input_stem: stem.to_string(),
        input_bytes: 1_000,
        outputs,
        variants,
        failed,
    }
}

#[test]
fn pictures_list_every_output() {
    let reports = vec![
        report(
            "My \"best\" shot",
            vec![file("s.avif", ImageFormat::Avif, 1600, 9, true), file("s.webp", ImageFormat::WebP, 1600, 9, true)],
            vec![
                file("s-640.avif", ImageFormat::Avif, 640, 9, true),
                file("s-1280.avif", ImageFormat::Avif, 1280, 9, true),
            ],
            false,
        ),
        report("failed", vec![file("f.webp", ImageFormat::WebP, 5, 5, true)], vec![], true),
        report("empty", vec![], vec![], false),
        report("only", vec![file("o.avif", ImageFormat::Avif, 8, 9, true)], vec![], false),
    ];
    let expected = "<!-- Generated by smartimg web. Adjust paths, `alt` text, and `sizes` to your layout. -->

<!-- My \"best\" shot.jpg -->
<picture>
  <source type=\"image/avif\" srcset=\"s-640.avif 640w, s-1280.avif 1280w, s.avif 1600w\" sizes=\"100vw\">
  <source type=\"image/webp\" srcset=\"s.webp 1600w\">
  <img src=\"s.webp\" width=\"1600\" height=\"800\" alt=\"My best shot\" loading=\"lazy\" decoding=\"async\">
</picture>

<!-- only.jpg -->
<picture>
  <source type=\"image/avif\" srcset=\"o.avif 8w\">
  <img src=\"o.avif\" width=\"8\" height=\"4\" alt=\"only\" loading=\"lazy\" decoding=\"async\">
</picture>
";
    assert_eq!(snippets(&reports), expected);
    assert_eq!(find_fallback(&reports[0].outputs), Some(1));
    assert_eq!(find_fallback(&reports[2].outputs), None);
    assert_eq!(find_fallback(&reports[3].outputs), Some(0));
}

#[test]
fn totals_leave_failed_inputs_out() {
    let reports = vec![
        report(
            "a",
            vec![file("a.avif", ImageFormat::Avif, 9, 70, true), file("a.webp", ImageFormat::WebP, 9, 90, false)],
            vec![file("v.avif", ImageFormat::Avif, 4, 1_000, false)],
            false,
        ),
        report("b", vec![file("b.avif", ImageFormat::Avif, 9, 30, false)], vec![], false),
        report("c", vec![file("c.avif", ImageFormat::Avif, 9, 500, true)], vec![], true),
    ];
    let t = totals(&reports, ImageFormat::Avif);
    assert_eq!(t, Totals { files: 2, bytes: 100, largest: 70, over_cap: 1 });
    assert_eq!(totals(&reports, ImageFormat::WebP), Totals { files: 1, bytes: 90, largest: 90, over_cap: 1 });
    assert_eq!(totals(&reports, ImageFormat::Png), Totals { files: 0, bytes: 0, largest: 0, over_cap: 0 });
    assert_eq!(input_total(&reports), 2_000);
    let r = file_report("n".to_string(), ImageFormat::Png, &budgeted(33, 12, Dimensions::new(4, 5), false));
    assert_eq!((r.name.as_str(), r.format, r.width, r.height), ("n", ImageFormat::Png, 4, 5));
    assert_eq!((r.bytes, r.quality, r.within_budget), (12, 33, false));
}

/// Bytes are the samples, and one more for each level.
struct RawCodec;

impl Codec for RawCodec {
    fn id(&self) -> CodecId {
        CodecId::new("raw", "1")
    }
    fn format(&self) -> ImageFormat {
        ImageFormat::Png
    }
    fn capabilities(&self) -> Capabilities {
        Capabilities { alpha: false }
    }
    fn quality_axis(&self) -> QualityAxis {
        QualityAxis { min: 0, max: 100 }
    }
    fn encode(&self, image: &Image, settings: &EncodeSettings) -> Result<Encoded, CodecError> {
        let d = image.dimensions();
        let mut bytes = vec![d.width as u8, d.height as u8];
        bytes.extend(image.data());
        bytes.extend(vec![0; settings.level as usize]);
        Ok(Encoded { bytes, parameters: EncoderParameters::new() })
    }
    fn decode(&self, encoded: &[u8]) -> Result<Image, CodecError> {
        if encoded.len() < 2 {
            return Err(CodecError::Decode("short".to_string()));
        }
        let d = Dimensions::new(encoded[0].into(), encoded[1].into());
        let data = encoded[2..2 + 3 * d.pixels() as usize].to_vec();
        Image::new(d, PixelFormat::Rgb8, data).map_err(|e| CodecError::Decode(e.message()))
    }
}

fn photo() -> Image {
    let data = (0..40 * 20 * 3).map(|i| (i * 7 % 251) as u8).collect();
    Image::new(Dimensions::new(40, 20), PixelFormat::Rgb8, data).unwrap()
}

#[test]
fn images_are_encoded_and_scored_at_the_size_written() {
    let pipeline = ImageRsPipeline::default();
    let source = photo();
    assert_eq!(fit(&pipeline, &source, Dimensions::new(40, 20)).unwrap(), source);
    let main = fit(&pipeline, &source, Dimensions::new(20, 10)).unwrap();
    assert_eq!(main.dimensions(), Dimensions::new(20, 10));
    let free = encode_image(&pipeline, &RawCodec, &main, 60, 0).unwrap();
    assert_eq!((free.level, free.encoded.bytes.len()), (60, 2 + 600 + 60));
    let score = score_output(&pipeline, &RawCodec, &Ssimulacra2, &source, &main, main.dimensions(), &free).unwrap();
    assert_eq!(f64::from_bits(score.to_bits()), 100.0);
    // 17x9 has 459 samples; 2 + 459 + 40 is 501.
    let capped = encode_image(&pipeline, &RawCodec, &main, 60, 510).unwrap();
    assert_eq!((capped.level, capped.dimensions), (45, Dimensions::new(17, 9)));
    let score = score_output(&pipeline, &RawCodec, &Ssimulacra2, &source, &main, main.dimensions(), &capped).unwrap();
    assert!(f64::from_bits(score.to_bits()) < 100.0);
    let broken = budgeted(1, 0, Dimensions::new(20, 10), true);
    let e = score_output(&pipeline, &RawCodec, &Ssimulacra2, &source, &main, main.dimensions(), &broken).unwrap_err();
    assert_eq!(e, "decoding failed: short");
}

#[test]
fn outputs_go_next_to_the_input_or_where_asked() {
    let place = |extension| resolve_output("photo", Some(AskedPath { extension }), ImageFormat::Jpeg);
    assert_eq!(
        resolve_output("photo", None, ImageFormat::WebP),
        OutputPath::Sibling("photo.optimized.webp".to_string())
    );
    assert_eq!(place(Some("JPG")), OutputPath::AsAsked);
    assert_eq!(place(Some("jpeg")), OutputPath::WithExtension);
    assert_eq!(place(None), OutputPath::WithExtension);
}

#[test]
fn requests_follow_the_command_line() {
    let target = Binary64::from_bits(0.99f64.to_bits());
    let r = request_for(vec![ImageFormat::Avif], "m".to_string(), target, 2400, 7, true);
    assert_eq!(r.dimensions, DimensionPolicy::MaxDimension { max: 2400 });
    assert_eq!((r.budget.max_evaluations_per_format, r.budget.sweep_radius, r.trace), (7, 2, true));
    assert_eq!((r.quality.len(), r.quality[0].metric.as_str(), r.quality[0].threshold), (1, "m", target));
    assert_eq!(limit_side(0), DimensionPolicy::Preserve);
    assert_eq!(r.clone(), r);
}

#[test]
fn outcomes_are_summed_up() {
    let best = || Evaluation {
        format: ImageFormat::Avif,
        level: 42,
        bytes: 1234,
        metrics: vec![],
        accepted: true,
        encoder_parameters: EncoderParameters::new(),
    };
    assert_eq!(outcome_summary(&FormatOutcome::Found { best: best() }), "1234 bytes at level 42");
    assert_eq!(outcome_summary(&FormatOutcome::NoAcceptableCandidate), "no level met the target");
    assert_eq!(outcome_summary(&FormatOutcome::Skipped { reason: "r".to_string() }), "skipped: r");
    assert_eq!(outcome_summary(&FormatOutcome::Failed { error: "e".to_string() }), "failed: e");
    assert_eq!(selected_format(&Selection::Encoded { best: best() }), ImageFormat::Avif);
    assert_eq!(selected_format(&Selection::KeptOriginal { format: ImageFormat::Png }), ImageFormat::Png);
}

fn png(image: &Image) -> Vec<u8> {
    let d = image.dimensions();
    let rgb = image::RgbImage::from_raw(d.width, d.height, image.data().to_vec()).unwrap();
    let mut out = std::io::Cursor::new(Vec::new());
    rgb.write_to(&mut out, image::ImageFormat::Png).unwrap();
    out.into_inner()
}

fn settings(max_bytes: u64, sizes: &[u32], score: bool) -> Settings {
    Settings { max_width: 20, max_height: 20, max_bytes, sizes: sizes.to_vec(), suffix: "_web".to_string(), score }
}

fn shown(script: &Script) -> Vec<String> {
    script
        .steps
        .iter()
        .map(|step| match step {
            Step::Note(words) => format!("note {words}"),
            Step::Write { name, bytes, guarded } => format!("write {name} {} {guarded}", bytes.len()),
            Step::Score(format, score) => format!("score {format:?} {}", f64::from_bits(score.to_bits())),
            Step::Output(f) => format!("output {} {}x{} {} {}", f.name, f.width, f.height, f.bytes, f.quality),
            Step::Variant(f) => format!("variant {} {}x{} {} {}", f.name, f.width, f.height, f.bytes, f.quality),
        })
        .collect()
}

#[test]
fn an_input_becomes_outputs_and_variants() {
    let pipeline = ImageRsPipeline::default();
    let encoders = vec![Encoder { codec: RawCodec, quality: 60 }, Encoder { codec: RawCodec, quality: 120 }];
    let input = png(&photo());
    let script =
        process(&pipeline, &encoders, &Ssimulacra2, &input, &settings(0, &[16, 40, 8, 16], true), "shot");
    assert_eq!(script.source, Dimensions::new(40, 20));
    assert_eq!(script.error, None);
    assert_eq!(
        shown(&script),
        [
            "write shot_web.png 662 true",
            "score Png 100",
            "output shot_web.png 20x10 662 60",
            "write shot_web-8.png 158 false",
            "variant shot_web-8.png 8x4 158 60",
            "write shot_web-16.png 446 false",
            "variant shot_web-16.png 16x8 446 60",
            "note png quality 120 is outside the supported range 0-100; using 100",
            "write shot_web.png 702 true",
            "score Png 100",
            "output shot_web.png 20x10 702 100",
            "write shot_web-8.png 198 false",
            "variant shot_web-8.png 8x4 198 100",
            "write shot_web-16.png 486 false",
            "variant shot_web-16.png 16x8 486 100",
        ]
    );
    let mut outcome = Outcome::new();
    for step in script.steps {
        outcome.record(step);
    }
    assert_eq!((outcome.outputs.len(), outcome.variants.len(), outcome.scores.len()), (2, 4, 2));
    assert_eq!(outcome.warnings.len(), 1);
    assert!(outcome.outputs.iter().all(|f| f.within_budget));
}

#[test]
fn what_the_cap_costs_is_told() {
    let pipeline = ImageRsPipeline::default();
    let encoders = vec![Encoder { codec: RawCodec, quality: 60 }];
    let input = png(&photo());
    let script = process(&pipeline, &encoders, &Ssimulacra2, &input, &settings(510, &[], false), "shot");
    assert_eq!(
        shown(&script),
        [
            "write shot_web.png 506 true",
            "note png quality lowered 60 -> 45 to fit the cap",
            "note png downscaled to 17x9 to fit the cap",
            "output shot_web.png 17x9 506 45",
        ]
    );
    let script = process(&pipeline, &encoders, &Ssimulacra2, &input, &settings(5, &[], false), "shot");
    assert_eq!(
        shown(&script),
        [
            "write shot_web.png 192 true",
            "note png is still over the size cap (192 bytes)",
            "note png downscaled to 10x5 to fit the cap",
            "output shot_web.png 10x5 192 40",
        ]
    );
    assert!(matches!(&script.steps[3], Step::Output(f) if !f.within_budget));
}

#[test]
fn failures_end_the_steps() {
    let pipeline = ImageRsPipeline::default();
    let encoders = vec![Encoder { codec: RawCodec, quality: 60 }];
    let script = process(&pipeline, &encoders, &Ssimulacra2, b"text", &settings(0, &[], true), "shot");
    assert_eq!(script.source, Dimensions::new(0, 0));
    assert_eq!(script.error.as_deref(), Some("unsupported input: input format None"));
    // Too small to be scored: the file is written, but not listed.
    let tiny = Image::new(Dimensions::new(4, 4), PixelFormat::Rgb8, vec![9; 48]).unwrap();
    let script = process(&pipeline, &encoders, &Ssimulacra2, &png(&tiny), &settings(0, &[2], true), "t");
    assert_eq!(shown(&script), ["write t_web.png 110 true"]);
    assert_eq!(
        script.error.as_deref(),
        Some("metric evaluation failed: Images must be at least 8x8 pixels")
    );
}

#[test]
fn sizes_are_shown_in_thousands() {
    let mut sizes = vec![0, 1, 499, 500, 501, 999, 1_499, 1_500, 2_500, 3_500, 2_501, 4_503_599_627_370_500];
    sizes.extend([u64::MAX, u64::MAX - 500, 1 << 53, (1 << 53) + 1, 9_007_199_254_740_993_500, 12_345_678_901_234_500]);
    sizes.extend((0..200).map(|i| 250 * i));
    sizes.extend((0..64).map(|i| (1u64 << i) + 500));
    for bytes in sizes {
        assert_eq!(kb(bytes), format!("{:.0} KB", bytes as f64 / 1000.0), "{bytes}");
    }
}

#[test]
fn lines_sum_up_inputs_and_outputs() {
    let outputs = vec![
        file("a.avif", ImageFormat::Avif, 1600, 700_400, true),
        file("a.webp", ImageFormat::WebP, 1600, 1_000_000, true),
    ];
    let score = |format, score: &str| ScoreText { format, score: score.to_string() };
    let scores =
        vec![score(ImageFormat::WebP, "81"), score(ImageFormat::WebP, "70"), score(ImageFormat::Png, "1")];
    assert_eq!(
        input_line("a.jpg", 5_000_000, &outputs, &scores),
        "  a.jpg: 5000 KB -> 1600x800: avif 700 KB | webp 1000 KB, S2 81"
    );
    assert_eq!(input_line("b.jpg", 0, &vec![], &scores), "  b.jpg: 0 KB -> : ");
    assert_eq!(failure_line("b.jpg", "no"), "  FAILED b.jpg: no");
    let t = Totals { files: 2, bytes: 1_234_567, largest: 999_999, over_cap: 1 };
    assert_eq!(
        totals_line(ImageFormat::Avif, &t, 7_000_000),
        "avif: 2 files, total 1235 KB (was 7000 KB), largest 1000 KB, over cap: 1"
    );
}

#[test]
fn outputs_are_known_by_their_stems() {
    for stem in ["hero_web", "hero_web-640", "hero_compressed", "photo.optimized", "a_compressed_b"] {
        assert!(is_output(stem, "_web"), "{stem}");
    }
    for stem in ["hero", "hero_web2", "web", ""] {
        assert!(!is_output(stem, "_web"), "{stem}");
    }
    assert!(!is_output("hero-640", ""));
    assert!(is_output("hero_compressed", ""));
}
