//! Perceptual metrics.

use butteraugli::{ButteraugliParams, ImgRef, RGB8};
use smartimg::binary64::Binary64;
use smartimg::geometry::Dimensions;
use smartimg::metrics::psychovisual::{backgrounds, worst};
use smartimg::metrics::{Butteraugli, ButteraugliNorm, Metric, MetricError, Ssim, Ssimulacra2};
use smartimg::report::{Direction, MetricId};
use smartimg::types::{Image, PixelFormat};
use ssimulacra2::{compute_frame_ssimulacra2, ColorPrimaries, Rgb, TransferCharacteristic};

fn value(b: Binary64) -> f64 {
    f64::from_bits(b.to_bits())
}

fn double(v: f64) -> Binary64 {
    Binary64::from_bits(v.to_bits())
}

fn gradient(w: u32, h: u32, noise: u8) -> Image {
    let data = (0..w * h)
        .flat_map(|i| {
            let (x, y) = (i % w, i / w);
            let n = if noise > 0 { ((i * 7919) % u32::from(noise)) as u8 } else { 0 };
            let v = ((x * 4 + y * 2) % 200) as u8 + n;
            [v, v / 2, 255 - v]
        })
        .collect();
    Image::new(Dimensions::new(w, h), PixelFormat::Rgb8, data).unwrap()
}

fn image(noise: u32) -> Image {
    let (w, h) = (48u32, 40u32);
    let data = (0..w * h)
        .flat_map(|i| {
            let (x, y) = (i % w, i / w);
            let n = if noise > 0 { (i * 7919) % noise } else { 0 };
            let v = ((x * 5 + y * 3) % 200 + n) as u8;
            [v, 255 - v, v / 2]
        })
        .collect();
    Image::new(Dimensions::new(w, h), PixelFormat::Rgb8, data).unwrap()
}

/// Every score is the same.
struct Constant(f64);

impl Metric for Constant {
    fn id(&self) -> MetricId {
        Ssim.id()
    }
    fn direction(&self) -> Direction {
        Ssim.direction()
    }
    fn score(&self, _reference: &Image, _candidate: &Image) -> Result<Binary64, MetricError> {
        Ok(double(self.0))
    }
}

#[test]
fn measure_rejects_dimension_mismatch() {
    let err = Constant(1.0).measure(&gradient(20, 20, 0), &gradient(20, 21, 0)).unwrap_err();
    assert!(matches!(err, MetricError::DimensionMismatch { .. }));
    assert_eq!(
        err.message(),
        "reference is Dimensions { width: 20, height: 20 } but candidate is Dimensions { width: 20, height: 21 }"
    );
}

#[test]
fn measure_reports_name_direction_and_score() {
    let r = Constant(0.25).measure(&gradient(20, 20, 0), &gradient(20, 20, 3)).unwrap();
    assert_eq!(r.metric, MetricId::new("ssim-y-gauss11", "1"));
    assert_eq!(r.direction, Direction::HigherIsBetter);
    assert_eq!(value(r.score), 0.25);
}

#[test]
fn ssimulacra2_orders_quality() {
    let a = image(0);
    let same = value(Ssimulacra2.score(&a, &a).unwrap());
    let slight = value(Ssimulacra2.score(&a, &image(6)).unwrap());
    let heavy = value(Ssimulacra2.score(&a, &image(50)).unwrap());
    assert!(same > 99.0, "{same}");
    assert!(same > slight && slight > heavy, "{same} {slight} {heavy}");
}

#[test]
fn butteraugli_orders_quality() {
    let a = image(0);
    for norm in [ButteraugliNorm::Max, ButteraugliNorm::PNorm3] {
        let m = Butteraugli { norm };
        let same = value(m.score(&a, &a).unwrap());
        let slight = value(m.score(&a, &image(6)).unwrap());
        let heavy = value(m.score(&a, &image(50)).unwrap());
        assert!(same < 1e-6, "{same}");
        assert!(same < slight && slight < heavy, "{norm:?}: {same} {slight} {heavy}");
    }
}

#[test]
fn ssimulacra2_is_that_of_the_outside_crate() {
    let to_rgb = |image: &Image| {
        let data = image.data().chunks_exact(3).map(|p| [0, 1, 2].map(|i| f32::from(p[i]) / 255.0)).collect();
        Rgb::new(data, 48, 40, TransferCharacteristic::SRGB, ColorPrimaries::BT709).unwrap()
    };
    let (a, b) = (image(0), image(21));
    let expected = compute_frame_ssimulacra2(to_rgb(&a), to_rgb(&b)).unwrap();
    assert_eq!(value(Ssimulacra2.score(&a, &b).unwrap()), expected);
}

#[test]
fn norms_are_those_of_the_outside_crate() {
    let pixels = |image: &Image| -> Vec<RGB8> {
        image.data().chunks_exact(3).map(|p| RGB8::new(p[0], p[1], p[2])).collect()
    };
    let (a, b) = (image(0), image(21));
    let (x, y) = (pixels(&a), pixels(&b));
    let r = butteraugli::butteraugli(ImgRef::new(&x, 48, 40), ImgRef::new(&y, 48, 40), &ButteraugliParams::default())
        .unwrap();
    assert_eq!(value(Butteraugli { norm: ButteraugliNorm::Max }.score(&a, &b).unwrap()), r.score);
    assert_eq!(value(Butteraugli { norm: ButteraugliNorm::PNorm3 }.score(&a, &b).unwrap()), r.pnorm_3);
}

/// An opaque image with an alpha channel, but for every pixel of the lower half.
fn with_alpha(alpha: u8) -> Image {
    let data = (0..16 * 16).flat_map(|i| [120, 80, 40, if i < 128 { 255 } else { alpha }]).collect();
    Image::new(Dimensions::new(16, 16), PixelFormat::Rgba8, data).unwrap()
}

#[test]
fn the_worse_background_counts() {
    let (opaque, half) = (with_alpha(255), with_alpha(0));
    for (a, b) in [(&opaque, &half), (&half, &opaque)] {
        let on = |bg: [u8; 3]| value(Ssimulacra2.score(&a.flatten(bg), &b.flatten(bg)).unwrap());
        let expected = on([0, 0, 0]).min(on([255, 255, 255]));
        assert_eq!(value(Ssimulacra2.score(a, b).unwrap()), expected);
        let m = Butteraugli::default();
        let on = |bg: [u8; 3]| value(m.score(&a.flatten(bg), &b.flatten(bg)).unwrap());
        let expected = on([0, 0, 0]).max(on([255, 255, 255]));
        assert_eq!(value(m.score(a, b).unwrap()), expected);
    }
}

#[test]
fn small_images_are_refused() {
    let (a, b) = (gradient(7, 20, 0), gradient(7, 20, 3));
    let e = Ssimulacra2.score(&a, &b).unwrap_err();
    assert_eq!(e.message(), "metric evaluation failed: Images must be at least 8x8 pixels");
    let e = Butteraugli::default().score(&a, &b).unwrap_err();
    assert_eq!(e.message(), "metric evaluation failed: image too small: 7x20 (minimum 8x8)");
}

#[test]
fn unequal_images_are_refused() {
    let (a, b) = (gradient(10, 20, 0), gradient(20, 9, 3));
    let e = Ssimulacra2.score(&a, &b).unwrap_err();
    assert_eq!(
        e.message(),
        "metric evaluation failed: Source and distorted image width and height must be equal"
    );
    let e = Butteraugli::default().score(&a, &b).unwrap_err();
    assert!(matches!(e, MetricError::DimensionMismatch { .. }));
    // Of a larger candidate as many pixels as the reference has are compared.
    assert!(Butteraugli::default().score(&b, &a).is_ok());
}

#[test]
fn backgrounds_are_black_and_white_for_alpha() {
    let (rgb, rgba) = (gradient(16, 16, 0), with_alpha(9));
    assert_eq!(backgrounds(&rgb, &rgb), [[0, 0, 0]]);
    assert_eq!(backgrounds(&rgba, &rgb), [[0, 0, 0], [255, 255, 255]]);
    assert_eq!(backgrounds(&rgb, &rgba), [[0, 0, 0], [255, 255, 255]]);
}

#[test]
fn the_worst_score_depends_on_the_direction() {
    let scores = vec![double(3.0), double(-1.0), double(f64::NAN), double(2.0)];
    assert_eq!(value(worst(&scores, Direction::HigherIsBetter).unwrap()), -1.0);
    assert_eq!(value(worst(&scores, Direction::LowerIsBetter).unwrap()), 3.0);
    let e = worst(&vec![], Direction::LowerIsBetter).unwrap_err();
    assert_eq!(e.message(), "metric evaluation failed: no composites");
    assert_eq!(value(Ssim.combine(&scores)), -1.0);
    assert_eq!(value(Ssim.combine(&vec![double(f64::NAN)])), f64::INFINITY);
}

#[test]
fn metrics_have_names() {
    let id = |m: MetricId| (m.name, m.version);
    assert_eq!(id(Ssimulacra2.id()), ("ssimulacra2".to_string(), "rust-av-0.5".to_string()));
    assert_eq!(id(Butteraugli::default().id()), ("butteraugli".to_string(), "imazen-0.9".to_string()));
    let norm = ButteraugliNorm::PNorm3;
    assert_eq!(id(Butteraugli { norm }.id()), ("butteraugli-pnorm3".to_string(), "imazen-0.9".to_string()));
    assert_eq!(Butteraugli::default().norm, ButteraugliNorm::default());
    assert_eq!(Ssimulacra2.direction(), Direction::HigherIsBetter);
    assert_eq!(Butteraugli::default().direction(), Direction::LowerIsBetter);
    assert_eq!(
        MetricError::BackendUnavailable("x".to_string()).message(),
        "metric backend unavailable: x"
    );
}
