//! Images, dimensions and requests.

use smartimg::binary64::Binary64;
use smartimg::geometry::{DimensionPolicy, Dimensions};
use smartimg::report::{ComponentId, Direction};
use smartimg::request::{AlphaPolicy, MetadataPolicy, SearchBudget};
use smartimg::types::{Image, ImageError, ImageFormat, PixelFormat};

fn double(v: f64) -> Binary64 {
    Binary64::from_bits(v.to_bits())
}

#[test]
fn image_rejects_wrong_buffer_size() {
    let err = Image::new(Dimensions::new(2, 2), PixelFormat::Rgb8, vec![0; 11]).unwrap_err();
    assert_eq!(err, ImageError::BufferSize { expected: 12, actual: 11 });
    assert_eq!(
        Image::new(Dimensions::new(0, 2), PixelFormat::Rgb8, vec![]).unwrap_err(),
        ImageError::ZeroDimensions
    );
}

#[test]
fn flatten_blends_alpha() {
    let img = Image::new(Dimensions::new(2, 1), PixelFormat::Rgba8, vec![255, 0, 0, 255, 0, 0, 0, 0]).unwrap();
    let flat = img.flatten([255, 255, 255]);
    assert_eq!(flat.format(), PixelFormat::Rgb8);
    assert_eq!(flat.data(), &[255, 0, 0, 255, 255, 255]);
}

#[test]
fn dimension_policy_never_upscales() {
    let src = Dimensions::new(4000, 3000);
    assert_eq!(DimensionPolicy::Preserve.target(src), src);
    assert_eq!(DimensionPolicy::MaxDimension { max: 2000 }.target(src), Dimensions::new(2000, 1500));
    assert_eq!(DimensionPolicy::MaxDimension { max: 8000 }.target(src), src);
    assert_eq!(DimensionPolicy::MaxBox { width: 1000, height: 1000 }.target(src), Dimensions::new(1000, 750));
    assert_eq!(DimensionPolicy::MaxMegapixels { megapixels: double(3.0) }.target(src), Dimensions::new(2000, 1500));
}

/// The same in floating point.
fn target(policy: (u32, u32, u32, f64), source: Dimensions) -> Dimensions {
    let (w, h) = (f64::from(source.width), f64::from(source.height));
    let scale = match policy {
        (0, max, _, _) => f64::from(max) / w.max(h),
        (1, a, b, _) => (f64::from(a) / w).min(f64::from(b) / h),
        (_, _, _, m) => (m * 1_000_000.0 / (w * h)).sqrt(),
    };
    if !(scale < 1.0) {
        return source;
    }
    let scaled = |v: f64| ((v * scale).round() as u32).max(1);
    Dimensions::new(scaled(w), scaled(h))
}

#[test]
fn targets_round_as_doubles_do() {
    let sides = [1u32, 2, 3, 7, 99, 100, 640, 1_023, 4_001, 65_535, 1_000_003, u32::MAX];
    for &w in &sides {
        for &h in &sides {
            let d = Dimensions::new(w, h);
            for &max in &sides {
                assert_eq!(DimensionPolicy::MaxDimension { max }.target(d), target((0, max, 0, 0.0), d), "{w}x{h} {max}");
                let policy = DimensionPolicy::MaxBox { width: max, height: 777 };
                assert_eq!(policy.target(d), target((1, max, 777, 0.0), d), "{w}x{h} {max}");
            }
            for m in [0.0, 1e-9, 0.013, 0.5, 2.0, 12.3, 1e9, 1e300, 5e-324, -1.0, f64::NAN, f64::INFINITY] {
                let policy = DimensionPolicy::MaxMegapixels { megapixels: double(m) };
                assert_eq!(policy.target(d), target((2, 0, 0, m), d), "{w}x{h} {m}");
            }
        }
    }
}

#[test]
fn image_errors_say_what_is_wrong() {
    assert_eq!(ImageError::ZeroDimensions.message(), "image dimensions must be non-zero");
    assert_eq!(
        ImageError::BufferSize { expected: 12, actual: 11 }.message(),
        "pixel buffer is 11 bytes, expected 12"
    );
}

#[test]
fn transparency_needs_a_pixel_that_is_not_opaque() {
    let opaque = Image::new(Dimensions::new(2, 1), PixelFormat::Rgba8, vec![1, 2, 3, 255, 4, 5, 6, 255]).unwrap();
    assert!(!opaque.has_transparency());
    let clear = Image::new(Dimensions::new(2, 1), PixelFormat::Rgba8, vec![1, 2, 3, 255, 4, 5, 6, 254]).unwrap();
    assert!(clear.has_transparency());
    let rgb = Image::new(Dimensions::new(1, 1), PixelFormat::Rgb8, vec![1, 2, 3]).unwrap();
    assert!(!rgb.has_transparency());
    assert_eq!((clear.stride(), rgb.stride()), (8, 3));
    // 254/255 of 5, 6 and 7 on black is not visible; half of it on white is.
    assert_eq!(clear.flatten([0, 0, 0]).data(), &[1, 2, 3, 4, 5, 6]);
    let half = Image::new(Dimensions::new(1, 1), PixelFormat::Rgba8, vec![0, 100, 255, 128]).unwrap();
    assert_eq!(half.flatten([255, 255, 255]).data(), &[127, 177, 255]);
    assert_eq!(half.flatten([0, 0, 0]).data(), &[0, 50, 128]);
}

#[test]
fn profiles_travel_with_the_pixels() {
    let img = Image::new(Dimensions::new(1, 1), PixelFormat::Rgba8, vec![9, 9, 9, 0]).unwrap();
    assert_eq!(img.icc_profile(), None);
    let img = img.with_icc_profile(Some(vec![1, 2, 3]));
    assert_eq!(img.icc_profile(), Some(&[1u8, 2, 3][..]));
    assert_eq!(img.flatten([0, 0, 0]).icc_profile(), Some(&[1u8, 2, 3][..]));
    assert_eq!(img.clone(), img);
    assert_eq!(img.with_icc_profile(None).icc_profile(), None);
}

#[test]
fn formats_have_names_and_types() {
    let all = [ImageFormat::Jpeg, ImageFormat::WebP, ImageFormat::Avif, ImageFormat::Png];
    let ext: Vec<&str> = all.iter().map(|f| f.extension()).collect();
    assert_eq!(ext, ["jpg", "webp", "avif", "png"]);
    let mime: Vec<&str> = all.iter().map(|f| f.mime_type()).collect();
    assert_eq!(mime, ["image/jpeg", "image/webp", "image/avif", "image/png"]);
    assert_eq!((PixelFormat::Rgb8.channels(), PixelFormat::Rgba8.channels()), (3, 4));
    assert!(PixelFormat::Rgba8.has_alpha() && !PixelFormat::Rgb8.has_alpha());
    assert_eq!(Dimensions::new(u32::MAX, u32::MAX).pixels(), 18_446_744_065_119_617_025);
}

#[test]
fn directions_compare_as_doubles_do() {
    let values = [0.0, -0.0, 1.0, -1.0, 0.99, f64::INFINITY, f64::NEG_INFINITY, f64::NAN, 5e-324, -5e-324];
    for a in values {
        for b in values {
            assert_eq!(Direction::HigherIsBetter.meets(double(a), double(b)), a >= b, "{a} {b}");
            assert_eq!(Direction::LowerIsBetter.meets(double(a), double(b)), a <= b, "{a} {b}");
        }
    }
}

#[test]
fn requests_have_defaults() {
    assert_eq!(SearchBudget::default(), SearchBudget { max_evaluations_per_format: 16, sweep_radius: 2 });
    assert_eq!(AlphaPolicy::default(), AlphaPolicy::Preserve);
    assert_eq!(MetadataPolicy::default(), MetadataPolicy::KeepIccOnly);
    assert_eq!(DimensionPolicy::default(), DimensionPolicy::Preserve);
    let id = ComponentId::new("name", "1.2");
    assert_eq!((id.name.as_str(), id.version.as_str()), ("name", "1.2"));
}

#[test]
fn a_box_is_touched_unless_the_source_fits() {
    let fit = |w, h, sw, sh| {
        let r = DimensionPolicy::MaxBox { width: w, height: h }.target(Dimensions::new(sw, sh));
        (r.width, r.height)
    };
    assert_eq!(fit(2560, 2560, 2560, 1440), (2560, 1440));
    assert_eq!(fit(2560, 1440, 2561, 1440).0, 2560);
    assert_eq!(fit(100, 100, 400, 300), (100, 75));
    assert_eq!(fit(100, 60, 400, 300), (80, 60));
    assert_eq!(fit(7, 5, 1_000_003, 999_983).1, 5);
    assert_eq!(fit(u32::MAX - 1, u32::MAX, u32::MAX, u32::MAX).0, u32::MAX - 1);
    assert_eq!(fit(u32::MAX, 1, 1, u32::MAX), (1, 1));
}

#[test]
fn a_longest_side_is_a_square_box() {
    for (w, h) in [(4000, 3000), (3000, 4000), (640, 640), (1, 9999), (u32::MAX, u32::MAX - 1), (0, 5)] {
        for max in [0, 1, 3, 20, 639, 640, 3333, u32::MAX] {
            let source = Dimensions::new(w, h);
            let longest = DimensionPolicy::MaxDimension { max }.target(source);
            assert_eq!(longest, DimensionPolicy::MaxBox { width: max, height: max }.target(source));
            if max > 0 && max < w.max(h) {
                assert_eq!(longest.width.max(longest.height), max);
            }
        }
    }
}
