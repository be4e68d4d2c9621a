//! The pipeline backed by the `image` crate.

use std::io::Cursor;

use image::DynamicImage;
use smartimg::geometry::Dimensions;
use smartimg::pipeline::image_rs::{rgb_profile, ImageRsPipeline};
use smartimg::pipeline::orientation::turn;
use smartimg::pipeline::{ImagePipeline, PipelineError};
use smartimg::types::{Image, ImageFormat, PixelFormat};

fn encode(img: &DynamicImage, format: image::ImageFormat) -> Vec<u8> {
    let mut out = Cursor::new(Vec::new());
    img.write_to(&mut out, format).unwrap();
    out.into_inner()
}

fn encode_png(img: DynamicImage) -> Vec<u8> {
    encode(&img, image::ImageFormat::Png)
}

#[test]
fn decodes_png_with_alpha() {
    let png = encode_png(DynamicImage::ImageRgba8(image::RgbaImage::from_pixel(3, 2, image::Rgba([1, 2, 3, 4]))));
    let source = ImageRsPipeline::default().decode(&png).unwrap();
    assert_eq!(source.format, Some(ImageFormat::Png));
    assert_eq!(source.image.format(), PixelFormat::Rgba8);
    assert_eq!(source.image.dimensions(), Dimensions::new(3, 2));
    assert!(!source.has_strippable_metadata);
}

#[test]
fn rejects_oversized_input_before_decoding() {
    let png = encode_png(DynamicImage::ImageRgb8(image::RgbImage::new(100, 100)));
    let pipeline = ImageRsPipeline { max_pixels: 9_999 };
    assert!(matches!(pipeline.decode(&png), Err(PipelineError::Unsupported(_))));
}

#[test]
fn keeps_only_rgb_profiles() {
    let mut profile = vec![0u8; 128];
    profile[16..20].copy_from_slice(b"RGB ");
    assert!(rgb_profile(Some(profile.clone())).is_some());
    profile[16..20].copy_from_slice(b"CMYK");
    assert!(rgb_profile(Some(profile)).is_none());
}

#[test]
fn resize_hits_exact_dimensions() {
    let img = Image::new(Dimensions::new(8, 4), PixelFormat::Rgb8, vec![200; 96]).unwrap();
    let out = ImageRsPipeline::default().resize(&img, Dimensions::new(4, 2)).unwrap();
    assert_eq!(out.dimensions(), Dimensions::new(4, 2));
    assert!(out.data().iter().all(|&v| v.abs_diff(200) <= 1));
}

#[test]
fn the_limit_is_named_and_inclusive() {
    let png = encode_png(DynamicImage::ImageRgb8(image::RgbImage::new(100, 90)));
    let e = ImageRsPipeline { max_pixels: 8_999 }.decode(&png).unwrap_err();
    assert_eq!(e.message(), "unsupported input: 100x90 exceeds 8999 pixels");
    let source = ImageRsPipeline { max_pixels: 9_000 }.decode(&png).unwrap();
    assert_eq!(source.image.dimensions(), Dimensions::new(100, 90));
    assert_eq!(ImageRsPipeline::default().max_pixels, 100_000_000);
}

#[test]
fn decodes_every_supported_container() {
    let mut rgb = image::RgbImage::new(5, 4);
    for (x, y, p) in rgb.enumerate_pixels_mut() {
        *p = image::Rgb([x as u8 * 40, y as u8 * 60, 7]);
    }
    let raw = rgb.as_raw().clone();
    let img = DynamicImage::ImageRgb8(rgb);
    let cases = [
        (image::ImageFormat::Png, Some(ImageFormat::Png)),
        (image::ImageFormat::WebP, Some(ImageFormat::WebP)),
        (image::ImageFormat::Tiff, None),
    ];
    for (outside, format) in cases {
        let source = ImageRsPipeline::default().decode(&encode(&img, outside)).unwrap();
        assert_eq!(source.format, format);
        assert_eq!(source.image.format(), PixelFormat::Rgb8);
        // These containers are lossless.
        assert_eq!(source.image.data(), raw.as_slice());
        assert!(!source.has_strippable_metadata);
        assert_eq!(source.image.icc_profile(), None);
    }
    let jpeg = ImageRsPipeline::default().decode(&encode(&img, image::ImageFormat::Jpeg)).unwrap();
    assert_eq!(jpeg.format, Some(ImageFormat::Jpeg));
    assert_eq!(jpeg.image.dimensions(), Dimensions::new(5, 4));
}

#[test]
fn gray_sources_become_rgb() {
    let gray = DynamicImage::ImageLuma8(image::GrayImage::from_pixel(2, 2, image::Luma([77])));
    let source = ImageRsPipeline::default().decode(&encode_png(gray)).unwrap();
    assert_eq!(source.image.format(), PixelFormat::Rgb8);
    assert_eq!(source.image.data(), &[77u8; 12]);
    let faint = DynamicImage::ImageLumaA8(image::GrayAlphaImage::from_pixel(1, 1, image::LumaA([77, 3])));
    let source = ImageRsPipeline::default().decode(&encode_png(faint)).unwrap();
    assert_eq!(source.image.format(), PixelFormat::Rgba8);
    assert_eq!(source.image.data(), &[77, 77, 77, 3]);
}

/// Adds chunks after the header of a PNG file.
fn with_chunk(png: &[u8], kind: &[u8; 4], data: &[u8]) -> Vec<u8> {
    let mut crc = 0xffff_ffffu32;
    for &b in kind.iter().chain(data) {
        crc ^= u32::from(b);
        for _ in 0..8 {
            crc = if crc & 1 == 1 { (crc >> 1) ^ 0xedb8_8320 } else { crc >> 1 };
        }
    }
    // Signature and header take 33 bytes.
    let mut out = png[..33].to_vec();
    out.extend((data.len() as u32).to_be_bytes());
    out.extend(kind);
    out.extend(data);
    out.extend((!crc).to_be_bytes());
    out.extend(&png[33..]);
    out
}

/// A block that says the image is turned by a quarter.
fn turned() -> Vec<u8> {
    let mut exif = b"MM\0\x2a\0\0\0\x08\0\x01".to_vec();
    exif.extend([0x01, 0x12, 0, 3, 0, 0, 0, 1, 0, 6, 0, 0, 0, 0, 0, 0]);
    exif
}

#[test]
fn camera_rotation_is_applied_and_reported_as_metadata() {
    let img = image::RgbImage::from_raw(2, 1, vec![1, 1, 1, 9, 9, 9]).unwrap();
    let png = encode_png(DynamicImage::ImageRgb8(img));
    let plain = ImageRsPipeline::default().decode(&png).unwrap();
    assert_eq!(plain.image.dimensions(), Dimensions::new(2, 1));
    let source = ImageRsPipeline::default().decode(&with_chunk(&png, b"eXIf", &turned())).unwrap();
    assert!(source.has_strippable_metadata);
    assert_eq!(source.image.dimensions(), Dimensions::new(1, 2));
    assert_eq!(source.image.data(), &[1, 1, 1, 9, 9, 9]);
}

#[test]
fn xmp_alone_counts_as_metadata() {
    let png = encode_png(DynamicImage::ImageRgb8(image::RgbImage::new(1, 1)));
    let mut packet = b"XML:com.adobe.xmp\0\0\0\0\0".to_vec();
    packet.extend(b"<x/>");
    let source = ImageRsPipeline::default().decode(&with_chunk(&png, b"iTXt", &packet)).unwrap();
    assert!(source.has_strippable_metadata);
}

#[test]
fn profiles_are_kept_if_they_are_rgb() {
    // An uncompressed deflate stream with its checksum.
    let deflated = |data: &[u8]| {
        let mut out = vec![0x78, 0x01, 0x01];
        out.extend((data.len() as u16).to_le_bytes());
        out.extend((!(data.len() as u16)).to_le_bytes());
        out.extend(data);
        let (mut a, mut b) = (1u32, 0u32);
        for &d in data {
            a = (a + u32::from(d)) % 65_521;
            b = (b + a) % 65_521;
        }
        out.extend((b << 16 | a).to_be_bytes());
        out
    };
    let png = encode_png(DynamicImage::ImageRgb8(image::RgbImage::new(1, 1)));
    let mut profile = vec![0u8; 40];
    profile[16..20].copy_from_slice(b"RGB ");
    let mut chunk = b"p\0\0".to_vec();
    chunk.extend(deflated(&profile));
    let source = ImageRsPipeline::default().decode(&with_chunk(&png, b"iCCP", &chunk)).unwrap();
    assert_eq!(source.image.icc_profile(), Some(profile.as_slice()));
    assert!(!source.has_strippable_metadata);
    profile[16..20].copy_from_slice(b"GRAY");
    let mut chunk = b"p\0\0".to_vec();
    chunk.extend(deflated(&profile));
    let source = ImageRsPipeline::default().decode(&with_chunk(&png, b"iCCP", &chunk)).unwrap();
    assert_eq!(source.image.icc_profile(), None);
}

#[test]
fn other_containers_are_named() {
    let message = |input: &[u8]| ImageRsPipeline::default().decode(input).unwrap_err().message();
    assert_eq!(message(b"GIF89a..."), "unsupported input: input format Some(Gif)");
    assert_eq!(message(b"not an image"), "unsupported input: input format None");
    assert_eq!(message(b""), "unsupported input: input format None");
    assert_eq!(message(b"\0\0\0\x1cftypavif"), "unsupported input: input format Some(Avif)");
}

#[test]
fn broken_files_fail_in_processing() {
    let png = encode_png(DynamicImage::ImageRgb8(image::RgbImage::new(9, 9)));
    let e = ImageRsPipeline::default().decode(&png[..20]).unwrap_err();
    assert!(matches!(e, PipelineError::Processing(_)));
    let e = ImageRsPipeline::default().decode(&png[..png.len() - 20]).unwrap_err();
    assert!(matches!(e, PipelineError::Processing(_)));
    assert!(e.message().starts_with("processing failed: "));
}

#[test]
fn resizing_keeps_profile_and_format() {
    let data: Vec<u8> = (0..64).collect();
    let img = Image::new(Dimensions::new(4, 4), PixelFormat::Rgba8, data.clone())
        .unwrap()
        .with_icc_profile(Some(vec![5; 9]));
    let same = ImageRsPipeline::default().resize(&img, Dimensions::new(4, 4)).unwrap();
    assert_eq!(same, img);
    let wide = ImageRsPipeline::default().resize(&img, Dimensions::new(9, 2)).unwrap();
    assert_eq!(wide.format(), PixelFormat::Rgba8);
    assert_eq!(wide.dimensions(), Dimensions::new(9, 2));
    assert_eq!(wide.data().len(), 72);
    assert_eq!(wide.icc_profile(), Some(&[5u8; 9][..]));
    assert_ne!(&wide.data()[..64], data.as_slice());
}

#[test]
fn impossible_sizes_are_refused() {
    let img = Image::new(Dimensions::new(2, 1), PixelFormat::Rgb8, vec![0; 6]).unwrap();
    let message = |w, h| ImageRsPipeline::default().resize(&img, Dimensions::new(w, h)).unwrap_err().message();
    assert_eq!(message(0, 3), "processing failed: image dimensions must be non-zero");
    assert_eq!(message(3, 0), "processing failed: image dimensions must be non-zero");
    assert_eq!(message(u32::MAX, u32::MAX), "processing failed: resized image is too large");
    assert_eq!(
        PipelineError::BackendUnavailable("libvips".to_string()).message(),
        "pipeline backend unavailable: libvips"
    );
}

#[test]
fn the_longest_sides_are_resampled() {
    let p = ImageRsPipeline::default();
    let wide = p.resize(
        &Image::new(Dimensions::new(1, 1), PixelFormat::Rgb8, vec![7, 80, 200]).unwrap(),
        Dimensions::new(0x40_0000, 1),
    );
    let wide = wide.unwrap();
    assert_eq!(wide.data().len(), 3 * 0x40_0000);
    assert!(wide.data().chunks(3).all(|px| px == [7, 80, 200]));
    let half = p.resize(&wide, Dimensions::new(0x20_0000, 1)).unwrap();
    assert_eq!(half.data().len(), 3 * 0x20_0000);
    assert!(half.data().chunks(3).all(|px| px == [7, 80, 200]));
    assert_eq!(p.resize(&wide, Dimensions::new(1, 1)).unwrap().data().len(), 3);
}

#[test]
fn a_long_side_may_shrink_to_a_short_one() {
    let source = Image::new(Dimensions::new(5_000_000, 2), PixelFormat::Rgb8, vec![9; 30_000_000]).unwrap();
    let out = ImageRsPipeline::default().resize(&source, Dimensions::new(2560, 1)).unwrap();
    assert_eq!(out.dimensions(), Dimensions::new(2560, 1));
    assert!(out.data().iter().all(|&v| v.abs_diff(9) <= 1));
}

#[test]
fn a_short_side_may_grow_to_a_long_one() {
    let source = Image::new(Dimensions::new(2, 1), PixelFormat::Rgb8, vec![9; 6]).unwrap();
    let out = ImageRsPipeline::default().resize(&source, Dimensions::new(1, 0x40_0001)).unwrap();
    assert!(out.data().iter().all(|&v| v == 9));
}

#[test]
fn two_long_sides_are_too_much() {
    let p = ImageRsPipeline::default();
    let strip = |n: u32| Image::new(Dimensions::new(1, n), PixelFormat::Rgb8, vec![9; 3 * n as usize]).unwrap();
    let refused = |from, to| {
        let e = p.resize(&strip(from), Dimensions::new(1, to)).unwrap_err();
        assert_eq!(e.message(), "processing failed: resized image is too large");
    };
    refused(0x100_0001, 0x20_0001);
    refused(0x40_0002, 0x40_0001);
    refused(0x10_0001, 0x40_0001);
    let long = strip(0x40_0001);
    assert_eq!(p.resize(&long, long.dimensions()).unwrap().data(), long.data());
}

/// Numbered pixels of an image of three by two, turned upright.
fn upright(orientation: u8) -> (u32, u32, Vec<u8>) {
    let data: Vec<u8> = (0..6u8).flat_map(|n| [n, n + 10, n + 20]).collect();
    let (d, out) = turn(data, Dimensions::new(3, 2), PixelFormat::Rgb8, orientation);
    assert!(out.chunks(3).all(|px| px[1] == px[0] + 10 && px[2] == px[0] + 20));
    (d.width, d.height, out.chunks(3).map(|px| px[0]).collect())
}

#[test]
fn every_orientation_is_turned_upright() {
    assert_eq!(upright(1), (3, 2, vec![0, 1, 2, 3, 4, 5]));
    assert_eq!(upright(2), (3, 2, vec![2, 1, 0, 5, 4, 3]));
    assert_eq!(upright(3), (3, 2, vec![5, 4, 3, 2, 1, 0]));
    assert_eq!(upright(4), (3, 2, vec![3, 4, 5, 0, 1, 2]));
    assert_eq!(upright(5), (2, 3, vec![0, 3, 1, 4, 2, 5]));
    assert_eq!(upright(6), (2, 3, vec![3, 0, 4, 1, 5, 2]));
    assert_eq!(upright(7), (2, 3, vec![5, 2, 4, 1, 3, 0]));
    assert_eq!(upright(8), (2, 3, vec![2, 5, 1, 4, 0, 3]));
    assert_eq!(upright(0), upright(1));
    assert_eq!(upright(9), upright(1));
}

#[test]
fn turning_agrees_with_the_image_crate() {
    for orientation in 1..=8u8 {
        let data: Vec<u8> = (0..5 * 3 * 4).collect();
        let buffer = image::RgbaImage::from_raw(5, 3, data.clone()).unwrap();
        let mut expected = DynamicImage::ImageRgba8(buffer);
        expected.apply_orientation(image::metadata::Orientation::from_exif(orientation).unwrap());
        let (d, out) = turn(data, Dimensions::new(5, 3), PixelFormat::Rgba8, orientation);
        assert_eq!((d.width, d.height), (expected.width(), expected.height()));
        assert_eq!(out, expected.into_rgba8().into_raw());
    }
}

#[test]
fn the_opposite_turn_gives_the_pixels_back() {
    for (there, back) in [(1, 1), (2, 2), (3, 3), (4, 4), (5, 5), (6, 8), (7, 7), (8, 6)] {
        let data: Vec<u8> = (0..4 * 3 * 3).collect();
        let (d, out) = turn(data.clone(), Dimensions::new(4, 3), PixelFormat::Rgb8, there);
        let (d, out) = turn(out, d, PixelFormat::Rgb8, back);
        assert_eq!((d, out), (Dimensions::new(4, 3), data));
    }
}

#[test]
fn decoding_turns_every_orientation() {
    let img = image::RgbImage::from_fn(3, 2, |x, y| image::Rgb([(3 * y + x) as u8, 0, 0]));
    let png = encode_png(DynamicImage::ImageRgb8(img));
    for orientation in 1..=8u8 {
        let mut exif = turned();
        exif[19] = orientation;
        let source = ImageRsPipeline::default().decode(&with_chunk(&png, b"eXIf", &exif)).unwrap();
        let d = source.image.dimensions();
        let reds: Vec<u8> = source.image.data().chunks(3).map(|px| px[0]).collect();
        assert_eq!((d.width, d.height, reds), upright(orientation));
    }
}
