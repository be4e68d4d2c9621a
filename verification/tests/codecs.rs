//! What codec adapters decide around their native calls.

use smartimg::codecs::avif::{failure, AvifCodec, AvifConfig, Chroma, ColorTag};
use smartimg::codecs::webp::{check_bitstream, encode_failure, version_string, WebpCodec, WebpConfig};
use smartimg::codecs::{
    decoded_image, pack_rows, profile_to_embed, CodecError, EncodeSettings, Pixels, QualityAxis,
};
use smartimg::geometry::Dimensions;
use smartimg::parameters::EncoderParameters;
use smartimg::request::MetadataPolicy;
use smartimg::types::{Image, ImageFormat, PixelFormat};

fn entries(p: &EncoderParameters) -> Vec<(String, String)> {
    p.to_vec()
}

fn pair(a: &str, b: &str) -> (String, String) {
    (a.to_string(), b.to_string())
}

#[test]
fn avif_settings_are_reported() {
    let codec = AvifCodec::new(AvifConfig::with_threads(3));
    assert_eq!((codec.config.speed, codec.config.chroma, codec.config.threads), (6, Chroma::Yuv420, 3));
    assert_eq!(
        entries(&codec.parameters(72)),
        [pair("chroma", "420"), pair("quality", "72"), pair("speed", "6"), pair("tune", "default")]
    );
    let config = AvifConfig { speed: -1, chroma: Chroma::Yuv444, tune: Some("iq".to_string()), threads: 1 };
    let codec = AvifCodec::new(config);
    assert_eq!(
        entries(&codec.clone().parameters(20)),
        [pair("chroma", "444"), pair("quality", "20"), pair("speed", "-1"), pair("tune", "iq")]
    );
    assert_eq!(codec.format(), ImageFormat::Avif);
    assert_eq!(codec.quality_axis(), QualityAxis { min: 20, max: 95 });
    assert!(codec.capabilities().alpha);
    let id = codec.id("1.0.4", "dav1d, aom");
    assert_eq!((id.name.as_str(), id.version.as_str()), ("libavif", "1.0.4 (dav1d, aom)"));
    assert_eq!(failure("encode", "Invalid argument"), "encode: Invalid argument");
}

#[test]
fn webp_settings_are_reported() {
    let codec = WebpCodec::default();
    assert_eq!((codec.config.method, codec.config.sharp_yuv), (6, true));
    assert_eq!(
        entries(&codec.parameters(10)),
        [pair("method", "6"), pair("quality", "10"), pair("sharp_yuv", "true")]
    );
    let codec = WebpCodec::new(WebpConfig { method: 0, sharp_yuv: false });
    assert_eq!(codec.parameters(95).get("sharp_yuv"), Some("false"));
    assert_eq!(codec.format(), ImageFormat::WebP);
    assert_eq!(codec.quality_axis(), QualityAxis { min: 10, max: 95 });
    assert!(codec.capabilities().alpha);
    assert_eq!(codec.id(0x01_03_02).version, "1.3.2");
    assert_eq!(codec.id(0).name, "libwebp");
    assert_eq!(version_string(0x0a_ff_10), "10.255.16");
    assert_eq!(version_string(-1), "255.255.255");
}

#[test]
fn profiles_are_embedded_unless_stripped() {
    let img = Image::new(Dimensions::new(1, 1), PixelFormat::Rgb8, vec![0; 3]).unwrap();
    assert_eq!(profile_to_embed(&img, MetadataPolicy::KeepIccOnly), None);
    let img = img.with_icc_profile(Some(vec![4, 2]));
    assert_eq!(profile_to_embed(&img, MetadataPolicy::KeepIccOnly), Some(&[4u8, 2][..]));
    assert_eq!(profile_to_embed(&img, MetadataPolicy::StripAll), None);
}

#[test]
fn encoders_are_asked_for_what_the_settings_say() {
    let config = AvifConfig { speed: 3, chroma: Chroma::Yuv444, tune: Some("iq".to_string()), threads: 2 };
    let codec = AvifCodec::new(config);
    let image = |alpha| {
        Image::new(Dimensions::new(1, 2), PixelFormat::Rgba8, vec![1, 2, 3, alpha, 5, 6, 7, 255])
            .unwrap()
            .with_icc_profile(Some(vec![8]))
    };
    let (clear, opaque) = (image(254), image(255));
    let keep = EncodeSettings { level: 61, metadata: MetadataPolicy::KeepIccOnly };
    let strip = EncodeSettings { level: 61, metadata: MetadataPolicy::StripAll };
    let plan = codec.plan(&clear, &keep);
    assert_eq!((plan.width, plan.height, plan.row_bytes, plan.format), (1, 2, 4, PixelFormat::Rgba8));
    assert_eq!((plan.quality, plan.speed, plan.threads, plan.chroma), (61, 3, 2, Chroma::Yuv444));
    assert_eq!((plan.tune, plan.icc_profile, plan.samples), (Some("iq"), Some(&[8u8][..]), clear.data()));
    assert!(!plan.ignore_alpha);
    assert_eq!(plan.color, None);
    assert!(codec.plan(&opaque, &keep).ignore_alpha);
    assert_eq!(codec.plan(&opaque, &strip).icc_profile, None);
    assert_eq!(codec.plan(&opaque, &strip).color, Some(ColorTag { primaries: 1, transfer: 13, matrix: 6 }));

    let codec = WebpCodec::new(WebpConfig { method: 4, sharp_yuv: false });
    let plan = codec.plan(&opaque, &keep);
    assert_eq!((plan.width, plan.height, plan.stride, plan.format), (1, 2, 4, PixelFormat::Rgba8));
    assert_eq!((plan.quality, plan.method, plan.sharp_yuv), (61, 4, false));
    assert_eq!((plan.icc_profile, plan.samples), (Some(&[8u8][..]), opaque.data()));
    assert_eq!(codec.plan(&opaque, &strip).icc_profile, None);
}

#[test]
fn native_results_become_encodings() {
    let settings = EncodeSettings { level: 30, metadata: MetadataPolicy::StripAll };
    let avif = AvifCodec::new(AvifConfig::with_threads(1));
    let encoded = avif.encoded(&settings, Ok(vec![1, 2])).unwrap();
    assert_eq!((encoded.bytes, encoded.parameters.get("quality")), (vec![1, 2], Some("30")));
    let e = avif.encoded(&settings, Err(failure("set tune", "Invalid argument"))).unwrap_err();
    assert_eq!(e.message(), "encoding failed: set tune: Invalid argument");
    let webp = WebpCodec::default();
    let encoded = webp.encoded(&settings, Ok(vec![3])).unwrap();
    assert_eq!((encoded.bytes, encoded.parameters.get("method")), (vec![3], Some("6")));
    let e = webp.encoded(&settings, Err(encode_failure(5))).unwrap_err();
    assert_eq!(e, CodecError::Encode("WebPEncode failed (error code 5)".to_string()));
}

#[test]
fn bitstreams_are_checked() {
    assert_eq!(check_bitstream(0, false), Ok(()));
    assert_eq!(check_bitstream(3, true), Err("invalid WebP bitstream (status 3)".to_string()));
    assert_eq!(check_bitstream(0, true), Err("animated WebP is not supported".to_string()));
}

#[test]
fn padding_between_rows_is_dropped() {
    let samples: Vec<u8> = (0..20).collect();
    assert_eq!(pack_rows(&samples, 7, 3, 3), [0, 1, 2, 7, 8, 9, 14, 15, 16]);
    assert_eq!(pack_rows(&samples, 5, 5, 4), samples);
    assert_eq!(pack_rows(&[], 5, 5, 0), Vec::<u8>::new());
}

#[test]
fn decoded_pixels_become_images() {
    let pixels = |width, height, has_alpha, pitch, icc_profile| {
        Ok(Pixels { width, height, has_alpha, pitch, samples: (1..=20).collect(), icc_profile })
    };
    let img = decoded_image(pixels(1, 2, true, 6, Some(vec![9]))).unwrap();
    assert_eq!(img.format(), PixelFormat::Rgba8);
    assert_eq!(img.dimensions(), Dimensions::new(1, 2));
    assert_eq!(img.data(), &[1, 2, 3, 4, 7, 8, 9, 10]);
    assert_eq!(img.icc_profile(), Some(&[9u8][..]));
    assert_eq!(decoded_image(pixels(1, 1, false, 3, None)).unwrap().data(), &[1, 2, 3]);
    let e = decoded_image(pixels(0, 2, false, 0, None)).unwrap_err();
    assert_eq!(e, CodecError::Decode("image dimensions must be non-zero".to_string()));
    assert_eq!(e.message(), "decoding failed: image dimensions must be non-zero");
    let e = decoded_image(Err("WebPDecode failed".to_string())).unwrap_err();
    assert_eq!(e.message(), "decoding failed: WebPDecode failed");
    assert_eq!(CodecError::BackendUnavailable("b".to_string()).message(), "codec backend unavailable: b");
}

#[test]
fn levels_are_clamped_into_the_axis() {
    let axis = QualityAxis { min: 20, max: 95 };
    assert_eq!([0, 20, 50, 95, 96, u32::MAX].map(|l| axis.clamp(l)), [20, 20, 50, 95, 95, 95]);
}

#[test]
fn parameters_are_ordered_by_name() {
    let mut p = EncoderParameters::new();
    assert_eq!(p.len(), 0);
    for (name, value) in [("b", "1"), ("a", "2"), ("ab", "3"), ("é", "4"), ("a", "5"), ("", "6")] {
        p.insert(name.to_string(), value.to_string());
    }
    assert_eq!(
        entries(&p),
        [pair("", "6"), pair("a", "5"), pair("ab", "3"), pair("b", "1"), pair("é", "4")]
    );
    assert_eq!((p.get("ab"), p.get("c"), p.len()), (Some("3"), None, 5));
    let mut q = EncoderParameters::new();
    for (name, value) in [("é", "4"), ("", "6"), ("ab", "3"), ("b", "1"), ("a", "5")] {
        q.insert(name.to_string(), value.to_string());
    }
    assert_eq!(p, q);
    assert_eq!(p.clone(), q);
}
