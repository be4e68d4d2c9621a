//! WebP adapter over libwebp (lossy encoding, ICC embedded via libwebpmux): its settings, and
//! everything about an encoding that is decided before and after the native calls.

use vstd::prelude::*;

use crate::codecs::{self, Capabilities, CodecError, EncodeSettings, Encoded, QualityAxis};
use crate::geometry::Dimensions;
use crate::parameters::EncoderParameters;
use crate::report::CodecId;
use crate::text;
use crate::types::{Image, ImageFormat, PixelFormat};

verus! {

#[derive(Debug, Clone, Copy)]
pub struct WebpConfig {
    /// Compression effort 0 (fastest) ..= 6 (smallest).
    pub method: i32,
    /// Sharper RGB→YUV conversion; reduces chroma bleeding at a small speed cost.
    pub sharp_yuv: bool,
}

impl Default for WebpConfig {
    fn default() -> (r: Self)
        ensures
            r.method == 6,
            r.sharp_yuv,
    {
        WebpConfig { method: 6, sharp_yuv: true }
    }
}

#[derive(Debug, Clone, Copy)]
pub struct WebpCodec {
    pub config: WebpConfig,
}

impl Default for WebpCodec {
    fn default() -> (r: Self)
        ensures
            r.config.method == 6,
            r.config.sharp_yuv,
    {
        WebpCodec { config: WebpConfig { method: 6, sharp_yuv: true } }
    }
}

/// What libwebp is asked for.
#[derive(Debug)]
pub struct EncodePlan<'a> {
    pub width: i32,
    pub height: i32,
    pub format: PixelFormat,
    pub samples: &'a [u8],
    pub stride: i32,
    pub quality: u32,
    pub method: i32,
    pub sharp_yuv: bool,
    /// The profile to embed after encoding.
    pub icc_profile: Option<&'a [u8]>,
}

/// The message about an encoding that failed.
pub fn encode_failure(code: i32) -> (r: String)
    ensures
        r@ == "WebPEncode failed (error code "@ + text::signed_decimal(code as int) + ")"@,
{
    let mut out: String = "WebPEncode failed (error code ".to_string();
    out.append(text::signed_decimal_of(code).as_str());
    out.append(")");
    out
}

/// Whether a bitstream can be decoded, by what libwebp says about it; a status of zero means that
/// it is valid.
pub fn check_bitstream(status: u32, has_animation: bool) -> (r: Result<(), String>)
    ensures
        (match r {
            Ok(()) => status == 0 && !has_animation,
            Err(message) => if status != 0 {
                message@ == "invalid WebP bitstream (status "@ + text::decimal(status as nat)
                    + ")"@
            } else {
                has_animation && message@ == "animated WebP is not supported"@
            },
        }),
{
    if status != 0 {
        let mut message: String = "invalid WebP bitstream (status ".to_string();
        text::push_decimal(&mut message, status as u64);
        message.append(")");
        return Err(message);
    }
    if has_animation {
        return Err("animated WebP is not supported".to_string());
    }
    Ok(())
}

/// A version as libwebp packs it: major, minor and revision in the lower three bytes.
pub open spec fn version_shown(v: i32) -> Seq<char> {
    text::decimal(((v >> 16) & 0xff) as nat) + "."@ + text::decimal(((v >> 8) & 0xff) as nat) + "."@
        + text::decimal((v & 0xff) as nat)
}

/// A packed version, in words.
pub fn version_string(v: i32) -> (r: String)
    ensures
        r@ == version_shown(v),
{
    proof {
        assert(0 <= (v >> 16) & 0xff <= 0xff) by (bit_vector);
        assert(0 <= (v >> 8) & 0xff <= 0xff) by (bit_vector);
        assert(0 <= v & 0xff <= 0xff) by (bit_vector);
    }
    let mut out: String = text::decimal_of(((v >> 16) & 0xff) as u64);
    out.append(".");
    text::push_decimal(&mut out, ((v >> 8) & 0xff) as u64);
    out.append(".");
    text::push_decimal(&mut out, (v & 0xff) as u64);
    out
}

/// The parameters reported for an encoding.
pub open spec fn reported(config: WebpConfig, level: u32) -> Map<Seq<char>, Seq<char>> {
    Map::<Seq<char>, Seq<char>>::empty().insert("quality"@, text::decimal(level as nat)).insert(
        "method"@,
        text::signed_decimal(config.method as int),
    ).insert(
        "sharp_yuv"@,
        if config.sharp_yuv {
            "true"@
        } else {
            "false"@
        },
    )
}

impl WebpCodec {
    pub fn new(config: WebpConfig) -> (r: Self)
        ensures
            r.config == config,
    {
        WebpCodec { config }
    }

    /// The encoder's name with its packed version.
    pub fn id(&self, version: i32) -> (r: CodecId)
        ensures
            r.name@ == "libwebp"@,
            r.version@ == version_shown(version),
    {
        CodecId::new("libwebp", version_string(version).as_str())
    }

    pub fn format(&self) -> (r: ImageFormat)
        ensures
            r == ImageFormat::WebP,
    {
        ImageFormat::WebP
    }

    pub fn capabilities(&self) -> (r: Capabilities)
        ensures
            r.alpha,
    {
        Capabilities { alpha: true }
    }

    pub fn quality_axis(&self) -> (r: QualityAxis)
        ensures
            r.min == 10,
            r.max == 95,
    {
        QualityAxis { min: 10, max: 95 }
    }

    /// What libwebp is asked for to encode an image.
    pub fn plan<'a>(&self, image: &'a Image, settings: &EncodeSettings) -> (r: EncodePlan<'a>)
        ensures
            r.width == image@.dimensions.width as i32,
            r.height == image@.dimensions.height as i32,
            r.format == image@.format,
            r.samples@ == image@.data,
            r.stride == (image@.dimensions.width * image@.format.channel_count()) as i32,
            r.quality == settings.level,
            r.method == self.config.method,
            r.sharp_yuv == self.config.sharp_yuv,
            (match r.icc_profile {
                Some(p) => codecs::profile_kept(image@, settings.metadata) == Some(p@),
                None => codecs::profile_kept(image@, settings.metadata) is None,
            }),
    {
        let d: Dimensions = image.dimensions();
        EncodePlan {
            width: d.width as i32,
            height: d.height as i32,
            format: image.format(),
            samples: image.data(),
            stride: image.stride() as i32,
            quality: settings.level,
            method: self.config.method,
            sharp_yuv: self.config.sharp_yuv,
            icc_profile: codecs::profile_to_embed(image, settings.metadata),
        }
    }

    /// What becomes of what libwebp gave.
    pub fn encoded(&self, settings: &EncodeSettings, native: Result<Vec<u8>, String>) -> (r: Result<
        Encoded,
        CodecError,
    >)
        ensures
            (match native {
                Ok(bytes) => r is Ok && r->Ok_0.bytes == bytes && r->Ok_0.parameters@ == reported(
                    self.config,
                    settings.level,
                ),
                Err(message) => r matches Err(CodecError::Encode(m)) && m == message,
            }),
    {
        match native {
            Ok(bytes) => Ok(Encoded { bytes, parameters: self.parameters(settings.level) }),
            Err(message) => Err(CodecError::Encode(message)),
        }
    }

    /// The settings used for a level, as they are reported.
    pub fn parameters(&self, level: u32) -> (r: EncoderParameters)
        ensures
            r@ == reported(self.config, level),
    {
        let sharp: &str = if self.config.sharp_yuv {
            "true"
        } else {
            "false"
        };
        let mut parameters: EncoderParameters = EncoderParameters::new();
        parameters.insert("quality".to_string(), text::decimal_of(level as u64));
        parameters.insert("method".to_string(), text::signed_decimal_of(self.config.method));
        parameters.insert("sharp_yuv".to_string(), sharp.to_string());
        parameters
    }
}

/// A packed version is shown as its three numbers, the major one first.
pub proof fn lemma_version_is_unpacked(major: u8, minor: u8, revision: u8)
    ensures
        version_shown((major * 65536 + minor * 256 + revision) as i32) == text::decimal(
            major as nat,
        ) + seq!['.'] + text::decimal(minor as nat) + seq!['.'] + text::decimal(revision as nat),
{
    reveal_strlit(".");
    assert("."@ =~= seq!['.']);
    let v = (major * 65536 + minor * 256 + revision) as i32;
    assert(v == major * 65536 + minor * 256 + revision);
    assert((v >> 16) & 0xff == major && (v >> 8) & 0xff == minor && v & 0xff == revision)
        by (bit_vector)
        requires
            v == major * 65536 + minor * 256 + revision,
    ;
}

/// What is reported tells the settings: quality and method are the numerals of the level and of the
/// effort, and nothing but these two and the conversion is told.
pub proof fn lemma_reports_tell_the_settings(config: WebpConfig, level: u32)
    ensures
        reported(config, level).dom() == set!["quality"@, "method"@, "sharp_yuv"@],
        text::numeral_value(reported(config, level)["quality"@]) == level,
        config.method >= 0 ==> text::numeral_value(reported(config, level)["method"@])
            == config.method,
        reported(config, level)["sharp_yuv"@] == (if config.sharp_yuv {
            "true"@
        } else {
            "false"@
        }),
{
    reveal_strlit("quality");
    reveal_strlit("method");
    reveal_strlit("sharp_yuv");
    assert("quality"@.len() == 7 && "method"@.len() == 6 && "sharp_yuv"@.len() == 9);
    text::lemma_decimal_is_a_numeral(level as nat);
    text::lemma_signed_decimal_is_a_numeral(config.method as int);
    assert(reported(config, level).dom() =~= set!["quality"@, "method"@, "sharp_yuv"@]);
}

/// What libwebp is asked for is the whole image, row by row, at the level of the settings, with the
/// profile exactly where it is kept.
pub proof fn lemma_plan_is_the_image<'a>(
    codec: &WebpCodec,
    image: &'a Image,
    settings: &EncodeSettings,
    r: EncodePlan<'a>,
)
    requires
        call_ensures(WebpCodec::plan, (codec, image, settings), r),
        image@.well_formed(),
        image@.dimensions.width <= 0x1000_0000,
        image@.dimensions.height <= 0x1000_0000,
    ensures
        r.samples@.len() == r.stride * r.height,
        r.stride == r.width * (if r.format == PixelFormat::Rgba8 {
            4int
        } else {
            3
        }),
        r.quality == settings.level,
        r.width == image@.dimensions.width && r.height == image@.dimensions.height,
        forall|i: int| 0 <= i < image@.data.len() ==> r.samples@[i] == #[trigger] image@.data[i],
        settings.metadata is StripAll ==> r.icc_profile is None,
        settings.metadata is KeepIccOnly ==> match (r.icc_profile, image@.icc_profile) {
            (Some(p), Some(q)) => p@ == q,
            (None, None) => true,
            _ => false,
        },
{
    let (w, h) = (image@.dimensions.width as int, image@.dimensions.height as int);
    assert((w * h) * 3 == (w * 3) * h && (w * h) * 4 == (w * 4) * h) by (nonlinear_arith);
}

/// What the encoder gave is handed on as it is, with the level that was asked for in its report; what
/// went wrong there is an error of encoding.
pub proof fn lemma_calls_report_the_level(
    codec: &WebpCodec,
    settings: &EncodeSettings,
    native: Result<Vec<u8>, String>,
    r: Result<Encoded, CodecError>,
)
    requires
        call_ensures(WebpCodec::encoded, (codec, settings, native), r),
    ensures
        native is Ok <==> r is Ok,
        r matches Ok(encoded) ==> encoded.bytes@ == native->Ok_0@ && text::numeral_value(
            encoded.parameters@["quality"@],
        ) == settings.level,
        r matches Err(e) ==> e is Encode,
{
    lemma_reports_tell_the_settings(codec.config, settings.level);
}

} // verus!
