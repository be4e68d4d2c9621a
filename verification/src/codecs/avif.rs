//! AVIF adapter over libavif (libaom encoder, dav1d/aom decoder): its settings, and everything
//! about an encoding that is decided before and after the native calls.

use vstd::prelude::*;

use crate::codecs::{self, Capabilities, CodecError, EncodeSettings, Encoded, QualityAxis};
use crate::geometry::Dimensions;
use crate::parameters::EncoderParameters;
use crate::report::CodecId;
use crate::text;
use crate::types::{Image, ImageFormat, PixelFormat};

verus! {

#[derive(Debug, Clone, Copy, PartialEq, Eq, Structural)]
pub enum Chroma {
    Yuv420,
    Yuv444,
}

impl Chroma {
    /// How the subsampling is shown in reports.
    pub open spec fn name(self) -> Seq<char> {
        match self {
            Chroma::Yuv420 => "420"@,
            Chroma::Yuv444 => "444"@,
        }
    }
}

#[derive(Debug)]
pub struct AvifConfig {
    /// libavif speed 0 (slowest, smallest) ..= 10 (fastest).
    pub speed: i32,
    pub chroma: Chroma,
    /// libaom `tune` option, e.g. `"iq"` or `"ssim"`. `None` keeps the encoder default.
    pub tune: Option<String>,
    pub threads: i32,
}

impl AvifConfig {
    /// The default settings for a number of threads.
    pub fn with_threads(threads: i32) -> (r: Self)
        ensures
            r.speed == 6,
            r.chroma == Chroma::Yuv420,
            r.tune is None,
            r.threads == threads,
    {
        AvifConfig { speed: 6, chroma: Chroma::Yuv420, tune: None, threads }
    }
}

impl Clone for AvifConfig {
    fn clone(&self) -> (r: Self)
        ensures
            r == *self,
    {
        let tune: Option<String> = match &self.tune {
            Some(t) => Some(t.clone()),
            None => None,
        };
        AvifConfig { speed: self.speed, chroma: self.chroma, tune, threads: self.threads }
    }
}

/// How colors are coded, by the code points of ITU-T H.273.
#[derive(Debug, Clone, Copy, PartialEq, Eq, Structural)]
pub struct ColorTag {
    pub primaries: u16,
    pub transfer: u16,
    pub matrix: u16,
}

impl ColorTag {
    /// sRGB: the primaries of BT.709 with the sRGB transfer, coded by the matrix of BT.601.
    pub open spec fn srgb_spec() -> Self {
        ColorTag { primaries: 1, transfer: 13, matrix: 6 }
    }

    pub fn srgb() -> (r: Self)
        ensures
            r == ColorTag::srgb_spec(),
    {
        ColorTag { primaries: 1, transfer: 13, matrix: 6 }
    }
}

/// What libavif is asked for.
#[derive(Debug)]
pub struct EncodePlan<'a> {
    pub width: u32,
    pub height: u32,
    pub chroma: Chroma,
    /// The profile to embed.
    pub icc_profile: Option<&'a [u8]>,
    /// Without a profile the image is tagged as sRGB instead of leaving decoders to guess.
    pub color: Option<ColorTag>,
    pub format: PixelFormat,
    /// Opaque RGBA input would otherwise spend bytes on a constant alpha plane.
    pub ignore_alpha: bool,
    pub samples: &'a [u8],
    pub row_bytes: u32,
    pub quality: i32,
    pub speed: i32,
    pub threads: i32,
    pub tune: Option<&'a str>,
}

#[derive(Debug)]
pub struct AvifCodec {
    pub config: AvifConfig,
}

impl Clone for AvifCodec {
    fn clone(&self) -> (r: Self)
        ensures
            r == *self,
    {
        AvifCodec { config: self.config.clone() }
    }
}

/// The parameters reported for an encoding.
pub open spec fn reported(config: AvifConfig, level: u32) -> Map<Seq<char>, Seq<char>> {
    Map::<Seq<char>, Seq<char>>::empty().insert("quality"@, text::decimal(level as nat)).insert(
        "speed"@,
        text::signed_decimal(config.speed as int),
    ).insert("chroma"@, config.chroma.name()).insert(
        "tune"@,
        match config.tune {
            Some(t) => t@,
            None => "default"@,
        },
    )
}

impl AvifCodec {
    pub fn new(config: AvifConfig) -> (r: Self)
        ensures
            r.config == config,
    {
        AvifCodec { config }
    }

    /// The encoder's name and version, with those of the codecs it was built with.
    pub fn id(&self, version: &str, codecs: &str) -> (r: CodecId)
        ensures
            r.name@ == "libavif"@,
            r.version@ == version@ + " ("@ + codecs@ + ")"@,
    {
        let mut full: String = version.to_string();
        full.append(" (");
        full.append(codecs);
        full.append(")");
        CodecId::new("libavif", full.as_str())
    }

    pub fn format(&self) -> (r: ImageFormat)
        ensures
            r == ImageFormat::Avif,
    {
        ImageFormat::Avif
    }

    pub fn capabilities(&self) -> (r: Capabilities)
        ensures
            r.alpha,
    {
        Capabilities { alpha: true }
    }

    /// libavif quality: 100 is lossless.
    pub fn quality_axis(&self) -> (r: QualityAxis)
        ensures
            r.min == 20,
            r.max == 95,
    {
        QualityAxis { min: 20, max: 95 }
    }

    /// What libavif is asked for to encode an image.
    pub fn plan<'a>(&'a self, image: &'a Image, settings: &EncodeSettings) -> (r: EncodePlan<'a>)
        ensures
            r.width == image@.dimensions.width,
            r.height == image@.dimensions.height,
            r.chroma == self.config.chroma,
            (match r.icc_profile {
                Some(p) => codecs::profile_kept(image@, settings.metadata) == Some(p@),
                None => codecs::profile_kept(image@, settings.metadata) is None,
            }),
            r.color == if codecs::profile_kept(image@, settings.metadata) is None {
                Some(ColorTag::srgb_spec())
            } else {
                None
            },
            r.format == image@.format,
            r.ignore_alpha == !image@.transparent(),
            r.samples@ == image@.data,
            r.row_bytes == (image@.dimensions.width * image@.format.channel_count()) as u32,
            r.quality == settings.level as i32,
            r.speed == self.config.speed,
            r.threads == self.config.threads,
            (match r.tune {
                Some(t) => self.config.tune is Some && t@ == self.config.tune->0@,
                None => self.config.tune is None,
            }),
    {
        let d: Dimensions = image.dimensions();
        let tune: Option<&'a str> = match &self.config.tune {
            Some(t) => Some(t.as_str()),
            None => None,
        };
        let icc_profile: Option<&'a [u8]> = codecs::profile_to_embed(image, settings.metadata);
        let color: Option<ColorTag> = match icc_profile {
            Some(_) => None,
            None => Some(ColorTag::srgb()),
        };
        EncodePlan {
            width: d.width,
            height: d.height,
            chroma: self.config.chroma,
            icc_profile,
            color,
            format: image.format(),
            ignore_alpha: !image.has_transparency(),
            samples: image.data(),
            row_bytes: image.stride() as u32,
            quality: settings.level as i32,
            speed: self.config.speed,
            threads: self.config.threads,
            tune,
        }
    }

    /// What becomes of what libavif gave.
    pub fn encoded(&self, settings: &EncodeSettings, native: Result<Vec<u8>, String>) -> (r: Result<
        Encoded,
        CodecError,
    >)
        ensures
            (match native {
                Ok(bytes) => r is Ok && r->Ok_0.bytes == bytes && r->Ok_0.parameters@ == reported(
                    self.config,
                    settings.level,
                ),
                Err(message) => r matches Err(CodecError::Encode(m)) && m == message,
            }),
    {
        match native {
            Ok(bytes) => Ok(Encoded { bytes, parameters: self.parameters(settings.level) }),
            Err(message) => Err(CodecError::Encode(message)),
        }
    }

    /// The settings used for a level, as they are reported.
    pub fn parameters(&self, level: u32) -> (r: EncoderParameters)
        ensures
            r@ == reported(self.config, level),
    {
        let chroma: &str = match self.config.chroma {
            Chroma::Yuv420 => "420",
            Chroma::Yuv444 => "444",
        };
        let tune: String = match &self.config.tune {
            Some(t) => t.clone(),
            None => "default".to_string(),
        };
        let mut parameters: EncoderParameters = EncoderParameters::new();
        parameters.insert("quality".to_string(), text::decimal_of(level as u64));
        parameters.insert("speed".to_string(), text::signed_decimal_of(self.config.speed));
        parameters.insert("chroma".to_string(), chroma.to_string());
        parameters.insert("tune".to_string(), tune);
        parameters
    }
}

/// The message about a native call that failed.
pub fn failure(what: &str, message: &str) -> (r: String)
    ensures
        r@ == what@ + ": "@ + message@,
{
    let mut out: String = what.to_string();
    out.append(": ");
    out.append(message);
    out
}

/// What is reported tells the settings: quality and speed are the numerals of the level and of the
/// speed, and nothing but these two, the subsampling and the tuning is told.
pub proof fn lemma_reports_tell_the_settings(config: AvifConfig, level: u32)
    ensures
        reported(config, level).dom() == set!["quality"@, "speed"@, "chroma"@, "tune"@],
        text::numeral_value(reported(config, level)["quality"@]) == level,
        config.speed >= 0 ==> text::numeral_value(reported(config, level)["speed"@])
            == config.speed,
        reported(config, level)["chroma"@] == (if config.chroma == Chroma::Yuv444 {
            seq!['4', '4', '4']
        } else {
            seq!['4', '2', '0']
        }),
        config.tune matches Some(t) ==> reported(config, level)["tune"@] == t@,
{
    reveal_strlit("quality");
    reveal_strlit("speed");
    reveal_strlit("chroma");
    reveal_strlit("tune");
    reveal_strlit("420");
    reveal_strlit("444");
    assert("quality"@.len() == 7 && "speed"@.len() == 5 && "chroma"@.len() == 6 && "tune"@.len()
        == 4);
    assert("420"@ =~= seq!['4', '2', '0'] && "444"@ =~= seq!['4', '4', '4']);
    text::lemma_decimal_is_a_numeral(level as nat);
    text::lemma_signed_decimal_is_a_numeral(config.speed as int);
    assert(reported(config, level).dom() =~= set!["quality"@, "speed"@, "chroma"@, "tune"@]);
}

/// What libavif is asked for is the whole image, row by row, at the level of the settings, with the
/// profile exactly where it is kept and a color tag exactly where there is none. Alpha is left out
/// only where every pixel is opaque.
pub proof fn lemma_plan_is_the_image<'a>(
    codec: &'a AvifCodec,
    image: &'a Image,
    settings: &EncodeSettings,
    r: EncodePlan<'a>,
)
    requires
        call_ensures(AvifCodec::plan, (codec, image, settings), r),
        image@.well_formed(),
        image@.dimensions.width <= 0x1000_0000,
        settings.level <= 100,
    ensures
        r.samples@.len() == r.row_bytes * r.height,
        r.row_bytes == r.width * (if r.format == PixelFormat::Rgba8 {
            4int
        } else {
            3
        }),
        r.quality == settings.level,
        r.width == image@.dimensions.width && r.height == image@.dimensions.height,
        forall|i: int| 0 <= i < image@.data.len() ==> r.samples@[i] == #[trigger] image@.data[i],
        settings.metadata is StripAll ==> r.icc_profile is None,
        settings.metadata is KeepIccOnly ==> match (r.icc_profile, image@.icc_profile) {
            (Some(p), Some(q)) => p@ == q,
            (None, None) => true,
            _ => false,
        },
        r.color is Some <==> r.icc_profile is None,
        r.ignore_alpha <==> r.format == PixelFormat::Rgb8 || forall|i: int|
            0 <= i < image@.data.len() && i % 4 == 3 ==> #[trigger] image@.data[i] == 255,
{
    let (w, h) = (image@.dimensions.width as int, image@.dimensions.height as int);
    assert((w * h) * 3 == (w * 3) * h && (w * h) * 4 == (w * 4) * h) by (nonlinear_arith);
    crate::types::lemma_opaque_images_hide_the_background(
        image@,
        seq![0u8, 0, 0],
        seq![0u8, 0, 0],
    );
}

/// What the encoder gave is handed on as it is, with the level that was asked for in its report; what
/// went wrong there is an error of encoding.
pub proof fn lemma_calls_report_the_level(
    codec: &AvifCodec,
    settings: &EncodeSettings,
    native: Result<Vec<u8>, String>,
    r: Result<Encoded, CodecError>,
)
    requires
        call_ensures(AvifCodec::encoded, (codec, settings, native), r),
    ensures
        native is Ok <==> r is Ok,
        r matches Ok(encoded) ==> encoded.bytes@ == native->Ok_0@ && text::numeral_value(
            encoded.parameters@["quality"@],
        ) == settings.level,
        r matches Err(e) ==> e is Encode,
{
    lemma_reports_tell_the_settings(codec.config, settings.level);
}

} // verus!
