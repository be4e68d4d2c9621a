//! Codec boundary. Native adapters implement [`Codec`] and own their native parameter
//! models; the optimizer only sees a normalized quality axis.

use vstd::prelude::*;

use crate::geometry::Dimensions;
use crate::parameters::EncoderParameters;
use crate::report::CodecId;
use crate::request::MetadataPolicy;
use crate::types::{self, Image, ImageFormat, ImageView, PixelFormat};

pub mod avif;
pub mod webp;

verus! {

#[derive(Debug, PartialEq, Eq)]
pub enum CodecError {
    BackendUnavailable(String),
    Encode(String),
    Decode(String),
}

impl CodecError {
    pub open spec fn message_spec(self) -> Seq<char> {
        match self {
            CodecError::BackendUnavailable(detail) => "codec backend unavailable: "@ + detail@,
            CodecError::Encode(detail) => "encoding failed: "@ + detail@,
            CodecError::Decode(detail) => "decoding failed: "@ + detail@,
        }
    }

    /// What went wrong, in words.
    pub fn message(&self) -> (r: String)
        ensures
            r@ == self.message_spec(),
    {
        match self {
            CodecError::BackendUnavailable(detail) => {
                let mut out: String = "codec backend unavailable: ".to_string();
                out.append(detail.as_str());
                out
            },
            CodecError::Encode(detail) => {
                let mut out: String = "encoding failed: ".to_string();
                out.append(detail.as_str());
                out
            },
            CodecError::Decode(detail) => {
                let mut out: String = "decoding failed: ".to_string();
                out.append(detail.as_str());
                out
            },
        }
    }
}

#[derive(Debug, Clone, Copy, PartialEq, Eq, Structural)]
pub struct Capabilities {
    pub alpha: bool,
}

/// The searchable parameter range, normalized so that a larger level always means higher
/// quality and (usually) more bytes. Adapters map levels onto native scales, e.g. AVIF
/// quantizers where lower means better.
///
/// Multi-dimensional spaces (chroma mode, effort, tuning) are fixed per adapter for now;
/// they become additional axes once the benchmark shows they are worth searching.
#[derive(Debug, Clone, Copy, PartialEq, Eq, Structural)]
pub struct QualityAxis {
    pub min: u32,
    pub max: u32,
}

impl QualityAxis {
    pub open spec fn contains(self, level: int) -> bool {
        self.min <= level <= self.max
    }

    /// The supported level nearest to the given one.
    pub open spec fn clamp_spec(self, level: u32) -> u32 {
        if level < self.min {
            self.min
        } else if level > self.max {
            self.max
        } else {
            level
        }
    }

    pub fn clamp(self, level: u32) -> (r: u32)
        requires
            self.min <= self.max,
        ensures
            r == self.clamp_spec(level),
            self.contains(r as int),
    {
        if level < self.min {
            self.min
        } else if level > self.max {
            self.max
        } else {
            level
        }
    }
}

#[derive(Debug, Clone, Copy, PartialEq, Eq, Structural)]
pub struct EncodeSettings {
    pub level: u32,
    pub metadata: MetadataPolicy,
}

#[derive(Debug)]
pub struct Encoded {
    pub bytes: Vec<u8>,
    /// The native settings actually used, recorded in reports for reproducibility.
    pub parameters: EncoderParameters,
}

impl Clone for Encoded {
    fn clone(&self) -> (r: Self)
        ensures
            r.bytes@ == self.bytes@,
            r.parameters@ == self.parameters@,
    {
        Encoded { bytes: self.bytes.clone(), parameters: self.parameters.clone() }
    }
}

pub trait Codec: Send + Sync {
    /// Encoder name and exact version; output changes between encoder versions.
    fn id(&self) -> CodecId;

    fn format(&self) -> ImageFormat;

    fn capabilities(&self) -> Capabilities;

    fn quality_axis(&self) -> QualityAxis;

    fn encode(&self, image: &Image, settings: &EncodeSettings) -> Result<Encoded, CodecError>;

    /// Decode with the same decoder behavior a browser would use for this format.
    fn decode(&self, encoded: &[u8]) -> Result<Image, CodecError>;
}

/// The ICC profile to embed in an encoding: the image's own, unless all metadata is stripped.
pub open spec fn profile_kept(image: ImageView, metadata: MetadataPolicy) -> Option<Seq<u8>> {
    match metadata {
        MetadataPolicy::KeepIccOnly => image.icc_profile,
        MetadataPolicy::StripAll => None,
    }
}

/// The ICC profile that an encoder embeds.
pub fn profile_to_embed<'a>(image: &'a Image, metadata: MetadataPolicy) -> (r: Option<&'a [u8]>)
    ensures
        (match r {
            Some(p) => profile_kept(image@, metadata) == Some(p@),
            None => profile_kept(image@, metadata) is None,
        }),
{
    match metadata {
        MetadataPolicy::KeepIccOnly => image.icc_profile(),
        MetadataPolicy::StripAll => None,
    }
}

/// The format of pixels that a decoder hands over.
pub open spec fn decoded_format(has_alpha: bool) -> PixelFormat {
    if has_alpha {
        PixelFormat::Rgba8
    } else {
        PixelFormat::Rgb8
    }
}

/// Rows of samples without the padding between them.
pub open spec fn packed(samples: Seq<u8>, pitch: nat, row: nat, height: nat) -> Seq<u8> {
    Seq::new(row * height, |i: int| samples[(i / (row as int)) * pitch + i % (row as int)])
}

/// The rows of a padded pixel buffer, tightly packed.
pub fn pack_rows(samples: &[u8], pitch: usize, row: usize, height: usize) -> (r: Vec<u8>)
    requires
        0 < row <= pitch,
        row * height <= usize::MAX,
        height > 0 ==> (height - 1) * pitch + row <= samples@.len(),
    ensures
        r@ == packed(samples@, pitch as nat, row as nat, height as nat),
{
    let mut out: Vec<u8> = Vec::new();
    let mut y: usize = 0;
    proof {
        assert(row * 0 == 0) by (nonlinear_arith);
        assert(0 * pitch == 0) by (nonlinear_arith);
    }
    while y < height
        invariant
            0 < row <= pitch,
            y <= height,
            height > 0 ==> (height - 1) * pitch + row <= samples@.len(),
            out@ == packed(samples@, pitch as nat, row as nat, y as nat),
        decreases height - y,
    {
        proof {
            assert(y * pitch <= (height - 1) * pitch) by (nonlinear_arith)
                requires
                    y <= height - 1,
                    pitch > 0,
            ;
        }
        let len: usize = samples.len();
        let start: usize = y * pitch;
        let mut x: usize = 0;
        while x < row
            invariant
                0 < row <= pitch,
                x <= row,
                start == y * pitch,
                len == samples@.len(),
                start + row <= len,
                out@.len() == row * y + x,
                forall|i: int|
                    0 <= i < out@.len() ==> #[trigger] out@[i] == samples@[(i / (row as int))
                        * pitch + i % (row as int)],
            decreases row - x,
        {
            proof {
                assert(row * y == y * row) by (nonlinear_arith);
                vstd::arithmetic::div_mod::lemma_fundamental_div_mod_converse(
                    y * row + x,
                    row as int,
                    y as int,
                    x as int,
                );
            }
            out.push(samples[start + x]);
            x = x + 1;
        }
        proof {
            assert(row * y + row == row * (y + 1)) by (nonlinear_arith);
            assert(out@ =~= packed(samples@, pitch as nat, row as nat, (y + 1) as nat));
        }
        y = y + 1;
    }
    out
}

/// Pixels as a native decoder hands them over, row by row, with padding between the rows.
#[derive(Debug)]
pub struct Pixels {
    pub width: u32,
    pub height: u32,
    pub has_alpha: bool,
    /// The distance from one row to the next.
    pub pitch: usize,
    pub samples: Vec<u8>,
    pub icc_profile: Option<Vec<u8>>,
}

impl Pixels {
    pub open spec fn dimensions(self) -> Dimensions {
        Dimensions { width: self.width, height: self.height }
    }

    pub open spec fn row(self) -> nat {
        self.width as nat * decoded_format(self.has_alpha).channel_count()
    }

    /// Whether every row is there, or there is none.
    pub open spec fn complete(self) -> bool {
        self.dimensions().nonzero() ==> {
            &&& self.row() <= self.pitch
            &&& self.row() * self.height <= usize::MAX
            &&& (self.height - 1) * self.pitch + self.row() <= self.samples@.len()
        }
    }

    /// The image that the rows make.
    pub open spec fn image(self) -> ImageView {
        ImageView {
            dimensions: self.dimensions(),
            format: decoded_format(self.has_alpha),
            data: packed(self.samples@, self.pitch as nat, self.row(), self.height as nat),
            icc_profile: types::optional_bytes(self.icc_profile),
        }
    }
}

/// What becomes of what a native decoder gave.
pub fn decoded_image(native: Result<Pixels, String>) -> (r: Result<Image, CodecError>)
    requires
        native matches Ok(pixels) ==> pixels.complete(),
    ensures
        (match native {
            Ok(pixels) => if pixels.dimensions().nonzero() {
                r is Ok && r->Ok_0@ == pixels.image()
            } else {
                r matches Err(CodecError::Decode(m)) && m@
                    == types::ImageError::ZeroDimensions.message_spec()
            },
            Err(message) => r matches Err(CodecError::Decode(m)) && m == message,
        }),
{
    let pixels: Pixels = match native {
        Ok(pixels) => pixels,
        Err(message) => {
            return Err(CodecError::Decode(message));
        },
    };
    let dimensions = Dimensions::new(pixels.width, pixels.height);
    if pixels.width == 0 || pixels.height == 0 {
        return Err(CodecError::Decode(types::ImageError::ZeroDimensions.message()));
    }
    let format: PixelFormat = if pixels.has_alpha {
        PixelFormat::Rgba8
    } else {
        PixelFormat::Rgb8
    };
    let ghost row = pixels.row();
    proof {
        let c = format.channel_count();
        assert(pixels.width * c * pixels.height == pixels.width * pixels.height * c)
            by (nonlinear_arith);
        assert(0 < row <= row * pixels.height) by (nonlinear_arith)
            requires
                row == pixels.width * c,
                c >= 1,
                pixels.width >= 1,
                pixels.height >= 1,
        ;
    }
    let row: usize = pixels.width as usize * format.channels();
    let data: Vec<u8> = pack_rows(
        pixels.samples.as_slice(),
        pixels.pitch,
        row,
        pixels.height as usize,
    );
    match Image::new(dimensions, format, data) {
        Ok(image) => Ok(image.with_icc_profile(pixels.icc_profile)),
        Err(e) => Err(CodecError::Decode(e.message())),
    }
}

/// A level is moved into the range of a codec no further than needed: one of the range stays, and
/// no level of the range is nearer to one outside it.
pub proof fn lemma_clamp_moves_least(axis: QualityAxis, level: u32, other: u32)
    requires
        axis.min <= axis.max,
        axis.min <= other <= axis.max,
    ensures
        axis.min <= axis.clamp_spec(level) <= axis.max,
        axis.min <= level <= axis.max ==> axis.clamp_spec(level) == level,
        axis.clamp_spec(level) <= level ==> level - axis.clamp_spec(level) <= level - other || other
            > level,
        axis.clamp_spec(level) >= level ==> axis.clamp_spec(level) - level <= other - level || other
            < level,
{
}

/// Packing takes away the padding and nothing else: every byte of a row is where its row and its
/// place in the row say.
pub proof fn lemma_packing_keeps_rows(
    samples: Seq<u8>,
    pitch: nat,
    row: nat,
    height: nat,
    x: int,
    y: int,
)
    requires
        0 <= x < row,
        0 <= y < height,
    ensures
        packed(samples, pitch, row, height).len() == row * height,
        packed(samples, pitch, row, height)[y * row + x] == samples[y * pitch + x],
{
    vstd::arithmetic::div_mod::lemma_fundamental_div_mod_converse(y * row + x, row as int, y, x);
    assert(0 <= y * row + x < row * height) by (nonlinear_arith)
        requires
            0 <= x < row,
            0 <= y < height,
    ;
}

/// A profile is embedded exactly where the image has one and it is to be kept, and then it is that
/// of the image.
pub proof fn lemma_profiles_are_kept_unless_stripped(image: ImageView, metadata: MetadataPolicy)
    ensures
        metadata is KeepIccOnly ==> profile_kept(image, metadata) == image.icc_profile,
        metadata is StripAll ==> profile_kept(image, metadata) is None,
{
}

/// What a native decoder hands over becomes the image with those pixels: every sample of every pixel
/// is where it was, row by row, with alpha exactly where there is alpha.
pub proof fn lemma_decoded_pixels_stay_in_place(pixels: Pixels, x: int, y: int, c: int)
    requires
        0 <= x < pixels.width,
        0 <= y < pixels.height,
        0 <= c < (if pixels.has_alpha {
            4int
        } else {
            3
        }),
    ensures
        pixels.image().dimensions.width == pixels.width,
        pixels.image().dimensions.height == pixels.height,
        pixels.image().format == (if pixels.has_alpha {
            PixelFormat::Rgba8
        } else {
            PixelFormat::Rgb8
        }),
        pixels.image().icc_profile == types::optional_bytes(pixels.icc_profile),
        ({
            let channels = if pixels.has_alpha {
                4int
            } else {
                3
            };
            pixels.image().data[(y * pixels.width + x) * channels + c] == pixels.samples@[y
                * pixels.pitch + x * channels + c]
        }),
{
    let channels = if pixels.has_alpha {
        4int
    } else {
        3
    };
    let row = pixels.row();
    assert(0 <= x * channels + c < row) by (nonlinear_arith)
        requires
            row == pixels.width * channels,
            0 <= x < pixels.width,
            0 <= c < channels,
    ;
    lemma_packing_keeps_rows(
        pixels.samples@,
        pixels.pitch as nat,
        row,
        pixels.height as nat,
        x * channels + c,
        y,
    );
    assert(y * row + (x * channels + c) == (y * pixels.width + x) * channels + c) by (nonlinear_arith)
        requires
            row == pixels.width * channels,
    ;
}

/// What a decoder gave becomes the image with those pixels, sample by sample, unless it has none.
pub proof fn lemma_calls_keep_pixels(
    pixels: Pixels,
    r: Result<Image, CodecError>,
    x: int,
    y: int,
    c: int,
)
    requires
        call_ensures(decoded_image, (Ok::<Pixels, String>(pixels),), r),
        pixels.complete(),
        0 <= x < pixels.width,
        0 <= y < pixels.height,
        0 <= c < (if pixels.has_alpha {
            4int
        } else {
            3
        }),
    ensures
        r is Ok,
        ({
            let image = r->Ok_0@;
            let channels = if pixels.has_alpha {
                4int
            } else {
                3
            };
            &&& image.dimensions.width == pixels.width && image.dimensions.height == pixels.height
            &&& image.data[(y * pixels.width + x) * channels + c] == pixels.samples@[y * pixels.pitch
                + x * channels + c]
            &&& image.icc_profile == types::optional_bytes(pixels.icc_profile)
        }),
{
    lemma_decoded_pixels_stay_in_place(pixels, x, y, c);
}

} // verus!
