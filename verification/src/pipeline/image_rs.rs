//! Pure-Rust pipeline backed by the `image` crate.
//!
//! Known gaps: resizing happens in gamma space (not linear light), 16-bit sources are truncated
//! to 8 bits, and AVIF input is not decoded.

use image::ImageDecoder;
use vstd::prelude::*;

use crate::geometry::Dimensions;
use crate::pipeline::{orientation, DecodedSource, ImagePipeline, PipelineError};
use crate::text;
use crate::types::{self, Image, ImageError, ImageFormat, ImageView, PixelFormat};

verus! {

#[derive(Debug, Clone, Copy)]
pub struct ImageRsPipeline {
    /// Inputs above this pixel count are rejected before decoding (decompression bombs).
    pub max_pixels: u64,
}

impl Default for ImageRsPipeline {
    fn default() -> (r: Self)
        ensures
            r.max_pixels == 100_000_000,
    {
        ImageRsPipeline { max_pixels: 100_000_000 }
    }
}

/// Whether an input begins with certain bytes.
pub open spec fn begins(input: Seq<u8>, bytes: Seq<u8>) -> bool {
    input.len() >= bytes.len() && input.take(bytes.len() as int) == bytes
}

/// A container recognized by its first bytes.
#[derive(Debug, PartialEq, Eq)]
pub enum Container {
    Jpeg,
    Png,
    WebP,
    Tiff,
    /// Anything else, with the name it goes by in messages.
    Other(String),
}

pub open spec fn is_jpeg(input: Seq<u8>) -> bool {
    begins(input, seq![0xffu8, 0xd8, 0xff])
}

pub open spec fn is_png(input: Seq<u8>) -> bool {
    begins(input, seq![0x89u8, 0x50, 0x4e, 0x47, 0x0d, 0x0a, 0x1a, 0x0a])
}

/// `RIFF`, four bytes of length, `WEBP`.
pub open spec fn is_webp(input: Seq<u8>) -> bool {
    &&& begins(input, seq![0x52u8, 0x49, 0x46, 0x46])
    &&& input.len() >= 12
    &&& input.subrange(8, 12) == seq![0x57u8, 0x45, 0x42, 0x50]
}

/// Either byte order.
pub open spec fn is_tiff(input: Seq<u8>) -> bool {
    begins(input, seq![0x4du8, 0x4d, 0x00, 0x2a]) || begins(input, seq![0x49u8, 0x49, 0x2a, 0x00])
}

/// The name of what [`image::guess_format`] makes of an input that is none of the supported
/// containers.
pub uninterp spec fn other_container(input: Seq<u8>) -> Seq<char>;

/// [`image::guess_format`], which goes by the first bytes of the input. The four supported
/// containers have the bytes given here; an input of another kind, or of none, has the name
/// that the outcome shows as.
#[verifier::external_body]
fn guess_container(input: &[u8]) -> (r: Container)
    ensures
        (match r {
            Container::Jpeg => is_jpeg(input@),
            Container::Png => is_png(input@),
            Container::WebP => is_webp(input@),
            Container::Tiff => is_tiff(input@),
            Container::Other(name) => !is_jpeg(input@) && !is_png(input@) && !is_webp(input@)
                && !is_tiff(input@) && name@ == other_container(input@),
        }),
{
    match image::guess_format(input).ok() {
        Some(image::ImageFormat::Jpeg) => Container::Jpeg,
        Some(image::ImageFormat::Png) => Container::Png,
        Some(image::ImageFormat::WebP) => Container::WebP,
        Some(image::ImageFormat::Tiff) => Container::Tiff,
        other => Container::Other(format!("{other:?}")),
    }
}

/// The dimensions in the header of an input, or why it has none.
pub uninterp spec fn header_of(input: Seq<u8>) -> Result<(u32, u32), Seq<char>>;

/// [`image::ImageDecoder::dimensions`] of the decoder that [`image::ImageReader::into_decoder`]
/// makes for the input, or the message of its error.
#[verifier::external_body]
fn read_header(input: &[u8]) -> (r: Result<(u32, u32), String>)
    ensures
        (match r {
            Ok(d) => header_of(input@) == Ok::<(u32, u32), Seq<char>>(d),
            Err(message) => header_of(input@) == Err::<(u32, u32), Seq<char>>(message@),
        }),
{
    let format = image::guess_format(input).map_err(|e| e.to_string())?;
    let reader = image::ImageReader::with_format(std::io::Cursor::new(input), format);
    let decoder = reader.into_decoder().map_err(|e| e.to_string())?;
    Ok(decoder.dimensions())
}

/// Whether the pixels of an input have an alpha channel.
pub uninterp spec fn alpha_of(input: Seq<u8>) -> bool;

/// [`image::ImageDecoder::color_type`] of the decoder for the input, as far as it tells whether
/// there is an alpha channel. There is a decoder exactly where there is a header.
#[verifier::external_body]
fn read_alpha(input: &[u8]) -> (r: Result<bool, String>)
    ensures
        (match r {
            Ok(alpha) => header_of(input@) is Ok && alpha == alpha_of(input@),
            Err(message) => header_of(input@) == Err::<(u32, u32), Seq<char>>(message@),
        }),
{
    let format = image::guess_format(input).map_err(|e| e.to_string())?;
    let reader = image::ImageReader::with_format(std::io::Cursor::new(input), format);
    let decoder = reader.into_decoder().map_err(|e| e.to_string())?;
    Ok(decoder.color_type().has_alpha())
}

/// What a read of optional bytes gave.
pub open spec fn bytes_read(r: Result<Option<Vec<u8>>, String>) -> Result<
    Option<Seq<u8>>,
    Seq<char>,
> {
    match r {
        Ok(bytes) => Ok(types::optional_bytes(bytes)),
        Err(message) => Err(message@),
    }
}

/// The ICC profile of an input, if it has one.
pub uninterp spec fn icc_of(input: Seq<u8>) -> Result<Option<Seq<u8>>, Seq<char>>;

/// [`image::ImageDecoder::icc_profile`] of the decoder for the input.
#[verifier::external_body]
fn read_icc(input: &[u8]) -> (r: Result<Option<Vec<u8>>, String>)
    ensures
        bytes_read(r) == icc_of(input@),
{
    let format = image::guess_format(input).map_err(|e| e.to_string())?;
    let reader = image::ImageReader::with_format(std::io::Cursor::new(input), format);
    let mut decoder = reader.into_decoder().map_err(|e| e.to_string())?;
    decoder.icc_profile().map_err(|e| e.to_string())
}

/// The EXIF block of an input, if it has one.
pub uninterp spec fn exif_of(input: Seq<u8>) -> Result<Option<Seq<u8>>, Seq<char>>;

/// [`image::ImageDecoder::exif_metadata`] of the decoder for the input.
#[verifier::external_body]
fn read_exif(input: &[u8]) -> (r: Result<Option<Vec<u8>>, String>)
    ensures
        bytes_read(r) == exif_of(input@),
{
    let format = image::guess_format(input).map_err(|e| e.to_string())?;
    let reader = image::ImageReader::with_format(std::io::Cursor::new(input), format);
    let mut decoder = reader.into_decoder().map_err(|e| e.to_string())?;
    decoder.exif_metadata().map_err(|e| e.to_string())
}

/// The XMP packet of an input, if it has one.
pub uninterp spec fn xmp_of(input: Seq<u8>) -> Result<Option<Seq<u8>>, Seq<char>>;

/// [`image::ImageDecoder::xmp_metadata`] of the decoder for the input.
#[verifier::external_body]
fn read_xmp(input: &[u8]) -> (r: Result<Option<Vec<u8>>, String>)
    ensures
        bytes_read(r) == xmp_of(input@),
{
    let format = image::guess_format(input).map_err(|e| e.to_string())?;
    let reader = image::ImageReader::with_format(std::io::Cursor::new(input), format);
    let mut decoder = reader.into_decoder().map_err(|e| e.to_string())?;
    decoder.xmp_metadata().map_err(|e| e.to_string())
}

/// How the pixels of an input are turned, as a number from 1 to 8.
pub uninterp spec fn orientation_of(input: Seq<u8>) -> Result<u8, Seq<char>>;

/// [`image::ImageDecoder::orientation`] of the decoder for the input, as the number that
/// [`image::metadata::Orientation::to_exif`] gives it, which is 1 to 8, or the message of its
/// error.
#[verifier::external_body]
fn read_orientation(input: &[u8]) -> (r: Result<u8, String>)
    ensures
        (match r {
            Ok(orientation) => 1 <= orientation <= 8 && orientation_of(input@) == Ok::<
                u8,
                Seq<char>,
            >(orientation),
            Err(message) => orientation_of(input@) == Err::<u8, Seq<char>>(message@),
        }),
{
    let format = image::guess_format(input).map_err(|e| e.to_string())?;
    let reader = image::ImageReader::with_format(std::io::Cursor::new(input), format);
    let mut decoder = reader.into_decoder().map_err(|e| e.to_string())?;
    Ok(decoder.orientation().map_err(|e| e.to_string())?.to_exif())
}

/// Pixels with their dimensions.
pub struct Pixels {
    pub dimensions: Dimensions,
    pub data: Vec<u8>,
}

/// Whether decoding the input, with or without alpha, may come to this: the samples as they are
/// stored, or the message of an error. Vector instructions of the machine may round differently,
/// so more than one outcome may be possible.
pub uninterp spec fn decoding_gives(
    input: Seq<u8>,
    alpha: bool,
    r: Result<Seq<u8>, Seq<char>>,
) -> bool;

/// Whether dimensions are those of a header.
pub open spec fn as_stored(header: Result<(u32, u32), Seq<char>>, d: Dimensions) -> bool {
    header == Ok::<(u32, u32), Seq<char>>((d.width, d.height))
}

/// [`image::DynamicImage::from_decoder`] on the decoder for the input, converted by
/// [`image::DynamicImage::into_rgb8`]. The dimensions are those of the header, and there are
/// three bytes for each pixel. Which pixels is not said, only that the input may decode to them.
#[verifier::external_body]
fn decode_rgb8(input: &[u8]) -> (r: Result<Pixels, String>)
    ensures
        (match r {
            Ok(p) => {
                &&& as_stored(header_of(input@), p.dimensions)
                &&& p.data@.len() == types::buffer_len(p.dimensions, PixelFormat::Rgb8)
                &&& decoding_gives(input@, false, Ok(p.data@))
            },
            Err(message) => decoding_gives(input@, false, Err(message@)),
        }),
{
    let format = image::guess_format(input).map_err(|e| e.to_string())?;
    let reader = image::ImageReader::with_format(std::io::Cursor::new(input), format);
    let decoder = reader.into_decoder().map_err(|e| e.to_string())?;
    let decoded = image::DynamicImage::from_decoder(decoder).map_err(|e| e.to_string())?;
    let buffer = decoded.into_rgb8();
    let dimensions = Dimensions { width: buffer.width(), height: buffer.height() };
    Ok(Pixels { dimensions, data: buffer.into_raw() })
}

/// As [`decode_rgb8`], with [`image::DynamicImage::into_rgba8`] and four bytes for each pixel.
#[verifier::external_body]
fn decode_rgba8(input: &[u8]) -> (r: Result<Pixels, String>)
    ensures
        (match r {
            Ok(p) => {
                &&& as_stored(header_of(input@), p.dimensions)
                &&& p.data@.len() == types::buffer_len(p.dimensions, PixelFormat::Rgba8)
                &&& decoding_gives(input@, true, Ok(p.data@))
            },
            Err(message) => decoding_gives(input@, true, Err(message@)),
        }),
{
    let format = image::guess_format(input).map_err(|e| e.to_string())?;
    let reader = image::ImageReader::with_format(std::io::Cursor::new(input), format);
    let decoder = reader.into_decoder().map_err(|e| e.to_string())?;
    let decoded = image::DynamicImage::from_decoder(decoder).map_err(|e| e.to_string())?;
    let buffer = decoded.into_rgba8();
    let dimensions = Dimensions { width: buffer.width(), height: buffer.height() };
    Ok(Pixels { dimensions, data: buffer.into_raw() })
}

/// Whether an ICC profile is one for RGB pixels.
pub open spec fn is_rgb_profile(profile: Seq<u8>) -> bool {
    profile.len() >= 20 && profile.subrange(16, 20) == seq![0x52u8, 0x47, 0x42, 0x20]
}

/// A profile, if it is one for RGB pixels.
pub open spec fn usable_profile(icc: Option<Seq<u8>>) -> Option<Seq<u8>> {
    match icc {
        Some(p) => if is_rgb_profile(p) {
            Some(p)
        } else {
            None
        },
        None => None,
    }
}

/// Only an RGB profile is valid once pixels are RGB; CMYK and gray sources are converted
/// during decode, so their profiles no longer describe the pixels.
pub fn rgb_profile(icc: Option<Vec<u8>>) -> (r: Option<Vec<u8>>)
    ensures
        types::optional_bytes(r) == usable_profile(types::optional_bytes(icc)),
{
    match icc {
        Some(p) => {
            if p.len() >= 20 {
                let rgb: bool = p[16] == 0x52 && p[17] == 0x47 && p[18] == 0x42 && p[19] == 0x20;
                proof {
                    let mark = seq![0x52u8, 0x47, 0x42, 0x20];
                    if rgb {
                        assert(p@.subrange(16, 20) =~= mark);
                    } else {
                        assert(p@.subrange(16, 20)[0] == p@[16]);
                        assert(p@.subrange(16, 20)[1] == p@[17]);
                        assert(p@.subrange(16, 20)[2] == p@[18]);
                        assert(p@.subrange(16, 20)[3] == p@[19]);
                        assert(mark[0] == 0x52 && mark[1] == 0x47 && mark[2] == 0x42 && mark[3]
                            == 0x20);
                    }
                }
                if rgb {
                    return Some(p);
                }
            }
            None
        },
        None => None,
    }
}

/// The format of a supported container, where the engine can also output it.
pub open spec fn format_of(input: Seq<u8>) -> Option<ImageFormat> {
    if is_jpeg(input) {
        Some(ImageFormat::Jpeg)
    } else if is_png(input) {
        Some(ImageFormat::Png)
    } else if is_webp(input) {
        Some(ImageFormat::WebP)
    } else {
        None
    }
}

/// Whether an input is in a supported container.
pub open spec fn is_supported(input: Seq<u8>) -> bool {
    is_jpeg(input) || is_png(input) || is_webp(input) || is_tiff(input)
}

/// The supported containers exclude each other.
proof fn lemma_containers_differ(input: Seq<u8>)
    ensures
        is_jpeg(input) ==> !is_png(input) && !is_webp(input) && !is_tiff(input),
        is_png(input) ==> !is_webp(input) && !is_tiff(input),
        is_webp(input) ==> !is_tiff(input),
{
    let jpeg = seq![0xffu8, 0xd8, 0xff];
    let png = seq![0x89u8, 0x50, 0x4e, 0x47, 0x0d, 0x0a, 0x1a, 0x0a];
    let riff = seq![0x52u8, 0x49, 0x46, 0x46];
    let big = seq![0x4du8, 0x4d, 0x00, 0x2a];
    let little = seq![0x49u8, 0x49, 0x2a, 0x00];
    assert(jpeg[0] == 0xff && png[0] == 0x89 && riff[0] == 0x52 && big[0] == 0x4d && little[0]
        == 0x49);
    if begins(input, jpeg) {
        assert(input.take(3)[0] == input[0]);
    }
    if begins(input, png) {
        assert(input.take(8)[0] == input[0]);
    }
    if begins(input, riff) || begins(input, big) || begins(input, little) {
        assert(input.take(4)[0] == input[0]);
    }
}

/// The complaint about dimensions with too many pixels.
pub open spec fn too_many_pixels(width: u32, height: u32, max_pixels: u64) -> Seq<char> {
    text::decimal(width as nat) + "x"@ + text::decimal(height as nat) + " exceeds "@
        + text::decimal(max_pixels as nat) + " pixels"@
}

fn complain_too_many_pixels(width: u32, height: u32, max_pixels: u64) -> (r: String)
    ensures
        r@ == too_many_pixels(width, height, max_pixels),
{
    let mut out: String = text::decimal_of(width as u64);
    out.append("x");
    text::push_decimal(&mut out, height as u64);
    out.append(" exceeds ");
    text::push_decimal(&mut out, max_pixels);
    out.append(" pixels");
    out
}

/// Whether decoding fails before any pixel is decoded, and how.
pub open spec fn rejection(input: Seq<u8>, max_pixels: u64) -> Option<(bool, Seq<char>)> {
    if !is_supported(input) {
        Some((false, "input format "@ + other_container(input)))
    } else {
        match header_of(input) {
            Err(message) => Some((true, message)),
            Ok(d) => if d.0 * d.1 > max_pixels {
                Some((false, too_many_pixels(d.0, d.1, max_pixels)))
            } else {
                match (icc_of(input), exif_of(input), xmp_of(input)) {
                    (Err(message), _, _) => Some((true, message)),
                    (_, Err(message), _) => Some((true, message)),
                    (_, Ok(None), Err(message)) => Some((true, message)),
                    _ => match orientation_of(input) {
                        Err(message) => Some((true, message)),
                        Ok(_) => None,
                    },
                }
            },
        }
    }
}

/// Whether the input carries metadata besides its ICC profile.
pub open spec fn has_metadata(input: Seq<u8>) -> bool {
    exif_of(input) == Ok::<_, Seq<char>>(None::<Seq<u8>>) ==> xmp_of(input) != Ok::<_, Seq<char>>(
        None::<Seq<u8>>,
    )
}

/// The format that decoded pixels have.
pub open spec fn pixel_format_of(input: Seq<u8>) -> PixelFormat {
    if alpha_of(input) {
        PixelFormat::Rgba8
    } else {
        PixelFormat::Rgb8
    }
}

/// Whether an error says what it should: a problem in processing, or an unsupported input.
pub open spec fn reports(e: PipelineError, processing: bool, message: Seq<char>) -> bool {
    match e {
        PipelineError::Processing(m) => processing && m@ == message,
        PipelineError::Unsupported(m) => !processing && m@ == message,
        PipelineError::BackendUnavailable(_) => false,
    }
}

/// Whether an image shows stored samples of the input upright.
pub open spec fn shows(input: Seq<u8>, stored: Seq<u8>, image: ImageView) -> bool {
    &&& header_of(input) is Ok
    &&& orientation_of(input) is Ok
    &&& {
        let h = header_of(input)->Ok_0;
        let d = Dimensions { width: h.0, height: h.1 };
        let orientation = orientation_of(input)->Ok_0;
        &&& image.dimensions == orientation::turned_dimensions(d, orientation)
        &&& image.data == orientation::turned(
            stored,
            d,
            pixel_format_of(input).channel_count(),
            orientation,
        )
    }
}

/// Whether an image is what the input may decode to, turned upright.
pub open spec fn is_decoded(input: Seq<u8>, image: ImageView) -> bool {
    &&& image.format == pixel_format_of(input)
    &&& exists|stored: Seq<u8>| #[trigger]
        shows(input, stored, image) && decoding_gives(input, alpha_of(input), Ok(stored))
    &&& icc_of(input) is Ok
    &&& image.icc_profile == usable_profile(icc_of(input)->Ok_0)
}

/// Whether decoding the pixels of an input may fail with a message.
pub open spec fn pixels_fail(input: Seq<u8>, message: Seq<char>) -> bool {
    ||| decoding_gives(input, alpha_of(input), Err(message))
    ||| {
        &&& header_of(input) is Ok
        &&& header_of(input)->Ok_0.0 == 0 || header_of(input)->Ok_0.1 == 0
        &&& message == ImageError::ZeroDimensions.message_spec()
    }
}

/// The image of decoded or resized pixels.
fn to_image(pixels: Pixels, format: PixelFormat) -> (r: Result<Image, PipelineError>)
    requires
        pixels.data@.len() == types::buffer_len(pixels.dimensions, format),
    ensures
        (match r {
            Ok(image) => pixels.dimensions.nonzero() && image@ == (ImageView {
                dimensions: pixels.dimensions,
                format,
                data: pixels.data@,
                icc_profile: None,
            }),
            Err(PipelineError::Processing(message)) => !pixels.dimensions.nonzero() && message@
                == ImageError::ZeroDimensions.message_spec(),
            Err(_) => false,
        }),
{
    let len: usize = pixels.data.len();
    assert(types::buffer_len(pixels.dimensions, format) == len);
    match Image::new(pixels.dimensions, format, pixels.data) {
        Ok(image) => Ok(image),
        Err(e) => Err(PipelineError::Processing(e.message())),
    }
}

/// Decoded pixels turned upright.
fn upright_image(pixels: Pixels, format: PixelFormat, orientation: u8) -> (r: Result<
    Image,
    PipelineError,
>)
    requires
        pixels.data@.len() == types::buffer_len(pixels.dimensions, format),
    ensures
        (match r {
            Ok(image) => pixels.dimensions.nonzero() && image@ == (ImageView {
                dimensions: orientation::turned_dimensions(pixels.dimensions, orientation),
                format,
                data: orientation::turned(
                    pixels.data@,
                    pixels.dimensions,
                    format.channel_count(),
                    orientation,
                ),
                icc_profile: None,
            }),
            Err(PipelineError::Processing(message)) => !pixels.dimensions.nonzero() && message@
                == ImageError::ZeroDimensions.message_spec(),
            Err(_) => false,
        }),
{
    let (dimensions, data): (Dimensions, Vec<u8>) = orientation::turn(
        pixels.data,
        pixels.dimensions,
        format,
        orientation,
    );
    to_image(Pixels { dimensions, data }, format)
}

/// The pixels of a decoded input, upright, and their format.
fn decode_pixels(input: &[u8], orientation: u8) -> (r: Result<Image, PipelineError>)
    requires
        header_of(input@) is Ok,
        orientation_of(input@) == Ok::<u8, Seq<char>>(orientation),
    ensures
        (match r {
            Ok(image) => {
                &&& image@.format == pixel_format_of(input@)
                &&& image@.icc_profile is None
                &&& exists|stored: Seq<u8>| #[trigger]
                    shows(input@, stored, image@) && decoding_gives(
                        input@,
                        alpha_of(input@),
                        Ok(stored),
                    )
            },
            Err(PipelineError::Processing(message)) => pixels_fail(input@, message@),
            Err(_) => false,
        }),
{
    let alpha: bool = match read_alpha(input) {
        Ok(alpha) => alpha,
        Err(message) => {
            return Err(PipelineError::Processing(message));
        },
    };
    let decoded: Result<Pixels, String> = if alpha {
        decode_rgba8(input)
    } else {
        decode_rgb8(input)
    };
    let format: PixelFormat = if alpha {
        PixelFormat::Rgba8
    } else {
        PixelFormat::Rgb8
    };
    match decoded {
        Ok(pixels) => {
            let ghost stored = pixels.data@;
            let r = upright_image(pixels, format, orientation);
            proof {
                if r is Ok {
                    assert(shows(input@, stored, r->Ok_0@));
                }
            }
            r
        },
        Err(message) => Err(PipelineError::Processing(message)),
    }
}

/// Whether an image resampled to other dimensions may have certain samples. The weights come
/// from the machine's floating-point library, so more than one outcome may be possible.
pub uninterp spec fn resamples_to(
    data: Seq<u8>,
    width: u32,
    height: u32,
    alpha: bool,
    new_width: u32,
    new_height: u32,
    r: Seq<u8>,
) -> bool;

/// Whether a side can be resampled to another length. Where an output pixel falls on the source is
/// found in single precision. Within these lengths rounding takes that so little beyond the source
/// that the weights of the source pixels around it do not add up to zero: a side that shrinks needs
/// a short target, and one that grows a short source, or both lengths must be exact enough.
pub open spec fn side_resamples(from: u32, to: u32) -> bool {
    if to > from {
        from <= 0x10_0000 || to <= 0x40_0000
    } else {
        to <= 0x20_0000 || (to <= 0x40_0000 && from <= 0x100_0000)
    }
}

/// Whether an image can be resampled: both of its sides can, and the buffers that it needs can be
/// allocated at all: the weights of a column, the floating-point samples between the two passes,
/// and the result. The same dimensions need no resampling.
pub open spec fn resizable(d: Dimensions, target: Dimensions, format: PixelFormat) -> bool {
    d == target || {
        &&& side_resamples(d.width, target.width)
        &&& side_resamples(d.height, target.height)
        &&& 8 * d.height <= isize::MAX
        &&& 16 * (d.width * target.height) <= isize::MAX
        &&& target.area() * format.channel_count() <= isize::MAX
    }
}

/// [`image::DynamicImage::resize_exact`] with the Lanczos filter, on RGB samples. There are
/// three bytes for each new pixel. The same dimensions give the same samples; of others it is
/// only said that the samples may come out. Where both lengths of a side are too large a pixel's
/// weights can sum to zero, on which the call panics: [`resizable`] leaves them out.
#[verifier::external_body]
fn resample_rgb8(data: Vec<u8>, d: Dimensions, target: Dimensions) -> (r: Result<Vec<u8>, String>)
    requires
        d.nonzero(),
        target.nonzero(),
        data@.len() == types::buffer_len(d, PixelFormat::Rgb8),
        resizable(d, target, PixelFormat::Rgb8),
    ensures
        (match r {
            Ok(out) => {
                &&& out@.len() == types::buffer_len(target, PixelFormat::Rgb8)
                &&& d == target ==> out@ == data@
                &&& resamples_to(
                    data@,
                    d.width,
                    d.height,
                    false,
                    target.width,
                    target.height,
                    out@,
                )
            },
            Err(_) => false,
        }),
{
    let buffer = image::RgbImage::from_raw(d.width, d.height, data).ok_or("buffer")?;
    let filter = image::imageops::FilterType::Lanczos3;
    let source = image::DynamicImage::ImageRgb8(buffer);
    Ok(source.resize_exact(target.width, target.height, filter).into_rgb8().into_raw())
}

/// As [`resample_rgb8`], on RGBA samples.
#[verifier::external_body]
fn resample_rgba8(data: Vec<u8>, d: Dimensions, target: Dimensions) -> (r: Result<Vec<u8>, String>)
    requires
        d.nonzero(),
        target.nonzero(),
        data@.len() == types::buffer_len(d, PixelFormat::Rgba8),
        resizable(d, target, PixelFormat::Rgba8),
    ensures
        (match r {
            Ok(out) => {
                &&& out@.len() == types::buffer_len(target, PixelFormat::Rgba8)
                &&& d == target ==> out@ == data@
                &&& resamples_to(
                    data@,
                    d.width,
                    d.height,
                    true,
                    target.width,
                    target.height,
                    out@,
                )
            },
            Err(_) => false,
        }),
{
    let buffer = image::RgbaImage::from_raw(d.width, d.height, data).ok_or("buffer")?;
    let filter = image::imageops::FilterType::Lanczos3;
    let source = image::DynamicImage::ImageRgba8(buffer);
    Ok(source.resize_exact(target.width, target.height, filter).into_rgba8().into_raw())
}

impl ImagePipeline for ImageRsPipeline {
    /// Decodes a supported input and turns it upright. What comes before the pixels is decided by
    /// the container, the header and the metadata alone; an input with more pixels than allowed
    /// is refused on its header.
    fn decode(&self, input: &[u8]) -> (r: Result<DecodedSource, PipelineError>)
        ensures
            (match (rejection(input@, self.max_pixels), r) {
                (Some((processing, message)), Err(e)) => reports(e, processing, message),
                (Some(_), Ok(_)) => false,
                (None, Ok(source)) => {
                    &&& source.format == format_of(input@)
                    &&& source.has_strippable_metadata == has_metadata(input@)
                    &&& is_decoded(input@, source.image@)
                },
                (None, Err(PipelineError::Processing(message))) => pixels_fail(input@, message@),
                (None, Err(_)) => false,
            }),
    {
        proof {
            lemma_containers_differ(input@);
        }
        let format: Option<ImageFormat> = match guess_container(input) {
            Container::Jpeg => Some(ImageFormat::Jpeg),
            Container::Png => Some(ImageFormat::Png),
            Container::WebP => Some(ImageFormat::WebP),
            Container::Tiff => None,
            Container::Other(name) => {
                let mut message: String = "input format ".to_string();
                message.append(name.as_str());
                return Err(PipelineError::Unsupported(message));
            },
        };
        let (w, h): (u32, u32) = match read_header(input) {
            Ok(d) => d,
            Err(message) => {
                return Err(PipelineError::Processing(message));
            },
        };
        proof {
            assert(w * h <= u32::MAX * u32::MAX) by (nonlinear_arith)
                requires
                    w <= u32::MAX,
                    h <= u32::MAX,
            ;
        }
        if w as u64 * h as u64 > self.max_pixels {
            return Err(
                PipelineError::Unsupported(complain_too_many_pixels(w, h, self.max_pixels)),
            );
        }
        let icc: Option<Vec<u8>> = match read_icc(input) {
            Ok(icc) => rgb_profile(icc),
            Err(message) => {
                return Err(PipelineError::Processing(message));
            },
        };
        let exif: bool = match read_exif(input) {
            Ok(exif) => exif.is_some(),
            Err(message) => {
                return Err(PipelineError::Processing(message));
            },
        };
        let has_strippable_metadata: bool = if exif {
            true
        } else {
            match read_xmp(input) {
                Ok(xmp) => xmp.is_some(),
                Err(message) => {
                    return Err(PipelineError::Processing(message));
                },
            }
        };
        let orientation: u8 = match read_orientation(input) {
            Ok(orientation) => orientation,
            Err(message) => {
                return Err(PipelineError::Processing(message));
            },
        };
        match decode_pixels(input, orientation) {
            Ok(image) => {
                let ghost bare = image@;
                let image: Image = image.with_icc_profile(icc);
                proof {
                    let stored = choose|stored: Seq<u8>| #[trigger]
                        shows(input@, stored, bare) && decoding_gives(
                            input@,
                            alpha_of(input@),
                            Ok(stored),
                        );
                    assert(shows(input@, stored, image@));
                }
                Ok(DecodedSource { image, format, has_strippable_metadata })
            },
            Err(e) => Err(e),
        }
    }

    /// Resizes to exactly `dimensions`, keeping the format and the ICC profile. Dimensions
    /// without pixels are refused, and those that are too large to resample to or from.
    fn resize(&self, image: &Image, dimensions: Dimensions) -> (r: Result<Image, PipelineError>)
        ensures
            (match r {
                Ok(resized) => {
                    &&& dimensions.nonzero()
                    &&& resizable(image@.dimensions, dimensions, image@.format)
                    &&& resized@.dimensions == dimensions
                    &&& resized@.format == image@.format
                    &&& resized@.icc_profile == image@.icc_profile
                    &&& image@.dimensions == dimensions ==> resized@.data == image@.data
                    &&& resamples_to(
                        image@.data,
                        image@.dimensions.width,
                        image@.dimensions.height,
                        image@.format == PixelFormat::Rgba8,
                        dimensions.width,
                        dimensions.height,
                        resized@.data,
                    )
                },
                Err(PipelineError::Processing(message)) => if !dimensions.nonzero() {
                    message@ == ImageError::ZeroDimensions.message_spec()
                } else {
                    &&& !resizable(image@.dimensions, dimensions, image@.format)
                    &&& message@ == "resized image is too large"@
                },
                Err(_) => false,
            }),
    {
        let d: Dimensions = image.dimensions();
        let format: PixelFormat = image.format();
        if dimensions.width == 0 || dimensions.height == 0 {
            return Err(PipelineError::Processing(ImageError::ZeroDimensions.message()));
        }
        if !can_resize(d, dimensions, format) {
            return Err(PipelineError::Processing("resized image is too large".to_string()));
        }
        let data: Vec<u8> = vstd::slice::slice_to_vec(image.data());
        let resampled: Result<Vec<u8>, String> = match format {
            PixelFormat::Rgb8 => resample_rgb8(data, d, dimensions),
            PixelFormat::Rgba8 => resample_rgba8(data, d, dimensions),
        };
        match resampled {
            Ok(data) => match to_image(Pixels { dimensions, data }, format) {
                Ok(resized) => Ok(resized.with_icc_profile(copy_profile(image))),
                Err(e) => Err(e),
            },
            Err(message) => Err(PipelineError::Processing(message)),
        }
    }
}

/// Whether a side can be resampled to another length.
fn can_resample(from: u32, to: u32) -> (r: bool)
    ensures
        r == side_resamples(from, to),
{
    if to > from {
        from <= 0x10_0000 || to <= 0x40_0000
    } else {
        to <= 0x20_0000 || (to <= 0x40_0000 && from <= 0x100_0000)
    }
}

/// Whether an image can be resampled.
fn can_resize(d: Dimensions, target: Dimensions, format: PixelFormat) -> (r: bool)
    ensures
        r == resizable(d, target, format),
{
    if d == target {
        return true;
    }
    if !can_resample(d.width, target.width) || !can_resample(d.height, target.height) {
        return false;
    }
    proof {
        assert(d.width * target.height <= u32::MAX * u32::MAX) by (nonlinear_arith)
            requires
                d.width <= u32::MAX,
                target.height <= u32::MAX,
        ;
    }
    let between: u128 = 16 * (d.width as u128 * target.height as u128);
    let limit: u128 = isize::MAX as u128;
    let area: u128 = target.pixels() as u128;
    let channels: u128 = format.channels() as u128;
    proof {
        assert(area * channels <= u64::MAX * 4) by (nonlinear_arith)
            requires
                area <= u64::MAX,
                channels <= 4,
        ;
    }
    8 * (d.height as u128) <= limit && between <= limit && area * channels <= limit
}

/// A copy of an image's ICC profile.
fn copy_profile(image: &Image) -> (r: Option<Vec<u8>>)
    ensures
        types::optional_bytes(r) == image@.icc_profile,
{
    match image.icc_profile() {
        Some(p) => Some(vstd::slice::slice_to_vec(p)),
        None => None,
    }
}

/// What is decoded has as many pixels as its header says, and no more than the pipeline allows.
pub proof fn lemma_decoded_within_limit(input: Seq<u8>, max_pixels: u64, image: ImageView)
    requires
        rejection(input, max_pixels) is None,
        is_decoded(input, image),
    ensures
        image.dimensions.area() == header_of(input)->Ok_0.0 * header_of(input)->Ok_0.1,
        image.dimensions.area() <= max_pixels,
{
    let h = header_of(input)->Ok_0;
    assert(h.0 * h.1 == h.1 * h.0) by (nonlinear_arith);
    assert(header_of(input) is Ok);
}

/// Camera rotation is applied: the sides are those of the header, swapped exactly where the camera
/// was turned by a quarter, and every pixel is the stored one that belongs there.
pub proof fn lemma_camera_rotation_is_applied(input: Seq<u8>, image: ImageView)
    requires
        is_decoded(input, image),
    ensures
        header_of(input) is Ok,
        orientation_of(input) is Ok,
        ({
            let h = header_of(input)->Ok_0;
            if orientation::is_quarter_turn(orientation_of(input)->Ok_0) {
                image.dimensions.width == h.1 && image.dimensions.height == h.0
            } else {
                image.dimensions.width == h.0 && image.dimensions.height == h.1
            }
        }),
        exists|stored: Seq<u8>| #[trigger]
            decoding_gives(input, alpha_of(input), Ok(stored)) && pixels_moved(
                input,
                stored,
                image,
            ),
{
    let stored = choose|stored: Seq<u8>| #[trigger]
        shows(input, stored, image) && decoding_gives(input, alpha_of(input), Ok(stored));
    let h = header_of(input)->Ok_0;
    let d = Dimensions { width: h.0, height: h.1 };
    let channels = pixel_format_of(input).channel_count();
    let orientation = orientation_of(input)->Ok_0;
    assert forall|x: int, y: int, c: int|
        0 <= x < image.dimensions.width && 0 <= y < image.dimensions.height && 0 <= c
            < channels implies image.data[#[trigger] orientation::sample_index(
        image.dimensions.width,
        channels,
        x,
        y,
        c,
    )] == stored[stored_index(input, x, y, c)] by {
        orientation::lemma_turned_pixel(stored, d, channels, orientation, x, y, c);
    }
    assert(pixels_moved(input, stored, image));
}

/// Where a sample of the pixel at a place is among the stored samples.
pub open spec fn stored_index(input: Seq<u8>, x: int, y: int, c: int) -> int {
    let h = header_of(input)->Ok_0;
    let d = Dimensions { width: h.0, height: h.1 };
    let at = orientation::stored_at(d, orientation_of(input)->Ok_0, x, y);
    orientation::sample_index(h.0, pixel_format_of(input).channel_count(), at.0, at.1, c)
}

/// Whether every sample of an image is the stored one that belongs there.
pub open spec fn pixels_moved(input: Seq<u8>, stored: Seq<u8>, image: ImageView) -> bool {
    let channels = pixel_format_of(input).channel_count();
    forall|x: int, y: int, c: int|
        0 <= x < image.dimensions.width && 0 <= y < image.dimensions.height && 0 <= c < channels
            ==> image.data[#[trigger] orientation::sample_index(
            image.dimensions.width,
            channels,
            x,
            y,
            c,
        )] == stored[stored_index(input, x, y, c)]
}

/// A decoded source is described by what its bytes say: its format by the first of them, a profile
/// only where that is one for RGB pixels, metadata besides it where there is an EXIF block or an XMP
/// packet, alpha where the pixels have it, and no more pixels than allowed.
pub proof fn lemma_source_is_described(
    pipeline: &ImageRsPipeline,
    input: &[u8],
    source: DecodedSource,
)
    requires
        call_ensures(ImageRsPipeline::decode, (pipeline, input), Ok(source)),
    ensures
        source.format == Some(ImageFormat::Jpeg) <==> input@.len() >= 3 && input@[0] == 0xff
            && input@[1] == 0xd8 && input@[2] == 0xff,
        source.format == Some(ImageFormat::Png) <==> input@.len() >= 8 && input@[0] == 0x89
            && input@[1] == 0x50 && input@[2] == 0x4e && input@[3] == 0x47 && input@[4] == 0x0d
            && input@[5] == 0x0a && input@[6] == 0x1a && input@[7] == 0x0a,
        source.format == Some(ImageFormat::WebP) <==> input@.len() >= 12 && input@[0] == 0x52
            && input@[1] == 0x49 && input@[2] == 0x46 && input@[3] == 0x46 && input@[8] == 0x57
            && input@[9] == 0x45 && input@[10] == 0x42 && input@[11] == 0x50,
        source.format != Some(ImageFormat::Avif),
        source.has_strippable_metadata <==> (exif_of(input@) matches Ok(e) && e is Some) || (xmp_of(
            input@,
        ) matches Ok(x) && x is Some),
        source.image@.icc_profile == (match icc_of(input@) {
            Ok(Some(p)) => if p.len() >= 20 && p[16] == 82 && p[17] == 71 && p[18] == 66 && p[19]
                == 32 {
                Some(p)
            } else {
                None
            },
            _ => None,
        }),
        source.image@.format == PixelFormat::Rgba8 <==> alpha_of(input@),
        source.image@.dimensions.width * source.image@.dimensions.height <= pipeline.max_pixels,
{
    let s = input@;
    lemma_containers_differ(s);
    let jpeg = seq![0xffu8, 0xd8, 0xff];
    let png = seq![0x89u8, 0x50, 0x4e, 0x47, 0x0d, 0x0a, 0x1a, 0x0a];
    let riff = seq![0x52u8, 0x49, 0x46, 0x46];
    let webp = seq![0x57u8, 0x45, 0x42, 0x50];
    lemma_begins(s, jpeg);
    lemma_begins(s, png);
    lemma_begins(s, riff);
    assert(is_jpeg(s) <==> s.len() >= 3 && s[0] == 0xff && s[1] == 0xd8 && s[2] == 0xff) by {
        assert(jpeg[0] == 0xff && jpeg[1] == 0xd8 && jpeg[2] == 0xff);
    }
    assert(is_png(s) <==> s.len() >= 8 && s[0] == 0x89 && s[1] == 0x50 && s[2] == 0x4e && s[3]
        == 0x47 && s[4] == 0x0d && s[5] == 0x0a && s[6] == 0x1a && s[7] == 0x0a) by {
        assert(png[0] == 0x89 && png[1] == 0x50 && png[2] == 0x4e && png[3] == 0x47);
        assert(png[4] == 0x0d && png[5] == 0x0a && png[6] == 0x1a && png[7] == 0x0a);
    }
    assert(is_webp(s) <==> s.len() >= 12 && s[0] == 0x52 && s[1] == 0x49 && s[2] == 0x46 && s[3]
        == 0x46 && s[8] == 0x57 && s[9] == 0x45 && s[10] == 0x42 && s[11] == 0x50) by {
        assert(riff[0] == 0x52 && riff[1] == 0x49 && riff[2] == 0x46 && riff[3] == 0x46);
        if s.len() >= 12 {
            let part = s.subrange(8, 12);
            assert(part[0] == s[8] && part[1] == s[9] && part[2] == s[10] && part[3] == s[11]);
            if s[8] == 0x57 && s[9] == 0x45 && s[10] == 0x42 && s[11] == 0x50 {
                assert(part =~= webp);
            }
        }
    }
    if let Ok(Some(p)) = icc_of(s) {
        if p.len() >= 20 {
            let part = p.subrange(16, 20);
            assert(part[0] == p[16] && part[1] == p[17] && part[2] == p[18] && part[3] == p[19]);
            if p[16] == 82 && p[17] == 71 && p[18] == 66 && p[19] == 32 {
                assert(part =~= seq![0x52u8, 0x47, 0x42, 0x20]);
            }
        }
    }
    lemma_decoded_within_limit(s, pipeline.max_pixels, source.image@);
}

proof fn lemma_begins(s: Seq<u8>, bytes: Seq<u8>)
    ensures
        begins(s, bytes) <==> s.len() >= bytes.len() && forall|i: int|
            0 <= i < bytes.len() ==> s[i] == #[trigger] bytes[i],
{
    if s.len() >= bytes.len() {
        let front = s.take(bytes.len() as int);
        assert forall|i: int| 0 <= i < bytes.len() implies #[trigger] front[i] == s[i] by {}
        if forall|i: int| 0 <= i < bytes.len() ==> s[i] == #[trigger] bytes[i] {
            assert(front =~= bytes);
        }
        if front == bytes {
            assert forall|i: int| 0 <= i < bytes.len() implies s[i] == #[trigger] bytes[i] by {
                assert(front[i] == s[i]);
            }
        }
    }
}

} // verus!
