//! Shared domain types of the engine.
//!
//! Nothing here performs I/O. Pixel layout, color and request semantics are defined in
//! exactly one place.

use vstd::prelude::*;

use crate::binary64::Binary64;
use crate::geometry::{DimensionPolicy, Dimensions};
use crate::text;

verus! {

#[derive(Debug, Clone, Copy, PartialEq, Eq, PartialOrd, Ord, Hash, Structural)]
pub enum ImageFormat {
    Jpeg,
    WebP,
    Avif,
    Png,
}

impl ImageFormat {
    /// The file name extension, which is also how the format is shown in reports.
    pub open spec fn extension_spec(self) -> Seq<char> {
        match self {
            ImageFormat::Jpeg => "jpg"@,
            ImageFormat::WebP => "webp"@,
            ImageFormat::Avif => "avif"@,
            ImageFormat::Png => "png"@,
        }
    }

    pub open spec fn mime_type_spec(self) -> Seq<char> {
        match self {
            ImageFormat::Jpeg => "image/jpeg"@,
            ImageFormat::WebP => "image/webp"@,
            ImageFormat::Avif => "image/avif"@,
            ImageFormat::Png => "image/png"@,
        }
    }

    pub fn extension(self) -> (r: &'static str)
        ensures
            r@ == self.extension_spec(),
    {
        match self {
            ImageFormat::Jpeg => "jpg",
            ImageFormat::WebP => "webp",
            ImageFormat::Avif => "avif",
            ImageFormat::Png => "png",
        }
    }

    pub fn mime_type(self) -> (r: &'static str)
        ensures
            r@ == self.mime_type_spec(),
    {
        match self {
            ImageFormat::Jpeg => "image/jpeg",
            ImageFormat::WebP => "image/webp",
            ImageFormat::Avif => "image/avif",
            ImageFormat::Png => "image/png",
        }
    }
}

/// Interleaved 8-bit sRGB-encoded samples. Wider formats have to be converted before they
/// enter the engine.
#[derive(Debug, Clone, Copy, PartialEq, Eq, Structural)]
pub enum PixelFormat {
    Rgb8,
    Rgba8,
}

impl PixelFormat {
    pub open spec fn channel_count(self) -> nat {
        match self {
            PixelFormat::Rgb8 => 3,
            PixelFormat::Rgba8 => 4,
        }
    }

    pub fn channels(self) -> (r: usize)
        ensures
            r == self.channel_count(),
    {
        match self {
            PixelFormat::Rgb8 => 3,
            PixelFormat::Rgba8 => 4,
        }
    }

    pub fn has_alpha(self) -> (r: bool)
        ensures
            r == (self == PixelFormat::Rgba8),
    {
        match self {
            PixelFormat::Rgb8 => false,
            PixelFormat::Rgba8 => true,
        }
    }
}

#[derive(Debug, Clone, PartialEq, Eq)]
pub enum ImageError {
    ZeroDimensions,
    BufferSize { expected: usize, actual: usize },
}

impl ImageError {
    pub open spec fn message_spec(self) -> Seq<char> {
        match self {
            ImageError::ZeroDimensions => "image dimensions must be non-zero"@,
            ImageError::BufferSize { expected, actual } => "pixel buffer is "@ + text::decimal(
                actual as nat,
            ) + " bytes, expected "@ + text::decimal(expected as nat),
        }
    }

    /// What went wrong, in words.
    pub fn message(&self) -> (r: String)
        ensures
            r@ == self.message_spec(),
    {
        match self {
            ImageError::ZeroDimensions => "image dimensions must be non-zero".to_string(),
            ImageError::BufferSize { expected, actual } => {
                let mut out: String = "pixel buffer is ".to_string();
                text::push_decimal(&mut out, *actual as u64);
                out.append(" bytes, expected ");
                text::push_decimal(&mut out, *expected as u64);
                out
            },
        }
    }
}

/// A decoded raster image. Rows are tightly packed (stride = width × channels).
///
/// The ICC profile travels with the pixels so encoders can embed it; dropping it silently
/// shifts colors of wide-gamut sources.
#[derive(Debug, PartialEq)]
pub struct Image {
    dimensions: Dimensions,
    format: PixelFormat,
    data: Vec<u8>,
    icc_profile: Option<Vec<u8>>,
}

/// What an [`Image`] holds.
pub struct ImageView {
    pub dimensions: Dimensions,
    pub format: PixelFormat,
    pub data: Seq<u8>,
    pub icc_profile: Option<Seq<u8>>,
}

/// The number of bytes of an image.
pub open spec fn buffer_len(dimensions: Dimensions, format: PixelFormat) -> nat {
    dimensions.area() * format.channel_count()
}

/// The bytes of an optional buffer.
pub open spec fn optional_bytes(bytes: Option<Vec<u8>>) -> Option<Seq<u8>> {
    match bytes {
        Some(v) => Some(v@),
        None => None,
    }
}

/// One color sample composited onto an opaque background sample, rounded.
pub open spec fn blend(c: u8, background: u8, alpha: u8) -> u8 {
    ((c * alpha + background * (255 - alpha) + 127) / 255) as u8
}

impl ImageView {
    /// There is at least one pixel, and the buffer holds every sample and nothing else.
    pub open spec fn well_formed(self) -> bool {
        &&& self.dimensions.nonzero()
        &&& self.data.len() == buffer_len(self.dimensions, self.format)
    }

    /// Whether some pixel is not opaque.
    pub open spec fn transparent(self) -> bool {
        self.format == PixelFormat::Rgba8 && exists|p: int|
            0 <= p < self.dimensions.area() && #[trigger] self.alpha(p) != 255
    }

    /// The alpha sample of a pixel.
    pub open spec fn alpha(self, p: int) -> u8 {
        self.data[4 * p + 3]
    }

    /// The samples composited onto an opaque background.
    pub open spec fn flattened_data(self, background: Seq<u8>) -> Seq<u8> {
        match self.format {
            PixelFormat::Rgb8 => self.data,
            PixelFormat::Rgba8 => Seq::new(
                3 * self.dimensions.area(),
                |i: int|
                    blend(
                        self.data[4 * (i / 3) + i % 3],
                        background[i % 3],
                        self.data[4 * (i / 3) + 3],
                    ),
            ),
        }
    }

    /// The opaque image on a background.
    pub open spec fn flattened(self, background: Seq<u8>) -> ImageView {
        ImageView {
            dimensions: self.dimensions,
            format: PixelFormat::Rgb8,
            data: self.flattened_data(background),
            icc_profile: self.icc_profile,
        }
    }
}

impl View for Image {
    type V = ImageView;

    closed spec fn view(&self) -> ImageView {
        ImageView {
            dimensions: self.dimensions,
            format: self.format,
            data: self.data@,
            icc_profile: optional_bytes(self.icc_profile),
        }
    }
}

impl Clone for Image {
    fn clone(&self) -> (r: Self)
        ensures
            r@ == self@,
    {
        proof {
            use_type_invariant(self);
        }
        let icc_profile: Option<Vec<u8>> = match &self.icc_profile {
            Some(p) => Some(p.clone()),
            None => None,
        };
        Image { dimensions: self.dimensions, format: self.format, data: self.data.clone(), icc_profile }
    }
}

impl Image {
    #[verifier::type_invariant]
    closed spec fn holds_every_sample(self) -> bool {
        &&& self.dimensions.nonzero()
        &&& self.data@.len() == buffer_len(self.dimensions, self.format)
    }

    pub fn new(dimensions: Dimensions, format: PixelFormat, data: Vec<u8>) -> (r: Result<
        Self,
        ImageError,
    >)
        requires
            dimensions.nonzero() ==> buffer_len(dimensions, format) <= usize::MAX,
        ensures
            r is Ok <==> dimensions.nonzero() && data@.len() == buffer_len(dimensions, format),
            r matches Ok(image) ==> image@ == (ImageView {
                dimensions,
                format,
                data: data@,
                icc_profile: None,
            }),
            r matches Err(e) ==> e == if !dimensions.nonzero() {
                ImageError::ZeroDimensions
            } else {
                ImageError::BufferSize {
                    expected: buffer_len(dimensions, format) as usize,
                    actual: data@.len() as usize,
                }
            },
    {
        if dimensions.width == 0 || dimensions.height == 0 {
            return Err(ImageError::ZeroDimensions);
        }
        proof {
            assert(dimensions.area() <= buffer_len(dimensions, format));
        }
        let expected: usize = dimensions.pixels() as usize * format.channels();
        if data.len() != expected {
            return Err(ImageError::BufferSize { expected, actual: data.len() });
        }
        Ok(Self { dimensions, format, data, icc_profile: None })
    }

    pub fn with_icc_profile(self, icc_profile: Option<Vec<u8>>) -> (r: Self)
        ensures
            r@ == (ImageView { icc_profile: optional_bytes(icc_profile), ..self@ }),
    {
        proof {
            use_type_invariant(&self);
        }
        Image { dimensions: self.dimensions, format: self.format, data: self.data, icc_profile }
    }

    pub fn dimensions(&self) -> (r: Dimensions)
        ensures
            r == self@.dimensions,
            self@.well_formed(),
    {
        proof {
            use_type_invariant(self);
        }
        self.dimensions
    }

    pub fn format(&self) -> (r: PixelFormat)
        ensures
            r == self@.format,
            self@.well_formed(),
    {
        proof {
            use_type_invariant(self);
        }
        self.format
    }

    pub fn data(&self) -> (r: &[u8])
        ensures
            r@ == self@.data,
            self@.well_formed(),
    {
        proof {
            use_type_invariant(self);
        }
        self.data.as_slice()
    }

    pub fn icc_profile(&self) -> (r: Option<&[u8]>)
        ensures
            (match r {
                Some(p) => self@.icc_profile == Some(p@),
                None => self@.icc_profile is None,
            }),
    {
        match &self.icc_profile {
            Some(p) => Some(p.as_slice()),
            None => None,
        }
    }

    /// The number of bytes of one row.
    pub fn stride(&self) -> (r: usize)
        ensures
            r == self@.dimensions.width * self@.format.channel_count(),
    {
        proof {
            use_type_invariant(self);
            lemma_stride_bound(self.dimensions, self.format);
            assert(self.data.len() <= usize::MAX);
        }
        self.dimensions.width as usize * self.format.channels()
    }

    /// True if the image has an alpha channel with at least one non-opaque pixel.
    pub fn has_transparency(&self) -> (r: bool)
        ensures
            r == self@.transparent(),
    {
        proof {
            use_type_invariant(self);
        }
        if !self.format.has_alpha() {
            return false;
        }
        let mut p: usize = 0;
        let len: usize = self.data.len();
        let n: usize = len / 4;
        while p < n
            invariant
                p <= n,
                4 * n == len,
                len == self.data@.len(),
                n == self@.dimensions.area(),
                self@.format == PixelFormat::Rgba8,
                forall|j: int| 0 <= j < p ==> #[trigger] self@.alpha(j) == 255,
            decreases n - p,
        {
            if self.data[4 * p + 3] != 255 {
                proof {
                    assert(self@.alpha(p as int) != 255);
                }
                return true;
            }
            p = p + 1;
        }
        false
    }

    /// Composite onto an opaque background, producing an RGB image.
    pub fn flatten(&self, background: [u8; 3]) -> (r: Image)
        ensures
            r@ == self@.flattened(background@),
    {
        proof {
            use_type_invariant(self);
        }
        let data: Vec<u8> = match self.format {
            PixelFormat::Rgb8 => self.data.clone(),
            PixelFormat::Rgba8 => flatten_samples(&self.data, background),
        };
        let icc_profile: Option<Vec<u8>> = match &self.icc_profile {
            Some(p) => Some(p.clone()),
            None => None,
        };
        proof {
            assert(data@ =~= self@.flattened_data(background@));
        }
        Image { dimensions: self.dimensions, format: PixelFormat::Rgb8, data, icc_profile }
    }
}

proof fn lemma_stride_bound(dimensions: Dimensions, format: PixelFormat)
    requires
        dimensions.nonzero(),
    ensures
        dimensions.width * format.channel_count() <= buffer_len(dimensions, format),
{
    assert(dimensions.width * format.channel_count() <= (dimensions.width * dimensions.height)
        * format.channel_count()) by (nonlinear_arith)
        requires
            dimensions.height >= 1,
            dimensions.width >= 0,
            format.channel_count() >= 0,
    ;
}

/// One color sample on a background.
fn blend_sample(c: u8, background: u8, alpha: u8) -> (r: u8)
    ensures
        r == blend(c, background, alpha),
{
    let a: u32 = alpha as u32;
    proof {
        assert(c * alpha <= 255 * alpha && background * (255 - alpha) <= 255 * (255 - alpha))
            by (nonlinear_arith)
            requires
                c <= 255,
                background <= 255,
                0 <= alpha <= 255,
        ;
    }
    ((c as u32 * a + background as u32 * (255 - a) + 127) / 255) as u8
}

/// The samples of RGBA pixels on a background.
fn flatten_samples(data: &Vec<u8>, background: [u8; 3]) -> (r: Vec<u8>)
    requires
        data@.len() % 4 == 0,
    ensures
        r@.len() == data@.len() / 4 * 3,
        forall|i: int|
            0 <= i < r@.len() ==> #[trigger] r@[i] == blend(
                data@[4 * (i / 3) + i % 3],
                background@[i % 3],
                data@[4 * (i / 3) + 3],
            ),
{
    let mut out: Vec<u8> = Vec::new();
    let len: usize = data.len();
    let n: usize = len / 4;
    let mut p: usize = 0;
    while p < n
        invariant
            p <= n,
            4 * n == len,
            len == data@.len(),
            out@.len() == 3 * p,
            forall|i: int|
                0 <= i < out@.len() ==> #[trigger] out@[i] == blend(
                    data@[4 * (i / 3) + i % 3],
                    background@[i % 3],
                    data@[4 * (i / 3) + 3],
                ),
        decreases n - p,
    {
        let a: u8 = data[4 * p + 3];
        out.push(blend_sample(data[4 * p], background[0], a));
        out.push(blend_sample(data[4 * p + 1], background[1], a));
        out.push(blend_sample(data[4 * p + 2], background[2], a));
        p = p + 1;
    }
    out
}

/// A composited sample is the mean of color and background, weighted by alpha and rounded to the
/// nearest: it is off by less than half. Opaque samples stay, and of invisible ones the background
/// is left.
pub proof fn lemma_blend_is_the_weighted_mean(c: u8, background: u8, alpha: u8)
    ensures
        -127 <= 255 * blend(c, background, alpha) - (c * alpha + background * (255 - alpha)) <= 127,
        alpha == 255 ==> blend(c, background, alpha) == c,
        alpha == 0 ==> blend(c, background, alpha) == background,
        c == background ==> blend(c, background, alpha) == c,
{
    let n = c * alpha + background * (255 - alpha);
    assert(0 <= c * alpha <= 255 * alpha && 0 <= background * (255 - alpha) <= 255 * (255 - alpha))
        by (nonlinear_arith)
        requires
            0 <= c <= 255,
            0 <= background <= 255,
            0 <= alpha <= 255,
    ;
    assert((c == background ==> n == 255 * c) && (alpha == 0 ==> n == 255 * background) && (alpha
        == 255 ==> n == 255 * c)) by (nonlinear_arith)
        requires
            n == c * alpha + background * (255 - alpha),
    ;
}

/// Compositing goes pixel by pixel: every color sample is mixed with the background sample of its
/// own channel, by the alpha of its own pixel. Without alpha nothing changes.
pub proof fn lemma_flattening_goes_by_pixels(image: ImageView, background: Seq<u8>, p: int, ch: int)
    requires
        image.well_formed(),
        0 <= p < image.dimensions.area(),
        0 <= ch < 3,
    ensures
        image.format == PixelFormat::Rgb8 ==> image.flattened_data(background) == image.data,
        image.flattened_data(background).len() == 3 * image.dimensions.area(),
        image.format == PixelFormat::Rgba8 ==> -127 <= 255 * image.flattened_data(background)[3 * p
            + ch] - (image.data[4 * p + ch] * image.data[4 * p + 3] + background[ch] * (255
            - image.data[4 * p + 3])) <= 127,
        image.flattened(background).dimensions == image.dimensions,
        image.flattened(background).icc_profile == image.icc_profile,
        image.flattened(background).format == PixelFormat::Rgb8,
        image.flattened(background).data == image.flattened_data(background),
{
    let i = 3 * p + ch;
    assert(i / 3 == p && i % 3 == ch);
    assert(0 <= i < 3 * image.dimensions.area());
    lemma_blend_is_the_weighted_mean(
        image.data[4 * p + ch],
        background[ch],
        image.data[4 * p + 3],
    );
}

/// An image is transparent exactly where some pixel has an alpha below 255, and an image that is not
/// looks the same on every background.
pub proof fn lemma_opaque_images_hide_the_background(
    image: ImageView,
    background: Seq<u8>,
    other: Seq<u8>,
)
    requires
        image.well_formed(),
    ensures
        image.transparent() <==> image.format == PixelFormat::Rgba8 && exists|i: int|
            0 <= i < image.data.len() && i % 4 == 3 && #[trigger] image.data[i] != 255,
        !image.transparent() ==> image.flattened_data(background) == image.flattened_data(other),
{
    if image.format == PixelFormat::Rgba8 {
        if exists|i: int| 0 <= i < image.data.len() && i % 4 == 3 && #[trigger] image.data[i] != 255 {
            let i = choose|i: int|
                0 <= i < image.data.len() && i % 4 == 3 && #[trigger] image.data[i] != 255;
            assert(image.alpha(i / 4) != 255);
        }
        if image.transparent() {
            let p = choose|p: int|
                0 <= p < image.dimensions.area() && #[trigger] image.alpha(p) != 255;
            assert(image.data[4 * p + 3] != 255);
        } else {
            let (a, b) = (image.flattened_data(background), image.flattened_data(other));
            assert forall|i: int| 0 <= i < a.len() implies a[i] == b[i] by {
                assert(image.alpha(i / 3) == 255);
                lemma_blend_is_the_weighted_mean(
                    image.data[4 * (i / 3) + i % 3],
                    background[i % 3],
                    255,
                );
                lemma_blend_is_the_weighted_mean(
                    image.data[4 * (i / 3) + i % 3],
                    other[i % 3],
                    255,
                );
            }
            assert(a =~= b);
        }
    }
}

/// Formats differ in their extensions and in their types.
pub proof fn lemma_formats_are_told_apart(a: ImageFormat, b: ImageFormat)
    requires
        a != b,
    ensures
        a.extension_spec() != b.extension_spec(),
        a.mime_type_spec() != b.mime_type_spec(),
        forall|i: int|
            0 <= i < a.extension_spec().len() ==> 'a' <= #[trigger] a.extension_spec()[i] <= 'z',
        a.extension_spec().len() > 0,
{
    reveal_strlit("jpg");
    reveal_strlit("webp");
    reveal_strlit("avif");
    reveal_strlit("png");
    reveal_strlit("image/jpeg");
    reveal_strlit("image/webp");
    reveal_strlit("image/avif");
    reveal_strlit("image/png");
    let (x, y) = (a.extension_spec(), b.extension_spec());
    let (v, w) = (a.mime_type_spec(), b.mime_type_spec());
    assert(x.len() != y.len() || x[0] != y[0] || x[1] != y[1]);
    assert(v.len() != w.len() || v[6] != w[6] || v[7] != w[7]);
}

} // verus!
