//! Psychovisual metrics: SSIMULACRA2 and Butteraugli.
//!
//! Both take opaque sRGB input. Images with alpha are composited over black and over white and
//! the worse result is reported.

use vstd::prelude::*;

use crate::binary64::Binary64;
use crate::geometry::Dimensions;
use crate::metrics::{Metric, MetricError};
use crate::report::{self, Direction, MetricId};
use crate::text;
use crate::types::{self, Image, ImageView, PixelFormat};

verus! {

/// The backgrounds that two images are composited onto.
pub open spec fn backdrops(reference: ImageView, candidate: ImageView) -> Seq<[u8; 3]> {
    if reference.format == PixelFormat::Rgba8 || candidate.format == PixelFormat::Rgba8 {
        seq![[0u8, 0u8, 0u8], [255u8, 255u8, 255u8]]
    } else {
        seq![[0u8, 0u8, 0u8]]
    }
}

pub fn backgrounds(reference: &Image, candidate: &Image) -> (r: Vec<[u8; 3]>)
    ensures
        r@ == backdrops(reference@, candidate@),
{
    let mut out: Vec<[u8; 3]> = Vec::new();
    out.push([0u8, 0u8, 0u8]);
    if reference.format().has_alpha() || candidate.format().has_alpha() {
        out.push([255u8, 255u8, 255u8]);
    }
    out
}

/// The worse of two scores.
pub open spec fn worse(a: Binary64, b: Binary64, direction: Direction) -> Binary64 {
    match direction {
        Direction::HigherIsBetter => a.smaller(b),
        Direction::LowerIsBetter => a.larger(b),
    }
}

/// The worst of some scores.
pub open spec fn worst_of(scores: Seq<Binary64>, direction: Direction) -> Binary64
    decreases scores.len(),
{
    if scores.len() <= 1 {
        scores[0]
    } else {
        worse(worst_of(scores.drop_last(), direction), scores.last(), direction)
    }
}

pub fn worst(scores: &Vec<Binary64>, direction: Direction) -> (r: Result<Binary64, MetricError>)
    ensures
        (match r {
            Ok(score) => scores@.len() > 0 && score == worst_of(scores@, direction),
            Err(MetricError::Evaluation(message)) => scores@.len() == 0 && message@
                == "no composites"@,
            Err(_) => false,
        }),
{
    if scores.len() == 0 {
        return Err(MetricError::Evaluation("no composites".to_string()));
    }
    let mut score: Binary64 = scores[0];
    let mut i: usize = 1;
    proof {
        assert(scores@.take(1).len() == 1);
    }
    while i < scores.len()
        invariant
            1 <= i <= scores@.len(),
            score == worst_of(scores@.take(i as int), direction),
        decreases scores@.len() - i,
    {
        proof {
            assert(scores@.take(i + 1).drop_last() =~= scores@.take(i as int));
        }
        score = match direction {
            Direction::HigherIsBetter => score.min(scores[i]),
            Direction::LowerIsBetter => score.max(scores[i]),
        };
        i = i + 1;
    }
    proof {
        assert(scores@.take(i as int) =~= scores@);
    }
    Ok(score)
}

/// SSIMULACRA2 (rust-av implementation). Scale: 100 = identical, ~90 visually lossless,
/// ~70 high quality, ~50 medium, below 30 low.
#[derive(Debug, Default, Clone, Copy)]
pub struct Ssimulacra2;

#[derive(Debug, Clone, Copy, PartialEq, Eq, Structural)]
pub enum ButteraugliNorm {
    /// Worst local difference: the classic Butteraugli distance (~1.0 = barely visible).
    Max,
    /// 3-norm over the difference map; far less sensitive to a single bad pixel.
    PNorm3,
}

impl Default for ButteraugliNorm {
    fn default() -> (r: Self)
        ensures
            r == ButteraugliNorm::Max,
    {
        ButteraugliNorm::Max
    }
}

/// Butteraugli (imazen's pure-Rust implementation). Lower is better.
#[derive(Debug, Clone, Copy)]
pub struct Butteraugli {
    pub norm: ButteraugliNorm,
}

impl Default for Butteraugli {
    fn default() -> (r: Self)
        ensures
            r.norm == ButteraugliNorm::Max,
    {
        Butteraugli { norm: ButteraugliNorm::Max }
    }
}

/// Whether [`ssimulacra2::compute_frame_ssimulacra2`] may return a score, given as the bits of
/// a double, for two opaque images of these dimensions. Its arithmetic uses the machine's
/// floating-point library, so more than one score may be possible.
pub uninterp spec fn ssimulacra2_gives(
    reference: Seq<u8>,
    candidate: Seq<u8>,
    width: u32,
    height: u32,
    score: u64,
) -> bool;

/// [`ssimulacra2::compute_frame_ssimulacra2`] on two sRGB images, whose samples are handed over
/// as fractions of 255. Images of different dimensions are refused, then images with a side of
/// less than 8 pixels; every other pair has a score. Which score is not said, only that it is
/// one the function may return for these samples.
#[verifier::external_body]
fn compute_ssimulacra2(
    reference: Vec<u8>,
    shape: Dimensions,
    candidate: Vec<u8>,
    other: Dimensions,
) -> (r: Result<Binary64, String>)
    requires
        shape.nonzero(),
        other.nonzero(),
        reference@.len() == types::buffer_len(shape, PixelFormat::Rgb8),
        candidate@.len() == types::buffer_len(other, PixelFormat::Rgb8),
    ensures
        (match r {
            Ok(score) => shape == other && shape.width >= 8 && shape.height >= 8
                && ssimulacra2_gives(
                reference@,
                candidate@,
                shape.width,
                shape.height,
                score.bits,
            ),
            Err(message) => if shape != other {
                message@ == "Source and distorted image width and height must be equal"@
            } else {
                (shape.width < 8 || shape.height < 8) && message@
                    == "Images must be at least 8x8 pixels"@
            },
        }),
{
    let rgb = |samples: Vec<u8>, d: Dimensions| -> Result<ssimulacra2::Rgb, String> {
        let buffer = image::RgbImage::from_raw(d.width, d.height, samples).ok_or("buffer")?;
        let pixels = image::DynamicImage::from(buffer).into_rgb32f();
        ssimulacra2::Rgb::new(
            pixels.pixels().map(|p| p.0).collect(),
            d.width as usize,
            d.height as usize,
            ssimulacra2::TransferCharacteristic::SRGB,
            ssimulacra2::ColorPrimaries::BT709,
        ).map_err(|e| format!("{e:?}"))
    };
    ssimulacra2::compute_frame_ssimulacra2(rgb(reference, shape)?, rgb(candidate, other)?)
        .map(|score| Binary64::from_bits(score.to_bits())).map_err(|e| e.to_string())
}

/// What SSIMULACRA2 may give for two images on a background.
pub open spec fn ssimulacra2_on(
    reference: ImageView,
    candidate: ImageView,
    background: [u8; 3],
    score: Binary64,
) -> bool {
    ssimulacra2_gives(
        reference.flattened_data(background@),
        candidate.flattened_data(background@),
        reference.dimensions.width,
        reference.dimensions.height,
        score.bits,
    )
}

/// Whether a score is the worst of scores that SSIMULACRA2 may give on the backgrounds.
pub open spec fn ssimulacra2_scored(
    reference: ImageView,
    candidate: ImageView,
    score: Binary64,
) -> bool {
    exists|scores: Seq<Binary64>|
        {
            &&& scores.len() == backdrops(reference, candidate).len()
            &&& forall|k: int|
                0 <= k < scores.len() ==> ssimulacra2_on(
                    reference,
                    candidate,
                    backdrops(reference, candidate)[k],
                    #[trigger] scores[k],
                )
            &&& score == #[trigger] worst_of(scores, Direction::HigherIsBetter)
        }
}

impl Metric for Ssimulacra2 {
    fn id(&self) -> (r: MetricId)
        ensures
            r.name@ == "ssimulacra2"@,
            r.version@ == "rust-av-0.5"@,
    {
        MetricId::new("ssimulacra2", "rust-av-0.5")
    }

    fn direction(&self) -> (r: Direction)
        ensures
            r == Direction::HigherIsBetter,
    {
        Direction::HigherIsBetter
    }

    /// The worse score over the backgrounds, for images of the same dimensions with no side
    /// below 8 pixels; other images are refused.
    fn score(&self, reference: &Image, candidate: &Image) -> (r: Result<Binary64, MetricError>)
        ensures
            (match r {
                Ok(score) => {
                    &&& reference@.dimensions == candidate@.dimensions
                    &&& reference@.dimensions.width >= 8
                    &&& reference@.dimensions.height >= 8
                    &&& ssimulacra2_scored(reference@, candidate@, score)
                },
                Err(MetricError::Evaluation(message)) => if reference@.dimensions
                    != candidate@.dimensions {
                    message@ == "Source and distorted image width and height must be equal"@
                } else {
                    &&& reference@.dimensions.width < 8 || reference@.dimensions.height < 8
                    &&& message@ == "Images must be at least 8x8 pixels"@
                },
                Err(_) => false,
            }),
    {
        let shades: Vec<[u8; 3]> = backgrounds(reference, candidate);
        let shape: Dimensions = reference.dimensions();
        let other: Dimensions = candidate.dimensions();
        let mut scores: Vec<Binary64> = Vec::new();
        let mut k: usize = 0;
        while k < shades.len()
            invariant
                k <= shades@.len(),
                shades@ == backdrops(reference@, candidate@),
                scores@.len() == k,
                shape == reference@.dimensions,
                other == candidate@.dimensions,
                k > 0 ==> shape == other && shape.width >= 8 && shape.height >= 8,
                forall|j: int|
                    0 <= j < k ==> ssimulacra2_on(
                        reference@,
                        candidate@,
                        shades@[j],
                        #[trigger] scores@[j],
                    ),
            decreases shades@.len() - k,
        {
            let a: Vec<u8> = composite(reference, shades[k]);
            let b: Vec<u8> = composite(candidate, shades[k]);
            match compute_ssimulacra2(a, shape, b, other) {
                Ok(score) => {
                    scores.push(score);
                },
                Err(message) => {
                    return Err(MetricError::Evaluation(message));
                },
            }
            k = k + 1;
        }
        let direction: Direction = self.direction();
        worst(&scores, direction)
    }
}

/// The samples of an image on an opaque background.
fn composite(image: &Image, background: [u8; 3]) -> (r: Vec<u8>)
    ensures
        image@.dimensions.nonzero(),
        r@ == image@.flattened_data(background@),
        r@.len() == types::buffer_len(image@.dimensions, PixelFormat::Rgb8),
{
    let flat: Image = image.flatten(background);
    let dimensions: Dimensions = flat.dimensions();
    vstd::slice::slice_to_vec(flat.data())
}

/// Whether [`butteraugli::butteraugli`] may come to this for the first rows of two lists of opaque
/// samples: a score and a 3-norm, given as the bits of doubles, or none where the score would not
/// be finite. Its arithmetic depends on the vector instructions of the machine, so more than one
/// outcome may be possible.
pub uninterp spec fn butteraugli_gives(
    reference: Seq<u8>,
    candidate: Seq<u8>,
    width: u32,
    height: u32,
    r: Option<(u64, u64)>,
) -> bool;

/// [`butteraugli::butteraugli`] on two sRGB images with its default parameters. Images with a
/// side of less than 8 pixels are refused. Every other pair has a score and a 3-norm, unless
/// the score would not be finite. For the same samples both are zero; of others it is only said
/// that the function may return them, or fail, for these samples. Samples behind those of the last
/// row are ignored.
#[verifier::external_body]
fn compute_butteraugli(
    reference: &Vec<u8>,
    candidate: &Vec<u8>,
    width: u32,
    height: u32,
) -> (r: Result<(Binary64, Binary64), String>)
    requires
        width > 0,
        height > 0,
        reference@.len() == 3 * (width * height),
        width >= 8 && height >= 8 ==> candidate@.len() >= 3 * (width * height),
        candidate@.len() % 3 == 0,
    ensures
        (match r {
            Ok(result) => {
                &&& width >= 8
                &&& height >= 8
                &&& result.0.finite()
                &&& candidate@.take(reference@.len() as int) == reference@ ==> result.0.bits == 0
                    && result.1.bits == 0
                &&& butteraugli_gives(
                    reference@,
                    candidate@,
                    width,
                    height,
                    Some((result.0.bits, result.1.bits)),
                )
            },
            Err(message) => if width < 8 || height < 8 {
                message@ == too_small(width, height)
            } else {
                &&& candidate@.take(reference@.len() as int) != reference@
                &&& butteraugli_gives(reference@, candidate@, width, height, None)
                &&& message@ == "score computation produced NaN or infinity (check input pixels)"@
            },
        }),
{
    let pixels = |samples: &Vec<u8>| -> Vec<butteraugli::RGB8> {
        samples.chunks_exact(3).map(|p| butteraugli::RGB8::new(p[0], p[1], p[2])).collect()
    };
    let (a, b) = (pixels(reference), pixels(candidate));
    let (w, h) = (width as usize, height as usize);
    butteraugli::butteraugli(
        butteraugli::ImgRef::new(&a, w, h),
        butteraugli::ImgRef::new(&b, w, h),
        &butteraugli::ButteraugliParams::default(),
    ).map(|r| (Binary64::from_bits(r.score.to_bits()), Binary64::from_bits(r.pnorm_3.to_bits())))
        .map_err(|e| e.to_string())
}

/// The complaint about an image with a side of less than 8 pixels.
pub open spec fn too_small(width: u32, height: u32) -> Seq<char> {
    "image too small: "@ + text::decimal(width as nat) + "x"@ + text::decimal(height as nat)
        + " (minimum 8x8)"@
}

impl ButteraugliNorm {
    /// The norm's part of a score and a 3-norm.
    pub open spec fn part(self, score: Binary64, pnorm: Binary64) -> Binary64 {
        match self {
            ButteraugliNorm::Max => score,
            ButteraugliNorm::PNorm3 => pnorm,
        }
    }
}

/// Whether a score is the norm's part of what Butteraugli may give for two images on a
/// background.
pub open spec fn butteraugli_on(
    reference: ImageView,
    candidate: ImageView,
    background: [u8; 3],
    norm: ButteraugliNorm,
    score: Binary64,
) -> bool {
    exists|a: Binary64, b: Binary64|
        score == #[trigger] norm.part(a, b) && butteraugli_gives(
            reference.flattened_data(background@),
            candidate.flattened_data(background@),
            reference.dimensions.width,
            reference.dimensions.height,
            Some((a.bits, b.bits)),
        )
}

/// Whether Butteraugli may find no finite score for two images on a background.
pub open spec fn butteraugli_fails_on(
    reference: ImageView,
    candidate: ImageView,
    background: [u8; 3],
) -> bool {
    butteraugli_gives(
        reference.flattened_data(background@),
        candidate.flattened_data(background@),
        reference.dimensions.width,
        reference.dimensions.height,
        None,
    )
}

/// Whether a background is the first on which Butteraugli finds no finite score: it may find none
/// there, and those before it may have scores.
pub open spec fn butteraugli_stops_at(
    reference: ImageView,
    candidate: ImageView,
    norm: ButteraugliNorm,
    k: int,
) -> bool {
    let shades = backdrops(reference, candidate);
    &&& 0 <= k < shades.len()
    &&& butteraugli_fails_on(reference, candidate, shades[k])
    &&& forall|j: int|
        0 <= j < k ==> exists|score: Binary64|
            butteraugli_on(reference, candidate, #[trigger] shades[j], norm, score)
}

/// Whether a score is the worst of scores that Butteraugli may give on the backgrounds.
pub open spec fn butteraugli_scored(
    reference: ImageView,
    candidate: ImageView,
    norm: ButteraugliNorm,
    score: Binary64,
) -> bool {
    exists|scores: Seq<Binary64>|
        {
            &&& scores.len() == backdrops(reference, candidate).len()
            &&& forall|k: int|
                0 <= k < scores.len() ==> butteraugli_on(
                    reference,
                    candidate,
                    backdrops(reference, candidate)[k],
                    norm,
                    #[trigger] scores[k],
                )
            &&& score == #[trigger] worst_of(scores, Direction::LowerIsBetter)
        }
}

/// Whether a reference with sides of at least 8 pixels has more pixels than the candidate, so
/// that the two cannot be compared.
pub open spec fn outgrown(reference: ImageView, candidate: ImageView) -> bool {
    &&& reference.dimensions.width >= 8
    &&& reference.dimensions.height >= 8
    &&& candidate.dimensions.area() < reference.dimensions.area()
}

/// The worst of some zeros is zero.
proof fn lemma_worst_of_zeros(scores: Seq<Binary64>, direction: Direction)
    requires
        scores.len() > 0,
        forall|j: int| 0 <= j < scores.len() ==> (#[trigger] scores[j]).bits == 0,
    ensures
        worst_of(scores, direction).bits == 0,
    decreases scores.len(),
{
    if scores.len() > 1 {
        lemma_worst_of_zeros(scores.drop_last(), direction);
    }
}

impl Metric for Butteraugli {
    fn id(&self) -> (r: MetricId)
        ensures
            r.name@ == (match self.norm {
                ButteraugliNorm::Max => "butteraugli"@,
                ButteraugliNorm::PNorm3 => "butteraugli-pnorm3"@,
            }),
            r.version@ == "imazen-0.9"@,
    {
        let name: &str = match self.norm {
            ButteraugliNorm::Max => "butteraugli",
            ButteraugliNorm::PNorm3 => "butteraugli-pnorm3",
        };
        MetricId::new(name, "imazen-0.9")
    }

    fn direction(&self) -> (r: Direction)
        ensures
            r == Direction::LowerIsBetter,
    {
        Direction::LowerIsBetter
    }

    /// The worse score over the backgrounds, which is zero for an image and itself. A side below
    /// 8 pixels is refused, and a candidate with fewer pixels than the reference; of one with
    /// more, as many as the reference has are compared. Otherwise it fails only where Butteraugli
    /// finds no finite score on some background.
    fn score(&self, reference: &Image, candidate: &Image) -> (r: Result<Binary64, MetricError>)
        ensures
            reference@ == candidate@ && reference@.dimensions.width >= 8
                && reference@.dimensions.height >= 8 ==> r is Ok && r->Ok_0.bits == 0,
            (match r {
                Ok(score) => {
                    &&& reference@.dimensions.width >= 8
                    &&& reference@.dimensions.height >= 8
                    &&& !outgrown(reference@, candidate@)
                    &&& butteraugli_scored(reference@, candidate@, self.norm, score)
                },
                Err(MetricError::Evaluation(message)) => {
                    &&& !outgrown(reference@, candidate@)
                    &&& if reference@.dimensions.width < 8 || reference@.dimensions.height < 8 {
                        message@ == too_small(
                            reference@.dimensions.width,
                            reference@.dimensions.height,
                        )
                    } else {
                        &&& exists|k: int|
                            #[trigger] butteraugli_stops_at(reference@, candidate@, self.norm, k)
                        &&& message@
                            == "score computation produced NaN or infinity (check input pixels)"@
                    }
                },
                Err(MetricError::DimensionMismatch { reference: a, candidate: b }) => {
                    &&& outgrown(reference@, candidate@)
                    &&& a == reference@.dimensions
                    &&& b == candidate@.dimensions
                },
                Err(_) => false,
            }),
    {
        let shades: Vec<[u8; 3]> = backgrounds(reference, candidate);
        let shape: Dimensions = reference.dimensions();
        let other: Dimensions = candidate.dimensions();
        if shape.width >= 8 && shape.height >= 8 && other.pixels() < shape.pixels() {
            return Err(MetricError::DimensionMismatch { reference: shape, candidate: other });
        }
        let mut scores: Vec<Binary64> = Vec::new();
        let mut k: usize = 0;
        while k < shades.len()
            invariant
                k <= shades@.len(),
                shades@ == backdrops(reference@, candidate@),
                scores@.len() == k,
                shape == reference@.dimensions,
                other == candidate@.dimensions,
                shape.nonzero(),
                !outgrown(reference@, candidate@),
                k > 0 ==> shape.width >= 8 && shape.height >= 8,
                reference@ == candidate@ ==> forall|j: int|
                    0 <= j < k ==> (#[trigger] scores@[j]).bits == 0,
                forall|j: int|
                    0 <= j < k ==> butteraugli_on(
                        reference@,
                        candidate@,
                        shades@[j],
                        self.norm,
                        #[trigger] scores@[j],
                    ),
            decreases shades@.len() - k,
        {
            let a: Vec<u8> = composite(reference, shades[k]);
            let b: Vec<u8> = composite(candidate, shades[k]);
            proof {
                if reference@ == candidate@ {
                    assert(b@.take(a@.len() as int) =~= a@);
                }
            }
            match compute_butteraugli(&a, &b, shape.width, shape.height) {
                Ok(result) => {
                    let part: Binary64 = match self.norm {
                        ButteraugliNorm::Max => result.0,
                        ButteraugliNorm::PNorm3 => result.1,
                    };
                    proof {
                        assert(part == self.norm.part(result.0, result.1));
                        assert(butteraugli_on(
                            reference@,
                            candidate@,
                            shades@[k as int],
                            self.norm,
                            part,
                        ));
                    }
                    scores.push(part);
                },
                Err(message) => {
                    proof {
                        assert(shape.width >= 8 && shape.height >= 8 ==> butteraugli_stops_at(
                            reference@,
                            candidate@,
                            self.norm,
                            k as int,
                        )) by {
                            assert forall|j: int| 0 <= j < k implies exists|score: Binary64|
                                butteraugli_on(
                                    reference@,
                                    candidate@,
                                    #[trigger] shades@[j],
                                    self.norm,
                                    score,
                                ) by {
                                assert(butteraugli_on(
                                    reference@,
                                    candidate@,
                                    shades@[j],
                                    self.norm,
                                    scores@[j],
                                ));
                            }
                        }
                    }
                    return Err(MetricError::Evaluation(message));
                },
            }
            k = k + 1;
        }
        let direction: Direction = self.direction();
        proof {
            if reference@ == candidate@ {
                lemma_worst_of_zeros(scores@, direction);
            }
        }
        worst(&scores, direction)
    }
}

/// The worst of some numbers is one of them, and none is worse.
pub proof fn lemma_worst_is_the_worst(scores: Seq<Binary64>, direction: Direction, i: int)
    requires
        0 <= i < scores.len(),
        forall|k: int|
            0 <= k < scores.len() ==> report::no_less(
                (#[trigger] scores[k]).bits,
                scores[k].bits,
            ),
    ensures
        scores.contains(worst_of(scores, direction)),
        report::on_the_right_side(
            direction,
            scores[i].bits,
            worst_of(scores, direction).bits,
        ),
    decreases scores.len(),
{
    assert(report::no_less(scores[i].bits, scores[i].bits));
    if scores.len() == 1 {
        assert(scores[0] == worst_of(scores, direction));
    } else {
        let rest = scores.drop_last();
        let last = scores.last();
        assert(report::no_less(scores[scores.len() - 1].bits, scores[scores.len() - 1].bits));
        assert forall|k: int| 0 <= k < rest.len() implies report::no_less(
            (#[trigger] rest[k]).bits,
            rest[k].bits,
        ) by {
            assert(rest[k] == scores[k]);
        }
        lemma_worst_is_the_worst(rest, direction, 0);
        let w = worst_of(rest, direction);
        let j = choose|j: int| 0 <= j < rest.len() && rest[j] == w;
        assert(scores[j] == w);
        assert(report::no_less(w.bits, w.bits));
        assert(scores[scores.len() - 1] == last);
        if i < scores.len() - 1 {
            lemma_worst_is_the_worst(rest, direction, i);
            assert(rest[i] == scores[i]);
        }
    }
}

/// Images are compared on black, and where one of them has alpha on white too, so that what is
/// invisible on one of them shows on the other.
pub proof fn lemma_backgrounds_are_black_and_white(reference: ImageView, candidate: ImageView)
    ensures
        backdrops(reference, candidate)[0]@ =~= seq![0u8, 0, 0],
        backdrops(reference, candidate).len() == (if reference.format == PixelFormat::Rgba8
            || candidate.format == PixelFormat::Rgba8 {
            2nat
        } else {
            1
        }),
        backdrops(reference, candidate).len() == 2 ==> backdrops(reference, candidate)[1]@
            =~= seq![255u8, 255, 255],
{
}

/// A background of one shade.
pub open spec fn gray(shade: u8) -> Seq<u8> {
    seq![shade, shade, shade]
}

/// Whether two images score this much with SSIMULACRA2 on a background of one shade.
pub open spec fn scores_on_shade(
    reference: ImageView,
    candidate: ImageView,
    shade: u8,
    score: Binary64,
) -> bool {
    ssimulacra2_gives(
        reference.flattened_data(gray(shade)),
        candidate.flattened_data(gray(shade)),
        reference.dimensions.width,
        reference.dimensions.height,
        score.bits,
    )
}

/// Whether two images are this far apart with Butteraugli on a background of one shade.
pub open spec fn apart_on_shade(
    reference: ImageView,
    candidate: ImageView,
    shade: u8,
    norm: ButteraugliNorm,
    score: Binary64,
) -> bool {
    exists|a: u64, b: u64| #[trigger]
        butteraugli_gives(
            reference.flattened_data(gray(shade)),
            candidate.flattened_data(gray(shade)),
            reference.dimensions.width,
            reference.dimensions.height,
            Some((a, b)),
        ) && score.bits == (match norm {
            ButteraugliNorm::Max => a,
            ButteraugliNorm::PNorm3 => b,
        })
}

/// Whether a score is that of two images on black, or, where one of them has alpha, the worse one of
/// those on black and on white, as far as both are numbers.
pub open spec fn worse_of_shades(
    reference: ImageView,
    candidate: ImageView,
    direction: Direction,
    black: Binary64,
    white: Binary64,
    score: Binary64,
) -> bool {
    &&& score == black || score == white
    &&& reference.format == PixelFormat::Rgb8 && candidate.format == PixelFormat::Rgb8 ==> score
        == black
    &&& (reference.format == PixelFormat::Rgba8 || candidate.format == PixelFormat::Rgba8)
        && report::no_less(black.bits, black.bits) && report::no_less(white.bits, white.bits) ==> {
        &&& report::on_the_right_side(direction, black.bits, score.bits)
        &&& report::on_the_right_side(direction, white.bits, score.bits)
    }
}

/// Whether a score is that of two images with SSIMULACRA2, by those on black and on white.
pub open spec fn similar_by(
    reference: ImageView,
    candidate: ImageView,
    black: Binary64,
    white: Binary64,
    score: Binary64,
) -> bool {
    &&& scores_on_shade(reference, candidate, 0, black)
    &&& reference.format == PixelFormat::Rgba8 || candidate.format == PixelFormat::Rgba8
        ==> scores_on_shade(reference, candidate, 255, white)
    &&& worse_of_shades(
        reference,
        candidate,
        Direction::HigherIsBetter,
        black,
        white,
        score,
    )
}

/// Whether a score is that of two images with Butteraugli, by those on black and on white.
pub open spec fn apart_by(
    reference: ImageView,
    candidate: ImageView,
    norm: ButteraugliNorm,
    black: Binary64,
    white: Binary64,
    score: Binary64,
) -> bool {
    &&& apart_on_shade(reference, candidate, 0, norm, black)
    &&& reference.format == PixelFormat::Rgba8 || candidate.format == PixelFormat::Rgba8
        ==> apart_on_shade(reference, candidate, 255, norm, white)
    &&& worse_of_shades(reference, candidate, Direction::LowerIsBetter, black, white, score)
}

/// A score of SSIMULACRA2 is that on black, or, where one of the images has alpha, the lower one of
/// those on black and on white.
pub proof fn lemma_similarity_is_the_lower(
    reference: ImageView,
    candidate: ImageView,
    score: Binary64,
)
    requires
        ssimulacra2_scored(reference, candidate, score),
    ensures
        exists|black: Binary64, white: Binary64| #[trigger]
            similar_by(reference, candidate, black, white, score),
{
    let shades = backdrops(reference, candidate);
    lemma_backgrounds_are_black_and_white(reference, candidate);
    let scores = choose|scores: Seq<Binary64>|
        {
            &&& scores.len() == shades.len()
            &&& forall|k: int|
                0 <= k < scores.len() ==> ssimulacra2_on(
                    reference,
                    candidate,
                    shades[k],
                    #[trigger] scores[k],
                )
            &&& score == #[trigger] worst_of(scores, Direction::HigherIsBetter)
        };
    let black = scores[0];
    let white = if scores.len() == 2 {
        scores[1]
    } else {
        scores[0]
    };
    assert(ssimulacra2_on(reference, candidate, shades[0], scores[0]));
    assert(scores_on_shade(reference, candidate, 0, black));
    if scores.len() == 2 {
        assert(ssimulacra2_on(reference, candidate, shades[1], scores[1]));
        assert(scores_on_shade(reference, candidate, 255, white));
    }
    lemma_worse_of_two(scores, Direction::HigherIsBetter);
    assert(similar_by(reference, candidate, black, white, score));
}

/// A score of Butteraugli is that on black, or, where one of the images has alpha, the higher one of
/// those on black and on white; it is the largest difference or the 3-norm, as asked for.
pub proof fn lemma_difference_is_the_higher(
    reference: ImageView,
    candidate: ImageView,
    norm: ButteraugliNorm,
    score: Binary64,
)
    requires
        butteraugli_scored(reference, candidate, norm, score),
    ensures
        exists|black: Binary64, white: Binary64| #[trigger]
            apart_by(reference, candidate, norm, black, white, score),
{
    let shades = backdrops(reference, candidate);
    lemma_backgrounds_are_black_and_white(reference, candidate);
    let scores = choose|scores: Seq<Binary64>|
        {
            &&& scores.len() == shades.len()
            &&& forall|k: int|
                0 <= k < scores.len() ==> butteraugli_on(
                    reference,
                    candidate,
                    shades[k],
                    norm,
                    #[trigger] scores[k],
                )
            &&& score == #[trigger] worst_of(scores, Direction::LowerIsBetter)
        };
    let black = scores[0];
    let white = if scores.len() == 2 {
        scores[1]
    } else {
        scores[0]
    };
    assert(butteraugli_on(reference, candidate, shades[0], norm, scores[0]));
    lemma_apart(reference, candidate, shades[0], 0, norm, black);
    if scores.len() == 2 {
        assert(butteraugli_on(reference, candidate, shades[1], norm, scores[1]));
        lemma_apart(reference, candidate, shades[1], 255, norm, white);
    }
    lemma_worse_of_two(scores, Direction::LowerIsBetter);
    assert(apart_by(reference, candidate, norm, black, white, score));
}

proof fn lemma_apart(
    reference: ImageView,
    candidate: ImageView,
    background: [u8; 3],
    shade: u8,
    norm: ButteraugliNorm,
    score: Binary64,
)
    requires
        butteraugli_on(reference, candidate, background, norm, score),
        background@ == gray(shade),
    ensures
        apart_on_shade(reference, candidate, shade, norm, score),
{
    let (a, b) = choose|a: Binary64, b: Binary64|
        score == #[trigger] norm.part(a, b) && butteraugli_gives(
            reference.flattened_data(background@),
            candidate.flattened_data(background@),
            reference.dimensions.width,
            reference.dimensions.height,
            Some((a.bits, b.bits)),
        );
    let (x, y) = (a.bits, b.bits);
    assert(butteraugli_gives(
        reference.flattened_data(gray(shade)),
        candidate.flattened_data(gray(shade)),
        reference.dimensions.width,
        reference.dimensions.height,
        Some((x, y)),
    ));
}

proof fn lemma_worse_of_two(scores: Seq<Binary64>, direction: Direction)
    requires
        1 <= scores.len() <= 2,
    ensures
        ({
            let score = worst_of(scores, direction);
            &&& scores.len() == 1 ==> score == scores[0]
            &&& scores.len() == 2 ==> score == scores[0] || score == scores[1]
            &&& scores.len() == 2 && report::no_less(scores[0].bits, scores[0].bits)
                && report::no_less(scores[1].bits, scores[1].bits) ==> report::on_the_right_side(
                direction,
                scores[0].bits,
                score.bits,
            ) && report::on_the_right_side(direction, scores[1].bits, score.bits)
        }),
{
    if scores.len() == 2 {
        assert(scores.drop_last().len() == 1);
        assert(scores.drop_last()[0] == scores[0]);
        assert(worst_of(scores.drop_last(), direction) == scores[0]);
        if report::no_less(scores[0].bits, scores[0].bits) && report::no_less(
            scores[1].bits,
            scores[1].bits,
        ) {
            lemma_worst_is_the_worst(scores, direction, 0);
            lemma_worst_is_the_worst(scores, direction, 1);
        }
    }
}

/// Scores of SSIMULACRA2 are higher the better, those of Butteraugli lower, and each is one that the
/// laws on scores hold of.
pub proof fn lemma_calls_score(
    s: &Ssimulacra2,
    b: &Butteraugli,
    reference: &Image,
    candidate: &Image,
    x: Binary64,
    y: Binary64,
    up: Direction,
    down: Direction,
)
    requires
        call_ensures(Ssimulacra2::score, (s, reference, candidate), Ok(x)),
        call_ensures(Butteraugli::score, (b, reference, candidate), Ok(y)),
        call_ensures(Ssimulacra2::direction, (s,), up),
        call_ensures(Butteraugli::direction, (b,), down),
    ensures
        ssimulacra2_scored(reference@, candidate@, x),
        butteraugli_scored(reference@, candidate@, b.norm, y),
        up is HigherIsBetter,
        down is LowerIsBetter,
        reference@.dimensions == candidate@.dimensions,
        reference@.dimensions.width >= 8 && reference@.dimensions.height >= 8,
        reference@ == candidate@ ==> y.bits == 0,
{
}

} // verus!
