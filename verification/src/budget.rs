//! Fixed-quality encoding under a hard byte budget.
//!
//! A well-chosen fixed quality matches or beats per-image quality search on held-out metrics.
//! Web delivery also needs a hard ceiling on file size, so this encodes at a fixed level and
//! only degrades when the budget demands it: first by lowering the level, then, as a last
//! resort, by downscaling.

use vstd::prelude::*;

use crate::binary64::{self, Binary64, Dyadic, Magnitude};
use crate::codecs::{Codec, CodecError, EncodeSettings, Encoded, QualityAxis};
use crate::engine::EngineError;
use crate::geometry::Dimensions;
use crate::pipeline::ImagePipeline;
use crate::request::MetadataPolicy;
use crate::search;
use crate::types::Image;

verus! {

#[derive(Debug, Clone, Copy)]
pub struct BudgetOptions {
    /// Level to use when the budget allows it.
    pub level: u32,
    /// Lowest level the budget may push down to before downscaling.
    pub min_level: u32,
    pub level_step: u32,
    /// `None` disables the budget: exactly one encode at `level`.
    pub max_bytes: Option<u64>,
    /// Each downscale multiplies both dimensions by this factor.
    pub downscale_factor: Binary64,
    pub max_downscales: u32,
    pub metadata: MetadataPolicy,
}

/// The double 0.85.
pub const DEFAULT_DOWNSCALE_FACTOR: u64 = 0x3FEB_3333_3333_3333;

impl Default for BudgetOptions {
    fn default() -> (r: Self)
        ensures
            r == (BudgetOptions {
                level: 60,
                min_level: 40,
                level_step: 5,
                max_bytes: None,
                downscale_factor: (Binary64 { bits: DEFAULT_DOWNSCALE_FACTOR }),
                max_downscales: 4,
                metadata: MetadataPolicy::KeepIccOnly,
            }),
    {
        BudgetOptions {
            level: 60,
            min_level: 40,
            level_step: 5,
            max_bytes: None,
            downscale_factor: Binary64 { bits: DEFAULT_DOWNSCALE_FACTOR },
            max_downscales: 4,
            metadata: MetadataPolicy::KeepIccOnly,
        }
    }
}

#[derive(Debug)]
pub struct BudgetedEncode {
    pub encoded: Encoded,
    pub level: u32,
    pub dimensions: Dimensions,
    pub attempts: u32,
    /// False only when even the smallest attempt exceeded the budget.
    pub within_budget: bool,
}

impl Clone for BudgetedEncode {
    fn clone(&self) -> (r: Self)
        ensures
            r.encoded.bytes@ == self.encoded.bytes@,
            r.encoded.parameters@ == self.encoded.parameters@,
            r.level == self.level,
            r.dimensions == self.dimensions,
            r.attempts == self.attempts,
            r.within_budget == self.within_budget,
    {
        BudgetedEncode {
            encoded: self.encoded.clone(),
            level: self.level,
            dimensions: self.dimensions,
            attempts: self.attempts,
            within_budget: self.within_budget,
        }
    }
}

/// The level below a level, but not below the floor.
pub open spec fn next_rung(level: u32, floor: u32, step: u32) -> u32 {
    if level - step > floor {
        (level - step) as u32
    } else {
        floor
    }
}

/// The levels tried on one image, from the highest down to the floor.
pub open spec fn ladder(level: u32, floor: u32, step: u32) -> Seq<u32>
    decreases level - floor,
{
    if level <= floor || step == 0 {
        seq![level]
    } else {
        seq![level] + ladder(next_rung(level, floor, step), floor, step)
    }
}

/// The rungs are as far apart as the step says, down to the floor, which comes last.
pub proof fn lemma_ladder(level: u32, floor: u32, step: u32)
    requires
        floor <= level,
        step > 0 || level == floor,
    ensures
        ladder(level, floor, step).len() >= 1,
        ladder(level, floor, step).last() == floor,
        forall|i: int|
            0 <= i < ladder(level, floor, step).len() ==> #[trigger] ladder(level, floor, step)[i]
                == (if level - i * step > floor {
                level - i * step
            } else {
                floor as int
            }),
        forall|i: int, j: int|
            0 <= i < j < ladder(level, floor, step).len() ==> #[trigger] ladder(
                level,
                floor,
                step,
            )[i] > #[trigger] ladder(level, floor, step)[j],
        ladder(level, floor, step).len() <= level - floor + 1,
    decreases level - floor,
{
    let rungs = ladder(level, floor, step);
    if level > floor {
        let next = next_rung(level, floor, step);
        lemma_ladder(next, floor, step);
        let rest = ladder(next, floor, step);
        assert(rungs =~= seq![level] + rest);
        assert(rungs.last() == rest.last());
        assert forall|i: int| 0 <= i < rungs.len() implies #[trigger] rungs[i] == (if level - i
            * step > floor {
            level - i * step
        } else {
            floor as int
        }) by {
            if i > 0 {
                assert(rungs[i] == rest[i - 1]);
                assert(i * step == (i - 1) * step + step) by (nonlinear_arith);
                if level - step <= floor {
                    assert((i - 1) * step >= 0) by (nonlinear_arith)
                        requires
                            i >= 1,
                            step >= 0,
                    ;
                }
            }
        }
        assert forall|i: int, j: int| 0 <= i < j < rungs.len() implies #[trigger] rungs[i]
            > #[trigger] rungs[j] by {
            assert(rungs[j] == rest[j - 1]);
            if i > 0 {
                assert(rungs[i] == rest[i - 1]);
            } else if j > 1 {
                assert(rest[0] > rest[j - 1]);
            }
        }
    }
}

/// A power by repeated squaring: the product of `r` with `a` to the power `n`, each product as
/// a double.
pub open spec fn raised(r: Dyadic, a: Dyadic, n: nat) -> Dyadic
    decreases n,
{
    let p = if n % 2 == 1 {
        r.mul(a)
    } else {
        r
    };
    if n / 2 == 0 {
        p
    } else {
        raised(p, a.mul(a), n / 2)
    }
}

/// A side multiplied with a power of a factor and rounded, at least 1 and at most what fits.
pub open spec fn shrunk_side(side: u32, factor: Binary64, n: nat) -> u32 {
    if side == 0 || factor.not_a_number() || (factor.negative() && n % 2 == 1) {
        1
    } else if !factor.finite() {
        u32::MAX
    } else {
        let r = raised(binary64::one(), factor.absolute(), n).times(side as nat).rounded();
        if r == 0 {
            1
        } else if r > u32::MAX {
            u32::MAX
        } else {
            r as u32
        }
    }
}

/// Dimensions multiplied with a power of a factor.
pub open spec fn shrunk(d: Dimensions, factor: Binary64, n: nat) -> Dimensions {
    Dimensions {
        width: shrunk_side(d.width, factor, n),
        height: shrunk_side(d.height, factor, n),
    }
}

/// A magnitude to a power.
fn raise(base: Magnitude, n: u32) -> (r: Magnitude)
    requires
        base.m <= 0x20_0000_0000_0000,
        -1074 <= base.e <= 971,
        n <= i32::MAX,
    ensures
        r@ == raised(binary64::one(), base@, n as nat),
        r.m <= 0x20_0000_0000_0000,
        -0x1000_0000_0000 <= r.e <= 0x1000_0000_0000,
{
    let mut r = Magnitude { m: 1, e: 0 };
    let mut a: Magnitude = base;
    let mut left: u32 = n;
    let ghost mut reach: int = 1;
    loop
        invariant
            raised(r@, a@, left as nat) == raised(binary64::one(), base@, n as nat),
            reach >= 1,
            reach * left <= 0x8000_0000,
            reach <= 0x8000_0000,
            r.m <= 0x20_0000_0000_0000,
            a.m <= 0x20_0000_0000_0000,
            -(2048 * reach - 128) <= a.e <= 2048 * reach - 128,
            -(2048 * reach) <= r.e <= 2048 * reach,
        decreases left,
    {
        if left % 2 == 1 {
            r = r.mul(a);
        }
        let ghost before = left;
        left = left / 2;
        if left == 0 {
            return r;
        }
        a = a.mul(a);
        proof {
            let was = reach;
            reach = 2 * reach;
            assert(reach * left <= was * before) by (nonlinear_arith)
                requires
                    reach == 2 * was,
                    was >= 1,
                    2 * left <= before,
            ;
            assert(reach <= 0x8000_0000) by (nonlinear_arith)
                requires
                    reach * left <= 0x8000_0000,
                    left >= 1,
                    reach >= 1,
            ;
        }
    }
}

/// A side multiplied with a power of a factor.
fn shrink_side(side: u32, factor: Binary64, n: u32) -> (r: u32)
    requires
        n <= i32::MAX,
    ensures
        r == shrunk_side(side, factor, n as nat),
{
    let above: u64 = factor.bits % 0x8000_0000_0000_0000;
    if side == 0 || factor.is_nan() || (factor.bits >= 0x8000_0000_0000_0000 && n % 2 == 1) {
        1
    } else if above >= 0x7ff0_0000_0000_0000 {
        u32::MAX
    } else {
        let scale: Magnitude = raise(factor.magnitude(), n);
        let r: u64 = scale.times(side as u64).rounded();
        if r == 0 {
            1
        } else if r > u32::MAX as u64 {
            u32::MAX
        } else {
            r as u32
        }
    }
}

/// Dimensions multiplied with a power of a factor.
pub fn shrink(d: Dimensions, factor: Binary64, n: u32) -> (r: Dimensions)
    requires
        n <= i32::MAX,
    ensures
        r == shrunk(d, factor, n as nat),
{
    Dimensions {
        width: shrink_side(d.width, factor, n),
        height: shrink_side(d.height, factor, n),
    }
}

impl BudgetOptions {
    /// The level to begin with on an axis.
    pub open spec fn start_on(self, axis: QualityAxis) -> u32 {
        axis.clamp_spec(self.level)
    }

    /// The lowest level on an axis.
    pub open spec fn floor_on(self, axis: QualityAxis) -> u32 {
        axis.clamp_spec(
            if self.min_level < self.level {
                self.min_level
            } else {
                self.level
            },
        )
    }

    /// The levels tried on one image.
    pub open spec fn rungs_on(self, axis: QualityAxis) -> Seq<u32> {
        ladder(self.start_on(axis), self.floor_on(axis), self.level_step)
    }

    /// Whether an encoding of this length is small enough.
    pub open spec fn allows(self, bytes: nat) -> bool {
        match self.max_bytes {
            None => true,
            Some(max) => bytes <= max,
        }
    }

    /// Whether the axis has levels, the floor is reached from the first level, and neither the
    /// attempts nor the powers of the factor go beyond what can be counted.
    pub open spec fn workable_on(self, axis: QualityAxis) -> bool {
        &&& axis.min <= axis.max
        &&& self.max_bytes is Some ==> {
            &&& self.level_step > 0 || self.start_on(axis) == self.floor_on(axis)
            &&& self.max_downscales <= i32::MAX
            &&& self.rungs_on(axis).len() * (self.max_downscales + 1) <= u32::MAX
        }
    }
}

/// Whether images are an image and its downscaled versions, each resized from the image itself.
pub open spec fn downscaled<P: ImagePipeline>(
    pipeline: &P,
    image: &Image,
    factor: Binary64,
    images: Seq<Image>,
) -> bool {
    &&& images.len() >= 1
    &&& images[0] == *image
    &&& forall|d: int|
        0 < d < images.len() ==> call_ensures(
            P::resize,
            (pipeline, image, shrunk(image@.dimensions, factor, d as nat)),
            Ok(#[trigger] images[d]),
        )
}

/// Whether a codec may return this for an attempt: every rung of an image is tried before the
/// next image.
pub open spec fn attempts_to<C: Codec>(
    codec: &C,
    metadata: MetadataPolicy,
    rungs: Seq<u32>,
    images: Seq<Image>,
    a: int,
    r: Result<Encoded, CodecError>,
) -> bool {
    let n = rungs.len() as int;
    0 <= a / n < images.len() && search::encodes(codec, &images[a / n], metadata, rungs[a % n], r)
}

/// Whether attempts are what a codec gave, in order.
pub open spec fn attempted<C: Codec>(
    codec: &C,
    metadata: MetadataPolicy,
    rungs: Seq<u32>,
    images: Seq<Image>,
    attempts: Seq<Encoded>,
) -> bool {
    forall|a: int|
        0 <= a < attempts.len() ==> attempts_to(
            codec,
            metadata,
            rungs,
            images,
            a,
            Ok(#[trigger] attempts[a]),
        )
}

/// Whether the first attempts are all too large.
pub open spec fn too_large(options: BudgetOptions, attempts: Seq<Encoded>, count: int) -> bool {
    forall|a: int| 0 <= a < count ==> !options.allows((#[trigger] attempts[a]).bytes@.len())
}

/// Whether an attempt is the smallest, and the first of that size.
pub open spec fn smallest_at(attempts: Seq<Encoded>, s: int) -> bool {
    forall|a: int|
        0 <= a < attempts.len() ==> attempts[s].bytes@.len() <= (
        #[trigger] attempts[a]).bytes@.len() && (a < s ==> attempts[s].bytes@.len()
            < attempts[a].bytes@.len())
}

/// Whether a result is the attempt that fits, or the smallest one where none does.
pub open spec fn chosen(
    options: BudgetOptions,
    rungs: Seq<u32>,
    images: Seq<Image>,
    attempts: Seq<Encoded>,
    s: int,
    r: BudgetedEncode,
) -> bool {
    &&& 0 <= s < attempts.len()
    &&& r.encoded == attempts[s]
    &&& r.level == rungs[s % (rungs.len() as int)]
    &&& r.dimensions == images[s / (rungs.len() as int)]@.dimensions
    &&& r.attempts == attempts.len()
    &&& r.within_budget == options.allows(attempts[s].bytes@.len())
    &&& if r.within_budget {
        s == attempts.len() - 1 && too_large(options, attempts, s)
    } else {
        &&& attempts.len() == rungs.len() * (options.max_downscales + 1)
        &&& too_large(options, attempts, attempts.len() as int)
        &&& smallest_at(attempts, s)
    }
}

/// Whether a result is one of the attempts, as [`chosen`] says.
pub open spec fn chosen_somewhere(
    options: BudgetOptions,
    rungs: Seq<u32>,
    images: Seq<Image>,
    attempts: Seq<Encoded>,
    r: BudgetedEncode,
) -> bool {
    exists|s: int| chosen(options, rungs, images, attempts, s, r)
}

/// Whether a result is what the attempts lead to: they go on while nothing fits, until every
/// rung of every image was tried, or something failed.
pub open spec fn settled<P: ImagePipeline, C: Codec>(
    pipeline: &P,
    codec: &C,
    axis: QualityAxis,
    image: &Image,
    options: BudgetOptions,
    images: Seq<Image>,
    attempts: Seq<Encoded>,
    r: Result<BudgetedEncode, EngineError>,
) -> bool {
    let rungs = options.rungs_on(axis);
    let n = rungs.len() as int;
    let count = attempts.len() as int;
    match r {
        Ok(b) => chosen_somewhere(options, rungs, images, attempts, b),
        Err(EngineError::Codec(e)) => {
            &&& too_large(options, attempts, count)
            &&& count < n * (options.max_downscales + 1)
            &&& attempts_to(codec, options.metadata, rungs, images, count, Err(e))
        },
        Err(EngineError::Pipeline(e)) => {
            &&& too_large(options, attempts, count)
            &&& count == n * images.len()
            &&& images.len() <= options.max_downscales
            &&& call_ensures(
                P::resize,
                (
                    pipeline,
                    image,
                    shrunk(image@.dimensions, options.downscale_factor, images.len()),
                ),
                Err(e),
            )
        },
        Err(_) => false,
    }
}

/// Whether a result is what encoding an image under a budget gave.
pub open spec fn budgeted<P: ImagePipeline, C: Codec>(
    pipeline: &P,
    codec: &C,
    axis: QualityAxis,
    image: &Image,
    options: BudgetOptions,
    r: Result<BudgetedEncode, EngineError>,
) -> bool {
    exists|images: Seq<Image>, attempts: Seq<Encoded>|
        {
            &&& #[trigger] downscaled(pipeline, image, options.downscale_factor, images)
            &&& #[trigger] attempted(
                codec,
                options.metadata,
                options.rungs_on(axis),
                images,
                attempts,
            )
            &&& settled(pipeline, codec, axis, image, options, images, attempts, r)
            &&& images.len() <= options.max_downscales + 1
        }
}

proof fn lemma_place(d: int, n: int, i: int)
    requires
        0 <= d,
        0 <= i < n,
    ensures
        (d * n + i) / n == d,
        (d * n + i) % n == i,
{
    vstd::arithmetic::div_mod::lemma_fundamental_div_mod_converse(d * n + i, n, d, i);
}

/// Encodes `image` at `options.level`, degrading only as far as needed to fit `max_bytes`.
/// Downscaled attempts always resize from the full-quality `image`.
pub fn encode_within_budget<P: ImagePipeline, C: Codec>(
    pipeline: &P,
    codec: &C,
    image: &Image,
    options: &BudgetOptions,
) -> (r: Result<BudgetedEncode, EngineError>)
    requires
        forall|axis: QualityAxis| #[trigger]
            call_ensures(C::quality_axis, (codec,), axis) ==> options.workable_on(axis),
    ensures
        exists|axis: QualityAxis| #[trigger]
            call_ensures(C::quality_axis, (codec,), axis) && budgeted(
                pipeline,
                codec,
                axis,
                image,
                *options,
                r,
            ),
{
    let axis: QualityAxis = codec.quality_axis();
    encode_on_axis(pipeline, codec, axis, image, options)
}

/// Encodes under a budget, with the quality axis of the codec at hand.
pub fn encode_on_axis<P: ImagePipeline, C: Codec>(
    pipeline: &P,
    codec: &C,
    axis: QualityAxis,
    image: &Image,
    options: &BudgetOptions,
) -> (r: Result<BudgetedEncode, EngineError>)
    requires
        options.workable_on(axis),
    ensures
        budgeted(pipeline, codec, axis, image, *options, r),
{
    let start: u32 = axis.clamp(options.level);
    let floor: u32 = axis.clamp(
        if options.min_level < options.level {
            options.min_level
        } else {
            options.level
        },
    );
    let step: u32 = options.level_step;
    let ghost rungs = options.rungs_on(axis);
    let ghost n = rungs.len() as int;
    let ghost total = n * (options.max_downscales + 1);
    let ghost mut images: Seq<Image> = seq![*image];
    let ghost mut tries: Seq<Encoded> = Seq::empty();
    let ghost mut s: int = 0;

    let mut attempts: u32 = 0;
    let mut smallest: Option<BudgetedEncode> = None;
    let mut scaled: Option<Image> = None;
    let mut downscale: u32 = 0;
    loop
        invariant_except_break
            tries.len() == downscale * n,
            tries.len() > 0 ==> options.max_bytes is Some,
            (match smallest {
                None => tries.len() == 0,
                Some(_) => true,
            }),
        invariant
            options.workable_on(axis),
            start == options.start_on(axis),
            floor == options.floor_on(axis),
            floor <= start,
            step == options.level_step,
            rungs == options.rungs_on(axis),
            rungs == ladder(start, floor, step),
            n == rungs.len(),
            n >= 1,
            total == n * (options.max_downscales + 1),
            downscaled(pipeline, image, options.downscale_factor, images),
            attempted(codec, options.metadata, rungs, images, tries),
            too_large(*options, tries, tries.len() as int),
            downscale <= options.max_downscales,
            images.len() == downscale + 1,
            attempts == tries.len(),
            images.last() == (match scaled {
                Some(i) => i,
                None => *image,
            }),
            (match smallest {
                None => true,
                Some(b) => {
                    &&& 0 <= s < tries.len()
                    &&& b.encoded == tries[s]
                    &&& b.level == rungs[s % n]
                    &&& b.dimensions == images[s / n]@.dimensions
                    &&& !b.within_budget
                    &&& smallest_at(tries, s)
                },
            }),
        ensures
            tries.len() == total,
            smallest is Some,
        decreases options.max_downscales - downscale,
    {
        let current: &Image = match &scaled {
            Some(i) => i,
            None => image,
        };
        let mut level: u32 = start;
        let ghost mut i: int = 0;
        proof {
            assert(rungs.skip(0) =~= rungs);
        }
        loop
            invariant_except_break
                tries.len() == downscale * n + i,
                rungs.skip(i) == ladder(level, floor, step),
            invariant
                options.workable_on(axis),
                floor <= level,
                step == options.level_step,
                rungs == options.rungs_on(axis),
                n == rungs.len(),
                total == n * (options.max_downscales + 1),
                start == options.start_on(axis),
                floor == options.floor_on(axis),
                downscaled(pipeline, image, options.downscale_factor, images),
                attempted(codec, options.metadata, rungs, images, tries),
                too_large(*options, tries, tries.len() as int),
                downscale <= options.max_downscales,
                images.len() == downscale + 1,
                images.last() == *current,
                0 <= i < n,
                attempts == tries.len(),
                tries.len() > 0 ==> options.max_bytes is Some,
                (match smallest {
                    None => tries.len() == 0,
                    Some(b) => {
                        &&& 0 <= s < tries.len()
                        &&& b.encoded == tries[s]
                        &&& b.level == rungs[s % n]
                        &&& b.dimensions == images[s / n]@.dimensions
                        &&& !b.within_budget
                        &&& smallest_at(tries, s)
                    },
                }),
            ensures
                i == n - 1,
                tries.len() == downscale * n + n,
                smallest is Some,
            decreases level - floor,
        {
            proof {
                assert(downscale * n + i < total) by (nonlinear_arith)
                    requires
                        downscale <= options.max_downscales,
                        0 <= i < n,
                        total == n * (options.max_downscales + 1),
                ;
                lemma_place(downscale as int, n, i);
                assert(rungs[i] == rungs.skip(i)[0]);
                assert(rungs[i] == level);
            }
            attempts = attempts + 1;
            let settings = EncodeSettings { level, metadata: options.metadata };
            let encoded: Encoded = match codec.encode(current, &settings) {
                Ok(encoded) => encoded,
                Err(e) => {
                    proof {
                        assert(search::encodes(
                            codec,
                            &images[downscale as int],
                            options.metadata,
                            level,
                            Err(e),
                        ));
                        assert(settled(
                            pipeline,
                            codec,
                            axis,
                            image,
                            *options,
                            images,
                            tries,
                            Err(EngineError::Codec(e)),
                        ));
                    }
                    return Err(EngineError::Codec(e));
                },
            };
            let ghost before = tries;
            proof {
                tries = tries.push(encoded);
                assert(search::encodes(
                    codec,
                    &images[downscale as int],
                    options.metadata,
                    level,
                    Ok(encoded),
                ));
                assert forall|a: int| 0 <= a < tries.len() implies attempts_to(
                    codec,
                    options.metadata,
                    rungs,
                    images,
                    a,
                    Ok(#[trigger] tries[a]),
                ) by {
                    if a < before.len() {
                        assert(tries[a] == before[a]);
                    }
                }
            }
            let len: u64 = encoded.bytes.len() as u64;
            let within_budget: bool = match options.max_bytes {
                None => true,
                Some(max) => len <= max,
            };
            let result = BudgetedEncode {
                encoded,
                level,
                dimensions: current.dimensions(),
                attempts,
                within_budget,
            };
            if within_budget {
                proof {
                    assert(too_large(*options, tries, tries.len() - 1)) by {
                        assert forall|a: int| 0 <= a < tries.len() - 1 implies !options.allows(
                            (#[trigger] tries[a]).bytes@.len(),
                        ) by {
                            assert(tries[a] == before[a]);
                        }
                    }
                    assert(chosen(*options, rungs, images, tries, tries.len() - 1, result));
                    assert(chosen_somewhere(*options, rungs, images, tries, result));
                    assert(attempted(codec, options.metadata, rungs, images, tries));
                    assert(settled(
                        pipeline,
                        codec,
                        axis,
                        image,
                        *options,
                        images,
                        tries,
                        Ok(result),
                    ));
                }
                return Ok(result);
            }
            proof {
                assert forall|a: int| 0 <= a < tries.len() implies !options.allows(
                    (#[trigger] tries[a]).bytes@.len(),
                ) by {
                    if a < before.len() {
                        assert(tries[a] == before[a]);
                    }
                }
            }
            let smaller: bool = match &smallest {
                None => true,
                Some(b) => result.encoded.bytes.len() < b.encoded.bytes.len(),
            };
            proof {
                if smaller {
                    s = before.len() as int;
                }
                assert(smallest_at(tries, s)) by {
                    assert forall|a: int| 0 <= a < tries.len() implies tries[s].bytes@.len() <= (
                    #[trigger] tries[a]).bytes@.len() && (a < s ==> tries[s].bytes@.len()
                        < tries[a].bytes@.len()) by {
                        if a < before.len() {
                            assert(tries[a] == before[a]);
                        }
                    }
                }
            }
            if smaller {
                smallest = Some(result);
            }
            if level == floor {
                proof {
                    assert(rungs.skip(i).len() == 1);
                }
                break;
            }
            proof {
                let rest = ladder(next_rung(level, floor, step), floor, step);
                assert(rungs.skip(i) == seq![level] + rest);
                assert(rungs.skip(i + 1) =~= rungs.skip(i).skip(1));
                assert(rungs.skip(i).skip(1) =~= rest);
                lemma_ladder(next_rung(level, floor, step), floor, step);
                i = i + 1;
            }
            level = if level >= step && level - step > floor {
                level - step
            } else {
                floor
            };
        }
        proof {
            assert(downscale * n + n == (downscale + 1) * n) by (nonlinear_arith);
        }
        if downscale == options.max_downscales {
            proof {
                assert(total == (downscale + 1) * n) by (nonlinear_arith)
                    requires
                        total == n * (options.max_downscales + 1),
                        downscale == options.max_downscales,
                ;
            }
            break;
        }
        let dimensions: Dimensions = shrink(
            image.dimensions(),
            options.downscale_factor,
            downscale + 1,
        );
        let ghost before = images;
        match pipeline.resize(image, dimensions) {
            Ok(resized) => {
                proof {
                    images = images.push(resized);
                    assert forall|d: int| 0 < d < images.len() implies call_ensures(
                        P::resize,
                        (pipeline, image, shrunk(image@.dimensions, options.downscale_factor, d as nat)),
                        Ok(#[trigger] images[d]),
                    ) by {
                        if d < before.len() {
                            assert(images[d] == before[d]);
                        }
                    }
                    assert forall|a: int| 0 <= a < tries.len() implies attempts_to(
                        codec,
                        options.metadata,
                        rungs,
                        images,
                        a,
                        Ok(#[trigger] tries[a]),
                    ) by {
                        assert(attempts_to(
                            codec,
                            options.metadata,
                            rungs,
                            before,
                            a,
                            Ok(tries[a]),
                        ));
                        assert(images[a / n] == before[a / n]);
                    }
                }
                scaled = Some(resized);
            },
            Err(e) => {
                proof {
                    assert(tries.len() == n * images.len()) by (nonlinear_arith)
                        requires
                            tries.len() == (downscale + 1) * n,
                            images.len() == downscale + 1,
                    ;
                    assert(settled(
                        pipeline,
                        codec,
                        axis,
                        image,
                        *options,
                        images,
                        tries,
                        Err(EngineError::Pipeline(e)),
                    ));
                }
                return Err(EngineError::Pipeline(e));
            },
        }
        downscale = downscale + 1;
    }
    let b: BudgetedEncode = smallest.unwrap();
    let best = BudgetedEncode {
        encoded: b.encoded,
        level: b.level,
        dimensions: b.dimensions,
        attempts,
        within_budget: b.within_budget,
    };
    proof {
        assert(chosen(*options, rungs, images, tries, s, best));
        assert(chosen_somewhere(*options, rungs, images, tries, best));
        assert(settled(pipeline, codec, axis, image, *options, images, tries, Ok(best)));
    }
    Ok(best)
}

/// How many rungs there are.
proof fn lemma_ladder_len(level: u32, floor: u32, step: u32)
    requires
        floor <= level,
        step > 0,
    ensures
        ladder(level, floor, step).len() == (level - floor + step - 1) / (step as int) + 1,
    decreases level - floor,
{
    let gap = level - floor;
    let pace = step as int;
    if level > floor {
        lemma_ladder_len(next_rung(level, floor, step), floor, step);
        if gap > pace {
            assert((gap + pace - 1) / pace == (gap - pace + pace - 1) / pace + 1) by (nonlinear_arith)
                requires
                    pace > 0,
                    gap > pace,
            ;
        } else {
            assert((gap + pace - 1) / pace == 1) by (nonlinear_arith)
                requires
                    pace > 0,
                    1 <= gap <= pace,
            ;
            assert((pace - 1) / pace == 0) by (nonlinear_arith)
                requires
                    pace > 0,
            ;
        }
    } else {
        assert((pace - 1) / pace == 0) by (nonlinear_arith)
            requires
                pace > 0,
        ;
    }
}

impl BudgetOptions {
    /// Whether an axis has levels, the floor is reached from the first level, and neither the
    /// attempts nor the powers of the factor go beyond what can be counted.
    pub fn works_on(&self, axis: QualityAxis) -> (r: bool)
        ensures
            r == self.workable_on(axis),
    {
        if axis.min > axis.max {
            return false;
        }
        if self.max_bytes.is_none() {
            return true;
        }
        if self.max_downscales > i32::MAX as u32 {
            return false;
        }
        let start: u32 = axis.clamp(self.level);
        let floor: u32 = axis.clamp(
            if self.min_level < self.level {
                self.min_level
            } else {
                self.level
            },
        );
        if start == floor {
            proof {
                assert(self.rungs_on(axis).len() == 1);
            }
            return true;
        }
        if self.level_step == 0 {
            return false;
        }
        let rungs: u64 = (start as u64 - floor as u64 + self.level_step as u64 - 1)
            / self.level_step as u64 + 1;
        proof {
            lemma_ladder_len(start, floor, self.level_step);
            lemma_ladder(start, floor, self.level_step);
            assert(rungs * (self.max_downscales + 1) <= 0x1_0000_0001 * 0x8000_0000)
                by (nonlinear_arith)
                requires
                    rungs <= 0x1_0000_0001,
                    self.max_downscales <= 0x7fff_ffff,
            ;
        }
        rungs * (self.max_downscales as u64 + 1) <= u32::MAX as u64
    }
}

/// Without a budget there is exactly one attempt: the image itself at the requested level, or
/// the supported one nearest to it.
pub proof fn lemma_no_budget_is_a_single_encode<P: ImagePipeline, C: Codec>(
    pipeline: &P,
    codec: &C,
    axis: QualityAxis,
    image: &Image,
    options: BudgetOptions,
    b: BudgetedEncode,
)
    requires
        options.max_bytes is None,
        budgeted(pipeline, codec, axis, image, options, Ok(b)),
    ensures
        b.attempts == 1,
        b.level == axis.clamp_spec(options.level),
        b.dimensions == image@.dimensions,
        b.within_budget,
        search::encodes(codec, image, options.metadata, b.level, Ok(b.encoded)),
{
    let rungs = options.rungs_on(axis);
    let (images, attempts) = choose|images: Seq<Image>, attempts: Seq<Encoded>|
        {
            &&& #[trigger] downscaled(pipeline, image, options.downscale_factor, images)
            &&& #[trigger] attempted(codec, options.metadata, rungs, images, attempts)
            &&& settled(pipeline, codec, axis, image, options, images, attempts, Ok(b))
            &&& images.len() <= options.max_downscales + 1
        };
    let s = choose|s: int| chosen(options, rungs, images, attempts, s, b);
    if s > 0 {
        assert(!options.allows(attempts[0].bytes@.len()));
    }
    let n = rungs.len() as int;
    assert(n >= 1 && rungs[0] == options.start_on(axis));
    lemma_place(0, n, 0);
    assert(attempts_to(codec, options.metadata, rungs, images, 0, Ok(attempts[0])));
}

/// Encoding degrades no further than needed. The level stays between the requested one and the
/// floor, and there are no more attempts than rungs for the image and each of its downscaled
/// versions. A result is within the budget exactly where it fits. While the rungs of the image
/// itself are not used up, its dimensions are kept; beyond them, every rung was too large.
pub proof fn lemma_degrades_only_as_needed<P: ImagePipeline, C: Codec>(
    pipeline: &P,
    codec: &C,
    axis: QualityAxis,
    image: &Image,
    options: BudgetOptions,
    b: BudgetedEncode,
)
    requires
        options.workable_on(axis),
        options.max_bytes is Some,
        budgeted(pipeline, codec, axis, image, options, Ok(b)),
    ensures
        options.floor_on(axis) <= b.level <= options.start_on(axis),
        1 <= b.attempts <= options.rungs_on(axis).len() * (options.max_downscales + 1),
        b.within_budget == options.allows(b.encoded.bytes@.len()),
        b.within_budget && b.attempts <= options.rungs_on(axis).len() ==> b.dimensions
            == image@.dimensions && b.level == options.rungs_on(axis)[b.attempts - 1],
        !b.within_budget ==> b.attempts == options.rungs_on(axis).len() * (options.max_downscales
            + 1),
{
    let rungs = options.rungs_on(axis);
    let n = rungs.len() as int;
    let start = options.start_on(axis);
    let floor = options.floor_on(axis);
    let (images, attempts) = choose|images: Seq<Image>, attempts: Seq<Encoded>|
        {
            &&& #[trigger] downscaled(pipeline, image, options.downscale_factor, images)
            &&& #[trigger] attempted(codec, options.metadata, rungs, images, attempts)
            &&& settled(pipeline, codec, axis, image, options, images, attempts, Ok(b))
            &&& images.len() <= options.max_downscales + 1
        };
    let s = choose|s: int| chosen(options, rungs, images, attempts, s, b);
    lemma_ladder(start, floor, options.level_step);
    vstd::arithmetic::div_mod::lemma_fundamental_div_mod(s, n);
    vstd::arithmetic::div_mod::lemma_mod_bound(s, n);
    let i = s % n;
    assert(rungs[i] <= start) by {
        if i > 0 {
            assert(rungs[0] > rungs[i]);
        }
    }
    assert(rungs[i] >= floor) by {
        if i < n - 1 {
            assert(rungs[i] > rungs[n - 1]);
        }
    }
    if b.within_budget && b.attempts <= n {
        lemma_place(0, n, s);
    }
    let d = s / n;
    assert(attempts_to(codec, options.metadata, rungs, images, s, Ok(attempts[s])));
    assert(d * n + i < n * (options.max_downscales + 1)) by (nonlinear_arith)
        requires
            0 <= d <= options.max_downscales,
            0 <= i < n,
    ;
    assert(n * d == d * n) by (nonlinear_arith);
}

/// Whether a double is a power of a number `a` times a power of two, but for rounding: it is off by
/// no more than `c` parts in 2 to the power 52.
spec fn near(v: Dyadic, a: nat, e: int, j: nat, c: nat) -> bool {
    &&& 0x10_0000_0000_0000 <= v.m <= 0x20_0000_0000_0000
    &&& v.e >= j * e
    &&& close(v.m * binary64::exp2((v.e - j * e) as nat), vstd::arithmetic::power::pow(a as int, j), c)
}

/// Whether two numbers differ by no more than `c` parts in 2 to the power 52 of the second.
spec fn close(x: nat, y: int, c: nat) -> bool {
    &&& 0x10_0000_0000_0000 * (x - y) <= c * y
    &&& 0x10_0000_0000_0000 * (y - x) <= c * y
}

/// Products of close numbers are close, also if the product is off by one part in 2 to the
/// power 53.
proof fn lemma_close_product(x: nat, p: int, i: nat, y: nat, q: int, j: nat, z: nat)
    requires
        close(x, p, i),
        close(y, q, j),
        p >= 0,
        q >= 0,
        i <= 0x10_0000,
        j <= 0x10_0000,
        0x20_0000_0000_0000 * (z - x * y) <= x * y,
        0x20_0000_0000_0000 * (x * y - z) <= x * y,
    ensures
        close(z, p * q, i + j + 1),
{
    let t: int = 0x10_0000_0000_0000;
    let w = p * q;
    let xy = (x * y) as int;
    assert(w >= 0) by (nonlinear_arith)
        requires
            w == p * q,
            p >= 0,
            q >= 0,
    ;
    let (dx, dy) = (x - p, y - q);
    assert(xy - w == dx * q + p * dy + dx * dy) by (nonlinear_arith)
        requires
            dx == x - p,
            dy == y - q,
            w == p * q,
            xy == x * y,
    ;
    assert(-(i * w) <= t * (dx * q) <= i * w) by (nonlinear_arith)
        requires
            -(i * p) <= t * dx <= i * p,
            q >= 0,
            w == p * q,
    {
        assert((t * dx) * q == t * (dx * q));
        assert((i * p) * q == i * w);
    }
    assert(-(j * w) <= t * (p * dy) <= j * w) by (nonlinear_arith)
        requires
            -(j * q) <= t * dy <= j * q,
            p >= 0,
            w == p * q,
    {
        assert((t * dy) * p == t * (p * dy));
        assert((j * q) * p == j * w);
    }
    assert(-w <= 4 * (t * (dx * dy)) <= w) by {
        let (a, b) = (t * dx, t * dy);
        assert(-((i * p) * (j * q)) <= a * b <= (i * p) * (j * q)) by (nonlinear_arith)
            requires
                -(i * p) <= a <= i * p,
                -(j * q) <= b <= j * q,
                i * p >= 0,
                j * q >= 0,
        ;
        assert((i * p) * (j * q) == (i * j) * w) by (nonlinear_arith)
            requires
                w == p * q,
        ;
        assert((i * j) * w <= 0x100_0000_0000 * w) by (nonlinear_arith)
            requires
                0 <= i <= 0x10_0000,
                0 <= j <= 0x10_0000,
                w >= 0,
        ;
        assert(a * b == t * (t * (dx * dy))) by (nonlinear_arith)
            requires
                a == t * dx,
                b == t * dy,
        ;
    }
    assert(i * w >= 0 && j * w >= 0) by (nonlinear_arith)
        requires
            w >= 0,
            i >= 0,
            j >= 0,
    ;
    assert(i * w <= 0x10_0000 * w && j * w <= 0x10_0000 * w) by (nonlinear_arith)
        requires
            w >= 0,
            i <= 0x10_0000,
            j <= 0x10_0000,
    ;
    assert(t * (xy - w) == t * (dx * q) + t * (p * dy) + t * (dx * dy)) by (nonlinear_arith)
        requires
            xy - w == dx * q + p * dy + dx * dy,
    ;
    assert((i + j + 1) * w == i * w + j * w + w) by (nonlinear_arith);
}

/// The product of two doubles is near to the power with the exponents added.
proof fn lemma_near_product(x: Dyadic, i: nat, ci: nat, y: Dyadic, j: nat, cj: nat, a: nat, e: int)
    requires
        near(x, a, e, i, ci),
        near(y, a, e, j, cj),
        ci <= 0x10_0000,
        cj <= 0x10_0000,
    ensures
        near(x.mul(y), a, e, i + j, ci + cj + 1),
{
    let n = x.m * y.m;
    let p = binary64::nearest(n, 1);
    let (kx, ky) = ((x.e - i * e) as nat, (y.e - j * e) as nat);
    assert(n >= 0x10_0000_0000_0000) by (nonlinear_arith)
        requires
            n == x.m * y.m,
            x.m >= 0x10_0000_0000_0000,
            y.m >= 0x10_0000_0000_0000,
    ;
    binary64::lemma_nearest_error(n, 1);
    binary64::lemma_nearest_significand(n, 1);
    let u = binary64::exp2(p.e as nat);
    let (r, s) = (binary64::exp2(kx), binary64::exp2(ky));
    let k = (p.e + kx + ky) as nat;
    binary64::lemma_exp2_adds(p.e as nat, kx);
    binary64::lemma_exp2_adds((p.e + kx) as nat, ky);
    assert(p.e as nat + kx == (p.e + kx) as nat);
    assert((p.e + kx) as nat + ky == k);
    assert((i + j) * e == i * e + j * e) by (nonlinear_arith);
    let z = p.m * binary64::exp2(k);
    let (v, w) = (x.m * r, y.m * s);
    let (pi, pj) = (vstd::arithmetic::power::pow(a as int, i), vstd::arithmetic::power::pow(a as int, j));
    lemma_pow_nonnegative(a, i);
    lemma_pow_nonnegative(a, j);
    vstd::arithmetic::power::lemma_pow_adds(a as int, i, j);
    assert(u * 1 == u && 2 * (p.m * u) * 1 == 2 * (p.m * u) && u * 1 * 0x10_0000_0000_0000 == u
        * 0x10_0000_0000_0000);
    let g = r * s;
    assert(v * w == n * g) by (nonlinear_arith)
        requires
            v == x.m * r,
            w == y.m * s,
            n == x.m * y.m,
            g == r * s,
    ;
    assert(z == (p.m * u) * g) by (nonlinear_arith)
        requires
            z == p.m * ((u * r) * s),
            g == r * s,
    ;
    let pu = p.m * u;
    assert(0x20_0000_0000_0000 * (pu - n) <= n && 0x20_0000_0000_0000 * (n - pu) <= n);
    assert(0x20_0000_0000_0000 * (z - v * w) <= v * w && 0x20_0000_0000_0000 * (v * w - z) <= v * w)
        by (nonlinear_arith)
        requires
            v * w == n * g,
            z == pu * g,
            0x20_0000_0000_0000 * (pu - n) <= n,
            0x20_0000_0000_0000 * (n - pu) <= n,
            g >= 0,
    {
        assert((0x20_0000_0000_0000 * (pu - n)) * g <= n * g);
        assert((0x20_0000_0000_0000 * (n - pu)) * g <= n * g);
    }
    lemma_close_product(v, pi, ci, w, pj, cj, z);
}

proof fn lemma_pow_nonnegative(a: nat, j: nat)
    ensures
        vstd::arithmetic::power::pow(a as int, j) >= 0,
    decreases j,
{
    vstd::arithmetic::power::lemma_pow0(a as int);
    if j > 0 {
        lemma_pow_nonnegative(a, (j - 1) as nat);
        reveal(vstd::arithmetic::power::pow);
        assert(a * vstd::arithmetic::power::pow(a as int, (j - 1) as nat) >= 0) by (nonlinear_arith)
            requires
                a >= 0,
                vstd::arithmetic::power::pow(a as int, (j - 1) as nat) >= 0,
        ;
    }
}

/// One times a double is that double.
proof fn lemma_near_once(y: Dyadic, j: nat, c: nat, a: nat, e: int)
    requires
        near(y, a, e, j, c),
    ensures
        near(binary64::one().mul(y), a, e, j, c),
{
    let p = binary64::nearest(1 * y.m, 1);
    assert(1 * y.m == y.m);
    binary64::lemma_exp2_constants();
    let k = (y.e - j * e) as nat;
    if y.m < 0x20_0000_0000_0000 {
        assert(binary64::round_half_even(y.m, 1) == y.m);
        assert(p == Dyadic { m: y.m, e: 0 });
    } else {
        let q = binary64::nearest(y.m, 2);
        assert(y.m == 0x20_0000_0000_0000);
        assert(binary64::round_half_even(y.m, 2) == 0x10_0000_0000_0000);
        assert(q == Dyadic { m: 0x10_0000_0000_0000, e: 0 });
        assert(p == Dyadic { m: 0x10_0000_0000_0000, e: 1 });
        assert(binary64::exp2(k + 1) == 2 * binary64::exp2(k));
        assert(0x10_0000_0000_0000 * (2 * binary64::exp2(k)) == 0x20_0000_0000_0000
            * binary64::exp2(k)) by (nonlinear_arith);
    }
}

/// Repeated squaring comes near to the power that it stands for.
proof fn lemma_raised(r: Dyadic, i: nat, y: Dyadic, j: nat, n: nat, a: nat, e: int)
    requires
        n >= 1,
        j >= 1,
        near(y, a, e, j, (j - 1) as nat),
        i == 0 ==> r == binary64::one(),
        i > 0 ==> near(r, a, e, i, (i - 1) as nat),
        i + n * j <= 0x2_0000,
    ensures
        near(raised(r, y, n), a, e, i + n * j, (i + n * j - 1) as nat),
    decreases n,
{
    assert(n * j >= j) by (nonlinear_arith)
        requires
            n >= 1,
            j >= 1,
    ;
    let p = if n % 2 == 1 {
        r.mul(y)
    } else {
        r
    };
    let ip = if n % 2 == 1 {
        i + j
    } else {
        i
    };
    if n % 2 == 1 {
        if i == 0 {
            lemma_near_once(y, j, (j - 1) as nat, a, e);
        } else {
            lemma_near_product(r, i, (i - 1) as nat, y, j, (j - 1) as nat, a, e);
        }
    }
    if n / 2 == 0 {
        assert(n == 1);
        assert(1 * j == j);
    } else {
        lemma_near_product(y, j, (j - 1) as nat, y, j, (j - 1) as nat, a, e);
        let h = n / 2;
        assert(ip + h * (j + j) == i + n * j) by (nonlinear_arith)
            requires
                n == 2 * h + n % 2,
                ip == (if n % 2 == 1 {
                    i + j
                } else {
                    i
                }),
                n % 2 == 0 || n % 2 == 1,
        ;
        lemma_raised(p, ip, y.mul(y), j + j, h, a, e);
    }
}

proof fn lemma_power_below(a: nat, k: nat, n: nat)
    requires
        a <= binary64::exp2(k),
    ensures
        vstd::arithmetic::power::pow(a as int, n) <= binary64::exp2(k * n),
    decreases n,
{
    vstd::arithmetic::power::lemma_pow0(a as int);
    if n == 0 {
        assert(k * n == 0);
    } else {
        let m = (n - 1) as nat;
        lemma_power_below(a, k, m);
        lemma_pow_nonnegative(a, m);
        reveal(vstd::arithmetic::power::pow);
        binary64::lemma_exp2_adds(k, k * m);
        assert(k + k * m == k * n) by (nonlinear_arith)
            requires
                m == n - 1,
        ;
        assert(a * vstd::arithmetic::power::pow(a as int, m) <= binary64::exp2(k) * binary64::exp2(k * m)) by (nonlinear_arith)
            requires
                0 <= a <= binary64::exp2(k),
                0 <= vstd::arithmetic::power::pow(a as int, m) <= binary64::exp2(k * m),
        ;
    }
}

/// A side of a downscaled image is the side times the power of the factor, rounded to the nearest
/// pixel but for the rounding of doubles, and at least one: with a factor of `a` over 2 to the
/// power `k`, and below one, it is off by no more than 5/8 of a pixel. It never grows.
pub proof fn lemma_shrunk_side_is_the_power(side: u32, factor: Binary64, n: nat)
    requires
        side > 0,
        1 <= n <= 0x2_0000,
        0x10_0000_0000_0000 <= factor.bits < 0x3ff0_0000_0000_0000,
    ensures
        ({
            let a = 0x10_0000_0000_0000 + factor.bits % 0x10_0000_0000_0000;
            let k = (1075 - factor.bits / 0x10_0000_0000_0000) as nat;
            let exact = side * vstd::arithmetic::power::pow(a as int, n);
            let unit = binary64::exp2(k * n);
            let s = shrunk_side(side, factor, n);
            &&& 1 <= s <= side
            &&& 8 * exact <= (8 * s + 5) * unit
            &&& s == 1 || (8 * s - 5) * unit <= 8 * exact
        }),
{
    let a = (0x10_0000_0000_0000 + factor.bits % 0x10_0000_0000_0000) as nat;
    let k = (1075 - factor.bits / 0x10_0000_0000_0000) as nat;
    let e = -(k as int);
    let f = factor.absolute();
    assert(factor.unsigned_bits() == factor.bits);
    assert(factor.bits / 0x10_0000_0000_0000 >= 1 && factor.bits / 0x10_0000_0000_0000 <= 0x3fe);
    assert(f == Dyadic { m: a, e });
    vstd::arithmetic::power::lemma_pow1(a as int);
    assert(binary64::exp2(0) == 1);
    assert(1 * e == e && a * 1 == a);
    assert(near(f, a, e, 1, 0));
    assert(0 + n * 1 == n);
    lemma_raised(binary64::one(), 0, f, 1, n, a, e);
    let v = raised(binary64::one(), f, n);
    let kv = (v.e - n * e) as nat;
    let big = v.m * binary64::exp2(kv);
    let q = vstd::arithmetic::power::pow(a as int, n);
    lemma_pow_nonnegative(a, n);
    binary64::lemma_exp2_constants();
    binary64::lemma_exp2_grows(53, k);
    lemma_power_below(a, k, n);
    let kk = k * n;
    let unit = binary64::exp2(kk);
    assert(n * e == -(kk as int)) by (nonlinear_arith)
        requires
            e == -(k as int),
            kk == k * n,
    ;
    assert(kk >= 1) by (nonlinear_arith)
        requires
            kk == k * n,
            k >= 1,
            n >= 1,
    ;
    let x = side as nat * v.m;
    assert(x >= 0x10_0000_0000_0000) by (nonlinear_arith)
        requires
            x == side * v.m,
            side >= 1,
            v.m >= 0x10_0000_0000_0000,
    ;
    binary64::lemma_nearest_error(x, 1);
    let p = binary64::nearest(x, 1);
    let u = binary64::exp2(p.e as nat);
    assert(u * 1 == u && 2 * (p.m * u) * 1 == 2 * (p.m * u) && u * 1 * 0x10_0000_0000_0000 == u
        * 0x10_0000_0000_0000);
    let pu = p.m * u;
    assert(0x20_0000_0000_0000 * (pu - x) <= x && 0x20_0000_0000_0000 * (x - pu) <= x);
    let g = binary64::exp2(kv);
    binary64::lemma_exp2_adds(p.e as nat, kv);
    let up = Dyadic { m: p.m, e: p.e + kv };
    assert((p.e + kv) as nat == p.e as nat + kv);
    let total = p.m * binary64::exp2((p.e + kv) as nat);
    assert(total == pu * g) by (nonlinear_arith)
        requires
            total == p.m * (u * g),
            pu == p.m * u,
    ;
    let sb = side * big;
    assert(sb == x * g) by (nonlinear_arith)
        requires
            sb == side * big,
            big == v.m * g,
            x == side * v.m,
    ;
    let t: int = 0x10_0000_0000_0000;
    assert(2 * t * (total - sb) <= sb && 2 * t * (sb - total) <= sb) by (nonlinear_arith)
        requires
            total == pu * g,
            sb == x * g,
            2 * t * (pu - x) <= x,
            2 * t * (x - pu) <= x,
            g >= 0,
    {
        assert((2 * t * (pu - x)) * g <= x * g);
        assert((2 * t * (x - pu)) * g <= x * g);
    }
    let exact = side * q;
    let c = (n - 1) as nat;
    binary64::lemma_exp2_pos(kk);
    assert(t * (sb - exact) <= c * exact && t * (exact - sb) <= c * exact) by (nonlinear_arith)
        requires
            sb == side * big,
            exact == side * q,
            t * (big - q) <= c * q,
            t * (q - big) <= c * q,
            side >= 0,
    {
        assert((t * (big - q)) * side <= (c * q) * side);
        assert((t * (q - big)) * side <= (c * q) * side);
    }
    assert(0 <= exact <= 0xffff_ffff * unit) by (nonlinear_arith)
        requires
            exact == side * q,
            0 <= q <= unit,
            0 <= side <= 0xffff_ffff,
    ;
    assert(0 <= c * exact <= 0x1_ffff * exact) by (nonlinear_arith)
        requires
            0 <= c <= 0x1_ffff,
            exact >= 0,
    ;
    assert(8 * (total - exact) <= unit && 8 * (exact - total) <= unit);
    let product = v.times(side as nat);
    assert(product == Dyadic { m: up.m, e: up.e - kk });
    let r = product.rounded();
    if r >= 1 && 2 * total < (2 * r - 1) * unit {
        assert((2 * (r - 1) as nat + 1) * unit == (2 * r - 1) * unit);
        binary64::lemma_rounded_at_most(up, kk, (r - 1) as nat);
    }
    if 2 * total >= (2 * r + 1) * unit {
        assert((2 * (r + 1) - 1) * unit == (2 * r + 1) * unit);
        binary64::lemma_rounded_at_least(up, kk, r + 1);
    }
    assert(8 * exact <= (8 * r + 5) * unit) by (nonlinear_arith)
        requires
            2 * total < (2 * r + 1) * unit,
            8 * (exact - total) <= unit,
    ;
    assert(r >= 1 ==> (8 * r - 5) * unit <= 8 * exact) by (nonlinear_arith)
        requires
            r >= 1 ==> 2 * total >= (2 * r - 1) * unit,
            8 * (total - exact) <= unit,
    ;
    assert(r <= side) by (nonlinear_arith)
        requires
            r >= 1 ==> (8 * r - 5) * unit <= 8 * exact,
            exact == side * q,
            0 <= q <= unit,
            side >= 1,
            unit > 0,
    {
        if r > side {
            assert(8 * r - 5 >= 8 * side + 3);
            assert((8 * r - 5) * unit >= (8 * side + 3) * unit);
            assert(side * q <= side * unit);
        }
    }
    if r == 0 {
        assert((8 * r + 5) * unit <= (8 * 1 + 5) * unit) by (nonlinear_arith)
            requires
                r == 0,
                unit >= 0,
        ;
    }
}

/// A level lowered by some steps, but not below a floor.
pub open spec fn lowered(start: int, floor: int, step: int, i: nat) -> int {
    if start - i * step > floor {
        start - i * step
    } else {
        floor
    }
}

/// A level moved to the nearest one of a range.
pub open spec fn moved_into(axis: QualityAxis, level: int) -> int {
    if level < axis.min {
        axis.min as int
    } else if level > axis.max {
        axis.max as int
    } else {
        level
    }
}

/// Whether a picture was encoded at a level, at more bytes than allowed and no fewer than some
/// number.
pub open spec fn too_big<C: Codec>(
    codec: &C,
    picture: &Image,
    level: int,
    metadata: MetadataPolicy,
    max: nat,
    least: nat,
) -> bool {
    exists|encoded: Encoded|
        {
            &&& #[trigger] call_ensures(
                C::encode,
                (codec, picture, &EncodeSettings { level: level as u32, metadata }),
                Ok(encoded),
            )
            &&& encoded.bytes@.len() > max
            &&& encoded.bytes@.len() >= least
        }
}

/// The level to begin with on a range.
pub open spec fn highest_tried(axis: QualityAxis, options: BudgetOptions) -> int {
    moved_into(axis, options.level as int)
}

/// The level at which lowering ends on a range.
pub open spec fn lowest_tried(axis: QualityAxis, options: BudgetOptions) -> int {
    moved_into(
        axis,
        if options.min_level < options.level {
            options.min_level as int
        } else {
            options.level as int
        },
    )
}

/// Whether a result degrades an image no further than a cap demands, and in the right order. It is
/// an encoding of the image itself, or of it downscaled a number of times, under the metadata
/// policy asked for. Lowering the level comes first: every level on the way down was too big before
/// a picture was downscaled, and every higher level of its own picture was too big too. Where
/// nothing fits, everything was tried and nothing was smaller.
pub open spec fn degraded<P: ImagePipeline, C: Codec>(
    pipeline: &P,
    codec: &C,
    start: int,
    floor: int,
    image: &Image,
    options: BudgetOptions,
    max: nat,
    b: BudgetedEncode,
    pictures: Seq<Image>,
    n: int,
) -> bool {
    let step = options.level_step as int;
    let size = b.encoded.bytes@.len();
    &&& 0 <= n < pictures.len() <= options.max_downscales + 1
    &&& pictures[0] == *image
    &&& forall|d: int|
        0 < d < pictures.len() ==> call_ensures(
            P::resize,
            (
                pipeline,
                image,
                shrunk(image@.dimensions, options.downscale_factor, d as nat),
            ),
            Ok(#[trigger] pictures[d]),
        )
    &&& b.dimensions == pictures[n]@.dimensions
    &&& call_ensures(
        C::encode,
        (codec, &pictures[n], &EncodeSettings { level: b.level, metadata: options.metadata }),
        Ok(b.encoded),
    )
    &&& exists|i: nat| b.level == #[trigger] lowered(start, floor, step, i)
    &&& b.within_budget <==> size <= max
    &&& b.within_budget ==> (forall|d: int, i: nat|
        #![trigger pictures[d], lowered(start, floor, step, i)]
        0 <= d <= n && (d < n || lowered(start, floor, step, i) > b.level) ==> too_big(
            codec,
            &pictures[d],
            lowered(start, floor, step, i),
            options.metadata,
            max,
            0,
        ))
    &&& !b.within_budget ==> pictures.len() == options.max_downscales + 1 && (forall|
        d: int,
        i: nat,
    |
        #![trigger pictures[d], lowered(start, floor, step, i)]
        0 <= d < pictures.len() ==> too_big(
            codec,
            &pictures[d],
            lowered(start, floor, step, i),
            options.metadata,
            max,
            size,
        ))
}

/// Encoding under a cap degrades an image no further than the cap demands: first by lowering the
/// level, then by downscaling.
pub proof fn lemma_cap_is_met_with_the_least_loss<P: ImagePipeline, C: Codec>(
    pipeline: &P,
    codec: &C,
    axis: QualityAxis,
    image: &Image,
    options: BudgetOptions,
    max: u64,
    b: BudgetedEncode,
)
    requires
        options.workable_on(axis),
        options.max_bytes == Some(max),
        budgeted(pipeline, codec, axis, image, options, Ok(b)),
    ensures
        exists|pictures: Seq<Image>, n: int| #[trigger]
            degraded(
                pipeline,
                codec,
                highest_tried(axis, options),
                lowest_tried(axis, options),
                image,
                options,
                max as nat,
                b,
                pictures,
                n,
            ),
{
    let rungs = options.rungs_on(axis);
    let count = rungs.len() as int;
    let (start, floor) = (options.start_on(axis), options.floor_on(axis));
    let step = options.level_step;
    let (images, attempts) = choose|images: Seq<Image>, attempts: Seq<Encoded>|
        {
            &&& #[trigger] downscaled(pipeline, image, options.downscale_factor, images)
            &&& #[trigger] attempted(codec, options.metadata, rungs, images, attempts)
            &&& settled(pipeline, codec, axis, image, options, images, attempts, Ok(b))
            &&& images.len() <= options.max_downscales + 1
        };
    let s = choose|s: int| chosen(options, rungs, images, attempts, s, b);
    lemma_ladder(start, floor, step);
    vstd::arithmetic::div_mod::lemma_fundamental_div_mod(s, count);
    vstd::arithmetic::div_mod::lemma_mod_bound(s, count);
    let (n, at) = (s / count, s % count);
    assert(attempts_to(codec, options.metadata, rungs, images, s, Ok(attempts[s])));
    assert(b.level == lowered(start as int, floor as int, step as int, at as nat));
    let size = b.encoded.bytes@.len();
    if b.within_budget {
        assert forall|d: int, i: nat|
            #![trigger images[d], lowered(start as int, floor as int, step as int, i)]
            0 <= d <= n && (d < n || lowered(start as int, floor as int, step as int, i)
                > b.level) implies too_big(
            codec,
            &images[d],
            lowered(start as int, floor as int, step as int, i),
            options.metadata,
            max as nat,
            0,
        ) by {
            let j = lemma_rung_of(start, floor, step, i);
            let a = d * count + j;
            lemma_place(d, count, j);
            assert(a < s) by {
                if d < n {
                    assert(d * count + j < n * count) by (nonlinear_arith)
                        requires
                            d + 1 <= n,
                            0 <= j < count,
                    ;
                    assert(n * count == count * n) by (nonlinear_arith);
                } else {
                    if j >= at {
                        if j > at {
                            assert(rungs[at] > rungs[j]);
                        }
                    }
                    assert(d * count == count * n) by (nonlinear_arith)
                        requires
                            d == n,
                    ;
                }
            }
            assert(0 <= d * count) by (nonlinear_arith)
                requires
                    d >= 0,
                    count >= 0,
            ;
            assert(attempts_to(codec, options.metadata, rungs, images, a, Ok(attempts[a])));
            assert(!options.allows(attempts[a].bytes@.len()));
        }
    } else {
        let total = count * (options.max_downscales + 1);
        let top = options.max_downscales as int;
        lemma_place(top, count, 0);
        assert(0 <= top * count + 0 < total) by (nonlinear_arith)
            requires
                total == count * (top + 1),
                count >= 1,
                top >= 0,
        ;
        assert(attempts_to(
            codec,
            options.metadata,
            rungs,
            images,
            top * count + 0,
            Ok(attempts[top * count + 0]),
        ));
        assert forall|d: int, i: nat|
            #![trigger images[d], lowered(start as int, floor as int, step as int, i)]
            0 <= d < images.len() implies too_big(
            codec,
            &images[d],
            lowered(start as int, floor as int, step as int, i),
            options.metadata,
            max as nat,
            size,
        ) by {
            let j = lemma_rung_of(start, floor, step, i);
            let a = d * count + j;
            lemma_place(d, count, j);
            assert(0 <= a < total) by (nonlinear_arith)
                requires
                    a == d * count + j,
                    total == count * (top + 1),
                    0 <= d <= top,
                    0 <= j < count,
            ;
            assert(attempts_to(codec, options.metadata, rungs, images, a, Ok(attempts[a])));
            assert(!options.allows(attempts[a].bytes@.len()));
        }
    }
    assert(start == highest_tried(axis, options) && floor == lowest_tried(axis, options));
    assert(degraded(
        pipeline,
        codec,
        start as int,
        floor as int,
        image,
        options,
        max as nat,
        b,
        images,
        n,
    ));
}

/// The rung that a lowered level is.
proof fn lemma_rung_of(start: u32, floor: u32, step: u32, i: nat) -> (j: int)
    requires
        floor <= start,
        step > 0 || start == floor,
    ensures
        0 <= j < ladder(start, floor, step).len(),
        ladder(start, floor, step)[j] == lowered(start as int, floor as int, step as int, i),
{
    lemma_ladder(start, floor, step);
    let rungs = ladder(start, floor, step);
    if i < rungs.len() {
        i as int
    } else {
        let last = rungs.len() - 1;
        assert(rungs[last] == floor);
        assert(last * step <= i * step) by (nonlinear_arith)
            requires
                0 <= last <= i,
                step >= 0,
        ;
        last
    }
}

} // verus!
