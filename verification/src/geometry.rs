//! Image dimensions and how output dimensions follow from the source.

use vstd::prelude::*;

use crate::binary64::{self, Binary64, Dyadic, Magnitude};

verus! {

/// Width and height in pixels.
#[derive(Clone, Copy, Debug, PartialEq, Eq, Structural)]
pub struct Dimensions {
    pub width: u32,
    pub height: u32,
}

impl Dimensions {
    /// The number of pixels.
    pub open spec fn area(self) -> nat {
        (self.width * self.height) as nat
    }

    /// Whether there is at least one pixel.
    pub open spec fn nonzero(self) -> bool {
        self.width > 0 && self.height > 0
    }

    /// Whether neither side is longer than that of `other`.
    pub open spec fn within(self, other: Dimensions) -> bool {
        self.width <= other.width && self.height <= other.height
    }

    pub fn new(width: u32, height: u32) -> (r: Self)
        ensures
            r.width == width,
            r.height == height,
    {
        Self { width, height }
    }

    pub fn pixels(self) -> (r: u64)
        ensures
            r == self.area(),
    {
        proof {
            lemma_area_bound(self);
        }
        self.width as u64 * self.height as u64
    }
}

proof fn lemma_area_bound(d: Dimensions)
    ensures
        d.area() <= 0xffff_ffff * 0xffff_ffff,
{
    assert(d.width * d.height <= 0xffff_ffff * 0xffff_ffff) by (nonlinear_arith)
        requires
            d.width <= 0xffff_ffff,
            d.height <= 0xffff_ffff,
    ;
}

/// A side scaled down and rounded, but never to nothing.
pub open spec fn scaled_side(side: u32, scale: Dyadic) -> nat {
    let r = scale.times(side as nat).rounded();
    if r == 0 {
        1
    } else {
        r
    }
}

/// The quotient of two lengths as a double, unless the divisor is zero.
pub open spec fn length_ratio(limit: u32, length: u32) -> Option<Dyadic> {
    if length == 0 {
        None
    } else {
        Some(binary64::nearest(limit as nat, length as nat))
    }
}

/// The smaller of two scales, where one that is missing does not limit.
pub open spec fn smaller_scale(a: Option<Dyadic>, b: Option<Dyadic>) -> Option<Dyadic> {
    match (a, b) {
        (Some(x), Some(y)) => if y.less(x) {
            Some(y)
        } else {
            Some(x)
        },
        (Some(x), None) => Some(x),
        (None, y) => y,
    }
}

/// How output dimensions are derived from the source. Resizing is always explicit and
/// never upscales.
#[derive(Clone, Copy, Debug, PartialEq)]
pub enum DimensionPolicy {
    Preserve,
    /// Longest side at most this many pixels.
    MaxDimension { max: u32 },
    /// Fit inside a box, preserving aspect ratio.
    MaxBox { width: u32, height: u32 },
    /// About this many million pixels at most.
    MaxMegapixels { megapixels: Binary64 },
}

impl Default for DimensionPolicy {
    fn default() -> (r: Self)
        ensures
            r == DimensionPolicy::Preserve,
    {
        DimensionPolicy::Preserve
    }
}

impl DimensionPolicy {
    /// The factor that both sides are multiplied with, in double precision. `None` stands for
    /// a factor that is infinite or not a number, which leaves the source as it is.
    pub open spec fn scale(self, source: Dimensions) -> Option<Dyadic> {
        match self {
            DimensionPolicy::Preserve => Some(binary64::one()),
            DimensionPolicy::MaxDimension { max } => length_ratio(
                max,
                if source.width >= source.height {
                    source.width
                } else {
                    source.height
                },
            ),
            DimensionPolicy::MaxBox { width, height } => smaller_scale(
                length_ratio(width, source.width),
                length_ratio(height, source.height),
            ),
            DimensionPolicy::MaxMegapixels { megapixels } => if source.area() == 0
                || !megapixels.finite() || (megapixels.negative() && megapixels.absolute().m > 0) {
                None
            } else {
                Some(megapixels.absolute().times(1_000_000).over(binary64::nearest(source.area(), 1)).root())
            },
        }
    }

    /// The output dimensions: the source, unless the scale is below one.
    pub open spec fn target_spec(self, source: Dimensions) -> Dimensions {
        match self.scale(source) {
            Some(scale) => if scale.less(binary64::one()) {
                Dimensions {
                    width: scaled_side(source.width, scale) as u32,
                    height: scaled_side(source.height, scale) as u32,
                }
            } else {
                source
            },
            None => source,
        }
    }

    pub fn target(self, source: Dimensions) -> (r: Dimensions)
        ensures
            r == self.target_spec(source),
    {
        proof {
            lemma_area_bound(source);
            lemma_area_zero(source);
            lemma_scale_significand(self, source);
        }
        let scale: Option<Magnitude> = match self {
            DimensionPolicy::Preserve => Some(Magnitude { m: 1, e: 0 }),
            DimensionPolicy::MaxDimension { max } => {
                if source.width >= source.height {
                    ratio_of(max, source.width)
                } else {
                    ratio_of(max, source.height)
                }
            },
            DimensionPolicy::MaxBox { width, height } => {
                let across: Option<Magnitude> = ratio_of(width, source.width);
                let down: Option<Magnitude> = ratio_of(height, source.height);
                match (across, down) {
                    (Some(x), Some(y)) => if y.less(x) {
                        Some(y)
                    } else {
                        Some(x)
                    },
                    (Some(x), None) => Some(x),
                    (None, y) => y,
                }
            },
            DimensionPolicy::MaxMegapixels { megapixels } => {
                let area: u64 = source.pixels();
                let above: u64 = megapixels.bits % 0x8000_0000_0000_0000;
                if area == 0 || above >= 0x7ff0_0000_0000_0000 {
                    None
                } else {
                    let m: Magnitude = megapixels.magnitude();
                    if megapixels.bits >= 0x8000_0000_0000_0000 && m.m > 0 {
                        None
                    } else {
                        Some(m.times(1_000_000).over(Magnitude::ratio(area as u128, 1)).root())
                    }
                }
            },
        };
        match scale {
            Some(s) => if s.less(Magnitude { m: 1, e: 0 }) {
                proof {
                    assert(self.scale(source) == Some(s@));
                    assert(s@ != binary64::one()) by {
                        assert(1 * binary64::exp2(0) == 1);
                    }
                    lemma_scaled_side_shrinks(source.width, s@);
                    lemma_scaled_side_shrinks(source.height, s@);
                }
                Dimensions { width: scale_side(source.width, s), height: scale_side(source.height, s) }
            } else {
                source
            },
            None => source,
        }
    }
}

fn ratio_of(limit: u32, length: u32) -> (r: Option<Magnitude>)
    ensures
        (match r {
            Some(m) => length_ratio(limit, length) == Some(m@) && m.bounded() && -128 <= m.e <= 128,
            None => length_ratio(limit, length) is None,
        }),
{
    if length == 0 {
        None
    } else {
        Some(Magnitude::ratio(limit as u128, length as u128))
    }
}

fn scale_side(side: u32, scale: Magnitude) -> (r: u32)
    requires
        scale.m <= 0x20_0000_0000_0000,
        -0x1_0000 <= scale.e <= 0x1_0000,
        scaled_side(side, scale@) <= u32::MAX,
    ensures
        r == scaled_side(side, scale@),
{
    let r: u64 = scale.times(side as u64).rounded();
    if r == 0 {
        1
    } else {
        r as u32
    }
}

proof fn lemma_area_zero(d: Dimensions)
    by (nonlinear_arith)
    ensures
        d.nonzero() ==> d.width * d.height > 0,
{
}

/// Every scale is zero, or has a significand of at least 53 bits, or is exactly one.
proof fn lemma_scale_significand(policy: DimensionPolicy, source: Dimensions)
    ensures
        policy.scale(source) matches Some(s) ==> s == binary64::one() || s.m == 0 || 0x10_0000_0000_0000
            <= s.m <= 0x20_0000_0000_0000,
{
    match policy {
        DimensionPolicy::Preserve => {},
        DimensionPolicy::MaxDimension { max } => {
            if source.width > 0 {
                binary64::lemma_nearest_significand(max as nat, source.width as nat);
            }
            if source.height > 0 {
                binary64::lemma_nearest_significand(max as nat, source.height as nat);
            }
        },
        DimensionPolicy::MaxBox { width, height } => {
            if source.width > 0 {
                binary64::lemma_nearest_significand(width as nat, source.width as nat);
            }
            if source.height > 0 {
                binary64::lemma_nearest_significand(height as nat, source.height as nat);
            }
        },
        DimensionPolicy::MaxMegapixels { megapixels } => {
            let p = megapixels.absolute().times(1_000_000);
            let q = p.over(binary64::nearest(source.area(), 1));
            binary64::lemma_nearest_significand(p.m, binary64::nearest(source.area(), 1).m);
            binary64::lemma_root_significand(q.m);
            binary64::lemma_root_significand(2 * q.m);
        },
    }
}

/// A scale below one, times a side, exceeds `limit` only by what rounding takes back.
proof fn lemma_scaled_side_at_most(side: u32, scale: Dyadic, limit: nat)
    requires
        scale.m == 0 || 0x10_0000_0000_0000 <= scale.m <= 0x20_0000_0000_0000,
        scale.less(binary64::one()),
        scale.m > 0 ==> 8 * (side * scale.m) <= (8 * limit + 1) * binary64::exp2((-scale.e) as nat),
        limit <= 0xffff_ffff,
    ensures
        scale.times(side as nat).rounded() <= limit,
{
    let x = side as nat * scale.m;
    if x == 0 {
        let e = scale.e;
        assert(scale.times(side as nat) == Dyadic { m: 0, e });
        if e < 0 {
            let h = binary64::exp2((-e - 1) as nat);
            assert(binary64::exp2((-e) as nat) == 2 * h);
            binary64::lemma_exp2_pos((-e - 1) as nat);
            assert((0 + h) / (2 * h) == 0) by (nonlinear_arith)
                requires
                    h > 0,
            ;
        } else {
            assert(0 * binary64::exp2(e as nat) == 0);
        }
    } else {
        assert(side > 0 && scale.m > 0) by (nonlinear_arith)
            requires
                side * scale.m != 0,
                side >= 0,
                scale.m >= 0,
        ;
        assert(x >= scale.m) by (nonlinear_arith)
            requires
                x == side * scale.m,
                side >= 1,
                scale.m >= 0,
        ;
        if scale.e >= 0 {
            binary64::lemma_exp2_pos(scale.e as nat);
            assert(scale.m * binary64::exp2(scale.e as nat) >= scale.m) by (nonlinear_arith)
                requires
                    binary64::exp2(scale.e as nat) >= 1,
                    scale.m >= 0,
            ;
        }
        let k = (-scale.e) as nat;
        let big = binary64::exp2(k);
        assert(1 * big == big) by (nonlinear_arith);
        binary64::lemma_nearest_error(x, 1);
        let f = binary64::nearest(x, 1);
        let u = binary64::exp2(f.e as nat);
        assert(u * 1 * 0x10_0000_0000_0000 == u * 0x10_0000_0000_0000);
        assert(2 * (f.m * u) * 1 == 2 * (f.m * u));
        assert(u * 1 == u);
        assert(2 * (f.m * u) < (2 * limit + 1) * big) by (nonlinear_arith)
            requires
                2 * (f.m * u) <= 2 * x + u,
                u * 0x10_0000_0000_0000 <= x,
                8 * x <= (8 * limit + 1) * big,
                limit <= 0xffff_ffff,
                big > 0x10_0000_0000_0000,
        ;
        binary64::lemma_rounded_at_most(f, k, limit);
    }
}

proof fn lemma_scaled_side_shrinks(side: u32, scale: Dyadic)
    requires
        scale.m == 0 || 0x10_0000_0000_0000 <= scale.m <= 0x20_0000_0000_0000,
        scale.less(binary64::one()),
    ensures
        scale.times(side as nat).rounded() <= side,
        scaled_side(side, scale) <= u32::MAX,
        side > 0 ==> scaled_side(side, scale) <= side,
{
    if scale.m > 0 {
        if scale.e >= 0 {
            binary64::lemma_exp2_pos(scale.e as nat);
            assert(scale.m * binary64::exp2(scale.e as nat) >= scale.m) by (nonlinear_arith)
                requires
                    binary64::exp2(scale.e as nat) >= 1,
                    scale.m >= 0,
            ;
        }
        let big = binary64::exp2((-scale.e) as nat);
        assert(1 * big == big);
        assert(8 * (side * scale.m) <= (8 * side + 1) * big) by (nonlinear_arith)
            requires
                side >= 0,
                scale.m <= big,
        ;
    }
    lemma_scaled_side_at_most(side, scale, side as nat);
}

/// No policy makes an image wider or higher than its source, nor empty.
pub proof fn lemma_target_never_upscales(policy: DimensionPolicy, source: Dimensions)
    requires
        source.nonzero(),
    ensures
        policy.target_spec(source).within(source),
        policy.target_spec(source).nonzero(),
{
    lemma_scale_significand(policy, source);
    if let Some(s) = policy.scale(source) {
        if s.less(binary64::one()) {
            assert(s != binary64::one()) by {
                assert(1 * binary64::exp2(0) == 1);
            }
            lemma_scaled_side_shrinks(source.width, s);
            lemma_scaled_side_shrinks(source.height, s);
        }
    }
}

/// A side times the nearest double to `limit / length`, for a side no longer than `length`,
/// rounds to at most `limit`.
proof fn lemma_ratio_fits(side: u32, limit: u32, length: u32)
    requires
        0 < limit < length,
        side <= length,
    ensures
        binary64::nearest(limit as nat, length as nat).less(binary64::one()),
        binary64::nearest(limit as nat, length as nat).times(side as nat).rounded() <= limit,
{
    binary64::lemma_nearest_significand(limit as nat, length as nat);
    binary64::lemma_nearest_quotient(limit as nat, length as nat);
    let s = binary64::nearest(limit as nat, length as nat);
    let big = binary64::exp2((-s.e) as nat);
    lemma_power_bound(s.e);
    assert(1 * big == big) by (nonlinear_arith);
    assert(s.m < big) by (nonlinear_arith)
        requires
            2 * (s.m * length) <= 2 * (limit * big) + length,
            limit + 1 <= length,
            length <= 0xffff_ffff,
            big >= 0x20_0000_0000_0000,
    ;
    assert(8 * (side * s.m) <= (8 * limit + 1) * big) by (nonlinear_arith)
        requires
            2 * (s.m * length) <= 2 * (limit * big) + length,
            0 <= side <= length,
            length <= 0xffff_ffff,
            big >= 0x20_0000_0000_0000,
            s.m >= 0,
    ;
    lemma_scaled_side_at_most(side, s, limit as nat);
}

proof fn lemma_power_bound(e: int)
    requires
        e < -52,
    ensures
        binary64::exp2((-e) as nat) >= 0x20_0000_0000_0000,
{
    binary64::lemma_exp2_constants();
    binary64::lemma_exp2_grows(53, (-e) as nat);
}

/// With a longest side, neither side of the output is longer than that, as far as there is a
/// pixel to show.
pub proof fn lemma_max_dimension_fits(max: u32, source: Dimensions)
    requires
        source.nonzero(),
        max > 0,
    ensures
        (DimensionPolicy::MaxDimension { max }).target_spec(source).width <= max,
        (DimensionPolicy::MaxDimension { max }).target_spec(source).height <= max,
{
    let policy = DimensionPolicy::MaxDimension { max };
    lemma_target_never_upscales(policy, source);
    let longest = if source.width >= source.height {
        source.width
    } else {
        source.height
    };
    if max < longest {
        lemma_ratio_fits(source.width, max, longest);
        lemma_ratio_fits(source.height, max, longest);
        let s = binary64::nearest(max as nat, longest as nat);
        binary64::lemma_nearest_significand(max as nat, longest as nat);
        lemma_scaled_side_shrinks(source.width, s);
        lemma_scaled_side_shrinks(source.height, s);
    }
}

/// A side times any scale that is no larger than the nearest double to `limit / side` rounds
/// to at most `limit`.
proof fn lemma_smaller_scale_fits(side: u32, limit: u32, scale: Dyadic)
    requires
        0 < limit < side,
        scale.m == 0 || 0x10_0000_0000_0000 <= scale.m <= 0x20_0000_0000_0000,
        scale.less(binary64::one()),
        !binary64::nearest(limit as nat, side as nat).less(scale),
    ensures
        scale.times(side as nat).rounded() <= limit,
{
    let b = binary64::nearest(limit as nat, side as nat);
    binary64::lemma_nearest_significand(limit as nat, side as nat);
    binary64::lemma_nearest_quotient(limit as nat, side as nat);
    lemma_power_bound(b.e);
    let bk = binary64::exp2((-b.e) as nat);
    if scale.m > 0 {
        if scale.e >= 0 {
            binary64::lemma_exp2_pos(scale.e as nat);
            assert(scale.m * binary64::exp2(scale.e as nat) >= scale.m) by (nonlinear_arith)
                requires
                    binary64::exp2(scale.e as nat) >= 1,
                    scale.m >= 0,
            ;
        }
        let sk = binary64::exp2((-scale.e) as nat);
        assert(1 * sk == sk) by (nonlinear_arith);
        assert(scale.m * bk <= b.m * sk) by {
            if b.e >= scale.e {
                let x = binary64::exp2((b.e - scale.e) as nat);
                binary64::lemma_exp2_adds((b.e - scale.e) as nat, (-b.e) as nat);
                assert((b.e - scale.e) as nat + (-b.e) as nat == (-scale.e) as nat);
                assert(scale.m * bk <= b.m * (x * bk)) by (nonlinear_arith)
                    requires
                        scale.m <= b.m * x,
                        bk >= 0,
                ;
            } else {
                let x = binary64::exp2((scale.e - b.e) as nat);
                binary64::lemma_exp2_adds((scale.e - b.e) as nat, (-scale.e) as nat);
                assert((scale.e - b.e) as nat + (-scale.e) as nat == (-b.e) as nat);
                assert(scale.m * (x * sk) <= b.m * sk) by (nonlinear_arith)
                    requires
                        scale.m * x <= b.m,
                        sk >= 0,
                ;
            }
        }
        assert(8 * (side * scale.m) <= (8 * limit + 1) * sk) by {
            assert(8 * (side * b.m) <= (8 * limit + 1) * bk) by (nonlinear_arith)
                requires
                    2 * (b.m * side) <= 2 * (limit * bk) + side,
                    side <= 0xffff_ffff,
                    bk >= 0x20_0000_0000_0000,
            ;
            assert(8 * (side * scale.m) <= (8 * limit + 1) * sk) by (nonlinear_arith)
                requires
                    8 * (side * b.m) <= (8 * limit + 1) * bk,
                    scale.m * bk <= b.m * sk,
                    bk > 0,
                    sk > 0,
                    side > 0,
            {
                let l = 8 * (side * scale.m);
                let r = (8 * limit + 1) * sk;
                assert(l * bk == 8 * side * (scale.m * bk));
                assert(8 * side * (scale.m * bk) <= 8 * side * (b.m * sk));
                assert(8 * side * (b.m * sk) == 8 * (side * b.m) * sk);
                assert(8 * (side * b.m) * sk <= (8 * limit + 1) * bk * sk);
                assert((8 * limit + 1) * bk * sk == r * bk);
                assert(l * bk <= r * bk);
            }
        }
    }
    lemma_scaled_side_at_most(side, scale, limit as nat);
}

/// The output of a box fits inside the box, as far as there is a pixel to show.
pub proof fn lemma_max_box_fits(width: u32, height: u32, source: Dimensions)
    requires
        source.nonzero(),
        width > 0,
        height > 0,
    ensures
        (DimensionPolicy::MaxBox { width, height }).target_spec(source).within(
            Dimensions { width, height },
        ),
{
    let policy = DimensionPolicy::MaxBox { width, height };
    lemma_target_never_upscales(policy, source);
    let a = binary64::nearest(width as nat, source.width as nat);
    let b = binary64::nearest(height as nat, source.height as nat);
    binary64::lemma_nearest_significand(width as nat, source.width as nat);
    binary64::lemma_nearest_significand(height as nat, source.height as nat);
    let s = policy.scale(source)->0;
    if width < source.width {
        lemma_ratio_fits(source.width, width, source.width);
    }
    if height < source.height {
        lemma_ratio_fits(source.height, height, source.height);
    }
    lemma_less_asymmetric(a, b);
    lemma_less_asymmetric(a, a);
    lemma_less_asymmetric(b, b);
    if s.less(binary64::one()) {
        lemma_scaled_side_shrinks(source.width, s);
        lemma_scaled_side_shrinks(source.height, s);
        if width < source.width {
            lemma_smaller_scale_fits(source.width, width, s);
        }
        if height < source.height {
            lemma_smaller_scale_fits(source.height, height, s);
        }
    } else {
        if width < source.width {
            lemma_less_than_one_smaller(s, a);
        }
        if height < source.height {
            lemma_less_than_one_smaller(s, b);
        }
    }
}

proof fn lemma_less_asymmetric(a: Dyadic, b: Dyadic)
    ensures
        a.less(b) ==> !b.less(a),
{
    assert(binary64::exp2(0) == 1);
    assert(a.m * 1 == a.m && b.m * 1 == b.m);
}

/// What is no larger than a scale below one is below one.
proof fn lemma_less_than_one_smaller(s: Dyadic, a: Dyadic)
    requires
        s.m <= 0x20_0000_0000_0000,
        a.m >= 0x10_0000_0000_0000,
        s.m == 0 || s.m >= 0x10_0000_0000_0000,
        a.less(binary64::one()),
        !a.less(s),
    ensures
        s.less(binary64::one()),
{
    assert(binary64::exp2(0) == 1);
    if a.e >= 0 {
        binary64::lemma_exp2_pos(a.e as nat);
        assert(a.m * binary64::exp2(a.e as nat) >= a.m) by (nonlinear_arith)
            requires
                binary64::exp2(a.e as nat) >= 1,
                a.m >= 0,
        ;
    }
    let ak = binary64::exp2((-a.e) as nat);
    assert(1 * ak == ak) by (nonlinear_arith);
    if a.e >= s.e {
        let x = binary64::exp2((a.e - s.e) as nat);
        binary64::lemma_exp2_adds((a.e - s.e) as nat, (-a.e) as nat);
        binary64::lemma_exp2_pos((a.e - s.e) as nat);
        assert((a.e - s.e) as nat + (-a.e) as nat == (-s.e) as nat);
        assert(s.m < 1 * (x * ak)) by (nonlinear_arith)
            requires
                s.m <= a.m * x,
                a.m < ak,
                x >= 1,
        ;
    } else {
        let x = binary64::exp2((s.e - a.e) as nat);
        binary64::lemma_exp2_pos((s.e - a.e) as nat);
        if s.e >= 0 {
            binary64::lemma_exp2_adds(s.e as nat, (-a.e) as nat);
            assert(s.e as nat + (-a.e) as nat == (s.e - a.e) as nat);
            let y = binary64::exp2(s.e as nat);
            assert(s.m * y < 1) by (nonlinear_arith)
                requires
                    s.m * (y * ak) <= a.m,
                    a.m < ak,
                    s.m >= 0,
                    y >= 0,
            ;
        } else {
            let sk = binary64::exp2((-s.e) as nat);
            binary64::lemma_exp2_adds((s.e - a.e) as nat, (-s.e) as nat);
            assert((s.e - a.e) as nat + (-s.e) as nat == (-a.e) as nat);
            assert(s.m < 1 * sk) by (nonlinear_arith)
                requires
                    s.m * x <= a.m,
                    a.m < x * sk,
                    x >= 1,
            ;
        }
    }
}

/// The nearest double to a quotient of at least one is not below one.
proof fn lemma_ratio_not_below_one(limit: u32, length: u32)
    requires
        0 < length <= limit,
    ensures
        !binary64::nearest(limit as nat, length as nat).less(binary64::one()),
{
    let s = binary64::nearest(limit as nat, length as nat);
    assert(limit < length * 0x20_0000_0000_0000);
    binary64::lemma_nearest_significand(limit as nat, length as nat);
    binary64::lemma_nearest_quotient_scaled(limit as nat, length as nat);
    binary64::lemma_less_cross(s, binary64::one());
    let big = binary64::exp2((-s.e) as nat);
    assert(binary64::exp2(0) == 1);
    assert(s.m >= big) by (nonlinear_arith)
        requires
            2 * (limit * big) <= 2 * (s.m * length) + length,
            length <= limit,
            length > 0,
            big >= 0,
    {
        assert(limit * big >= length * big);
        assert(s.m * length == length * s.m);
        assert(length * (2 * big - 2 * s.m - 1) <= 0);
    }
    assert(s.m * 1 == s.m && 1 * big == big);
}

/// A length times the nearest double to `limit / length` rounds to `limit` itself.
proof fn lemma_ratio_reaches(limit: u32, length: u32)
    requires
        0 < limit < length,
    ensures
        binary64::nearest(limit as nat, length as nat).less(binary64::one()),
        scaled_side(length, binary64::nearest(limit as nat, length as nat)) == limit,
{
    lemma_ratio_fits(length, limit, length);
    let s = binary64::nearest(limit as nat, length as nat);
    binary64::lemma_nearest_significand(limit as nat, length as nat);
    binary64::lemma_nearest_quotient(limit as nat, length as nat);
    binary64::lemma_nearest_quotient_scaled(limit as nat, length as nat);
    lemma_power_bound(s.e);
    let k = (-s.e) as nat;
    let big = binary64::exp2(k);
    let x = length as nat * s.m;
    assert(x >= s.m) by (nonlinear_arith)
        requires
            x == length * s.m,
            length >= 1,
            s.m >= 0,
    ;
    binary64::lemma_nearest_error(x, 1);
    let f = binary64::nearest(x, 1);
    let u = binary64::exp2(f.e as nat);
    assert(u * 1 * 0x10_0000_0000_0000 == u * 0x10_0000_0000_0000);
    assert(2 * (f.m * u) * 1 == 2 * (f.m * u));
    assert(u * 1 == u);
    assert(x == s.m * length) by (nonlinear_arith)
        requires
            x == length * s.m,
    ;
    assert(2 * (f.m * u) >= (2 * limit - 1) * big) by (nonlinear_arith)
        requires
            2 * x <= 2 * (f.m * u) + u,
            u * 0x10_0000_0000_0000 <= x,
            2 * x <= 2 * (limit * big) + length,
            2 * (limit * big) <= 2 * x + length,
            limit <= 0xffff_ffff,
            length <= 0xffff_ffff,
            big >= 0x20_0000_0000_0000,
    ;
    binary64::lemma_rounded_at_least(f, k, limit as nat);
}

/// Of two lengths, the longer has the smaller ratio to a limit.
proof fn lemma_ratio_falls(limit: u32, shorter: u32, longer: u32)
    requires
        limit > 0,
        0 < shorter < longer,
    ensures
        binary64::nearest(limit as nat, longer as nat).less(
            binary64::nearest(limit as nat, shorter as nat),
        ),
{
    let (n, a, b) = (limit as nat, shorter as nat, longer as nat);
    let p = binary64::nearest(n, a);
    let q = binary64::nearest(n, b);
    binary64::lemma_nearest_quotient_scaled(n, a);
    binary64::lemma_nearest_quotient_scaled(n, b);
    binary64::lemma_less_cross(q, p);
    let pk = binary64::exp2((-p.e) as nat);
    let qk = binary64::exp2((-q.e) as nat);
    binary64::lemma_exp2_pos((-p.e) as nat);
    binary64::lemma_exp2_pos((-q.e) as nat);
    let t = n * pk * qk;
    assert(t > 0) by (nonlinear_arith)
        requires
            t == n * pk * qk,
            n > 0,
            pk > 0,
            qk > 0,
    ;
    assert(0x10_0000_0000_0000 * (a * b * pk) <= a * t) by (nonlinear_arith)
        requires
            b * 0x10_0000_0000_0000 <= n * qk,
            t == n * pk * qk,
            a >= 0,
            pk >= 0,
    {
        assert((b * 0x10_0000_0000_0000) * (a * pk) <= (n * qk) * (a * pk));
    }
    assert(0x10_0000_0000_0000 * (a * b * qk) <= b * t) by (nonlinear_arith)
        requires
            a * 0x10_0000_0000_0000 <= n * pk,
            t == n * pk * qk,
            b >= 0,
            qk >= 0,
    {
        assert((a * 0x10_0000_0000_0000) * (b * qk) <= (n * pk) * (b * qk));
    }
    assert(a * t + b * t < 0x10_0000_0000_0000 * t && a * t + t <= b * t) by (nonlinear_arith)
        requires
            t > 0,
            a < b,
            b <= 0xffff_ffff,
    ;
    assert(2 * (a * b) * (q.m * pk) <= 2 * (a * t) + a * b * pk) by (nonlinear_arith)
        requires
            2 * (q.m * b) <= 2 * (n * qk) + b,
            t == n * pk * qk,
            a >= 0,
            pk >= 0,
    {
        assert((2 * (q.m * b)) * (a * pk) <= (2 * (n * qk) + b) * (a * pk));
    }
    assert(2 * (b * t) <= 2 * (a * b) * (p.m * qk) + a * b * qk) by (nonlinear_arith)
        requires
            2 * (n * pk) <= 2 * (p.m * a) + a,
            t == n * pk * qk,
            b >= 0,
            qk >= 0,
    {
        assert((2 * (n * pk)) * (b * qk) <= (2 * (p.m * a) + a) * (b * qk));
    }
    assert(q.m * pk < p.m * qk) by (nonlinear_arith)
        requires
            2 * (a * b) * (q.m * pk) < 2 * (a * b) * (p.m * qk),
            a >= 0,
            b >= 0,
    ;
}

/// A box leaves a source that fits inside it as it is. Any other is shrunk no further than until
/// it fits: one of its sides is then as long as that of the box.
pub proof fn lemma_max_box_touches(width: u32, height: u32, source: Dimensions)
    requires
        source.nonzero(),
        width > 0,
        height > 0,
    ensures
        source.within(Dimensions { width, height }) ==> (DimensionPolicy::MaxBox {
            width,
            height,
        }).target_spec(source) == source,
        !source.within(Dimensions { width, height }) ==> {
            let r = (DimensionPolicy::MaxBox { width, height }).target_spec(source);
            r.width == width || r.height == height
        },
{
    let a = binary64::nearest(width as nat, source.width as nat);
    let b = binary64::nearest(height as nat, source.height as nat);
    binary64::lemma_nearest_significand(width as nat, source.width as nat);
    binary64::lemma_nearest_significand(height as nat, source.height as nat);
    if width < source.width {
        lemma_ratio_reaches(width, source.width);
    } else {
        lemma_ratio_not_below_one(width, source.width);
    }
    if height < source.height {
        lemma_ratio_reaches(height, source.height);
    } else {
        lemma_ratio_not_below_one(height, source.height);
    }
    lemma_less_asymmetric(b, a);
    if b.less(a) {
        if a.less(binary64::one()) {
            lemma_less_than_one_smaller(b, a);
        }
    } else if b.less(binary64::one()) {
        lemma_less_than_one_smaller(a, b);
    }
}

/// A longest side of `max` is the same as a square box of `max` by `max`.
pub proof fn lemma_max_dimension_is_a_square_box(max: u32, source: Dimensions)
    ensures
        (DimensionPolicy::MaxDimension { max }).target_spec(source) == (DimensionPolicy::MaxBox {
            width: max,
            height: max,
        }).target_spec(source),
{
    if max > 0 && source.nonzero() {
        let a = binary64::nearest(max as nat, source.width as nat);
        let b = binary64::nearest(max as nat, source.height as nat);
        if source.width > source.height {
            lemma_ratio_falls(max, source.height, source.width);
            lemma_less_asymmetric(a, b);
        } else if source.width < source.height {
            lemma_ratio_falls(max, source.width, source.height);
        }
    }
}

/// Where the longest side is no longer than allowed the source stays as it is; otherwise that
/// side becomes exactly as long as allowed.
pub proof fn lemma_max_dimension_is_reached(max: u32, source: Dimensions)
    requires
        source.nonzero(),
        max > 0,
    ensures
        ({
            let r = (DimensionPolicy::MaxDimension { max }).target_spec(source);
            if source.width <= max && source.height <= max {
                r == source
            } else if source.width >= source.height {
                r.width == max
            } else {
                r.height == max
            }
        }),
{
    let longest = if source.width >= source.height {
        source.width
    } else {
        source.height
    };
    if max < longest {
        lemma_ratio_reaches(max, longest);
    } else {
        lemma_ratio_not_below_one(max, longest);
    }
}

/// Whether a side is the fraction `n / d` rounded to the nearest pixel, but for what doubles lose,
/// and at least one pixel: it is off by no more than 5/8.
pub open spec fn side_of(s: u32, n: int, d: int) -> bool {
    &&& 8 * n <= (8 * s + 5) * d
    &&& s == 1 || (8 * s - 5) * d <= 8 * n
}

proof fn lemma_side_of(side: u32, limit: u32, length: u32)
    requires
        side > 0,
        0 < limit < length,
    ensures
        ({
            let s = scaled_side(side, binary64::nearest(limit as nat, length as nat));
            s <= u32::MAX && side_of(s as u32, side * limit, length as int)
        }),
{
    let (n, d, v) = (limit as nat, length as nat, side as nat);
    let scale = binary64::nearest(n, d);
    lemma_ratio_fits(limit, limit, length);
    binary64::lemma_nearest_significand(n, d);
    lemma_scaled_side_shrinks(side, scale);
    assert(n * v <= d * 0x1_0000_0000_0000) by (nonlinear_arith)
        requires
            0 <= n < d,
            0 <= v <= 0xffff_ffff,
    ;
    binary64::lemma_multiple_is_near(n, d, v);
    let r = scale.times(v).rounded();
    assert(n * v == side * limit) by (nonlinear_arith)
        requires
            n == limit,
            v == side,
    ;
    let w = scaled_side(side, scale) as u32;
    if r == 0 {
        assert(r * d == 0) by (nonlinear_arith)
            requires
                r == 0,
        ;
        assert((8 * w + 5) * d == 13 * d) by (nonlinear_arith)
            requires
                w == 1,
        ;
    } else {
        assert((8 * w + 5) * d == 8 * (r * d) + 5 * d && (8 * w - 5) * d == 8 * (r * d) - 5 * d)
            by (nonlinear_arith)
            requires
                w == r,
        ;
    }
}

/// A source that does not fit inside a box is shrunk in proportion: one side becomes that of the
/// box, and the other what the proportions of the source make of it.
pub proof fn lemma_max_box_keeps_proportions(width: u32, height: u32, source: Dimensions)
    requires
        source.nonzero(),
        width > 0,
        height > 0,
        source.width > width || source.height > height,
    ensures
        ({
            let r = (DimensionPolicy::MaxBox { width, height }).target_spec(source);
            ||| r.width == width && side_of(r.height, source.height * width, source.width as int)
            ||| r.height == height && side_of(r.width, source.width * height, source.height as int)
        }),
{
    let policy = DimensionPolicy::MaxBox { width, height };
    lemma_max_box_touches(width, height, source);
    let a = binary64::nearest(width as nat, source.width as nat);
    let b = binary64::nearest(height as nat, source.height as nat);
    if width < source.width {
        lemma_ratio_reaches(width, source.width);
        lemma_side_of(source.height, width, source.width);
    } else {
        lemma_ratio_not_below_one(width, source.width);
    }
    if height < source.height {
        lemma_ratio_reaches(height, source.height);
        lemma_side_of(source.width, height, source.height);
    } else {
        lemma_ratio_not_below_one(height, source.height);
    }
    lemma_less_asymmetric(b, a);
    binary64::lemma_nearest_significand(width as nat, source.width as nat);
    binary64::lemma_nearest_significand(height as nat, source.height as nat);
    if b.less(a) {
        if a.less(binary64::one()) {
            lemma_less_than_one_smaller(b, a);
        }
    } else if b.less(binary64::one()) {
        lemma_less_than_one_smaller(a, b);
    }
}

proof fn lemma_side_not_less(side: nat, x: nat, b: nat, area: nat, g: nat, r: nat)
    requires
        binary64::differ_by((x * x) * area, g, 10),
        16 * (side * x) <= (16 * r + 9) * b,
        r <= 0xffff_ffff,
    ensures
        64 * ((side * side) * g) <= ((8 * r + 5) * (8 * r + 5)) * ((b * b) * area),
{
    let t: int = 0x20_0000_0000_0000;
    let (sq, d, p, ss) = ((x * x) * area, (b * b) * area, (16 * r + 9) as int, side * side);
    let (q, h) = (p * p, (16 * r + 10) * (16 * r + 10));
    let y = 16 * (side * x);
    assert(y * y <= q * (b * b)) by (nonlinear_arith)
        requires
            0 <= y <= p * b,
            q == p * p,
    {
        assert(y * y <= (p * b) * (p * b));
        assert((p * b) * (p * b) == (p * p) * (b * b));
    }
    assert(256 * (ss * sq) <= q * d) by (nonlinear_arith)
        requires
            y * y <= q * (b * b),
            y == 16 * (side * x),
            ss == side * side,
            sq == (x * x) * area,
            d == (b * b) * area,
            area >= 0,
    {
        assert((y * y) * area <= (q * (b * b)) * area);
        assert(y * y == 256 * (ss * (x * x)));
        assert((256 * (ss * (x * x))) * area == 256 * (ss * sq));
        assert((q * (b * b)) * area == q * d);
    }
    assert((t - 10) * (ss * g) <= t * (ss * sq)) by (nonlinear_arith)
        requires
            t * (g - sq) <= 10 * g,
            ss >= 0,
    {
        assert(((t - 10) * g) * ss <= (t * sq) * ss);
    }
    assert(t * q <= (t - 10) * h) by (nonlinear_arith)
        requires
            q == (16 * r + 9) * (16 * r + 9),
            h == (16 * r + 10) * (16 * r + 10),
            0 <= r <= 0xffff_ffff,
            t == 0x20_0000_0000_0000,
    {
        assert(h == q + 32 * r + 19);
        assert(h <= 0x20_0000_0000 * (16 * r + 10));
        assert(t * (32 * r + 19) >= 10 * h);
    }
    let sg = ss * g;
    assert(256 * sg <= h * d) by (nonlinear_arith)
        requires
            (t - 10) * sg <= t * (ss * sq),
            256 * (ss * sq) <= q * d,
            t * q <= (t - 10) * h,
            d >= 0,
            t == 0x20_0000_0000_0000,
    {
        assert((t * q) * d <= ((t - 10) * h) * d);
        assert(t * (q * d) == (t * q) * d);
        assert((t - 10) * (256 * sg) <= (t - 10) * (h * d)) by {
            assert((t - 10) * (256 * sg) == 256 * ((t - 10) * sg));
            assert(((t - 10) * h) * d == (t - 10) * (h * d));
        }
    }
    assert(h == 4 * ((8 * r + 5) * (8 * r + 5))) by (nonlinear_arith)
        requires
            h == (16 * r + 10) * (16 * r + 10),
    ;
    let e = (8 * r + 5) * (8 * r + 5);
    assert((4 * e) * d == 4 * (e * d)) by (nonlinear_arith);
}

proof fn lemma_side_not_more(side: nat, x: nat, b: nat, area: nat, g: nat, r: nat)
    requires
        binary64::differ_by((x * x) * area, g, 10),
        (16 * r - 9) * b <= 16 * (side * x),
        1 <= r <= 0xffff_ffff,
    ensures
        ((8 * r - 5) * (8 * r - 5)) * ((b * b) * area) <= 64 * ((side * side) * g),
{
    let t: int = 0x20_0000_0000_0000;
    let (sq, d, p, ss) = ((x * x) * area, (b * b) * area, (16 * r - 9) as int, side * side);
    let (q, h) = (p * p, (16 * r - 10) * (16 * r - 10));
    let y = 16 * (side * x);
    assert(q * (b * b) <= y * y) by (nonlinear_arith)
        requires
            0 <= p * b <= y,
            q == p * p,
    {
        assert((p * b) * (p * b) <= y * y);
        assert((p * b) * (p * b) == (p * p) * (b * b));
    }
    assert(q * d <= 256 * (ss * sq)) by (nonlinear_arith)
        requires
            q * (b * b) <= y * y,
            y == 16 * (side * x),
            ss == side * side,
            sq == (x * x) * area,
            d == (b * b) * area,
            area >= 0,
    {
        assert((q * (b * b)) * area <= (y * y) * area);
        assert(y * y == 256 * (ss * (x * x)));
        assert((256 * (ss * (x * x))) * area == 256 * (ss * sq));
        assert((q * (b * b)) * area == q * d);
    }
    assert(t * (ss * sq) <= (t + 10) * (ss * g)) by (nonlinear_arith)
        requires
            t * (sq - g) <= 10 * g,
            ss >= 0,
    {
        assert((t * sq) * ss <= ((t + 10) * g) * ss);
    }
    assert((t + 10) * h <= t * q) by (nonlinear_arith)
        requires
            q == (16 * r - 9) * (16 * r - 9),
            h == (16 * r - 10) * (16 * r - 10),
            1 <= r <= 0xffff_ffff,
            t == 0x20_0000_0000_0000,
    {
        assert(q == h + 32 * r - 19);
        assert(h <= 0x20_0000_0000 * (16 * r - 10));
        assert(t * (32 * r - 19) >= 10 * h);
    }
    let sg = ss * g;
    assert(h * d <= 256 * sg) by (nonlinear_arith)
        requires
            t * (ss * sq) <= (t + 10) * sg,
            q * d <= 256 * (ss * sq),
            (t + 10) * h <= t * q,
            d >= 0,
            t == 0x20_0000_0000_0000,
    {
        assert(((t + 10) * h) * d <= (t * q) * d);
        assert(t * (q * d) == (t * q) * d);
        assert((t + 10) * (h * d) <= (t + 10) * (256 * sg)) by {
            assert((t + 10) * (256 * sg) == 256 * ((t + 10) * sg));
            assert(((t + 10) * h) * d == (t + 10) * (h * d));
        }
    }
    assert(h == 4 * ((8 * r - 5) * (8 * r - 5))) by (nonlinear_arith)
        requires
            h == (16 * r - 10) * (16 * r - 10),
    ;
    let e = (8 * r - 5) * (8 * r - 5);
    assert((4 * e) * d == 4 * (e * d)) by (nonlinear_arith);
}

/// How near the scale for a number of pixels comes to what it stands for: its square times the area
/// is that number, up to ten parts in 2 to the power 53.
proof fn lemma_scale_of_pixels(mp: Dyadic, area: nat, k: nat)
    requires
        0x10_0000_0000_0000 <= mp.m < 0x20_0000_0000_0000,
        area > 0,
        ({
            let q = mp.times(1_000_000).over(binary64::nearest(area, 1));
            q.root().e + k >= 0 && q.e + 2 * k >= 0
        }),
        mp.e + 2 * k >= 0,
        mp.times(1_000_000).e + 2 * k >= 0,
    ensures
        ({
            let x = binary64::at(
                mp.times(1_000_000).over(binary64::nearest(area, 1)).root(),
                k,
            );
            binary64::differ_by((x * x) * area, 1_000_000 * binary64::at(mp, 2 * k), 10)
        }),
        mp.times(1_000_000).over(binary64::nearest(area, 1)).root().m > 0,
{
    let t = mp.times(1_000_000);
    let b = binary64::nearest(area, 1);
    let q = t.over(b);
    let s = q.root();
    let x = binary64::at(s, k);
    let n = 1_000_000 * mp.m;
    binary64::lemma_nearest_significand(n, 1);
    binary64::lemma_nearest_significand(area, 1);
    binary64::lemma_nearest_significand(t.m, b.m);
    binary64::lemma_root_significand(q.m);
    binary64::lemma_root_significand(2 * q.m);
    let j = (if b.e < 0 {
        -b.e
    } else {
        0
    }) as nat;
    let l = 2 * k + j;
    binary64::lemma_root_is_near(q, k);
    binary64::lemma_quotient_is_near(t, b, 2 * k, j);
    binary64::lemma_product_is_near(mp, 1_000_000, l);
    binary64::lemma_nearest_is_near(area, 1, j);
    let (xx, y, bj, g) = (x * x, binary64::at(q, 2 * k), binary64::at(b, j), 1_000_000
        * binary64::at(mp, l));
    let w = area * binary64::exp2(j);
    assert(bj * 1 == bj);
    binary64::lemma_differ_by_scaled(xx, y, 3, bj);
    binary64::lemma_differ_by_both(xx * bj, y * bj, binary64::at(t, l), 3, 1);
    binary64::lemma_differ_by_both(xx * bj, binary64::at(t, l), g, 5, 1);
    // The area the other way round.
    assert(binary64::differ_by(w, bj, 2));
    binary64::lemma_differ_by_scaled(w, bj, 2, xx);
    assert(w * xx == xx * w && bj * xx == xx * bj) by (nonlinear_arith);
    binary64::lemma_differ_by_both(xx * w, xx * bj, g, 2, 7);
    // What both sides have in common.
    let f = binary64::exp2(j);
    let h = 1_000_000 * binary64::at(mp, 2 * k);
    binary64::lemma_exp2_pos(j);
    binary64::lemma_exp2_adds((mp.e + 2 * k) as nat, j);
    assert((mp.e + l) as nat == (mp.e + 2 * k) as nat + j);
    let m2 = binary64::exp2((mp.e + 2 * k) as nat);
    assert(g == h * f) by (nonlinear_arith)
        requires
            g == 1_000_000 * (mp.m * (m2 * f)),
            h == 1_000_000 * (mp.m * m2),
    ;
    let z = xx * area;
    assert(xx * w == z * f) by (nonlinear_arith)
        requires
            w == area * f,
            z == xx * area,
    ;
    let c: int = 0x20_0000_0000_0000;
    assert(c * (z - h) <= 10 * h && c * (h - z) <= 10 * h) by (nonlinear_arith)
        requires
            c * (z * f - h * f) <= 10 * (h * f),
            c * (h * f - z * f) <= 10 * (h * f),
            f > 0,
    {
        assert((c * (z - h)) * f <= (10 * h) * f);
        assert((c * (h - z)) * f <= (10 * h) * f);
    }
}

/// A number of pixels limits an image to about that many, and to no fewer: both sides are scaled by
/// the square root of the share of the area that may stay, rounded to the nearest pixel but for
/// what doubles lose. An image with fewer pixels stays as it is.
pub proof fn lemma_megapixels_are_kept(megapixels: Binary64, source: Dimensions)
    requires
        source.nonzero(),
        0x10_0000_0000_0000 <= megapixels.bits < 0x7ff0_0000_0000_0000,
    ensures
        ({
            // The number of pixels that was asked for, and the area, both times 2 to the power 1075.
            let asked = 1_000_000 * ((0x10_0000_0000_0000 + megapixels.bits % 0x10_0000_0000_0000)
                * binary64::exp2((megapixels.bits / 0x10_0000_0000_0000) as nat));
            let there = (source.width * source.height) * binary64::exp2(1075);
            let r = (DimensionPolicy::MaxMegapixels { megapixels }).target_spec(source);
            &&& 0x10_0000 * asked >= 0x10_0001 * there ==> r == source
            &&& r == source || 64 * ((source.width * source.width) * asked) <= ((8 * r.width + 5) * (8
                * r.width + 5)) * there
            &&& r == source || 64 * ((source.height * source.height) * asked) <= ((8 * r.height + 5)
                * (8 * r.height + 5)) * there
            &&& r.width == 1 || ((8 * r.width - 5) * (8 * r.width - 5)) * there <= 64 * ((source.width
                * source.width) * asked)
            &&& r.height == 1 || ((8 * r.height - 5) * (8 * r.height - 5)) * there <= 64 * ((
            source.height * source.height) * asked)
        }),
{
    let policy = DimensionPolicy::MaxMegapixels { megapixels };
    let mp = megapixels.absolute();
    assert(megapixels.unsigned_bits() == megapixels.bits);
    let top = (megapixels.bits / 0x10_0000_0000_0000) as nat;
    assert(mp.e == top - 1075);
    lemma_area_zero(source);
    let area = source.area();
    let t = mp.times(1_000_000);
    let q = t.over(binary64::nearest(area, 1));
    let s = q.root();
    assert(policy.scale(source) == Some(s));
    let r = policy.target_spec(source);
    let (pw, ph) = (s.times(source.width as nat), s.times(source.height as nat));
    let k: nat = (magnitude(s.e) + magnitude(q.e) + magnitude(mp.e) + magnitude(t.e) + magnitude(
        pw.e,
    ) + magnitude(ph.e)) as nat;
    lemma_scale_of_pixels(mp, area, k);
    lemma_scale_significand(policy, source);
    let b = binary64::exp2(k);
    binary64::lemma_exp2_pos(k);
    let x = binary64::at(s, k);
    let g = 1_000_000 * binary64::at(mp, 2 * k);
    let small = s.less(binary64::one());
    assert(small <==> x < b) by {
        let sk = (s.e + k) as nat;
        assert(binary64::exp2(0) == 1);
        if s.e >= 0 {
            binary64::lemma_exp2_adds(s.e as nat, k);
            binary64::lemma_exp2_pos(s.e as nat);
            let a = binary64::exp2(s.e as nat);
            assert(s.m * a >= 1 && s.m * (a * b) >= b) by (nonlinear_arith)
                requires
                    s.m >= 1,
                    a >= 1,
                    b >= 1,
            ;
        } else {
            let a = binary64::exp2((-s.e) as nat);
            binary64::lemma_exp2_adds((-s.e) as nat, sk);
            assert((-s.e) as nat + sk == k);
            let c = binary64::exp2(sk);
            binary64::lemma_exp2_pos(sk);
            assert(s.m < a <==> s.m * c < a * c) by (nonlinear_arith)
                requires
                    c > 0,
            ;
            assert(1 * a == a) by (nonlinear_arith);
        }
    }
    let asked = 1_000_000 * (mp.m * binary64::exp2(top));
    let unit = binary64::exp2(1075);
    let there = area * unit;
    let d = (b * b) * area;
    // Both views of the ratio of what was asked for to the area.
    assert(g * there == asked * d) by {
        let e = (mp.e + 2 * k) as nat;
        binary64::lemma_exp2_adds(e, 1075);
        binary64::lemma_exp2_adds(top, 2 * k);
        binary64::lemma_exp2_adds(k, k);
        assert(e + 1075 == top + 2 * k);
        assert(k + k == 2 * k);
        let (ee, tt) = (binary64::exp2(e), binary64::exp2(top));
        assert((1_000_000 * (mp.m * ee)) * (area * unit) == (1_000_000 * (mp.m * tt)) * ((b * b)
            * area)) by (nonlinear_arith)
            requires
                ee * unit == tt * (b * b),
        {
            let v = 1_000_000 * mp.m * area;
            assert((1_000_000 * (mp.m * ee)) * (area * unit) == v * (ee * unit));
            assert((1_000_000 * (mp.m * tt)) * ((b * b) * area) == v * (tt * (b * b)));
        }
    }
    assert(d > 0) by (nonlinear_arith)
        requires
            d == (b * b) * area,
            b > 0,
            area > 0,
    ;
    binary64::lemma_exp2_pos(1075);
    assert(there > 0) by (nonlinear_arith)
        requires
            there == area * unit,
            area > 0,
            unit > 0,
    ;
    lemma_scaled_near(source.width, s, x, b, k);
    lemma_scaled_near(source.height, s, x, b, k);
    if small {
        assert(s != binary64::one()) by {
            assert(1 * binary64::exp2(0) == 1);
        }
        lemma_scaled_side_shrinks(source.width, s);
        lemma_scaled_side_shrinks(source.height, s);
        let (rw, rh) = (pw.rounded(), ph.rounded());
        lemma_side_not_less(source.width as nat, x, b, area, g, rw);
        lemma_side_not_less(source.height as nat, x, b, area, g, rh);
        lemma_traded(source.width as int, g, d, asked, there, rw as int, r.width as int);
        lemma_traded(source.height as int, g, d, asked, there, rh as int, r.height as int);
        if rw >= 1 {
            lemma_side_not_more(source.width as nat, x, b, area, g, rw);
            lemma_traded_back(source.width as int, g, d, asked, there, rw as int);
        }
        if rh >= 1 {
            lemma_side_not_more(source.height as nat, x, b, area, g, rh);
            lemma_traded_back(source.height as int, g, d, asked, there, rh as int);
        }
        let z = (x * x) * area;
        assert(z <= d) by (nonlinear_arith)
            requires
                z == (x * x) * area,
                d == (b * b) * area,
                0 <= x < b,
                area >= 0,
        {
            assert(x * x <= b * b);
        }
        if 0x10_0000 * asked >= 0x10_0001 * there {
            assert(0x10_0000 * g >= 0x10_0001 * d) by (nonlinear_arith)
                requires
                    g * there == asked * d,
                    0x10_0000 * asked >= 0x10_0001 * there,
                    there > 0,
                    d > 0,
            {
                assert((0x10_0000 * asked) * d >= (0x10_0001 * there) * d);
                assert((0x10_0000 * g) * there >= (0x10_0001 * d) * there);
            }
        }
    } else {
        lemma_no_smaller(source.width, x, b);
        lemma_no_smaller(source.height, x, b);
        lemma_side_not_more(source.width as nat, x, b, area, g, source.width as nat);
        lemma_side_not_more(source.height as nat, x, b, area, g, source.height as nat);
        lemma_traded_back(source.width as int, g, d, asked, there, source.width as int);
        lemma_traded_back(source.height as int, g, d, asked, there, source.height as int);
    }
}

spec fn magnitude(e: int) -> int {
    if e < 0 {
        -e
    } else {
        e
    }
}

proof fn lemma_no_smaller(side: u32, x: nat, b: nat)
    requires
        x >= b,
    ensures
        (16 * side - 9) * b <= 16 * (side * x),
{
    assert((16 * side - 9) * b <= 16 * (side * x)) by (nonlinear_arith)
        requires
            x >= b,
            side >= 0,
            b >= 0,
    ;
}

proof fn lemma_scaled_near(side: u32, s: Dyadic, x: nat, b: nat, k: nat)
    requires
        side > 0,
        s.m > 0,
        s.e + k >= 0,
        s.times(side as nat).e + k >= 0,
        x == binary64::at(s, k),
        b == binary64::exp2(k),
    ensures
        ({
            let r = s.times(side as nat).rounded();
            x < b ==> 16 * (side * x) <= (16 * r + 9) * b && (16 * r - 9) * b <= 16 * (side * x)
        }),
{
    let p = s.times(side as nat);
    let r = p.rounded();
    binary64::lemma_product_is_near(s, side as nat, k);
    binary64::lemma_rounding_is_near(p, k);
    let y = binary64::at(p, k);
    let v = side * x;
    if x < b {
        assert(0 <= v <= 0xffff_ffff * b) by (nonlinear_arith)
            requires
                v == side * x,
                0 <= x < b,
                0 <= side <= 0xffff_ffff,
        ;
        assert((2 * r + 1) * b == 2 * (r * b) + b && (2 * r - 1) * b == 2 * (r * b) - b && (16 * r + 9)
            * b == 16 * (r * b) + 9 * b && (16 * r - 9) * b == 16 * (r * b) - 9 * b)
            by (nonlinear_arith);
    }
}

proof fn lemma_traded(side: int, g: nat, d: nat, asked: nat, there: nat, r: int, shown: int)
    requires
        g * there == asked * d,
        d > 0,
        0 <= r <= shown,
        64 * ((side * side) * g) <= ((8 * r + 5) * (8 * r + 5)) * d,
    ensures
        64 * ((side * side) * asked) <= ((8 * shown + 5) * (8 * shown + 5)) * there,
{
    let (ss, h, hs) = (side * side, (8 * r + 5) * (8 * r + 5), (8 * shown + 5) * (8 * shown + 5));
    assert(h <= hs) by (nonlinear_arith)
        requires
            h == (8 * r + 5) * (8 * r + 5),
            hs == (8 * shown + 5) * (8 * shown + 5),
            0 <= r <= shown,
    ;
    assert(64 * (ss * asked) <= hs * there) by (nonlinear_arith)
        requires
            g * there == asked * d,
            64 * (ss * g) <= h * d,
            h <= hs,
            d > 0,
            there >= 0,
    {
        assert((64 * (ss * g)) * there <= (h * d) * there);
        assert((64 * (ss * g)) * there == (64 * (ss * asked)) * d) by {
            assert((64 * (ss * g)) * there == 64 * ss * (g * there));
            assert((64 * (ss * asked)) * d == 64 * ss * (asked * d));
        }
        assert((h * d) * there == (h * there) * d);
        assert(h * there <= hs * there);
    }
}

proof fn lemma_traded_back(side: int, g: nat, d: nat, asked: nat, there: nat, r: int)
    requires
        g * there == asked * d,
        d > 0,
        ((8 * r - 5) * (8 * r - 5)) * d <= 64 * ((side * side) * g),
    ensures
        ((8 * r - 5) * (8 * r - 5)) * there <= 64 * ((side * side) * asked),
{
    let (ss, h) = (side * side, (8 * r - 5) * (8 * r - 5));
    assert(h * there <= 64 * (ss * asked)) by (nonlinear_arith)
        requires
            g * there == asked * d,
            h * d <= 64 * (ss * g),
            d > 0,
            there >= 0,
    {
        assert((h * d) * there <= (64 * (ss * g)) * there);
        assert((64 * (ss * g)) * there == (64 * (ss * asked)) * d) by {
            assert((64 * (ss * g)) * there == 64 * ss * (g * there));
            assert((64 * (ss * asked)) * d == 64 * ss * (asked * d));
        }
        assert((h * d) * there == (h * there) * d);
    }
}

} // verus!
