//! How much is done at once, at which sizes and at which quality.

use vstd::prelude::*;

use crate::binary64::{self, Binary64, Dyadic, Magnitude};
use crate::budget::{self, BudgetOptions};
use crate::codecs::QualityAxis;
use crate::geometry::Dimensions;
use crate::request::MetadataPolicy;
use crate::scan;
use crate::text;

verus! {

/// What a text says about a number of jobs.
pub open spec fn jobs_spec(s: Seq<char>) -> Result<usize, Seq<char>> {
    match scan::number(scan::trimmed(s)) {
        Ok(n) => if n == 0 {
            Err("must be at least 1"@)
        } else {
            Ok(n)
        },
        Err(_) => Err("invalid number `"@ + s + "`"@),
    }
}

pub fn parse_jobs(s: &str) -> (r: Result<usize, String>)
    ensures
        (match r {
            Ok(n) => jobs_spec(s@) == Ok::<usize, Seq<char>>(n),
            Err(message) => jobs_spec(s@) == Err::<usize, Seq<char>>(message@),
        }),
{
    let chars: Vec<char> = text::chars_of(s);
    let bare: Vec<char> = scan::trim(chars.as_slice());
    match scan::parse_number(bare.as_slice()) {
        Ok(n) => if n == 0 {
            Err("must be at least 1".to_string())
        } else {
            Ok(n)
        },
        Err(_) => {
            let mut message: String = "invalid number `".to_string();
            message.append(s);
            message.append("`");
            Err(message)
        },
    }
}

/// The images processed at once: as many as asked for, or half the cores, but no more than
/// there are files, and at least one.
pub open spec fn jobs_at_once(asked: Option<usize>, cores: usize, files: usize) -> usize {
    let wanted = match asked {
        Some(n) => n,
        None => cores / 2,
    };
    let limited = if wanted < files {
        wanted
    } else {
        files
    };
    if limited == 0 {
        1
    } else {
        limited
    }
}

/// The threads of each encoder: the cores shared out among the jobs, at least one.
pub open spec fn threads_each(cores: usize, jobs: usize) -> i32 {
    if cores / jobs == 0 {
        1
    } else {
        (cores / jobs) as i32
    }
}

/// How many images are processed at once, and how many threads each encoder gets.
pub fn share_cores(asked: Option<usize>, cores: usize, files: usize) -> (r: (usize, i32))
    ensures
        r.0 == jobs_at_once(asked, cores, files),
        r.1 == threads_each(cores, r.0),
        1 <= r.0,
        files > 0 ==> r.0 <= files,
        cores <= i32::MAX ==> 1 <= r.1,
{
    let wanted: usize = match asked {
        Some(n) => n,
        None => cores / 2,
    };
    let limited: usize = if wanted < files {
        wanted
    } else {
        files
    };
    let jobs: usize = if limited == 0 {
        1
    } else {
        limited
    };
    let each: usize = cores / jobs;
    proof {
        assert(each <= cores) by (nonlinear_arith)
            requires
                each == cores / jobs,
                jobs >= 1,
        ;
    }
    let threads: i32 = if each == 0 {
        1
    } else {
        each as i32
    };
    (jobs, threads)
}

/// The note about a quality that had to be moved into a codec's range.
pub open spec fn clamp_note(ext: Seq<char>, requested: u32, axis: QualityAxis) -> Seq<char> {
    ext + " quality "@ + text::decimal(requested as nat) + " is outside the supported range "@
        + text::decimal(axis.min as nat) + "-"@ + text::decimal(axis.max as nat) + "; using "@
        + text::decimal(axis.clamp_spec(requested) as nat)
}

/// Clamps a requested 0-100 quality into the codec's supported range, with a note when it had to.
pub fn start_level(ext: &str, requested: u32, axis: QualityAxis) -> (r: (u32, Option<String>))
    requires
        axis.min <= axis.max,
    ensures
        r.0 == axis.clamp_spec(requested),
        (match r.1 {
            Some(note) => r.0 != requested && note@ == clamp_note(ext@, requested, axis),
            None => r.0 == requested,
        }),
{
    let level: u32 = axis.clamp(requested);
    if level == requested {
        return (level, None);
    }
    let mut note: String = ext.to_string();
    note.append(" quality ");
    text::push_decimal(&mut note, requested as u64);
    note.append(" is outside the supported range ");
    text::push_decimal(&mut note, axis.min as u64);
    note.append("-");
    text::push_decimal(&mut note, axis.max as u64);
    note.append("; using ");
    text::push_decimal(&mut note, level as u64);
    (level, Some(note))
}

/// The height that goes with a width: in double precision, rounded, at least 1 and at most what
/// fits. A source without width has no proportion to keep.
pub open spec fn proportional_height(source: Dimensions, width: u32) -> u32 {
    if source.width == 0 {
        if source.height == 0 || width == 0 {
            1
        } else {
            u32::MAX
        }
    } else {
        let h = binary64::nearest((source.height * width) as nat, 1).over(
            Dyadic { m: source.width as nat, e: 0 },
        ).rounded();
        if h == 0 {
            1
        } else if h > u32::MAX {
            u32::MAX
        } else {
            h as u32
        }
    }
}

/// The dimensions of a source at another width.
pub fn scaled(source: Dimensions, width: u32) -> (r: Dimensions)
    ensures
        r.width == width,
        r.height == proportional_height(source, width),
{
    proof {
        assert(0 <= source.height * width <= u32::MAX * u32::MAX) by (nonlinear_arith)
            requires
                source.height <= u32::MAX,
                width <= u32::MAX,
        ;
        assert(source.height == 0 || width == 0 ==> source.height * width == 0)
            by (nonlinear_arith);
    }
    let height: u32 = if source.width == 0 {
        if source.height == 0 || width == 0 {
            1
        } else {
            u32::MAX
        }
    } else {
        let area: u128 = source.height as u128 * width as u128;
        let h: u64 = Magnitude::ratio(area, 1).over(
            Magnitude { m: source.width as u64, e: 0 },
        ).rounded();
        if h == 0 {
            1
        } else if h > u32::MAX as u64 {
            u32::MAX
        } else {
            h as u32
        }
    };
    Dimensions { width, height }
}

/// Whether numbers ascend, so that none occurs twice.
pub open spec fn rising(widths: Seq<u32>) -> bool {
    forall|i: int, j: int| 0 <= i < j < widths.len() ==> #[trigger] widths[i] < #[trigger] widths[j]
}

/// The extra widths below the main width, each once, in ascending order.
pub fn extra_widths(sizes: &Vec<u32>, main_width: u32) -> (r: Vec<u32>)
    ensures
        rising(r@),
        forall|w: u32| r@.contains(w) <==> sizes@.contains(w) && w < main_width,
{
    let mut out: Vec<u32> = Vec::new();
    let mut i: usize = 0;
    while i < sizes.len()
        invariant
            i <= sizes@.len(),
            rising(out@),
            forall|w: u32| out@.contains(w) <==> sizes@.take(i as int).contains(w) && w < main_width,
        decreases sizes@.len() - i,
    {
        let w: u32 = sizes[i];
        let ghost before = out@;
        if w < main_width {
            add_width(&mut out, w);
        }
        proof {
            let next = sizes@.take(i + 1);
            assert forall|x: u32| out@.contains(x) <==> next.contains(x) && x < main_width by {
                assert(next[i as int] == w);
                if next.contains(x) {
                    let k = choose|k: int| 0 <= k < next.len() && next[k] == x;
                    if k < i {
                        assert(sizes@.take(i as int)[k] == x);
                    }
                }
                if sizes@.take(i as int).contains(x) {
                    let k = choose|k: int| 0 <= k < i && sizes@.take(i as int)[k] == x;
                    assert(next[k] == x);
                }
            }
        }
        i = i + 1;
    }
    proof {
        assert(sizes@.take(i as int) =~= sizes@);
    }
    out
}

/// Puts a width where it belongs, unless it is there.
fn add_width(widths: &mut Vec<u32>, w: u32)
    requires
        rising(old(widths)@),
    ensures
        rising(final(widths)@),
        forall|x: u32| final(widths)@.contains(x) <==> old(widths)@.contains(x) || x == w,
{
    let ghost before = widths@;
    let mut at: usize = 0;
    while at < widths.len() && widths[at] < w
        invariant
            widths@ == before,
            at <= widths@.len(),
            forall|i: int| 0 <= i < at ==> #[trigger] widths@[i] < w,
        decreases widths@.len() - at,
    {
        at = at + 1;
    }
    if at < widths.len() && widths[at] == w {
        return;
    }
    widths.insert(at, w);
    proof {
        let after = widths@;
        assert(after =~= before.insert(at as int, w));
        assert forall|i: int, j: int| 0 <= i < j < after.len() implies #[trigger] after[i]
            < #[trigger] after[j] by {
            let a = if i < at {
                i
            } else {
                i - 1
            };
            let b = if j < at {
                j
            } else {
                j - 1
            };
            if i == at {
                assert(after[j] == before[b]);
                if b > at {
                    assert(before[at as int] < before[b]);
                }
            } else if j == at {
                assert(after[i] == before[a]);
            } else {
                assert(before[a] < before[b]);
            }
        }
        assert forall|x: u32| after.contains(x) <==> before.contains(x) || x == w by {
            assert(after[at as int] == w);
            if before.contains(x) {
                let k = choose|k: int| 0 <= k < before.len() && before[k] == x;
                assert(after[if k < at {
                    k
                } else {
                    k + 1
                }] == x);
            }
            if after.contains(x) && x != w {
                let k = choose|k: int| 0 <= k < after.len() && after[k] == x;
                assert(before[if k < at {
                    k
                } else {
                    k - 1
                }] == x);
            }
        }
    }
}

/// The budget of a web image: the defaults at a level, with a cap unless it is zero.
pub open spec fn web_budget(level: u32, max_bytes: u64) -> BudgetOptions {
    BudgetOptions {
        level,
        min_level: 40,
        level_step: 5,
        max_bytes: if max_bytes > 0 {
            Some(max_bytes)
        } else {
            None
        },
        downscale_factor: Binary64 { bits: budget::DEFAULT_DOWNSCALE_FACTOR },
        max_downscales: 4,
        metadata: MetadataPolicy::KeepIccOnly,
    }
}

pub fn budget_for(level: u32, max_bytes: u64) -> (r: BudgetOptions)
    ensures
        r == web_budget(level, max_bytes),
{
    let mut options: BudgetOptions = BudgetOptions::default();
    options.level = level;
    options.max_bytes = if max_bytes > 0 {
        Some(max_bytes)
    } else {
        None
    };
    options
}

/// A row of digits is read as the number of jobs that it stands for, unless that is none or does
/// not fit.
pub proof fn lemma_jobs_are_read(s: Seq<char>)
    requires
        s.len() > 0,
        forall|i: int| 0 <= i < s.len() ==> '0' <= #[trigger] s[i] <= '9',
    ensures
        1 <= text::numeral_value(s) <= usize::MAX ==> jobs_spec(s) == Ok::<usize, Seq<char>>(
            text::numeral_value(s) as usize,
        ),
        text::numeral_value(s) == 0 ==> jobs_spec(s) == Err::<usize, Seq<char>>(
            "must be at least 1"@,
        ),
        text::numeral_value(s) > usize::MAX ==> jobs_spec(s) is Err,
{
    scan::lemma_digits_stay(s);
    scan::lemma_numerals_are_read(s);
}

/// The machine is shared out and not overcommitted. As many images are processed at once as asked
/// for, where there are so many; unasked, as many as half the cores allow. Every encoder gets as
/// many threads as fit on the cores together with those of the others, and at least one.
pub proof fn lemma_cores_are_shared_out(asked: Option<usize>, cores: usize, files: usize)
    requires
        files > 0,
        cores <= i32::MAX,
    ensures
        ({
            let jobs = jobs_at_once(asked, cores, files);
            let threads = threads_each(cores, jobs);
            &&& 1 <= jobs <= files
            &&& asked matches Some(n) ==> (1 <= n <= files ==> jobs == n) && (n > files ==> jobs
                == files) && (n == 0 ==> jobs == 1)
            &&& asked is None ==> (jobs == 1 || 2 * jobs <= cores) && (jobs == files || 2 * (jobs
                + 1) > cores)
            &&& threads >= 1
            &&& jobs <= cores ==> jobs * threads <= cores < jobs * (threads + 1)
            &&& jobs > cores ==> threads == 1
        }),
{
    let jobs = jobs_at_once(asked, cores, files);
    let each = cores / jobs;
    vstd::arithmetic::div_mod::lemma_fundamental_div_mod(cores as int, jobs as int);
    assert(each <= cores) by (nonlinear_arith)
        requires
            each == cores / jobs,
            jobs >= 1,
    ;
    assert(jobs <= cores ==> each >= 1) by (nonlinear_arith)
        requires
            cores == jobs * each + cores % jobs,
            0 <= cores % jobs < jobs,
            jobs >= 1,
    ;
    assert(jobs > cores ==> each == 0) by (nonlinear_arith)
        requires
            cores == jobs * each + cores % jobs,
            0 <= cores % jobs < jobs,
            jobs >= 1,
            each >= 0,
    ;
    assert(jobs * (each + 1) == jobs * each + jobs) by (nonlinear_arith);
}

/// The height that goes with a smaller width keeps the proportions: it is off by no more than 5/8
/// of a pixel, and at least one.
pub proof fn lemma_height_keeps_proportions(source: Dimensions, width: u32)
    requires
        1 < source.width,
        0 < source.height,
        0 < width <= source.width,
    ensures
        ({
            let h = proportional_height(source, width);
            &&& 1 <= h <= source.height
            &&& 8 * (source.height * width) <= (8 * h + 5) * source.width
            &&& h == 1 || (8 * h - 5) * source.width <= 8 * (source.height * width)
        }),
{
    let n = (source.height * width) as nat;
    let sw = source.width as nat;
    assert(n > 0) by (nonlinear_arith)
        requires
            n == source.height * width,
            source.height >= 1,
            width >= 1,
    ;
    assert(n <= source.height * sw) by (nonlinear_arith)
        requires
            n == source.height * width,
            width <= sw,
            source.height >= 0,
    ;
    assert(n <= 0xffff_ffff * sw) by (nonlinear_arith)
        requires
            n <= source.height * sw,
            source.height <= 0xffff_ffff,
            sw >= 0,
    ;
    let p = binary64::nearest(n, 1);
    binary64::lemma_nearest_significand(n, 1);
    let (up, down) = lemma_parts_of(n, p);
    let q = binary64::nearest(p.m, sw);
    assert(p.m < sw * 0x20_0000_0000_0000);
    binary64::lemma_nearest_quotient_scaled(p.m, sw);
    binary64::lemma_nearest_significand(p.m, sw);
    let kq = (-q.e) as nat;
    let (u, d, k) = (binary64::exp2(up), binary64::exp2(down), binary64::exp2(kq));
    binary64::lemma_exp2_pos(up);
    binary64::lemma_exp2_pos(down);
    binary64::lemma_exp2_pos(kq);
    binary64::lemma_exp2_adds(kq, down);
    let big = k * d;
    assert(binary64::exp2(kq + down) == big);
    binary64::lemma_exp2_pos(kq + down);
    let total = q.m * u;
    let pu = p.m * u;
    // How far the double is off.
    let goal = n * d * k;
    let t: int = 0x10_0000_0000_0000;
    assert(2 * (total * sw) <= 2 * (pu * k) + sw * u && 2 * (pu * k) <= 2 * (total * sw) + sw * u)
        by (nonlinear_arith)
        requires
            2 * (q.m * sw) <= 2 * (p.m * k) + sw,
            2 * (p.m * k) <= 2 * (q.m * sw) + sw,
            total == q.m * u,
            pu == p.m * u,
            u > 0,
    {
        assert((2 * (q.m * sw)) * u <= (2 * (p.m * k) + sw) * u);
        assert((2 * (p.m * k)) * u <= (2 * (q.m * sw) + sw) * u);
    }
    assert(2 * (pu * k) <= 2 * goal + (if up > 0 {
        u * k
    } else {
        0
    }) && 2 * goal <= 2 * (pu * k) + (if up > 0 {
        u * k
    } else {
        0
    })) by (nonlinear_arith)
        requires
            2 * pu <= 2 * (n * d) + (if up > 0 {
                u as int
            } else {
                0
            }),
            2 * (n * d) <= 2 * pu + (if up > 0 {
                u as int
            } else {
                0
            }),
            goal == n * d * k,
            k > 0,
    ;
    assert(up > 0 ==> t * (u * k) <= goal) by (nonlinear_arith)
        requires
            up > 0 ==> u * t <= n && d == 1,
            goal == n * d * k,
            k > 0,
    ;
    assert(t * (sw * u) <= pu * k) by (nonlinear_arith)
        requires
            sw * t <= p.m * k,
            pu == p.m * u,
            u > 0,
    {
        assert((sw * t) * u <= (p.m * k) * u);
    }
    assert(0 <= goal <= 0xffff_ffff * (sw * big)) by (nonlinear_arith)
        requires
            goal == n * d * k,
            big == k * d,
            0 <= n <= 0xffff_ffff * sw,
            big >= 0,
    {
        assert(goal == n * big);
    }
    let ts = (total * sw) as int;
    assert(8 * (ts - goal) <= sw * big && 8 * (goal - ts) <= sw * big);
    assert(kq + down >= 1) by {
        if kq + down == 0 {
            binary64::lemma_exp2_constants();
            assert(k == 1 && d == 1 && big == 1);
            assert(total >= 0x10_0000_0000_0000) by (nonlinear_arith)
                requires
                    total == q.m * u,
                    q.m >= 0x10_0000_0000_0000,
                    u >= 1,
            ;
            assert(ts >= 0x10_0000_0000_0000 * sw) by (nonlinear_arith)
                requires
                    ts == total * sw,
                    total >= 0x10_0000_0000_0000,
                    sw >= 0,
            ;
            assert(sw * big == sw) by (nonlinear_arith)
                requires
                    big == 1,
            ;
        }
    }
    let f = Dyadic { m: q.m, e: up as int };
    let product = p.over(Dyadic { m: sw, e: 0 });
    assert(product == Dyadic { m: f.m, e: f.e - (kq + down) });
    let r = product.rounded();
    if r >= 1 && 2 * total < (2 * r - 1) * big {
        assert((2 * (r - 1) as nat + 1) * big == (2 * r - 1) * big);
        binary64::lemma_rounded_at_most(f, kq + down, (r - 1) as nat);
    }
    if 2 * total >= (2 * r + 1) * big {
        assert((2 * (r + 1) - 1) * big == (2 * r + 1) * big);
        binary64::lemma_rounded_at_least(f, kq + down, r + 1);
    }
    assert(8 * n <= (8 * r + 5) * sw) by (nonlinear_arith)
        requires
            2 * total < (2 * r + 1) * big,
            ts == total * sw,
            8 * (goal - ts) <= sw * big,
            goal == n * d * k,
            big == k * d,
            sw > 0,
            big > 0,
    {
        assert(goal == n * big);
        assert((2 * total) * sw <= ((2 * r + 1) * big) * sw);
        assert(8 * (n * big) <= ((8 * r + 5) * sw) * big);
    }
    assert(r >= 1 ==> (8 * r - 5) * sw <= 8 * n) by (nonlinear_arith)
        requires
            r >= 1 ==> 2 * total >= (2 * r - 1) * big,
            ts == total * sw,
            8 * (ts - goal) <= sw * big,
            goal == n * d * k,
            big == k * d,
            sw > 0,
            big > 0,
    {
        if r >= 1 {
            assert(goal == n * big);
            assert((2 * total) * sw >= ((2 * r - 1) * big) * sw);
            assert(8 * (n * big) >= ((8 * r - 5) * sw) * big);
        }
    }
    assert(r <= source.height) by (nonlinear_arith)
        requires
            r >= 1 ==> (8 * r - 5) * sw <= 8 * n,
            n <= source.height * sw,
            sw > 0,
            source.height >= 1,
    {
        if r > source.height {
            assert((8 * r - 5) * sw >= (8 * source.height + 3) * sw);
        }
    }
    if r == 0 {
        assert((8 * r + 5) * sw <= (8 * 1 + 5) * sw) by (nonlinear_arith)
            requires
                r == 0,
                sw >= 0,
        ;
    }
}

/// A whole number as a double: exactly it below 2 to the power 53, and rounded above.
proof fn lemma_parts_of(n: nat, p: Dyadic) -> (r: (nat, nat))
    requires
        n > 0,
        p == binary64::nearest(n, 1),
    ensures
        p.e == r.0 - r.1,
        r.0 == 0 || r.1 == 0,
        r.0 > 0 ==> binary64::exp2(r.0) * 0x10_0000_0000_0000 <= n && binary64::exp2(r.1) == 1,
        2 * (p.m * binary64::exp2(r.0)) <= 2 * (n * binary64::exp2(r.1)) + (if r.0 > 0 {
            binary64::exp2(r.0) as int
        } else {
            0
        }),
        2 * (n * binary64::exp2(r.1)) <= 2 * (p.m * binary64::exp2(r.0)) + (if r.0 > 0 {
            binary64::exp2(r.0) as int
        } else {
            0
        }),
{
    assert(binary64::exp2(0) == 1);
    if n < 0x20_0000_0000_0000 {
        binary64::lemma_nearest_quotient_scaled(n, 1);
        let k = (-p.e) as nat;
        assert(p.m * 1 == p.m);
        assert(p.m == n * binary64::exp2(k));
        (0, k)
    } else {
        binary64::lemma_nearest_error(n, 1);
        let u = binary64::exp2(p.e as nat);
        assert(u * 1 == u && 2 * (p.m * u) * 1 == 2 * (p.m * u) && u * 1 * 0x10_0000_0000_0000 == u
            * 0x10_0000_0000_0000);
        assert(n * 1 == n);
        if p.e == 0 {
            assert(p.m * 1 == p.m);
            assert(p.m == n);
        }
        (p.e as nat, 0)
    }
}

/// A web image is encoded at the level asked for, under the cap asked for, where zero is none; its
/// profile is kept. A cap lowers the level by steps of 5 down to 40, and then shrinks the image by
/// 0.85 at most four times.
pub proof fn lemma_web_budget_is_what_was_asked_for(level: u32, max_bytes: u64)
    ensures
        web_budget(level, max_bytes).level == level,
        web_budget(level, max_bytes).metadata is KeepIccOnly,
        max_bytes == 0 <==> web_budget(level, max_bytes).max_bytes is None,
        max_bytes > 0 ==> web_budget(level, max_bytes).max_bytes == Some(max_bytes),
        web_budget(level, max_bytes).min_level == 40,
        web_budget(level, max_bytes).level_step == 5,
        web_budget(level, max_bytes).max_downscales == 4,
        web_budget(level, max_bytes).downscale_factor.bits == 0x3feb_3333_3333_3333,
{
}

/// The machine is shared out as the settings say, and a number of jobs is read as it is written.
pub proof fn lemma_calls_share_cores(
    asked: Option<usize>,
    cores: usize,
    files: usize,
    r: (usize, i32),
)
    requires
        call_ensures(share_cores, (asked, cores, files), r),
        files > 0,
        cores <= i32::MAX,
    ensures
        1 <= r.0 <= files,
        asked matches Some(n) ==> (1 <= n <= files ==> r.0 == n) && (n > files ==> r.0 == files),
        asked is None ==> r.0 == 1 || 2 * r.0 <= cores,
        r.1 >= 1,
        r.0 <= cores ==> r.0 * r.1 <= cores < r.0 * (r.1 + 1),
        r.0 > cores ==> r.1 == 1,
{
    lemma_cores_are_shared_out(asked, cores, files);
}

/// A number of jobs is read as it is written, and none is refused.
pub proof fn lemma_calls_read_jobs(s: &str, r: Result<usize, String>)
    requires
        call_ensures(parse_jobs, (s,), r),
        s@.len() > 0,
        forall|i: int| 0 <= i < s@.len() ==> '0' <= #[trigger] s@[i] <= '9',
    ensures
        1 <= text::numeral_value(s@) <= usize::MAX ==> r == Ok::<usize, String>(
            text::numeral_value(s@) as usize,
        ),
        text::numeral_value(s@) == 0 || text::numeral_value(s@) > usize::MAX ==> r is Err,
{
    lemma_jobs_are_read(s@);
}

} // verus!
