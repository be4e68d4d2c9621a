//! What a run says about its inputs and its outputs, line by line.

use vstd::prelude::*;

use crate::binary64::{self, Dyadic, Magnitude};
use crate::text;
use crate::types::ImageFormat;
use crate::web::markup::FileReport;
use crate::web::totals::Totals;

verus! {

/// Thousands of bytes: the quotient in double precision, as the nearest whole number, ties to
/// even.
pub open spec fn thousands(bytes: u64) -> nat {
    binary64::nearest(bytes as nat, 1).over(Dyadic { m: 1000, e: 0 }).rounded_even()
}

/// A number of bytes as it is shown.
pub open spec fn kb_shown(bytes: u64) -> Seq<char> {
    text::decimal(thousands(bytes)) + " KB"@
}

pub fn kb(bytes: u64) -> (r: String)
    ensures
        r@ == kb_shown(bytes),
{
    let whole: Magnitude = Magnitude::ratio(bytes as u128, 1);
    proof {
        binary64::lemma_exp2_constants();
        if bytes > 0 {
            assert(binary64::exp2(11) == 2048 && binary64::exp2(9) == 512) by {
                reveal_with_fuel(binary64::exp2, 12);
            }
            binary64::lemma_nearest_exponent_at_most(bytes as nat, 1, 11);
            binary64::lemma_nearest_exponent_below(whole.m as nat, 1000, 9);
        }
    }
    let quotient: Magnitude = whole.over(Magnitude { m: 1000, e: 0 });
    let mut out: String = text::decimal_of(quotient.rounded_even());
    out.append(" KB");
    out
}

/// A score of an output of a format, in words.
#[derive(Debug)]
pub struct ScoreText {
    pub format: ImageFormat,
    pub score: String,
}

/// The first score of a format, set off by a comma, or nothing where there is none.
pub open spec fn score_shown(scores: Seq<ScoreText>, format: ImageFormat) -> Seq<char>
    decreases scores.len(),
{
    if scores.len() == 0 {
        Seq::empty()
    } else if scores[0].format == format {
        ", S2 "@ + scores[0].score@
    } else {
        score_shown(scores.skip(1), format)
    }
}

fn push_score(line: &mut String, scores: &Vec<ScoreText>, format: ImageFormat)
    ensures
        final(line)@ == old(line)@ + score_shown(scores@, format),
{
    let ghost before = line@;
    let mut i: usize = 0;
    proof {
        assert(scores@.skip(0) =~= scores@);
    }
    while i < scores.len()
        invariant
            i <= scores@.len(),
            before == old(line)@,
            line@ == before,
            score_shown(scores@, format) == score_shown(scores@.skip(i as int), format),
        decreases scores@.len() - i,
    {
        proof {
            assert(scores@.skip(i as int).skip(1) =~= scores@.skip(i + 1));
        }
        if scores[i].format == format {
            line.append(", S2 ");
            line.append(scores[i].score.as_str());
            proof {
                assert(line@ =~= before + score_shown(scores@, format));
            }
            return;
        }
        i = i + 1;
    }
    proof {
        assert(line@ =~= before + score_shown(scores@, format));
    }
}

/// One output: its format, its size and its score.
pub open spec fn output_shown(f: FileReport, scores: Seq<ScoreText>) -> Seq<char> {
    f.format.extension_spec() + " "@ + kb_shown(f.bytes) + score_shown(scores, f.format)
}

/// Outputs with bars between them.
pub open spec fn outputs_shown(outputs: Seq<FileReport>, scores: Seq<ScoreText>) -> Seq<char>
    decreases outputs.len(),
{
    if outputs.len() == 0 {
        Seq::empty()
    } else if outputs.len() == 1 {
        output_shown(outputs[0], scores)
    } else {
        outputs_shown(outputs.drop_last(), scores) + " | "@ + output_shown(outputs.last(), scores)
    }
}

/// The dimensions of the first output, or nothing where there is none.
pub open spec fn dimensions_shown(outputs: Seq<FileReport>) -> Seq<char> {
    if outputs.len() == 0 {
        Seq::empty()
    } else {
        text::decimal(outputs[0].width as nat) + "x"@ + text::decimal(outputs[0].height as nat)
    }
}

/// The line about an input: its size, the dimensions of its outputs, and each of them.
pub open spec fn input_shown(
    name: Seq<char>,
    bytes: u64,
    outputs: Seq<FileReport>,
    scores: Seq<ScoreText>,
) -> Seq<char> {
    "  "@ + name + ": "@ + kb_shown(bytes) + " -> "@ + dimensions_shown(outputs) + ": "@
        + outputs_shown(outputs, scores)
}

pub fn input_line(name: &str, bytes: u64, outputs: &Vec<FileReport>, scores: &Vec<ScoreText>) -> (r:
    String)
    ensures
        r@ == input_shown(name@, bytes, outputs@, scores@),
{
    let mut line: String = "  ".to_string();
    line.append(name);
    line.append(": ");
    line.append(kb(bytes).as_str());
    line.append(" -> ");
    let ghost before = line@;
    if outputs.len() > 0 {
        text::push_decimal(&mut line, outputs[0].width as u64);
        line.append("x");
        text::push_decimal(&mut line, outputs[0].height as u64);
    }
    proof {
        assert(line@ =~= before + dimensions_shown(outputs@));
    }
    line.append(": ");
    let ghost opened = line@;
    let mut i: usize = 0;
    proof {
        assert(opened + outputs_shown(outputs@.take(0), scores@) =~= opened);
    }
    while i < outputs.len()
        invariant
            i <= outputs@.len(),
            line@ == opened + outputs_shown(outputs@.take(i as int), scores@),
        decreases outputs@.len() - i,
    {
        let ghost here = line@;
        let ghost next = outputs@.take(i + 1);
        proof {
            assert(next.drop_last() =~= outputs@.take(i as int));
            assert(next.last() == outputs@[i as int]);
            assert(next[0] == outputs@[0]);
        }
        if i > 0 {
            line.append(" | ");
        }
        line.append(outputs[i].format.extension());
        line.append(" ");
        line.append(kb(outputs[i].bytes).as_str());
        push_score(&mut line, scores, outputs[i].format);
        proof {
            assert(line@ =~= opened + outputs_shown(next, scores@));
        }
        i = i + 1;
    }
    proof {
        assert(outputs@.take(i as int) =~= outputs@);
        assert(line@ =~= input_shown(name@, bytes, outputs@, scores@));
    }
    line
}

/// The line about an input that failed.
pub fn failure_line(name: &str, error: &str) -> (r: String)
    ensures
        r@ == "  FAILED "@ + name@ + ": "@ + error@,
{
    let mut line: String = "  FAILED ".to_string();
    line.append(name);
    line.append(": ");
    line.append(error);
    line
}

/// The line about all outputs of a format.
pub open spec fn totals_shown(format: ImageFormat, t: Totals, input_bytes: u64) -> Seq<char> {
    format.extension_spec() + ": "@ + text::decimal(t.files as nat) + " files, total "@ + kb_shown(
        t.bytes,
    ) + " (was "@ + kb_shown(input_bytes) + "), largest "@ + kb_shown(t.largest)
        + ", over cap: "@ + text::decimal(t.over_cap as nat)
}

pub fn totals_line(format: ImageFormat, t: &Totals, input_bytes: u64) -> (r: String)
    ensures
        r@ == totals_shown(format, *t, input_bytes),
{
    let mut line: String = format.extension().to_string();
    line.append(": ");
    text::push_decimal(&mut line, t.files);
    line.append(" files, total ");
    line.append(kb(t.bytes).as_str());
    line.append(" (was ");
    line.append(kb(input_bytes).as_str());
    line.append("), largest ");
    line.append(kb(t.largest).as_str());
    line.append(", over cap: ");
    text::push_decimal(&mut line, t.over_cap);
    line
}

/// What is shown as thousands of bytes is the nearest number of thousands, but for what doubles lose:
/// below 2 to the power 48 it is off by no more than 5/8 of a thousand, and above that by little
/// more.
pub proof fn lemma_thousands_are_the_nearest(bytes: u64)
    ensures
        8 * (1000 * thousands(bytes) - bytes) <= 5000 + bytes / 0x1_0000_0000_0000,
        8 * (bytes - 1000 * thousands(bytes)) <= 5000 + bytes / 0x1_0000_0000_0000,
{
    let n = bytes as nat;
    let p = binary64::nearest(n, 1);
    let d = Dyadic { m: 1000, e: 0 };
    let q = p.over(d);
    let r = thousands(bytes);
    binary64::lemma_nearest_significand(n, 1);
    binary64::lemma_nearest_significand(p.m, 1000);
    if n == 0 {
        assert(q.m == 0);
        assert(r == 0) by {
            if q.e >= 0 {
                assert(0 * binary64::exp2(q.e as nat) == 0);
            } else {
                let b = binary64::exp2((-q.e) as nat);
                binary64::lemma_exp2_pos((-q.e) as nat);
                vstd::arithmetic::div_mod::lemma_small_mod(0, b);
                vstd::arithmetic::div_mod::lemma_basic_div(0, b as int);
            }
        }
    } else {
        let k = (magnitude(p.e) + magnitude(q.e)) as nat;
        binary64::lemma_nearest_is_near(n, 1, k);
        binary64::lemma_quotient_is_near(p, d, k, 0);
        binary64::lemma_rounding_even_is_near(q, k);
        let b = binary64::exp2(k);
        binary64::lemma_exp2_pos(k);
        assert(binary64::exp2(0) == 1);
        let (x, y) = (binary64::at(q, k), binary64::at(p, k));
        assert(y * 1 == y);
        assert(binary64::at(d, 0) == 1000);
        binary64::lemma_differ_by_both(x * 1000, y, n * b, 1, 1);
        assert(x * 1000 == 1000 * x);
        lemma_near_thousands(n, b, x, r);
    }
}

/// From what doubles lose to what is shown.
proof fn lemma_near_thousands(n: nat, b: nat, x: nat, r: nat)
    requires
        b > 0,
        binary64::differ_by(1000 * x, n * b, 3),
        2 * x <= (2 * r + 1) * b,
        (2 * r - 1) * b <= 2 * x,
    ensures
        8 * (1000 * r - n) <= 5000 + n / 0x1_0000_0000_0000,
        8 * (n - 1000 * r) <= 5000 + n / 0x1_0000_0000_0000,
{
    let nb = n * b;
    assert((2 * r + 1) * b == 2 * (r * b) + b && (2 * r - 1) * b == 2 * (r * b) - b)
        by (nonlinear_arith);
    let rb = r * b;
    let z = n / 0x1_0000_0000_0000;
    // Twenty-four times the number is less than the power by far.
    assert(24 * nb <= 0x20_0000_0000_0000 * ((z + 1) * b)) by (nonlinear_arith)
        requires
            nb == n * b,
            n < (z + 1) * 0x1_0000_0000_0000,
            b > 0,
    {
        assert(n * b <= ((z + 1) * 0x1_0000_0000_0000) * b);
        assert(((z + 1) * 0x1_0000_0000_0000) * b == 0x1_0000_0000_0000 * ((z + 1) * b));
    }
    let zb = z * b;
    assert((z + 1) * b == zb + b) by (nonlinear_arith)
        requires
            zb == z * b,
    ;
    assert(2 * x <= 2 * rb + b && 2 * rb - b <= 2 * x);
    assert(0x20_0000_0000_0000 * (1000 * x - nb) <= 3 * nb && 0x20_0000_0000_0000 * (nb - 1000 * x)
        <= 3 * nb);
    assert(8 * (1000 * x - nb) <= zb + b && 8 * (nb - 1000 * x) <= zb + b);
    assert(8 * (1000 * rb - nb) <= 5000 * b + zb && 8 * (nb - 1000 * rb) <= 5000 * b + zb);
    assert(8 * (1000 * r - n) <= 5000 + z && 8 * (n - 1000 * r) <= 5000 + z)
        by (nonlinear_arith)
        requires
            8 * (1000 * rb - nb) <= 5000 * b + zb,
            8 * (nb - 1000 * rb) <= 5000 * b + zb,
            rb == r * b,
            nb == n * b,
            zb == z * b,
            b > 0,
    {
        assert((8 * (1000 * r - n)) * b <= (5000 + z) * b);
        assert((8 * (n - 1000 * r)) * b <= (5000 + z) * b);
    }
}

spec fn magnitude(e: int) -> int {
    if e < 0 {
        -e
    } else {
        e
    }
}

/// A format is shown with its own first score: scores of other formats in front of it change
/// nothing, nor does anything behind it.
pub proof fn lemma_first_score_is_shown(scores: Seq<ScoreText>, format: ImageFormat, i: int)
    requires
        0 <= i < scores.len(),
        scores[i].format == format,
        forall|j: int| 0 <= j < i ==> (#[trigger] scores[j]).format != format,
    ensures
        score_shown(scores, format) == ", S2 "@ + scores[i].score@,
    decreases i,
{
    if i > 0 {
        assert(scores[0].format != format);
        let rest = scores.skip(1);
        assert(rest[i - 1] == scores[i]);
        assert forall|j: int| 0 <= j < i - 1 implies (#[trigger] rest[j]).format != format by {
            assert(rest[j] == scores[j + 1]);
        }
        lemma_first_score_is_shown(rest, format, i - 1);
    }
}

/// A format without a score is shown without one.
pub proof fn lemma_no_score_is_shown(scores: Seq<ScoreText>, format: ImageFormat)
    requires
        forall|j: int| 0 <= j < scores.len() ==> (#[trigger] scores[j]).format != format,
    ensures
        score_shown(scores, format) == Seq::<char>::empty(),
    decreases scores.len(),
{
    if scores.len() > 0 {
        assert(scores[0].format != format);
        let rest = scores.skip(1);
        assert forall|j: int| 0 <= j < rest.len() implies (#[trigger] rest[j]).format != format by {
            assert(rest[j] == scores[j + 1]);
        }
        lemma_no_score_is_shown(rest, format);
    }
}

} // verus!
