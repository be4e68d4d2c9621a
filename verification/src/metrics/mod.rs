//! Perceptual metric boundary plus built-in implementations.

use vstd::prelude::*;

use crate::binary64::Binary64;
use crate::geometry::Dimensions;
use crate::report::{self, Direction, MetricId, MetricResult};
use crate::text;
use crate::types::Image;

pub mod psychovisual;

pub use psychovisual::{Butteraugli, ButteraugliNorm, Ssimulacra2};

verus! {

#[derive(Debug, PartialEq, Eq)]
pub enum MetricError {
    BackendUnavailable(String),
    DimensionMismatch { reference: Dimensions, candidate: Dimensions },
    Evaluation(String),
}

/// Dimensions as they appear in a message.
pub open spec fn shown(d: Dimensions) -> Seq<char> {
    "Dimensions { width: "@ + text::decimal(d.width as nat) + ", height: "@ + text::decimal(
        d.height as nat,
    ) + " }"@
}

fn show(d: Dimensions) -> (r: String)
    ensures
        r@ == shown(d),
{
    let mut out: String = "Dimensions { width: ".to_string();
    text::push_decimal(&mut out, d.width as u64);
    out.append(", height: ");
    text::push_decimal(&mut out, d.height as u64);
    out.append(" }");
    out
}

impl MetricError {
    pub open spec fn message_spec(self) -> Seq<char> {
        match self {
            MetricError::BackendUnavailable(detail) => "metric backend unavailable: "@ + detail@,
            MetricError::DimensionMismatch { reference, candidate } => "reference is "@ + shown(
                reference,
            ) + " but candidate is "@ + shown(candidate),
            MetricError::Evaluation(detail) => "metric evaluation failed: "@ + detail@,
        }
    }

    /// What went wrong, in words.
    pub fn message(&self) -> (r: String)
        ensures
            r@ == self.message_spec(),
    {
        match self {
            MetricError::BackendUnavailable(detail) => {
                let mut out: String = "metric backend unavailable: ".to_string();
                out.append(detail.as_str());
                out
            },
            MetricError::DimensionMismatch { reference, candidate } => {
                let mut out: String = "reference is ".to_string();
                out.append(show(*reference).as_str());
                out.append(" but candidate is ");
                out.append(show(*candidate).as_str());
                out
            },
            MetricError::Evaluation(detail) => {
                let mut out: String = "metric evaluation failed: ".to_string();
                out.append(detail.as_str());
                out
            },
        }
    }
}

pub trait Metric: Send + Sync {
    /// Name and implementation version. Scores from different versions are not comparable.
    fn id(&self) -> MetricId;

    fn direction(&self) -> Direction;

    /// Compare a candidate against a reference of identical dimensions.
    fn score(&self, reference: &Image, candidate: &Image) -> Result<Binary64, MetricError>;

    /// The score of a candidate with the metric's own name and direction; an error where the
    /// dimensions differ, without asking for a score.
    fn measure(&self, reference: &Image, candidate: &Image) -> (r: Result<
        MetricResult,
        MetricError,
    >)
        default_ensures
            reference@.dimensions != candidate@.dimensions ==> r == Err::<MetricResult, _>(
                MetricError::DimensionMismatch {
                    reference: reference@.dimensions,
                    candidate: candidate@.dimensions,
                },
            ),
            reference@.dimensions == candidate@.dimensions ==> (match r {
                Ok(result) => call_ensures(Self::id, (self,), result.metric) && call_ensures(
                    Self::direction,
                    (self,),
                    result.direction,
                ) && call_ensures(Self::score, (self, reference, candidate), Ok(result.score)),
                Err(e) => call_ensures(Self::score, (self, reference, candidate), Err(e)),
            }),
    {
        let a: Dimensions = reference.dimensions();
        let b: Dimensions = candidate.dimensions();
        if a.width != b.width || a.height != b.height {
            return Err(MetricError::DimensionMismatch { reference: a, candidate: b });
        }
        let metric: MetricId = self.id();
        let direction: Direction = self.direction();
        match self.score(reference, candidate) {
            Ok(score) => Ok(MetricResult { metric, direction, score }),
            Err(e) => Err(e),
        }
    }
}

/// Mean SSIM (Wang et al. 2004) on BT.601 luma with an 11-tap Gaussian window (σ = 1.5), valid
/// region only. Images with alpha are composited over black and over white and the worse score
/// is used, so transparency errors are penalized.
#[derive(Debug, Default, Clone, Copy)]
pub struct Ssim;

/// The smallest of some scores, or infinity where there is none that is a number.
pub open spec fn lowest(scores: Seq<Binary64>) -> Binary64
    decreases scores.len(),
{
    if scores.len() == 0 {
        Binary64 { bits: 0x7ff0_0000_0000_0000 }
    } else {
        lowest(scores.drop_last()).smaller(scores.last())
    }
}

impl Ssim {
    pub fn id(&self) -> (r: MetricId)
        ensures
            r.name@ == "ssim-y-gauss11"@,
            r.version@ == "1"@,
    {
        MetricId::new("ssim-y-gauss11", "1")
    }

    pub fn direction(&self) -> (r: Direction)
        ensures
            r == Direction::HigherIsBetter,
    {
        Direction::HigherIsBetter
    }

    /// The worst of the scores on every background.
    pub fn combine(&self, scores: &Vec<Binary64>) -> (r: Binary64)
        ensures
            r == lowest(scores@),
    {
        let mut score = Binary64 { bits: 0x7ff0_0000_0000_0000 };
        let mut i: usize = 0;
        while i < scores.len()
            invariant
                i <= scores@.len(),
                score == lowest(scores@.take(i as int)),
            decreases scores@.len() - i,
        {
            proof {
                assert(scores@.take(i + 1).drop_last() =~= scores@.take(i as int));
            }
            score = score.min(scores[i]);
            i = i + 1;
        }
        proof {
            assert(scores@.take(i as int) =~= scores@);
        }
        score
    }
}

/// The lowest of some numbers is one of them, and none is lower; without any it is infinite.
pub proof fn lemma_lowest_is_the_lowest(scores: Seq<Binary64>, i: int)
    requires
        0 <= i < scores.len(),
        forall|k: int|
            0 <= k < scores.len() ==> report::no_less(
                (#[trigger] scores[k]).bits,
                scores[k].bits,
            ),
    ensures
        report::no_less(scores[i].bits, lowest(scores).bits),
        exists|k: int| 0 <= k < scores.len() && (#[trigger] scores[k]).bits == lowest(scores).bits,
    decreases scores.len(),
{
    let rest = scores.drop_last();
    let n = scores.len() - 1;
    assert(report::no_less(scores[n].bits, scores[n].bits));
    assert(report::no_less(scores[i].bits, scores[i].bits));
    if rest.len() == 0 {
        assert(lowest(rest).bits == 0x7ff0_0000_0000_0000);
        assert(scores[n].bits == lowest(scores).bits);
    } else {
        assert forall|k: int| 0 <= k < rest.len() implies report::no_less(
            (#[trigger] rest[k]).bits,
            rest[k].bits,
        ) by {
            assert(rest[k] == scores[k]);
        }
        lemma_lowest_is_the_lowest(rest, 0);
        let j = choose|j: int| 0 <= j < rest.len() && (#[trigger] rest[j]).bits == lowest(rest).bits;
        assert(scores[j].bits == lowest(rest).bits);
        assert(report::no_less(scores[j].bits, scores[j].bits));
        if i < n {
            lemma_lowest_is_the_lowest(rest, i);
            assert(rest[i] == scores[i]);
        }
        if lowest(scores).bits == scores[n].bits {
        } else {
            assert(lowest(scores).bits == scores[j].bits);
        }
    }
}

} // verus!
