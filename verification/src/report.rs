//! What the optimizer reports back.

use std::time::Duration;

use vstd::prelude::*;

use crate::binary64::Binary64;
use crate::geometry::Dimensions;
use crate::parameters::EncoderParameters;
use crate::types::ImageFormat;

verus! {

#[derive(Debug, Clone, Copy, PartialEq, Eq, Structural)]
pub enum Direction {
    HigherIsBetter,
    LowerIsBetter,
}

impl Direction {
    /// Whether a score passes a threshold. Nothing passes, and nothing is passed by, a value
    /// that is not a number.
    pub open spec fn meets_spec(self, score: Binary64, threshold: Binary64) -> bool {
        match self {
            Direction::HigherIsBetter => score.at_least_spec(threshold),
            Direction::LowerIsBetter => threshold.at_least_spec(score),
        }
    }

    pub fn meets(self, score: Binary64, threshold: Binary64) -> (r: bool)
        ensures
            r == self.meets_spec(score, threshold),
    {
        match self {
            Direction::HigherIsBetter => score.at_least(threshold),
            Direction::LowerIsBetter => threshold.at_least(score),
        }
    }
}

/// Identifies an implementation precisely enough that benchmark results are only ever
/// compared across identical versions.
#[derive(Debug, PartialEq, Eq)]
pub struct ComponentId {
    pub name: String,
    pub version: String,
}

impl ComponentId {
    pub fn new(name: &str, version: &str) -> (r: Self)
        ensures
            r.name@ == name@,
            r.version@ == version@,
    {
        ComponentId { name: name.to_string(), version: version.to_string() }
    }
}

impl Clone for ComponentId {
    fn clone(&self) -> (r: Self)
        ensures
            r == *self,
    {
        ComponentId { name: self.name.clone(), version: self.version.clone() }
    }
}

pub type MetricId = ComponentId;

pub type CodecId = ComponentId;

#[derive(Debug, PartialEq)]
pub struct MetricResult {
    pub metric: MetricId,
    pub direction: Direction,
    pub score: Binary64,
}

impl Clone for MetricResult {
    fn clone(&self) -> (r: Self)
        ensures
            r == *self,
    {
        MetricResult { metric: self.metric.clone(), direction: self.direction, score: self.score }
    }
}

/// One encoded and measured candidate.
#[derive(Debug, PartialEq)]
pub struct Evaluation {
    pub format: ImageFormat,
    pub level: u32,
    pub bytes: u64,
    pub metrics: Vec<MetricResult>,
    pub accepted: bool,
    pub encoder_parameters: EncoderParameters,
}

/// What an [`Evaluation`] holds.
#[verifier::ext_equal]
pub struct EvaluationView {
    pub format: ImageFormat,
    pub level: u32,
    pub bytes: u64,
    pub metrics: Seq<MetricResult>,
    pub accepted: bool,
    pub encoder_parameters: Map<Seq<char>, Seq<char>>,
}

impl View for Evaluation {
    type V = EvaluationView;

    open spec fn view(&self) -> EvaluationView {
        EvaluationView {
            format: self.format,
            level: self.level,
            bytes: self.bytes,
            metrics: self.metrics@,
            accepted: self.accepted,
            encoder_parameters: self.encoder_parameters@,
        }
    }
}

impl EvaluationView {
    /// Whether this candidate is preferred to another: fewer bytes, and for the same number
    /// of bytes the higher level.
    pub open spec fn precedes(self, other: EvaluationView) -> bool {
        self.bytes < other.bytes || (self.bytes == other.bytes && self.level > other.level)
    }
}

impl Evaluation {
    /// Whether this candidate is preferred to another.
    pub fn is_better_than(&self, other: &Evaluation) -> (r: bool)
        ensures
            r == self@.precedes(other@),
    {
        self.bytes < other.bytes || (self.bytes == other.bytes && self.level > other.level)
    }
}

impl Clone for Evaluation {
    fn clone(&self) -> (r: Self)
        ensures
            r@ == self@,
    {
        let mut metrics: Vec<MetricResult> = Vec::new();
        let mut i: usize = 0;
        while i < self.metrics.len()
            invariant
                i <= self.metrics@.len(),
                metrics@ == self.metrics@.take(i as int),
            decreases self.metrics@.len() - i,
        {
            metrics.push(self.metrics[i].clone());
            proof {
                assert(self.metrics@.take(i + 1) =~= self.metrics@.take(i as int).push(
                    self.metrics@[i as int],
                ));
            }
            i = i + 1;
        }
        proof {
            assert(self.metrics@.take(i as int) =~= self.metrics@);
        }
        Evaluation {
            format: self.format,
            level: self.level,
            bytes: self.bytes,
            metrics,
            accepted: self.accepted,
            encoder_parameters: self.encoder_parameters.clone(),
        }
    }
}

#[derive(Debug, PartialEq)]
pub enum FormatOutcome {
    Found { best: Evaluation },
    NoAcceptableCandidate,
    Skipped { reason: String },
    Failed { error: String },
}

/// What a [`FormatOutcome`] holds.
#[verifier::ext_equal]
pub enum FormatOutcomeView {
    Found { best: EvaluationView },
    NoAcceptableCandidate,
    Skipped { reason: Seq<char> },
    Failed { error: Seq<char> },
}

impl View for FormatOutcome {
    type V = FormatOutcomeView;

    open spec fn view(&self) -> FormatOutcomeView {
        match self {
            FormatOutcome::Found { best } => FormatOutcomeView::Found { best: best@ },
            FormatOutcome::NoAcceptableCandidate => FormatOutcomeView::NoAcceptableCandidate,
            FormatOutcome::Skipped { reason } => FormatOutcomeView::Skipped { reason: reason@ },
            FormatOutcome::Failed { error } => FormatOutcomeView::Failed { error: error@ },
        }
    }
}

impl Clone for FormatOutcome {
    fn clone(&self) -> (r: Self)
        ensures
            r@ == self@,
    {
        match self {
            FormatOutcome::Found { best } => FormatOutcome::Found { best: best.clone() },
            FormatOutcome::NoAcceptableCandidate => FormatOutcome::NoAcceptableCandidate,
            FormatOutcome::Skipped { reason } => FormatOutcome::Skipped { reason: reason.clone() },
            FormatOutcome::Failed { error } => FormatOutcome::Failed { error: error.clone() },
        }
    }
}

#[derive(Debug, PartialEq)]
pub struct FormatReport {
    pub format: ImageFormat,
    pub codec: Option<CodecId>,
    pub evaluations: u32,
    pub outcome: FormatOutcome,
}

/// What a [`FormatReport`] holds.
#[verifier::ext_equal]
pub struct FormatReportView {
    pub format: ImageFormat,
    pub codec: Option<CodecId>,
    pub evaluations: u32,
    pub outcome: FormatOutcomeView,
}

impl View for FormatReport {
    type V = FormatReportView;

    open spec fn view(&self) -> FormatReportView {
        FormatReportView {
            format: self.format,
            codec: self.codec,
            evaluations: self.evaluations,
            outcome: self.outcome@,
        }
    }
}

impl Clone for FormatReport {
    fn clone(&self) -> (r: Self)
        ensures
            r@ == self@,
    {
        let codec: Option<CodecId> = match &self.codec {
            Some(id) => Some(id.clone()),
            None => None,
        };
        FormatReport {
            format: self.format,
            codec,
            evaluations: self.evaluations,
            outcome: self.outcome.clone(),
        }
    }
}

#[derive(Debug, PartialEq)]
pub enum Selection {
    /// A newly encoded candidate won.
    Encoded { best: Evaluation },
    /// The source was already the smallest valid answer (same dimensions, allowed format).
    KeptOriginal { format: ImageFormat },
}

/// What a [`Selection`] holds.
#[verifier::ext_equal]
pub enum SelectionView {
    Encoded { best: EvaluationView },
    KeptOriginal { format: ImageFormat },
}

impl View for Selection {
    type V = SelectionView;

    open spec fn view(&self) -> SelectionView {
        match self {
            Selection::Encoded { best } => SelectionView::Encoded { best: best@ },
            Selection::KeptOriginal { format } => SelectionView::KeptOriginal { format: *format },
        }
    }
}

impl Clone for Selection {
    fn clone(&self) -> (r: Self)
        ensures
            r@ == self@,
    {
        match self {
            Selection::Encoded { best } => Selection::Encoded { best: best.clone() },
            Selection::KeptOriginal { format } => Selection::KeptOriginal { format: *format },
        }
    }
}

#[derive(Debug, PartialEq)]
pub struct OptimizationResult {
    pub selection: Selection,
    pub source_bytes: u64,
    pub output_bytes: u64,
    pub source_dimensions: Dimensions,
    pub output_dimensions: Dimensions,
    pub alpha_flattened: bool,
    /// Per-format winners, usable as `<picture>` fallbacks.
    pub formats: Vec<FormatReport>,
    pub trace: Vec<Evaluation>,
    /// How long the optimization took.
    pub elapsed: Duration,
    /// Encoded output. Not serialized into reports.
    pub output: Vec<u8>,
}

/// What the evaluations of a list hold.
pub open spec fn evaluation_views(list: Seq<Evaluation>) -> Seq<EvaluationView> {
    list.map_values(|e: Evaluation| e@)
}

/// What the reports of a list hold.
pub open spec fn report_views(list: Seq<FormatReport>) -> Seq<FormatReportView> {
    list.map_values(|r: FormatReport| r@)
}

impl Clone for OptimizationResult {
    fn clone(&self) -> (r: Self)
        ensures
            r.selection@ == self.selection@,
            r.source_bytes == self.source_bytes,
            r.output_bytes == self.output_bytes,
            r.source_dimensions == self.source_dimensions,
            r.output_dimensions == self.output_dimensions,
            r.alpha_flattened == self.alpha_flattened,
            report_views(r.formats@) == report_views(self.formats@),
            evaluation_views(r.trace@) == evaluation_views(self.trace@),
            r.elapsed == self.elapsed,
            r.output@ == self.output@,
    {
        let mut formats: Vec<FormatReport> = Vec::new();
        let mut i: usize = 0;
        while i < self.formats.len()
            invariant
                i <= self.formats@.len(),
                formats@.len() == i,
                forall|j: int| 0 <= j < i ==> (#[trigger] formats@[j])@ == self.formats@[j]@,
            decreases self.formats@.len() - i,
        {
            formats.push(self.formats[i].clone());
            i = i + 1;
        }
        let mut trace: Vec<Evaluation> = Vec::new();
        let mut i: usize = 0;
        while i < self.trace.len()
            invariant
                i <= self.trace@.len(),
                trace@.len() == i,
                forall|j: int| 0 <= j < i ==> (#[trigger] trace@[j])@ == self.trace@[j]@,
            decreases self.trace@.len() - i,
        {
            trace.push(self.trace[i].clone());
            i = i + 1;
        }
        proof {
            assert(report_views(formats@) =~= report_views(self.formats@));
            assert(evaluation_views(trace@) =~= evaluation_views(self.trace@));
        }
        OptimizationResult {
            selection: self.selection.clone(),
            source_bytes: self.source_bytes,
            output_bytes: self.output_bytes,
            source_dimensions: self.source_dimensions,
            output_dimensions: self.output_dimensions,
            alpha_flattened: self.alpha_flattened,
            formats,
            trace,
            elapsed: self.elapsed,
            output: self.output.clone(),
        }
    }
}

/// Whether a double, by its bits, is a number at least as large as another number. Nonnegative
/// doubles stand in the order of their bits, negative ones in the opposite order, and the two
/// zeros are equal.
pub open spec fn no_less(a: u64, b: u64) -> bool {
    let (sign, infinity) = (0x8000_0000_0000_0000u64, 0x7ff0_0000_0000_0000u64);
    if a < sign && b < sign {
        b <= a <= infinity
    } else if a >= sign && b >= sign {
        a <= b <= sign + infinity
    } else if a < sign {
        a <= infinity && b <= sign + infinity
    } else {
        a == sign && b == 0
    }
}

/// Whether a score is on the right side of a threshold.
pub open spec fn on_the_right_side(direction: Direction, score: u64, threshold: u64) -> bool {
    match direction {
        Direction::HigherIsBetter => no_less(score, threshold),
        Direction::LowerIsBetter => no_less(threshold, score),
    }
}

/// A score passes a threshold exactly where it is a number on the right side of it, or equal to
/// it.
pub proof fn lemma_meets_is_the_order_of_numbers(
    direction: Direction,
    score: Binary64,
    threshold: Binary64,
)
    ensures
        direction.meets_spec(score, threshold) == on_the_right_side(
            direction,
            score.bits,
            threshold.bits,
        ),
{
}

/// A candidate is preferred to another exactly where it has fewer bytes, or as many at a higher
/// level, so of two different candidates one is preferred unless bytes and level are the same.
pub proof fn lemma_fewer_bytes_are_preferred(a: EvaluationView, b: EvaluationView)
    ensures
        a.bytes < b.bytes ==> a.precedes(b) && !b.precedes(a),
        a.bytes == b.bytes && a.level > b.level ==> a.precedes(b) && !b.precedes(a),
        a.bytes == b.bytes && a.level == b.level ==> !a.precedes(b) && !b.precedes(a),
{
}

} // verus!
