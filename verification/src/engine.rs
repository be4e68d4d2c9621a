//! The optimization engine.
//!
//! The optimizer owns the loop: choose a level, encode, decode, measure, decide. Pipeline,
//! codecs and metrics are injected, so nothing here depends on HTTP, queues, storage or a
//! specific native library.

use vstd::prelude::*;

use crate::clock;
use crate::codecs::{Capabilities, Codec, CodecError, EncodeSettings, Encoded};
use crate::geometry::Dimensions;
use crate::metrics::Metric;
use crate::pipeline::{DecodedSource, ImagePipeline, PipelineError};
use crate::report::{
    self, CodecId, Evaluation, EvaluationView, FormatOutcome, FormatOutcomeView, FormatReport,
    FormatReportView, MetricId, MetricResult, OptimizationResult, Selection, SelectionView,
};
use crate::request::{AlphaPolicy, MetadataPolicy, OptimizationRequest, QualityGate};
use crate::search::{self, FormatSearch, Gate, Sample};
use crate::text;
use crate::types::{Image, ImageFormat, ImageView};

verus! {

#[derive(Debug)]
pub enum EngineError {
    InvalidRequest(String),
    Pipeline(PipelineError),
    Codec(CodecError),
    NoAcceptableCandidate { formats: Vec<FormatReport> },
}

impl EngineError {
    pub open spec fn message_spec(self) -> Seq<char> {
        match self {
            EngineError::InvalidRequest(detail) => "invalid request: "@ + detail@,
            EngineError::Pipeline(e) => "pipeline failed: "@ + e.message_spec(),
            EngineError::Codec(e) => "codec failed: "@ + e.message_spec(),
            EngineError::NoAcceptableCandidate { formats } =>
                "no candidate met the quality target in any allowed format"@,
        }
    }

    /// What went wrong, in words.
    pub fn message(&self) -> (r: String)
        ensures
            r@ == self.message_spec(),
    {
        match self {
            EngineError::InvalidRequest(detail) => {
                let mut out: String = "invalid request: ".to_string();
                out.append(detail.as_str());
                out
            },
            EngineError::Pipeline(e) => {
                let mut out: String = "pipeline failed: ".to_string();
                out.append(e.message().as_str());
                out
            },
            EngineError::Codec(e) => {
                let mut out: String = "codec failed: ".to_string();
                out.append(e.message().as_str());
                out
            },
            EngineError::NoAcceptableCandidate { formats: _ } => {
                "no candidate met the quality target in any allowed format".to_string()
            },
        }
    }
}

/// Formats without repetitions, each where it first occurs.
pub open spec fn distinct(formats: Seq<ImageFormat>) -> Seq<ImageFormat>
    decreases formats.len(),
{
    if formats.len() == 0 {
        formats
    } else {
        let before = distinct(formats.drop_last());
        if before.contains(formats.last()) {
            before
        } else {
            before.push(formats.last())
        }
    }
}

/// Whether a format is among others.
fn contains_format(formats: &Vec<ImageFormat>, format: ImageFormat) -> (r: bool)
    ensures
        r == formats@.contains(format),
{
    let mut i: usize = 0;
    while i < formats.len()
        invariant
            i <= formats@.len(),
            forall|j: int| 0 <= j < i ==> formats@[j] != format,
        decreases formats@.len() - i,
    {
        if formats[i] == format {
            return true;
        }
        i = i + 1;
    }
    false
}

fn dedup(formats: &Vec<ImageFormat>) -> (r: Vec<ImageFormat>)
    ensures
        r@ == distinct(formats@),
{
    let mut seen: Vec<ImageFormat> = Vec::new();
    let mut i: usize = 0;
    while i < formats.len()
        invariant
            i <= formats@.len(),
            seen@ == distinct(formats@.take(i as int)),
        decreases formats@.len() - i,
    {
        proof {
            assert(formats@.take(i + 1).drop_last() =~= formats@.take(i as int));
        }
        if !contains_format(&seen, formats[i]) {
            seen.push(formats[i]);
        }
        i = i + 1;
    }
    proof {
        assert(formats@.take(i as int) =~= formats@);
    }
    seen
}

/// Whether a metric may give itself this name.
pub open spec fn named<M: Metric>(metric: &M, name: Seq<char>) -> bool {
    exists|id: MetricId| #[trigger] call_ensures(M::id, (metric,), id) && id.name@ == name
}

/// Whether a metric may give itself another name.
pub open spec fn otherwise_named<M: Metric>(metric: &M, name: Seq<char>) -> bool {
    exists|id: MetricId| #[trigger] call_ensures(M::id, (metric,), id) && id.name@ != name
}

/// Whether a metric is the first registered one with a name.
pub open spec fn first_named<M: Metric>(metrics: Seq<M>, name: Seq<char>, k: int) -> bool {
    &&& 0 <= k < metrics.len()
    &&& named(&metrics[k], name)
    &&& forall|j: int| 0 <= j < k ==> otherwise_named(#[trigger] &metrics[j], name)
}

/// Whether a quality gate names a registered metric.
pub open spec fn known<M: Metric>(metrics: Seq<M>, name: Seq<char>) -> bool {
    exists|k: int| first_named(metrics, name, k)
}

/// Whether no registered metric has a name.
pub open spec fn unknown<M: Metric>(metrics: Seq<M>, name: Seq<char>) -> bool {
    forall|j: int| 0 <= j < metrics.len() ==> otherwise_named(#[trigger] &metrics[j], name)
}

/// Whether a gate is a requested one with the metric it names.
pub open spec fn resolves<'a, M: Metric>(
    metrics: Seq<M>,
    requested: QualityGate,
    gate: Gate<'a, M>,
) -> bool {
    &&& *gate.spec == requested
    &&& exists|k: int|
        first_named(metrics, requested.metric@, k) && *gate.metric == metrics[k]
}

/// Whether gates are those requested, with the metrics they name.
pub open spec fn resolved<'a, M: Metric>(
    metrics: Seq<M>,
    requested: Seq<QualityGate>,
    gates: Seq<Gate<'a, M>>,
) -> bool {
    &&& gates.len() == requested.len()
    &&& forall|i: int|
        0 <= i < requested.len() ==> resolves(metrics, #[trigger] requested[i], gates[i])
}

/// Whether every quality gate names a registered metric.
pub open spec fn all_known<M: Metric>(metrics: Seq<M>, requested: Seq<QualityGate>) -> bool {
    forall|i: int|
        0 <= i < requested.len() ==> known(metrics, (#[trigger] requested[i]).metric@)
}

/// Whether a request asks for something, so that only the metrics it names can be wrong.
pub open spec fn complete(request: OptimizationRequest) -> bool {
    request.allowed_formats@.len() > 0 && request.quality@.len() > 0
}

/// Whether a request is refused with a message.
pub open spec fn refused<M: Metric>(
    metrics: Seq<M>,
    request: OptimizationRequest,
    message: Seq<char>,
) -> bool {
    if request.allowed_formats@.len() == 0 {
        message == "no output formats allowed"@
    } else if request.quality@.len() == 0 {
        message == "at least one quality gate is required"@
    } else {
        exists|i: int|
            0 <= i < request.quality@.len() && unknown(
                metrics,
                (#[trigger] request.quality@[i]).metric@,
            ) && message == unknown_metric(request.quality@[i].metric@) && forall|j: int|
                0 <= j < i ==> known(metrics, (#[trigger] request.quality@[j]).metric@)
    }
}

/// The complaint about a gate that names no metric.
pub open spec fn unknown_metric(name: Seq<char>) -> Seq<char> {
    "unknown metric `"@ + name + "`"@
}

/// A format's best candidate.
pub struct Winner {
    pub evaluation: Evaluation,
    pub bytes: Vec<u8>,
    pub alpha_flattened: bool,
}

/// What trying one format gave.
pub struct Trial {
    pub report: FormatReport,
    pub trace: Vec<Evaluation>,
    pub winner: Option<Winner>,
}

/// Whether a codec may be for another format.
pub open spec fn for_another<C: Codec>(codec: &C, format: ImageFormat) -> bool {
    exists|f: ImageFormat| #[trigger] call_ensures(C::format, (codec,), f) && f != format
}

/// Whether a codec is the first registered one for a format.
pub open spec fn first_for<C: Codec>(codecs: Seq<C>, format: ImageFormat, k: int) -> bool {
    &&& 0 <= k < codecs.len()
    &&& call_ensures(C::format, (&codecs[k],), format)
    &&& forall|j: int| 0 <= j < k ==> for_another(#[trigger] &codecs[j], format)
}

/// Whether no registered codec is for a format.
pub open spec fn none_for<C: Codec>(codecs: Seq<C>, format: ImageFormat) -> bool {
    forall|j: int| 0 <= j < codecs.len() ==> for_another(#[trigger] &codecs[j], format)
}

/// What the evaluations of samples hold.
pub open spec fn sample_views(samples: Seq<Sample>) -> Seq<EvaluationView> {
    samples.map_values(|s: Sample| s.evaluation@)
}

/// Whether a trial is what trying one format on the reference gave.
pub open spec fn tried<'a, C: Codec, M: Metric>(
    codecs: Seq<C>,
    gates: Seq<Gate<'a, M>>,
    reference: &Image,
    request: OptimizationRequest,
    format: ImageFormat,
    t: Trial,
) -> bool {
    ||| none_for(codecs, format) && skipped(format, None, "no codec registered"@, t)
    ||| exists|k: int| #[trigger]
        first_for(codecs, format, k) && tried_with(
            &codecs[k],
            gates,
            reference,
            request,
            format,
            t,
        )
}

/// Whether a format was passed over for a reason, without evaluating anything.
pub open spec fn skipped(
    format: ImageFormat,
    codec: Option<CodecId>,
    reason: Seq<char>,
    t: Trial,
) -> bool {
    &&& t.report@ == (FormatReportView {
        format,
        codec,
        evaluations: 0,
        outcome: FormatOutcomeView::Skipped { reason },
    })
    &&& t.trace@.len() == 0
    &&& t.winner is None
}

/// Whether a format was passed over because it would lose the transparency of the image.
pub open spec fn skipped_for_alpha<C: Codec>(codec: &C, format: ImageFormat, t: Trial) -> bool {
    exists|id: CodecId| #[trigger]
        call_ensures(C::id, (codec,), id) && skipped(
            format,
            Some(id),
            "format cannot preserve transparency"@,
            t,
        )
}

/// Whether a trial is what a codec gave for its format: a transparent reference is searched as
/// it is where the codec keeps transparency, and otherwise flattened or passed over as the
/// request says.
pub open spec fn tried_with<'a, C: Codec, M: Metric>(
    codec: &C,
    gates: Seq<Gate<'a, M>>,
    reference: &Image,
    request: OptimizationRequest,
    format: ImageFormat,
    t: Trial,
) -> bool {
    if reference@.transparent() {
        exists|capabilities: Capabilities| #[trigger]
            call_ensures(C::capabilities, (codec,), capabilities) && if capabilities.alpha {
                tried_by_search(codec, gates, reference, false, request, format, t)
            } else {
                match request.alpha {
                    AlphaPolicy::Preserve => skipped_for_alpha(codec, format, t),
                    AlphaPolicy::FlattenOnto { background } => tried_flattened(
                        codec,
                        gates,
                        reference,
                        background,
                        request,
                        format,
                        t,
                    ),
                }
            }
    } else {
        tried_by_search(codec, gates, reference, false, request, format, t)
    }
}

/// Whether a trial is what searching the flattened reference gave.
pub open spec fn tried_flattened<'a, C: Codec, M: Metric>(
    codec: &C,
    gates: Seq<Gate<'a, M>>,
    reference: &Image,
    background: [u8; 3],
    request: OptimizationRequest,
    format: ImageFormat,
    t: Trial,
) -> bool {
    exists|flattened: Image|
        flattened@ == reference@.flattened(background@) && #[trigger] tried_by_search(
            codec,
            gates,
            &flattened,
            true,
            request,
            format,
            t,
        )
}

/// Whether a trial is what searching an image with a codec gave.
pub open spec fn tried_by_search<'a, C: Codec, M: Metric>(
    codec: &C,
    gates: Seq<Gate<'a, M>>,
    image: &Image,
    alpha_flattened: bool,
    request: OptimizationRequest,
    format: ImageFormat,
    t: Trial,
) -> bool {
    &&& t.report.format == format
    &&& t.report.codec is Some
    &&& call_ensures(C::id, (codec,), t.report.codec->0)
    &&& exists|samples: Seq<Sample>, r: Result<Option<u32>, String>| #[trigger]
        search::searched(codec, image, gates, request.metadata, request.budget, samples, r)
            && concluded(samples, r, alpha_flattened, t) && report::evaluation_views(t.trace@) == (
        if request.trace {
            sample_views(samples)
        } else {
            Seq::empty()
        })
}

/// Whether a trial reports the samples taken and the outcome of a search.
pub open spec fn concluded(
    samples: Seq<Sample>,
    r: Result<Option<u32>, String>,
    alpha_flattened: bool,
    t: Trial,
) -> bool {
    &&& t.report.evaluations == samples.len()
    &&& match r {
        Ok(Some(level)) => exists|i: int|
            0 <= i < samples.len() && (#[trigger] samples[i]).evaluation.level == level
                && t.report.outcome@ == (FormatOutcomeView::Found { best: samples[i].evaluation@ })
                && won(samples[i], alpha_flattened, t.winner),
        Ok(None) => t.report.outcome@ == FormatOutcomeView::NoAcceptableCandidate && t.winner
            is None,
        Err(message) => t.report.outcome@ == (FormatOutcomeView::Failed { error: message@ })
            && t.winner is None,
    }
}

/// Whether a sample is the format's best candidate.
pub open spec fn won(sample: Sample, alpha_flattened: bool, winner: Option<Winner>) -> bool {
    match winner {
        Some(w) => {
            &&& w.evaluation@ == sample.evaluation@
            &&& w.bytes@ == sample.bytes@
            &&& w.alpha_flattened == alpha_flattened
        },
        None => false,
    }
}

/// The reports of trials.
pub open spec fn reports_of(trials: Seq<Trial>) -> Seq<FormatReportView> {
    trials.map_values(|t: Trial| t.report@)
}

/// The traces of trials, one after the other.
pub open spec fn traces_of(trials: Seq<Trial>) -> Seq<EvaluationView>
    decreases trials.len(),
{
    if trials.len() == 0 {
        Seq::empty()
    } else {
        traces_of(trials.drop_last()) + report::evaluation_views(trials.last().trace@)
    }
}

/// Whether a trial's winner is preferred to every other one, and for equal ones comes first.
pub open spec fn preferred(trials: Seq<Trial>, i: int) -> bool {
    &&& 0 <= i < trials.len()
    &&& trials[i].winner is Some
    &&& forall|j: int|
        0 <= j < trials.len() && (#[trigger] trials[j]).winner is Some ==> {
            &&& j < i ==> trials[i].winner->0.evaluation@.precedes(trials[j].winner->0.evaluation@)
            &&& j > i ==> !trials[j].winner->0.evaluation@.precedes(
                trials[i].winner->0.evaluation@,
            )
        }
}

/// Whether no format has an acceptable candidate.
pub open spec fn nothing_won(trials: Seq<Trial>) -> bool {
    forall|j: int| 0 <= j < trials.len() ==> (#[trigger] trials[j]).winner is None
}

/// Whether an image carries an ICC profile that the metadata policy does not keep.
pub open spec fn strips_profile(metadata: MetadataPolicy, image: ImageView) -> bool {
    metadata is StripAll && image.icc_profile is Some
}

/// Whether the original is itself a valid answer: nothing about it has to change, and the best
/// candidate is no smaller.
pub open spec fn original_suffices(
    resized: bool,
    has_strippable_metadata: bool,
    has_unwanted_profile: bool,
    best_bytes: u64,
    input_bytes: nat,
    source_format: Option<ImageFormat>,
    allowed_formats: Seq<ImageFormat>,
) -> bool {
    &&& !resized
    &&& !has_strippable_metadata
    &&& !has_unwanted_profile
    &&& best_bytes >= input_bytes
    &&& source_format is Some
    &&& allowed_formats.contains(source_format->0)
}

/// Whether the original can be returned as it is.
pub fn keeps_original(
    resized: bool,
    has_strippable_metadata: bool,
    has_unwanted_profile: bool,
    best_bytes: u64,
    input_bytes: u64,
    source_format: Option<ImageFormat>,
    allowed_formats: &Vec<ImageFormat>,
) -> (r: bool)
    ensures
        r == original_suffices(
            resized,
            has_strippable_metadata,
            has_unwanted_profile,
            best_bytes,
            input_bytes as nat,
            source_format,
            allowed_formats@,
        ),
{
    match source_format {
        Some(format) => !resized && !has_strippable_metadata && !has_unwanted_profile && best_bytes >= input_bytes
            && contains_format(allowed_formats, format),
        None => false,
    }
}

/// Whether the reference that candidates are measured against is the decoded source, resized
/// to the requested dimensions where they differ.
pub open spec fn prepared<P: ImagePipeline>(
    pipeline: &P,
    input: &[u8],
    request: OptimizationRequest,
    source: DecodedSource,
    reference: Image,
) -> bool {
    let d = source.image@.dimensions;
    &&& call_ensures(P::decode, (pipeline, input), Ok(source))
    &&& if request.dimensions.target_spec(d) == d {
        reference == source.image
    } else {
        call_ensures(
            P::resize,
            (pipeline, &source.image, request.dimensions.target_spec(d)),
            Ok(reference),
        )
    }
}

/// Whether the pipeline could not prepare the reference: decoding failed, or resizing what it
/// gave.
pub open spec fn unprepared<P: ImagePipeline>(
    pipeline: &P,
    input: &[u8],
    request: OptimizationRequest,
    e: PipelineError,
) -> bool {
    ||| call_ensures(P::decode, (pipeline, input), Err(e))
    ||| exists|source: DecodedSource| #[trigger]
        call_ensures(P::decode, (pipeline, input), Ok(source)) && {
            let d = source.image@.dimensions;
            &&& request.dimensions.target_spec(d) != d
            &&& call_ensures(
                P::resize,
                (pipeline, &source.image, request.dimensions.target_spec(d)),
                Err(e),
            )
        }
}

/// Whether every allowed format was tried once, in the order in which they are allowed.
pub open spec fn all_tried<'a, C: Codec, M: Metric>(
    codecs: Seq<C>,
    gates: Seq<Gate<'a, M>>,
    reference: &Image,
    request: OptimizationRequest,
    trials: Seq<Trial>,
) -> bool {
    &&& trials.len() == distinct(request.allowed_formats@).len()
    &&& forall|i: int|
        0 <= i < trials.len() ==> tried(
            codecs,
            gates,
            reference,
            request,
            distinct(request.allowed_formats@)[i],
            #[trigger] trials[i],
        )
}

/// Whether a result is what the trials of a source lead to, with the winner of one of them.
pub open spec fn selected(
    input: Seq<u8>,
    request: OptimizationRequest,
    source: DecodedSource,
    trials: Seq<Trial>,
    i: int,
    r: OptimizationResult,
) -> bool {
    let d = source.image@.dimensions;
    let target = request.dimensions.target_spec(d);
    let winner = trials[i].winner->0;
    let kept = original_suffices(
        target != d,
        source.has_strippable_metadata,
        strips_profile(request.metadata, source.image@),
        winner.evaluation.bytes,
        input.len(),
        source.format,
        request.allowed_formats@,
    );
    &&& r.selection@ == if kept {
        SelectionView::KeptOriginal { format: source.format->0 }
    } else {
        SelectionView::Encoded { best: winner.evaluation@ }
    }
    &&& r.output@ == if kept {
        input
    } else {
        winner.bytes@
    }
    &&& r.alpha_flattened == (!kept && winner.alpha_flattened)
    &&& r.source_bytes == input.len()
    &&& r.output_bytes == r.output@.len()
    &&& r.source_dimensions == d
    &&& r.output_dimensions == target
    &&& report::report_views(r.formats@) == reports_of(trials)
    &&& report::evaluation_views(r.trace@) == traces_of(trials)
}

/// Whether an optimization went through to a choice among the trials of every format.
pub open spec fn optimized<P: ImagePipeline, C: Codec, M: Metric>(
    engine: &Engine<P, C, M>,
    input: &[u8],
    request: OptimizationRequest,
    r: OptimizationResult,
) -> bool {
    exists|gates: Seq<Gate<'_, M>>, source: DecodedSource, reference: Image, trials: Seq<Trial>, i: int|
        {
            &&& resolved(engine.metrics@, request.quality@, gates)
            &&& #[trigger] prepared(&engine.pipeline, input, request, source, reference)
            &&& #[trigger] all_tried(engine.codecs@, gates, &reference, request, trials)
            &&& #[trigger] preferred(trials, i)
            &&& selected(input@, request, source, trials, i, r)
        }
}

/// Whether an optimization tried every format without finding an acceptable candidate.
pub open spec fn exhausted<P: ImagePipeline, C: Codec, M: Metric>(
    engine: &Engine<P, C, M>,
    input: &[u8],
    request: OptimizationRequest,
    formats: Seq<FormatReport>,
) -> bool {
    exists|gates: Seq<Gate<'_, M>>, source: DecodedSource, reference: Image, trials: Seq<Trial>|
        {
            &&& resolved(engine.metrics@, request.quality@, gates)
            &&& #[trigger] prepared(&engine.pipeline, input, request, source, reference)
            &&& #[trigger] all_tried(engine.codecs@, gates, &reference, request, trials)
            &&& nothing_won(trials)
            &&& report::report_views(formats) == reports_of(trials)
        }
}

pub struct Engine<P, C, M> {
    pub pipeline: P,
    pub codecs: Vec<C>,
    pub metrics: Vec<M>,
}

impl<P: ImagePipeline, C: Codec, M: Metric> Engine<P, C, M> {
    pub fn new(pipeline: P) -> (r: Self)
        ensures
            r.pipeline == pipeline,
            r.codecs@.len() == 0,
            r.metrics@.len() == 0,
    {
        Engine { pipeline, codecs: Vec::new(), metrics: Vec::new() }
    }

    pub fn with_codec(self, codec: C) -> (r: Self)
        ensures
            r.pipeline == self.pipeline,
            r.codecs@ == self.codecs@.push(codec),
            r.metrics@ == self.metrics@,
    {
        let mut engine = self;
        engine.codecs.push(codec);
        engine
    }

    pub fn with_metric(self, metric: M) -> (r: Self)
        ensures
            r.pipeline == self.pipeline,
            r.codecs@ == self.codecs@,
            r.metrics@ == self.metrics@.push(metric),
    {
        let mut engine = self;
        engine.metrics.push(metric);
        engine
    }

    /// The position of the first metric with a name.
    fn metric_named(&self, name: &String) -> (r: Option<usize>)
        ensures
            (match r {
                Some(k) => first_named(self.metrics@, name@, k as int),
                None => unknown(self.metrics@, name@),
            }),
    {
        let mut k: usize = 0;
        while k < self.metrics.len()
            invariant
                k <= self.metrics@.len(),
                forall|j: int|
                    0 <= j < k ==> otherwise_named(#[trigger] &self.metrics@[j], name@),
            decreases self.metrics@.len() - k,
        {
            let id: MetricId = self.metrics[k].id();
            if text::same_text(id.name.as_str(), name.as_str()) {
                proof {
                    assert(named(&self.metrics@[k as int], name@));
                }
                return Some(k);
            }
            proof {
                assert(otherwise_named(&self.metrics@[k as int], name@));
            }
            k = k + 1;
        }
        None
    }

    fn resolve_gates<'a>(&'a self, request: &'a OptimizationRequest) -> (r: Result<
        Vec<Gate<'a, M>>,
        EngineError,
    >)
        ensures
            (match r {
                Ok(gates) => complete(*request) && resolved(
                    self.metrics@,
                    request.quality@,
                    gates@,
                ),
                Err(EngineError::InvalidRequest(message)) => refused(
                    self.metrics@,
                    *request,
                    message@,
                ),
                Err(_) => false,
            }),
    {
        if request.allowed_formats.len() == 0 {
            return Err(EngineError::InvalidRequest("no output formats allowed".to_string()));
        }
        if request.quality.len() == 0 {
            return Err(
                EngineError::InvalidRequest("at least one quality gate is required".to_string()),
            );
        }
        let mut gates: Vec<Gate<'a, M>> = Vec::new();
        let mut i: usize = 0;
        while i < request.quality.len()
            invariant
                complete(*request),
                i <= request.quality@.len(),
                gates@.len() == i,
                forall|j: int|
                    0 <= j < i ==> resolves(
                        self.metrics@,
                        #[trigger] request.quality@[j],
                        gates@[j],
                    ),
                forall|j: int|
                    0 <= j < i ==> known(self.metrics@, (#[trigger] request.quality@[j]).metric@),
            decreases request.quality@.len() - i,
        {
            let spec: &'a QualityGate = &request.quality[i];
            match self.metric_named(&spec.metric) {
                Some(k) => {
                    gates.push(Gate { metric: &self.metrics[k], spec });
                    proof {
                        assert(resolves(
                            self.metrics@,
                            request.quality@[i as int],
                            gates@[i as int],
                        ));
                    }
                },
                None => {
                    let mut message: String = "unknown metric `".to_string();
                    message.append(spec.metric.as_str());
                    message.append("`");
                    proof {
                        assert(unknown(self.metrics@, request.quality@[i as int].metric@));
                    }
                    return Err(EngineError::InvalidRequest(message));
                },
            }
            i = i + 1;
        }
        Ok(gates)
    }

    /// The smallest encoding of an image that passes every quality gate, among the allowed
    /// formats, or the original where that is a valid answer and no larger.
    ///
    /// Nothing is stated of the elapsed time, which is the machine's.
    pub fn optimize(&self, input: &[u8], request: &OptimizationRequest) -> (r: Result<
        OptimizationResult,
        EngineError,
    >)
        ensures
            !complete(*request) ==> r is Err && r->Err_0 is InvalidRequest,
            (match r {
                Ok(result) => complete(*request) && optimized(self, input, *request, result),
                Err(EngineError::InvalidRequest(message)) => refused(
                    self.metrics@,
                    *request,
                    message@,
                ),
                Err(EngineError::Pipeline(e)) => {
                    &&& complete(*request)
                    &&& all_known(self.metrics@, request.quality@)
                    &&& unprepared(&self.pipeline, input, *request, e)
                },
                Err(EngineError::Codec(_)) => false,
                Err(EngineError::NoAcceptableCandidate { formats }) => complete(*request)
                    && exhausted(self, input, *request, formats@),
            }),
    {
        let started = clock::now();
        let gates: Vec<Gate<'_, M>> = match self.resolve_gates(request) {
            Ok(gates) => gates,
            Err(e) => {
                return Err(e);
            },
        };

        proof {
            assert forall|i: int| 0 <= i < request.quality@.len() implies known(
                self.metrics@,
                (#[trigger] request.quality@[i]).metric@,
            ) by {
                assert(resolves(self.metrics@, request.quality@[i], gates@[i]));
            }
        }

        let source: DecodedSource = match self.pipeline.decode(input) {
            Ok(source) => source,
            Err(e) => {
                return Err(EngineError::Pipeline(e));
            },
        };
        let ghost decoded = source;
        let DecodedSource { image, format: source_format, has_strippable_metadata } = source;
        let has_unwanted_profile: bool = request.metadata == MetadataPolicy::StripAll
            && image.icc_profile().is_some();
        let source_dimensions: Dimensions = image.dimensions();
        let output_dimensions: Dimensions = request.dimensions.target(source_dimensions);
        let resized: bool = output_dimensions != source_dimensions;
        let reference: Image = if resized {
            match self.pipeline.resize(&image, output_dimensions) {
                Ok(reference) => reference,
                Err(e) => {
                    return Err(EngineError::Pipeline(e));
                },
            }
        } else {
            image
        };

        let mut reports: Vec<FormatReport> = Vec::new();
        let mut trace: Vec<Evaluation> = Vec::new();
        let mut best: Option<Winner> = None;
        let formats: Vec<ImageFormat> = dedup(&request.allowed_formats);
        let ghost mut trials: Seq<Trial> = Seq::empty();
        let ghost mut chosen: int = 0;
        let mut i: usize = 0;
        proof {
            assert(report::report_views(reports@) =~= reports_of(trials));
            assert(report::evaluation_views(trace@) =~= traces_of(trials));
        }
        while i < formats.len()
            invariant
                i <= formats@.len(),
                formats@ == distinct(request.allowed_formats@),
                trials.len() == i,
                forall|j: int|
                    0 <= j < i ==> tried(
                        self.codecs@,
                        gates@,
                        &reference,
                        *request,
                        formats@[j],
                        #[trigger] trials[j],
                    ),
                report::report_views(reports@) == reports_of(trials),
                report::evaluation_views(trace@) == traces_of(trials),
                (match best {
                    None => nothing_won(trials),
                    Some(w) => preferred(trials, chosen) && w == trials[chosen].winner->0,
                }),
            decreases formats@.len() - i,
        {
            // Smallest acceptable candidate wins; ties go to the higher quality level.
            let trial: Trial = self.try_format(formats[i], &reference, &gates, request);
            let ghost before = trials;
            proof {
                trials = trials.push(trial);
                assert(trials.drop_last() =~= before);
            }
            let ghost kept_trace = trace@;
            let ghost kept_reports = reports@;
            let Trial { report, trace: evaluations, winner } = trial;
            let mut evaluations: Vec<Evaluation> = evaluations;
            reports.push(report);
            trace.append(&mut evaluations);
            proof {
                assert(report::report_views(reports@) =~= report::report_views(kept_reports).push(
                    trial.report@,
                ));
                assert(reports_of(trials) =~= reports_of(before).push(trial.report@));
                assert(report::evaluation_views(trace@) =~= report::evaluation_views(kept_trace)
                    + report::evaluation_views(trial.trace@));
            }
            if let Some(w) = winner {
                let better: bool = match &best {
                    None => true,
                    Some(b) => w.evaluation.is_better_than(&b.evaluation),
                };
                proof {
                    assert forall|j: int| 0 <= j < before.len() implies #[trigger] trials[j]
                        == before[j] by {}
                    if better {
                        chosen = i as int;
                    }
                }
                if better {
                    best = Some(w);
                }
            }
            i = i + 1;
        }
        proof {
            assert(all_tried(self.codecs@, gates@, &reference, *request, trials));
            assert(prepared(&self.pipeline, input, *request, decoded, reference));
        }
        let winner: Winner = match best {
            Some(w) => w,
            None => {
                proof {
                    assert(exhausted(self, input, *request, reports@));
                }
                return Err(EngineError::NoAcceptableCandidate { formats: reports });
            },
        };

        // The original is itself a valid answer when nothing about it has to change.
        let keep: bool = keeps_original(
            resized,
            has_strippable_metadata,
            has_unwanted_profile,
            winner.evaluation.bytes,
            input.len() as u64,
            source_format,
            &request.allowed_formats,
        );
        let ghost won = winner;
        let (selection, output, alpha_flattened): (Selection, Vec<u8>, bool) = match source_format {
            Some(format) if keep => (Selection::KeptOriginal { format }, vstd::slice::slice_to_vec(input), false),
            _ => {
                let Winner { evaluation, bytes, alpha_flattened } = winner;
                (Selection::Encoded { best: evaluation }, bytes, alpha_flattened)
            },
        };
        let result = OptimizationResult {
            selection,
            source_bytes: input.len() as u64,
            output_bytes: output.len() as u64,
            source_dimensions,
            output_dimensions,
            alpha_flattened,
            formats: reports,
            trace,
            elapsed: clock::since(&started),
            output,
        };
        proof {
            assert(selected(input@, *request, decoded, trials, chosen, result));
            assert(optimized(self, input, *request, result));
        }
        Ok(result)
    }

    /// The position of the first codec for a format.
    fn codec_for(&self, format: ImageFormat) -> (r: Option<usize>)
        ensures
            (match r {
                Some(k) => first_for(self.codecs@, format, k as int),
                None => none_for(self.codecs@, format),
            }),
    {
        let mut k: usize = 0;
        while k < self.codecs.len()
            invariant
                k <= self.codecs@.len(),
                forall|j: int| 0 <= j < k ==> for_another(#[trigger] &self.codecs@[j], format),
            decreases self.codecs@.len() - k,
        {
            let found: ImageFormat = self.codecs[k].format();
            if found == format {
                return Some(k);
            }
            proof {
                assert(for_another(&self.codecs@[k as int], format));
            }
            k = k + 1;
        }
        None
    }

    /// Tries one format.
    fn try_format<'a>(
        &self,
        format: ImageFormat,
        reference: &Image,
        gates: &Vec<Gate<'a, M>>,
        request: &OptimizationRequest,
    ) -> (r: Trial)
        ensures
            tried(self.codecs@, gates@, reference, *request, format, r),
    {
        let k: usize = match self.codec_for(format) {
            Some(k) => k,
            None => {
                return Trial {
                    report: FormatReport {
                        format,
                        codec: None,
                        evaluations: 0,
                        outcome: FormatOutcome::Skipped {
                            reason: "no codec registered".to_string(),
                        },
                    },
                    trace: Vec::new(),
                    winner: None,
                };
            },
        };
        let codec: &C = &self.codecs[k];
        // Transparency must never disappear silently.
        if reference.has_transparency() {
            let capabilities: Capabilities = codec.capabilities();
            if !capabilities.alpha {
                match request.alpha {
                    AlphaPolicy::Preserve => {
                        let id: CodecId = codec.id();
                        let r = Trial {
                            report: FormatReport {
                                format,
                                codec: Some(id),
                                evaluations: 0,
                                outcome: FormatOutcome::Skipped {
                                    reason: "format cannot preserve transparency".to_string(),
                                },
                            },
                            trace: Vec::new(),
                            winner: None,
                        };
                        proof {
                            assert(skipped_for_alpha(codec, format, r));
                            assert(tried_with(codec, gates@, reference, *request, format, r));
                        }
                        return r;
                    },
                    AlphaPolicy::FlattenOnto { background } => {
                        let flattened: Image = reference.flatten(background);
                        let r: Trial = search_format(
                            codec,
                            format,
                            &flattened,
                            true,
                            gates,
                            request,
                        );
                        proof {
                            assert(tried_flattened(
                                codec,
                                gates@,
                                reference,
                                background,
                                *request,
                                format,
                                r,
                            ));
                            assert(tried_with(codec, gates@, reference, *request, format, r));
                        }
                        return r;
                    },
                }
            }
        }
        let r: Trial = search_format(codec, format, reference, false, gates, request);
        proof {
            assert(tried_with(codec, gates@, reference, *request, format, r));
        }
        r
    }
}

/// Searches one format on an image.
fn search_format<'a, C: Codec, M: Metric>(
    codec: &C,
    format: ImageFormat,
    image: &Image,
    alpha_flattened: bool,
    gates: &Vec<Gate<'a, M>>,
    request: &OptimizationRequest,
) -> (r: Trial)
    ensures
        tried_by_search(codec, gates@, image, alpha_flattened, *request, format, r),
{
    let mut state: FormatSearch<'_, C, M> = FormatSearch {
        codec,
        image,
        gates,
        request,
        samples: Vec::new(),
    };
    let outcome: Result<Option<u32>, String> = state.run();
    let ghost samples = state.samples@;
    let evaluations: u32 = state.samples.len() as u32;
    let trace: Vec<Evaluation> = if request.trace {
        evaluations_of(&state.samples)
    } else {
        Vec::new()
    };
    let ghost ran = outcome;
    let mut winner: Option<Winner> = None;
    let outcome: FormatOutcome = match outcome {
        Ok(Some(level)) => {
            let at: usize = position_of(&state.samples, level);
            let sample: Sample = state.samples.remove(at);
            let best: Evaluation = sample.evaluation.clone();
            winner = Some(Winner {
                evaluation: sample.evaluation,
                bytes: sample.bytes,
                alpha_flattened,
            });
            FormatOutcome::Found { best }
        },
        Ok(None) => FormatOutcome::NoAcceptableCandidate,
        Err(error) => FormatOutcome::Failed { error },
    };
    let id: CodecId = codec.id();
    let r = Trial {
        report: FormatReport { format, codec: Some(id), evaluations, outcome },
        trace,
        winner,
    };
    proof {
        assert(concluded(samples, ran, alpha_flattened, r));
        if !request.trace {
            assert(report::evaluation_views(r.trace@) =~= Seq::empty());
        }
        assert(search::searched(
            codec,
            image,
            gates@,
            request.metadata,
            request.budget,
            samples,
            ran,
        ));
    }
    r
}

/// The evaluations of samples.
fn evaluations_of(samples: &Vec<Sample>) -> (r: Vec<Evaluation>)
    ensures
        report::evaluation_views(r@) == sample_views(samples@),
{
    let mut out: Vec<Evaluation> = Vec::new();
    let mut i: usize = 0;
    while i < samples.len()
        invariant
            i <= samples@.len(),
            out@.len() == i,
            forall|j: int| 0 <= j < i ==> (#[trigger] out@[j])@ == samples@[j].evaluation@,
        decreases samples@.len() - i,
    {
        out.push(samples[i].evaluation.clone());
        i = i + 1;
    }
    proof {
        assert(report::evaluation_views(out@) =~= sample_views(samples@));
    }
    out
}

/// The position of the sample of a level.
fn position_of(samples: &Vec<Sample>, level: u32) -> (r: usize)
    requires
        exists|i: int|
            0 <= i < samples@.len() && (#[trigger] samples@[i]).evaluation.level == level,
    ensures
        r < samples@.len(),
        samples@[r as int].evaluation.level == level,
{
    let len: usize = samples.len();
    let mut i: usize = 0;
    while samples[i].evaluation.level != level
        invariant
            i < len,
            len == samples@.len(),
            forall|j: int| 0 <= j < i ==> (#[trigger] samples@[j]).evaluation.level != level,
            exists|j: int|
                0 <= j < samples@.len() && (#[trigger] samples@[j]).evaluation.level == level,
        decreases samples@.len() - i,
    {
        i = i + 1;
    }
    i
}

/// Every format that occurs is kept, exactly once.
pub proof fn lemma_distinct(formats: Seq<ImageFormat>)
    ensures
        distinct(formats).no_duplicates(),
        forall|f: ImageFormat| distinct(formats).contains(f) <==> formats.contains(f),
    decreases formats.len(),
{
    if formats.len() > 0 {
        let rest = formats.drop_last();
        lemma_distinct(rest);
        let before = distinct(rest);
        assert forall|f: ImageFormat| distinct(formats).contains(f) <==> formats.contains(f) by {
            if formats.contains(f) {
                let i = choose|i: int| 0 <= i < formats.len() && formats[i] == f;
                if i < formats.len() - 1 {
                    assert(rest[i] == f);
                    assert(rest.contains(f));
                    assert(before.contains(f));
                    let j = choose|j: int| 0 <= j < before.len() && before[j] == f;
                    assert(distinct(formats)[j] == f);
                } else if !before.contains(f) {
                    assert(distinct(formats)[before.len() as int] == f);
                }
            }
            if distinct(formats).contains(f) {
                let j = choose|j: int| 0 <= j < distinct(formats).len() && distinct(formats)[j] == f;
                if j < before.len() {
                    assert(before[j] == f);
                    assert(rest.contains(f));
                    let i = choose|i: int| 0 <= i < rest.len() && rest[i] == f;
                    assert(formats[i] == f);
                } else {
                    assert(formats[formats.len() - 1] == f);
                }
            }
        }
    }
}

/// Whether a codec may say of itself that it keeps transparency.
pub open spec fn keeps_alpha<C: Codec>(codec: &C, capabilities: Capabilities) -> bool {
    call_ensures(C::capabilities, (codec,), capabilities) && capabilities.alpha
}

/// Whether the first registered codec for a format may say of itself that it keeps transparency.
pub open spec fn alpha_kept<C: Codec>(codecs: Seq<C>, format: ImageFormat) -> bool {
    exists|k: int, capabilities: Capabilities| #[trigger]
        first_for(codecs, format, k) && #[trigger] keeps_alpha(&codecs[k], capabilities)
}

/// What holds of every trial of a format.
proof fn lemma_tried<'a, C: Codec, M: Metric>(
    codecs: Seq<C>,
    gates: Seq<Gate<'a, M>>,
    reference: &Image,
    request: OptimizationRequest,
    format: ImageFormat,
    t: Trial,
)
    requires
        tried(codecs, gates, reference, request, format, t),
    ensures
        t.report.format == format,
        t.report.evaluations <= request.budget.max_evaluations_per_format,
        (match t.winner {
            Some(w) => {
                &&& t.report.outcome@ == (FormatOutcomeView::Found { best: w.evaluation@ })
                &&& w.evaluation.accepted
                &&& w.evaluation.metrics@.len() == gates.len()
                &&& w.bytes@.len() == w.evaluation.bytes
                &&& search::passes(gates, w.evaluation.metrics@)
                &&& w.alpha_flattened ==> request.alpha is FlattenOnto
                &&& reference@.transparent() && !w.alpha_flattened ==> alpha_kept(codecs, format)
            },
            None => !(t.report.outcome@ is Found),
        }),
{
    if none_for(codecs, format) && skipped(format, None, "no codec registered"@, t) {
    } else {
        let k = choose|k: int| #[trigger]
            first_for(codecs, format, k) && tried_with(
                &codecs[k],
                gates,
                reference,
                request,
                format,
                t,
            );
        let codec = &codecs[k];
        if reference@.transparent() {
            let capabilities = choose|capabilities: Capabilities| #[trigger]
                call_ensures(C::capabilities, (codec,), capabilities) && if capabilities.alpha {
                    tried_by_search(codec, gates, reference, false, request, format, t)
                } else {
                    match request.alpha {
                        AlphaPolicy::Preserve => skipped_for_alpha(codec, format, t),
                        AlphaPolicy::FlattenOnto { background } => tried_flattened(
                            codec,
                            gates,
                            reference,
                            background,
                            request,
                            format,
                            t,
                        ),
                    }
                };
            if capabilities.alpha {
                assert(keeps_alpha(codec, capabilities));
                assert(first_for(codecs, format, k));
                lemma_tried_by_search(codec, gates, reference, false, request, format, t);
            } else {
                match request.alpha {
                    AlphaPolicy::Preserve => {},
                    AlphaPolicy::FlattenOnto { background } => {
                        let flattened = choose|flattened: Image|
                            flattened@ == reference@.flattened(background@)
                                && #[trigger] tried_by_search(
                                codec,
                                gates,
                                &flattened,
                                true,
                                request,
                                format,
                                t,
                            );
                        lemma_tried_by_search(codec, gates, &flattened, true, request, format, t);
                    },
                }
            }
        } else {
            lemma_tried_by_search(codec, gates, reference, false, request, format, t);
        }
    }
}

proof fn lemma_tried_by_search<'a, C: Codec, M: Metric>(
    codec: &C,
    gates: Seq<Gate<'a, M>>,
    image: &Image,
    alpha_flattened: bool,
    request: OptimizationRequest,
    format: ImageFormat,
    t: Trial,
)
    requires
        tried_by_search(codec, gates, image, alpha_flattened, request, format, t),
    ensures
        t.report.format == format,
        t.report.evaluations <= request.budget.max_evaluations_per_format,
        (match t.winner {
            Some(w) => {
                &&& t.report.outcome@ == (FormatOutcomeView::Found { best: w.evaluation@ })
                &&& w.evaluation.accepted
                &&& w.evaluation.metrics@.len() == gates.len()
                &&& w.bytes@.len() == w.evaluation.bytes
                &&& search::passes(gates, w.evaluation.metrics@)
                &&& w.alpha_flattened == alpha_flattened
            },
            None => !(t.report.outcome@ is Found),
        }),
{
    let (samples, r) = choose|samples: Seq<Sample>, r: Result<Option<u32>, String>| #[trigger]
        search::searched(codec, image, gates, request.metadata, request.budget, samples, r)
            && concluded(samples, r, alpha_flattened, t) && report::evaluation_views(t.trace@) == (
        if request.trace {
            sample_views(samples)
        } else {
            Seq::empty()
        });
    search::lemma_search_keeps_to_budget(
        codec,
        image,
        gates,
        request.metadata,
        request.budget,
        samples,
        r,
    );
    match r {
        Ok(Some(level)) => {
            let i = choose|i: int|
                0 <= i < samples.len() && (#[trigger] samples[i]).evaluation.level == level
                    && t.report.outcome@ == (FormatOutcomeView::Found {
                    best: samples[i].evaluation@,
                }) && won(samples[i], alpha_flattened, t.winner);
            search::lemma_search_returns_best(
                codec,
                image,
                gates,
                request.metadata,
                request.budget,
                samples,
                r,
                i,
            );
            assert(t.winner->0.evaluation@.metrics == samples[i].evaluation@.metrics);
        },
        _ => {},
    }
}

/// Every allowed format is reported once, in the order in which they are allowed, and none was
/// evaluated more often than the budget allows.
pub proof fn lemma_every_format_is_reported<P: ImagePipeline, C: Codec, M: Metric>(
    engine: &Engine<P, C, M>,
    input: &[u8],
    request: OptimizationRequest,
    r: OptimizationResult,
)
    requires
        optimized(engine, input, request, r),
    ensures
        r.formats@.len() == distinct(request.allowed_formats@).len(),
        forall|i: int|
            0 <= i < r.formats@.len() ==> (#[trigger] r.formats@[i]).format == distinct(
                request.allowed_formats@,
            )[i] && r.formats@[i].evaluations <= request.budget.max_evaluations_per_format,
{
    let (gates, source, reference, trials, w) = choose|
        gates: Seq<Gate<'_, M>>,
        source: DecodedSource,
        reference: Image,
        trials: Seq<Trial>,
        i: int,
    |
        {
            &&& resolved(engine.metrics@, request.quality@, gates)
            &&& #[trigger] prepared(&engine.pipeline, input, request, source, reference)
            &&& #[trigger] all_tried(engine.codecs@, gates, &reference, request, trials)
            &&& #[trigger] preferred(trials, i)
            &&& selected(input@, request, source, trials, i, r)
        };
    assert(report::report_views(r.formats@).len() == reports_of(trials).len());
    assert forall|i: int| 0 <= i < r.formats@.len() implies (#[trigger] r.formats@[i]).format
        == distinct(request.allowed_formats@)[i] && r.formats@[i].evaluations
        <= request.budget.max_evaluations_per_format by {
        assert(report::report_views(r.formats@)[i] == reports_of(trials)[i]);
        assert(r.formats@[i]@ == trials[i].report@);
        lemma_tried(
            engine.codecs@,
            gates,
            &reference,
            request,
            distinct(request.allowed_formats@)[i],
            trials[i],
        );
    }
}

/// What is encoded passed every gate, and no format's best candidate is preferred to it.
/// Transparency is given up only where the request allows it. The dimensions are those that the
/// request asks for.
pub proof fn lemma_encoded_choice<P: ImagePipeline, C: Codec, M: Metric>(
    engine: &Engine<P, C, M>,
    input: &[u8],
    request: OptimizationRequest,
    r: OptimizationResult,
)
    requires
        optimized(engine, input, request, r),
    ensures
        (match r.selection {
            Selection::Encoded { best } => {
                &&& best.accepted
                &&& best.metrics@.len() == request.quality@.len()
                &&& forall|k: int|
                    0 <= k < request.quality@.len() ==> (
                    #[trigger] best.metrics@[k]).direction.meets_spec(
                        best.metrics@[k].score,
                        request.quality@[k].threshold,
                    )
                &&& r.output@.len() == best.bytes
                &&& forall|i: int|
                    0 <= i < r.formats@.len() ==> (match (#[trigger] r.formats@[i]).outcome@ {
                        FormatOutcomeView::Found { best: other } => !other.precedes(best@),
                        _ => true,
                    })
            },
            Selection::KeptOriginal { format } => {
                &&& r.output@ == input@
                &&& r.output_dimensions == r.source_dimensions
                &&& request.allowed_formats@.contains(format)
            },
        }),
        r.alpha_flattened ==> request.alpha is FlattenOnto,
        r.output_dimensions == request.dimensions.target_spec(r.source_dimensions),
        r.source_bytes == input@.len(),
        r.output_bytes == r.output@.len(),
{
    let (gates, source, reference, trials, w) = choose|
        gates: Seq<Gate<'_, M>>,
        source: DecodedSource,
        reference: Image,
        trials: Seq<Trial>,
        i: int,
    |
        {
            &&& resolved(engine.metrics@, request.quality@, gates)
            &&& #[trigger] prepared(&engine.pipeline, input, request, source, reference)
            &&& #[trigger] all_tried(engine.codecs@, gates, &reference, request, trials)
            &&& #[trigger] preferred(trials, i)
            &&& selected(input@, request, source, trials, i, r)
        };
    assert forall|i: int| 0 <= i < trials.len() implies (match (
    #[trigger] trials[i]).report.outcome@ {
        FormatOutcomeView::Found { best: other } => !other.precedes(
            trials[w].winner->0.evaluation@,
        ),
        _ => true,
    }) by {
        lemma_tried(
            engine.codecs@,
            gates,
            &reference,
            request,
            distinct(request.allowed_formats@)[i],
            trials[i],
        );
    }
    lemma_tried(
        engine.codecs@,
        gates,
        &reference,
        request,
        distinct(request.allowed_formats@)[w],
        trials[w],
    );
    if let Selection::Encoded { best } = r.selection {
        let winner = trials[w].winner->0;
        assert(best@ == winner.evaluation@);
        assert(best@.metrics == winner.evaluation@.metrics);
        assert(report::report_views(r.formats@).len() == reports_of(trials).len());
        assert forall|k: int| 0 <= k < request.quality@.len() implies (
        #[trigger] best.metrics@[k]).direction.meets_spec(
            best.metrics@[k].score,
            request.quality@[k].threshold,
        ) by {
            assert(resolves(engine.metrics@, request.quality@[k], gates[k]));
            assert(winner.evaluation.metrics@[k] == best.metrics@[k]);
        }
        assert forall|i: int| 0 <= i < r.formats@.len() implies (match (
        #[trigger] r.formats@[i]).outcome@ {
            FormatOutcomeView::Found { best: other } => !other.precedes(best@),
            _ => true,
        }) by {
            assert(report::report_views(r.formats@)[i] == reports_of(trials)[i]);
            assert(r.formats@[i]@ == trials[i].report@);
        }
    }
}

/// Transparency never disappears silently: what is encoded of a transparent image is in a format
/// whose codec keeps transparency, or the result says that it was flattened, which only a request
/// that allows it leads to.
pub proof fn lemma_transparency_is_never_dropped_silently<P: ImagePipeline, C: Codec, M: Metric>(
    engine: &Engine<P, C, M>,
    input: &[u8],
    request: OptimizationRequest,
    r: OptimizationResult,
)
    requires
        optimized(engine, input, request, r),
    ensures
        r.alpha_flattened ==> request.alpha is FlattenOnto,
        r.selection matches Selection::Encoded { best } ==> exists|
            source: DecodedSource,
            reference: Image,
            i: int,
        |
            {
                &&& #[trigger] prepared(&engine.pipeline, input, request, source, reference)
                &&& 0 <= i < r.formats@.len()
                &&& (#[trigger] r.formats@[i]).outcome@ == (FormatOutcomeView::Found {
                    best: best@,
                })
                &&& reference@.transparent() && !r.alpha_flattened ==> alpha_kept(
                    engine.codecs@,
                    r.formats@[i].format,
                )
            },
{
    lemma_encoded_choice(engine, input, request, r);
    let (gates, source, reference, trials, w) = choose|
        gates: Seq<Gate<'_, M>>,
        source: DecodedSource,
        reference: Image,
        trials: Seq<Trial>,
        i: int,
    |
        {
            &&& resolved(engine.metrics@, request.quality@, gates)
            &&& #[trigger] prepared(&engine.pipeline, input, request, source, reference)
            &&& #[trigger] all_tried(engine.codecs@, gates, &reference, request, trials)
            &&& #[trigger] preferred(trials, i)
            &&& selected(input@, request, source, trials, i, r)
        };
    let format = distinct(request.allowed_formats@)[w];
    lemma_tried(engine.codecs@, gates, &reference, request, format, trials[w]);
    if let Selection::Encoded { best } = r.selection {
        assert(report::report_views(r.formats@).len() == reports_of(trials).len());
        assert(report::report_views(r.formats@)[w] == reports_of(trials)[w]);
        assert(r.formats@[w]@ == trials[w].report@);
        assert(prepared(&engine.pipeline, input, request, source, reference));
        assert(r.formats@[w].outcome@ == (FormatOutcomeView::Found { best: best@ }));
    }
}

/// Where the original is a valid answer (its format is allowed, its dimensions need not change and
/// it carries nothing to strip), the output is no larger than it.
pub proof fn lemma_never_larger_than_a_valid_original<P: ImagePipeline, C: Codec, M: Metric>(
    engine: &Engine<P, C, M>,
    input: &[u8],
    request: OptimizationRequest,
    r: OptimizationResult,
)
    requires
        optimized(engine, input, request, r),
    ensures
        exists|source: DecodedSource, reference: Image|
            {
                &&& #[trigger] prepared(&engine.pipeline, input, request, source, reference)
                &&& request.dimensions.target_spec(source.image@.dimensions)
                    == source.image@.dimensions && !source.has_strippable_metadata
                    && !strips_profile(request.metadata, source.image@) && source.format is Some && request.allowed_formats@.contains(
                    source.format->0,
                ) ==> r.output_bytes <= r.source_bytes
            },
{
    let (gates, source, reference, trials, w) = choose|
        gates: Seq<Gate<'_, M>>,
        source: DecodedSource,
        reference: Image,
        trials: Seq<Trial>,
        i: int,
    |
        {
            &&& resolved(engine.metrics@, request.quality@, gates)
            &&& #[trigger] prepared(&engine.pipeline, input, request, source, reference)
            &&& #[trigger] all_tried(engine.codecs@, gates, &reference, request, trials)
            &&& #[trigger] preferred(trials, i)
            &&& selected(input@, request, source, trials, i, r)
        };
    lemma_tried(
        engine.codecs@,
        gates,
        &reference,
        request,
        distinct(request.allowed_formats@)[w],
        trials[w],
    );
    assert(prepared(&engine.pipeline, input, request, source, reference));
}

/// A source with something to strip is never returned as it is: neither one with EXIF or XMP
/// data, nor one with an ICC profile where the policy strips all metadata.
pub proof fn lemma_stripped_source_is_encoded<P: ImagePipeline, C: Codec, M: Metric>(
    engine: &Engine<P, C, M>,
    input: &[u8],
    request: OptimizationRequest,
    r: OptimizationResult,
)
    requires
        optimized(engine, input, request, r),
    ensures
        exists|source: DecodedSource, reference: Image|
            {
                &&& #[trigger] prepared(&engine.pipeline, input, request, source, reference)
                &&& source.has_strippable_metadata || strips_profile(
                    request.metadata,
                    source.image@,
                ) ==> r.selection is Encoded
            },
{
    let (gates, source, reference, trials, w) = choose|
        gates: Seq<Gate<'_, M>>,
        source: DecodedSource,
        reference: Image,
        trials: Seq<Trial>,
        i: int,
    |
        {
            &&& resolved(engine.metrics@, request.quality@, gates)
            &&& #[trigger] prepared(&engine.pipeline, input, request, source, reference)
            &&& #[trigger] all_tried(engine.codecs@, gates, &reference, request, trials)
            &&& #[trigger] preferred(trials, i)
            &&& selected(input@, request, source, trials, i, r)
        };
    assert(prepared(&engine.pipeline, input, request, source, reference));
}

/// Where no format has an acceptable candidate, every allowed format is still reported once, in
/// the order in which they are allowed, and none of them as found.
pub proof fn lemma_failure_reports_every_format<P: ImagePipeline, C: Codec, M: Metric>(
    engine: &Engine<P, C, M>,
    input: &[u8],
    request: OptimizationRequest,
    formats: Seq<FormatReport>,
)
    requires
        exhausted(engine, input, request, formats),
    ensures
        formats.len() == distinct(request.allowed_formats@).len(),
        forall|i: int|
            0 <= i < formats.len() ==> (#[trigger] formats[i]).format == distinct(
                request.allowed_formats@,
            )[i] && !(formats[i].outcome is Found),
{
    let (gates, source, reference, trials) = choose|
        gates: Seq<Gate<'_, M>>,
        source: DecodedSource,
        reference: Image,
        trials: Seq<Trial>,
    |
        {
            &&& resolved(engine.metrics@, request.quality@, gates)
            &&& #[trigger] prepared(&engine.pipeline, input, request, source, reference)
            &&& #[trigger] all_tried(engine.codecs@, gates, &reference, request, trials)
            &&& nothing_won(trials)
            &&& report::report_views(formats) == reports_of(trials)
        };
    assert(report::report_views(formats).len() == reports_of(trials).len());
    assert forall|i: int| 0 <= i < formats.len() implies (#[trigger] formats[i]).format == distinct(
        request.allowed_formats@,
    )[i] && !(formats[i].outcome is Found) by {
        assert(report::report_views(formats)[i] == reports_of(trials)[i]);
        assert(formats[i]@ == trials[i].report@);
        lemma_tried(
            engine.codecs@,
            gates,
            &reference,
            request,
            distinct(request.allowed_formats@)[i],
            trials[i],
        );
    }
}

/// What a request is for. No format's best candidate is smaller than the output, so the original
/// is returned only where nothing smaller was found, byte for byte. What is encoded is a format's
/// best candidate; of those with as few bytes it is at the highest level.
pub proof fn lemma_nothing_smaller_was_found<P: ImagePipeline, C: Codec, M: Metric>(
    engine: &Engine<P, C, M>,
    input: &[u8],
    request: OptimizationRequest,
    r: OptimizationResult,
)
    requires
        optimized(engine, input, request, r),
    ensures
        r.source_bytes == input@.len(),
        r.output_bytes == r.output@.len(),
        forall|i: int|
            0 <= i < r.formats@.len() ==> ((#[trigger] r.formats@[i]).outcome matches
                FormatOutcome::Found { best } ==> r.output_bytes <= best.bytes),
        (match r.selection {
            Selection::KeptOriginal { .. } => {
                &&& r.output@ == input@
                &&& !r.alpha_flattened
                &&& forall|i: int|
                    0 <= i < r.formats@.len() ==> ((#[trigger] r.formats@[i]).outcome matches
                        FormatOutcome::Found { best } ==> best.bytes >= input@.len())
            },
            Selection::Encoded { best } => {
                &&& r.output_bytes == best.bytes
                &&& exists|i: int|
                    0 <= i < r.formats@.len() && ((#[trigger] r.formats@[i]).outcome matches
                        FormatOutcome::Found { best: found } && found@ == best@)
                &&& forall|i: int|
                    0 <= i < r.formats@.len() ==> ((#[trigger] r.formats@[i]).outcome matches
                        FormatOutcome::Found { best: other } ==> best.bytes < other.bytes
                        || (best.bytes == other.bytes && best.level >= other.level))
            },
        }),
{
    let (gates, source, reference, trials, w) = choose|
        gates: Seq<Gate<'_, M>>,
        source: DecodedSource,
        reference: Image,
        trials: Seq<Trial>,
        i: int,
    |
        {
            &&& resolved(engine.metrics@, request.quality@, gates)
            &&& #[trigger] prepared(&engine.pipeline, input, request, source, reference)
            &&& #[trigger] all_tried(engine.codecs@, gates, &reference, request, trials)
            &&& #[trigger] preferred(trials, i)
            &&& selected(input@, request, source, trials, i, r)
        };
    let winner = trials[w].winner->0.evaluation@;
    assert(report::report_views(r.formats@).len() == reports_of(trials).len());
    lemma_tried(
        engine.codecs@,
        gates,
        &reference,
        request,
        distinct(request.allowed_formats@)[w],
        trials[w],
    );
    assert forall|i: int| 0 <= i < r.formats@.len() implies ((
    #[trigger] r.formats@[i]).outcome matches FormatOutcome::Found { best: other } ==> winner.bytes
        < other.bytes || (winner.bytes == other.bytes && winner.level >= other.level)) by {
        assert(report::report_views(r.formats@)[i] == reports_of(trials)[i]);
        assert(r.formats@[i]@ == trials[i].report@);
        assert(r.formats@[i].outcome@ == trials[i].report.outcome@);
        lemma_tried(
            engine.codecs@,
            gates,
            &reference,
            request,
            distinct(request.allowed_formats@)[i],
            trials[i],
        );
        if let FormatOutcome::Found { best: other } = r.formats@[i].outcome {
            let theirs = trials[i].winner->0.evaluation@;
            assert(other@ == theirs);
            report::lemma_fewer_bytes_are_preferred(winner, theirs);
        }
    }
    assert(report::report_views(r.formats@)[w] == reports_of(trials)[w]);
    assert(r.formats@[w]@ == trials[w].report@);
    assert(r.formats@[w].outcome@ == trials[w].report.outcome@);
}

/// Every gate of the request holds for what is encoded: its measurements are those of the gates, in
/// their order, and each score is a number on the right side of its threshold.
pub proof fn lemma_every_gate_holds<P: ImagePipeline, C: Codec, M: Metric>(
    engine: &Engine<P, C, M>,
    input: &[u8],
    request: OptimizationRequest,
    r: OptimizationResult,
)
    requires
        optimized(engine, input, request, r),
    ensures
        r.selection matches Selection::Encoded { best } ==> {
            &&& best.accepted
            &&& best.metrics@.len() == request.quality@.len()
            &&& forall|k: int|
                0 <= k < request.quality@.len() ==> report::on_the_right_side(
                    (#[trigger] best.metrics@[k]).direction,
                    best.metrics@[k].score.bits,
                    request.quality@[k].threshold.bits,
                )
        },
{
    lemma_encoded_choice(engine, input, request, r);
    if let Selection::Encoded { best } = r.selection {
        assert forall|k: int| 0 <= k < request.quality@.len() implies report::on_the_right_side(
            (#[trigger] best.metrics@[k]).direction,
            best.metrics@[k].score.bits,
            request.quality@[k].threshold.bits,
        ) by {
            report::lemma_meets_is_the_order_of_numbers(
                best.metrics@[k].direction,
                best.metrics@[k].score,
                request.quality@[k].threshold,
            );
        }
    }
}

/// Whether bytes are what a codec for a format gave for a picture at a level.
pub open spec fn encoding_of<C: Codec>(
    codec: &C,
    format: ImageFormat,
    picture: &Image,
    level: u32,
    metadata: MetadataPolicy,
    encoded: Encoded,
) -> bool {
    &&& call_ensures(C::format, (codec,), format)
    &&& call_ensures(C::encode, (codec, picture, &EncodeSettings { level, metadata }), Ok(encoded))
}

/// What is encoded is the decoded source, resized first where the request asks for other
/// dimensions, as one of the registered codecs for an allowed format gave it at the reported level
/// and under the metadata policy of the request. Only where the result says so was the picture put
/// on a background before, which is that of the request.
pub proof fn lemma_output_is_an_encoding_of_the_source<P: ImagePipeline, C: Codec, M: Metric>(
    engine: &Engine<P, C, M>,
    input: &[u8],
    request: OptimizationRequest,
    r: OptimizationResult,
)
    requires
        optimized(engine, input, request, r),
    ensures
        r.selection matches Selection::Encoded { best } ==> exists|
            source: DecodedSource,
            reference: Image,
            picture: Image,
            k: int,
            encoded: Encoded,
        |
            {
                &&& #[trigger] call_ensures(P::decode, (&engine.pipeline, input), Ok(source))
                &&& r.source_dimensions == source.image@.dimensions
                &&& if r.output_dimensions == source.image@.dimensions {
                    reference == source.image
                } else {
                    call_ensures(
                        P::resize,
                        (&engine.pipeline, &source.image, r.output_dimensions),
                        Ok(reference),
                    )
                }
                &&& 0 <= k < engine.codecs@.len()
                &&& #[trigger] encoding_of(
                    &engine.codecs@[k],
                    best.format,
                    &picture,
                    best.level,
                    request.metadata,
                    encoded,
                )
                &&& r.output@ == encoded.bytes@
                &&& if r.alpha_flattened {
                    request.alpha matches AlphaPolicy::FlattenOnto { background } && picture@
                        == (#[trigger] reference@).flattened(background@)
                } else {
                    picture == reference
                }
            },
{
    let (gates, source, reference, trials, w) = choose|
        gates: Seq<Gate<'_, M>>,
        source: DecodedSource,
        reference: Image,
        trials: Seq<Trial>,
        i: int,
    |
        {
            &&& resolved(engine.metrics@, request.quality@, gates)
            &&& #[trigger] prepared(&engine.pipeline, input, request, source, reference)
            &&& #[trigger] all_tried(engine.codecs@, gates, &reference, request, trials)
            &&& #[trigger] preferred(trials, i)
            &&& selected(input@, request, source, trials, i, r)
        };
    let format = distinct(request.allowed_formats@)[w];
    if let Selection::Encoded { best } = r.selection {
        let t = trials[w];
        assert(tried(engine.codecs@, gates, &reference, request, format, t));
        let (k, picture) = lemma_won_by_search(
            engine.codecs@,
            gates,
            &reference,
            request,
            format,
            t,
        );
        let codec = &engine.codecs@[k];
        let (samples, ran) = choose|samples: Seq<Sample>, ran: Result<Option<u32>, String>|
            #[trigger] search::searched(
                codec,
                &picture,
                gates,
                request.metadata,
                request.budget,
                samples,
                ran,
            ) && concluded(samples, ran, t.winner->0.alpha_flattened, t)
                && report::evaluation_views(t.trace@) == (if request.trace {
                sample_views(samples)
            } else {
                Seq::empty()
            });
        let i = choose|i: int|
            0 <= i < samples.len() && (#[trigger] samples[i]).evaluation.level == ran->Ok_0->0
                && t.report.outcome@ == (FormatOutcomeView::Found { best: samples[i].evaluation@ })
                && won(samples[i], t.winner->0.alpha_flattened, t.winner);
        let encoded = search::lemma_sample_is_encoded(
            codec,
            &picture,
            gates,
            request.metadata,
            request.budget,
            samples,
            ran,
            i,
        );
        assert(best@ == samples[i].evaluation@);
        assert(encoding_of(
            codec,
            best.format,
            &picture,
            best.level,
            request.metadata,
            encoded,
        ));
        assert(call_ensures(P::decode, (&engine.pipeline, input), Ok(source)));
    }
}

/// A format that has a best candidate was searched with a registered codec, on the reference itself
/// or, where that is said, on the flattened one.
proof fn lemma_won_by_search<'a, C: Codec, M: Metric>(
    codecs: Seq<C>,
    gates: Seq<Gate<'a, M>>,
    reference: &Image,
    request: OptimizationRequest,
    format: ImageFormat,
    t: Trial,
) -> (r: (int, Image))
    requires
        tried(codecs, gates, reference, request, format, t),
        t.winner is Some,
    ensures
        0 <= r.0 < codecs.len(),
        tried_by_search(
            &codecs[r.0],
            gates,
            &r.1,
            t.winner->0.alpha_flattened,
            request,
            format,
            t,
        ),
        if t.winner->0.alpha_flattened {
            request.alpha matches AlphaPolicy::FlattenOnto { background } && r.1@
                == reference@.flattened(background@)
        } else {
            r.1 == *reference
        },
{
    let k = choose|k: int| #[trigger]
        first_for(codecs, format, k) && tried_with(
            &codecs[k],
            gates,
            reference,
            request,
            format,
            t,
        );
    let codec = &codecs[k];
    if reference@.transparent() {
        let capabilities = choose|capabilities: Capabilities| #[trigger]
            call_ensures(C::capabilities, (codec,), capabilities) && if capabilities.alpha {
                tried_by_search(codec, gates, reference, false, request, format, t)
            } else {
                match request.alpha {
                    AlphaPolicy::Preserve => skipped_for_alpha(codec, format, t),
                    AlphaPolicy::FlattenOnto { background } => tried_flattened(
                        codec,
                        gates,
                        reference,
                        background,
                        request,
                        format,
                        t,
                    ),
                }
            };
        if capabilities.alpha {
            lemma_tried_by_search(codec, gates, reference, false, request, format, t);
            (k, *reference)
        } else {
            let background = request.alpha->FlattenOnto_background;
            let flattened = choose|flattened: Image|
                flattened@ == reference@.flattened(background@) && #[trigger] tried_by_search(
                    codec,
                    gates,
                    &flattened,
                    true,
                    request,
                    format,
                    t,
                );
            lemma_tried_by_search(codec, gates, &flattened, true, request, format, t);
            (k, flattened)
        }
    } else {
        lemma_tried_by_search(codec, gates, reference, false, request, format, t);
        (k, *reference)
    }
}

/// Every allowed format is reported exactly once and no other, in the order in which they first
/// occur.
pub proof fn lemma_reports_are_the_allowed_formats<P: ImagePipeline, C: Codec, M: Metric>(
    engine: &Engine<P, C, M>,
    input: &[u8],
    request: OptimizationRequest,
    r: OptimizationResult,
)
    requires
        optimized(engine, input, request, r),
    ensures
        forall|f: ImageFormat| #[trigger]
            request.allowed_formats@.contains(f) <==> exists|i: int|
                0 <= i < r.formats@.len() && (#[trigger] r.formats@[i]).format == f,
        forall|i: int, j: int|
            0 <= i < j < r.formats@.len() ==> (#[trigger] r.formats@[i]).format != (
            #[trigger] r.formats@[j]).format && request.allowed_formats@.index_of_first(
                r.formats@[i].format,
            )->0 < request.allowed_formats@.index_of_first(r.formats@[j].format)->0,
        forall|i: int|
            0 <= i < r.formats@.len() ==> (#[trigger] r.formats@[i]).evaluations
                <= request.budget.max_evaluations_per_format,
{
    let formats = request.allowed_formats@;
    lemma_every_format_is_reported(engine, input, request, r);
    lemma_distinct(formats);
    let d = distinct(formats);
    assert forall|f: ImageFormat| #[trigger] formats.contains(f) implies exists|i: int|
        0 <= i < r.formats@.len() && (#[trigger] r.formats@[i]).format == f by {
        assert(d.contains(f));
        let i = choose|i: int| 0 <= i < d.len() && d[i] == f;
        assert(r.formats@[i].format == f);
    }
    assert forall|f: ImageFormat|
        (exists|i: int| 0 <= i < r.formats@.len() && (#[trigger] r.formats@[i]).format == f)
            implies #[trigger] formats.contains(f) by {
        let i = choose|i: int| 0 <= i < r.formats@.len() && (#[trigger] r.formats@[i]).format == f;
        assert(d[i] == f);
        assert(d.contains(f));
    }
    assert forall|i: int, j: int| 0 <= i < j < r.formats@.len() implies (
    #[trigger] r.formats@[i]).format != (#[trigger] r.formats@[j]).format
        && formats.index_of_first(r.formats@[i].format)->0 < formats.index_of_first(
        r.formats@[j].format,
    )->0 by {
        assert(d[i] != d[j]);
        lemma_distinct_keeps_order(formats, i, j);
    }
}

/// Formats stay in the order in which they first occur.
proof fn lemma_distinct_keeps_order(formats: Seq<ImageFormat>, i: int, j: int)
    requires
        0 <= i < j < distinct(formats).len(),
    ensures
        formats.index_of_first(distinct(formats)[i])->0 < formats.index_of_first(
            distinct(formats)[j],
        )->0,
    decreases formats.len(),
{
    let d = distinct(formats);
    lemma_distinct(formats);
    assert(d.contains(d[i]) && d.contains(d[j]));
    assert(d[i] != d[j]);
    let rest = formats.drop_last();
    let before = distinct(rest);
    lemma_distinct(rest);
    formats.index_of_first_ensures(d[i]);
    formats.index_of_first_ensures(d[j]);
    if j < before.len() {
        lemma_distinct_keeps_order(rest, i, j);
        assert(before.contains(d[i]) && before.contains(d[j]));
        rest.index_of_first_ensures(d[i]);
        rest.index_of_first_ensures(d[j]);
        let (a, b) = (rest.index_of_first(d[i])->0, rest.index_of_first(d[j])->0);
        assert(formats[a] == d[i] && formats[b] == d[j]);
        let (x, y) = (formats.index_of_first(d[i])->0, formats.index_of_first(d[j])->0);
        assert(x <= a);
        assert(y <= b);
        assert(rest[x] == d[i]);
        assert(rest[y] == d[j]);
        assert(a <= x);
        assert(b <= y);
    } else {
        assert(before.contains(before[i]));
        assert(rest.contains(d[i]));
        let a = choose|a: int| 0 <= a < rest.len() && rest[a] == d[i];
        assert(formats[a] == d[i]);
        let (x, y) = (formats.index_of_first(d[i])->0, formats.index_of_first(d[j])->0);
        assert(x <= a);
        if y < rest.len() {
            assert(rest[y] == d[j]);
            assert(rest.contains(d[j]));
            assert(before.contains(d[j]));
        }
    }
}

/// The original is returned only where it is what was asked for: in a format that is allowed, at
/// the dimensions that it has, without EXIF or XMP data, and without a profile that has to go.
pub proof fn lemma_kept_original_is_valid<P: ImagePipeline, C: Codec, M: Metric>(
    engine: &Engine<P, C, M>,
    input: &[u8],
    request: OptimizationRequest,
    r: OptimizationResult,
)
    requires
        optimized(engine, input, request, r),
    ensures
        r.selection matches Selection::KeptOriginal { format } ==> exists|source: DecodedSource|
            {
                &&& #[trigger] call_ensures(P::decode, (&engine.pipeline, input), Ok(source))
                &&& source.format == Some(format)
                &&& request.allowed_formats@.contains(format)
                &&& !source.has_strippable_metadata
                &&& request.metadata is KeepIccOnly || source.image@.icc_profile is None
                &&& r.output_dimensions == source.image@.dimensions
                &&& r.source_dimensions == source.image@.dimensions
            },
{
    let (gates, source, reference, trials, w) = choose|
        gates: Seq<Gate<'_, M>>,
        source: DecodedSource,
        reference: Image,
        trials: Seq<Trial>,
        i: int,
    |
        {
            &&& resolved(engine.metrics@, request.quality@, gates)
            &&& #[trigger] prepared(&engine.pipeline, input, request, source, reference)
            &&& #[trigger] all_tried(engine.codecs@, gates, &reference, request, trials)
            &&& #[trigger] preferred(trials, i)
            &&& selected(input@, request, source, trials, i, r)
        };
    assert(call_ensures(P::decode, (&engine.pipeline, input), Ok(source)));
}

/// Where nothing about the source has to change, it is returned unless something smaller was found.
pub proof fn lemma_valid_original_yields_only_to_less<P: ImagePipeline, C: Codec, M: Metric>(
    engine: &Engine<P, C, M>,
    input: &[u8],
    request: OptimizationRequest,
    r: OptimizationResult,
)
    requires
        optimized(engine, input, request, r),
    ensures
        exists|source: DecodedSource|
            {
                &&& #[trigger] call_ensures(P::decode, (&engine.pipeline, input), Ok(source))
                &&& r.output_dimensions == source.image@.dimensions && source.format is Some
                    && request.allowed_formats@.contains(source.format->0)
                    && !source.has_strippable_metadata && (request.metadata is KeepIccOnly
                    || source.image@.icc_profile is None) ==> (r.selection is KeptOriginal
                    <==> r.output_bytes == r.source_bytes)
            },
{
    let (gates, source, reference, trials, w) = choose|
        gates: Seq<Gate<'_, M>>,
        source: DecodedSource,
        reference: Image,
        trials: Seq<Trial>,
        i: int,
    |
        {
            &&& resolved(engine.metrics@, request.quality@, gates)
            &&& #[trigger] prepared(&engine.pipeline, input, request, source, reference)
            &&& #[trigger] all_tried(engine.codecs@, gates, &reference, request, trials)
            &&& #[trigger] preferred(trials, i)
            &&& selected(input@, request, source, trials, i, r)
        };
    lemma_tried(
        engine.codecs@,
        gates,
        &reference,
        request,
        distinct(request.allowed_formats@)[w],
        trials[w],
    );
    assert(call_ensures(P::decode, (&engine.pipeline, input), Ok(source)));
}

/// Whether a registered metric that may bear a name gave a measurement.
pub open spec fn measured_by_name<M: Metric>(
    metrics: Seq<M>,
    name: Seq<char>,
    picture: &Image,
    decoded: &Image,
    result: MetricResult,
) -> bool {
    exists|m: int, id: MetricId|
        {
            &&& 0 <= m < metrics.len()
            &&& #[trigger] call_ensures(M::id, (&metrics[m],), id)
            &&& id.name@ == name
            &&& call_ensures(M::measure, (&metrics[m], picture, decoded), Ok(result))
        }
}

/// Whether measurements are those of the metrics that some gates name, one each.
pub open spec fn measured_by_names<M: Metric>(
    metrics: Seq<M>,
    quality: Seq<QualityGate>,
    picture: &Image,
    decoded: &Image,
    results: Seq<MetricResult>,
) -> bool {
    forall|g: int|
        0 <= g < quality.len() ==> #[trigger] measured_by_name(
            metrics,
            quality[g].metric@,
            picture,
            decoded,
            results[g],
        )
}

/// Each gate is measured with the metric that it names: the measurements of what is encoded compare
/// one decoded picture with the picture that was encoded.
pub proof fn lemma_gates_are_measured_by_their_metrics<P: ImagePipeline, C: Codec, M: Metric>(
    engine: &Engine<P, C, M>,
    input: &[u8],
    request: OptimizationRequest,
    r: OptimizationResult,
)
    requires
        optimized(engine, input, request, r),
    ensures
        r.selection matches Selection::Encoded { best } ==> exists|
            picture: Image,
            k: int,
            encoded: Encoded,
            stream: &[u8],
            decoded: Image,
        |
            {
                &&& 0 <= k < engine.codecs@.len()
                &&& #[trigger] encoding_of(
                    &engine.codecs@[k],
                    best.format,
                    &picture,
                    best.level,
                    request.metadata,
                    encoded,
                )
                &&& #[trigger] call_ensures(
                    C::decode,
                    (&engine.codecs@[k], stream),
                    Ok(decoded),
                )
                &&& stream@ == r.output@
                &&& encoded.bytes@ == r.output@
                &&& measured_by_names(
                    engine.metrics@,
                    request.quality@,
                    &picture,
                    &decoded,
                    best.metrics@,
                )
            },
{
    let (gates, source, reference, trials, w) = choose|
        gates: Seq<Gate<'_, M>>,
        source: DecodedSource,
        reference: Image,
        trials: Seq<Trial>,
        i: int,
    |
        {
            &&& resolved(engine.metrics@, request.quality@, gates)
            &&& #[trigger] prepared(&engine.pipeline, input, request, source, reference)
            &&& #[trigger] all_tried(engine.codecs@, gates, &reference, request, trials)
            &&& #[trigger] preferred(trials, i)
            &&& selected(input@, request, source, trials, i, r)
        };
    let format = distinct(request.allowed_formats@)[w];
    if let Selection::Encoded { best } = r.selection {
        let t = trials[w];
        assert(tried(engine.codecs@, gates, &reference, request, format, t));
        let (k, picture) = lemma_won_by_search(
            engine.codecs@,
            gates,
            &reference,
            request,
            format,
            t,
        );
        let codec = &engine.codecs@[k];
        let (samples, ran) = choose|samples: Seq<Sample>, ran: Result<Option<u32>, String>|
            #[trigger] search::searched(
                codec,
                &picture,
                gates,
                request.metadata,
                request.budget,
                samples,
                ran,
            ) && concluded(samples, ran, t.winner->0.alpha_flattened, t)
                && report::evaluation_views(t.trace@) == (if request.trace {
                sample_views(samples)
            } else {
                Seq::empty()
            });
        let i = choose|i: int|
            0 <= i < samples.len() && (#[trigger] samples[i]).evaluation.level == ran->Ok_0->0
                && t.report.outcome@ == (FormatOutcomeView::Found { best: samples[i].evaluation@ })
                && won(samples[i], t.winner->0.alpha_flattened, t.winner);
        let (stream, decoded) = search::lemma_sample_is_measured(
            codec,
            &picture,
            gates,
            request.metadata,
            request.budget,
            samples,
            ran,
            i,
        );
        assert(best@ == samples[i].evaluation@);
        assert(best@.metrics == samples[i].evaluation@.metrics);
        assert forall|g: int| 0 <= g < request.quality@.len() implies #[trigger] measured_by_name(
            engine.metrics@,
            request.quality@[g].metric@,
            &picture,
            &decoded,
            best.metrics@[g],
        ) by {
            assert(resolves(engine.metrics@, request.quality@[g], gates[g]));
            let m = choose|m: int|
                first_named(engine.metrics@, request.quality@[g].metric@, m)
                    && *gates[g].metric == engine.metrics@[m];
            let id = choose|id: MetricId| #[trigger]
                call_ensures(M::id, (&engine.metrics@[m],), id) && id.name@
                    == request.quality@[g].metric@;
            assert(call_ensures(M::id, (&engine.metrics@[m],), id));
            assert(samples[i].evaluation.metrics@[g] == best.metrics@[g]);
        }
        assert(measured_by_names(
            engine.metrics@,
            request.quality@,
            &picture,
            &decoded,
            best.metrics@,
        ));
        let encoded = search::lemma_sample_is_encoded(
            codec,
            &picture,
            gates,
            request.metadata,
            request.budget,
            samples,
            ran,
            i,
        );
        assert(encoding_of(
            codec,
            best.format,
            &picture,
            best.level,
            request.metadata,
            encoded,
        ));
        assert(call_ensures(C::decode, (&engine.codecs@[k], stream), Ok(decoded)));
    }
}

/// Every result of a call is one that the laws on results hold of, and there is none for a request
/// that allows no format, asks for no quality or names a metric that is not there.
pub proof fn lemma_calls_optimize<P: ImagePipeline, C: Codec, M: Metric>(
    engine: &Engine<P, C, M>,
    input: &[u8],
    request: &OptimizationRequest,
    r: Result<OptimizationResult, EngineError>,
)
    requires
        call_ensures(Engine::<P, C, M>::optimize, (engine, input, request), r),
    ensures
        r matches Ok(result) ==> optimized(engine, input, *request, result),
        request.allowed_formats@.len() == 0 || request.quality@.len() == 0 ==> r is Err
            && r->Err_0 is InvalidRequest,
        r matches Err(EngineError::NoAcceptableCandidate { formats }) ==> exhausted(
            engine,
            input,
            *request,
            formats@,
        ),
        r is Err ==> !(r->Err_0 is Codec),
{
}

/// Whether a codec may say that it is for another format.
pub open spec fn says_another<C: Codec>(codec: &C, format: ImageFormat) -> bool {
    exists|f: ImageFormat| f != format && #[trigger] call_ensures(C::format, (codec,), f)
}

/// Whether a codec is for a format, and every codec registered before it may be for another.
pub open spec fn registered_first<C: Codec>(codecs: Seq<C>, format: ImageFormat, k: int) -> bool {
    &&& 0 <= k < codecs.len()
    &&& call_ensures(C::format, (&codecs[k],), format)
    &&& forall|j: int| 0 <= j < k ==> says_another(#[trigger] &codecs[j], format)
}

/// Whether a codec cannot encode alpha.
pub open spec fn loses_alpha<C: Codec>(codec: &C) -> bool {
    exists|c: Capabilities| !c.alpha && #[trigger] call_ensures(C::capabilities, (codec,), c)
}

/// Whether a report is on what the codec that was registered first for its format did: it is left out
/// only to keep the transparency of the picture, and flattened only where that is allowed.
pub open spec fn handled<C: Codec>(
    codecs: Seq<C>,
    alpha: AlphaPolicy,
    picture: ImageView,
    report: FormatReportView,
    flattened: bool,
    k: int,
) -> bool {
    &&& registered_first(codecs, report.format, k)
    &&& report.codec matches Some(id) && call_ensures(C::id, (&codecs[k],), id)
    &&& report.outcome is Skipped ==> picture.transparent() && loses_alpha(&codecs[k])
        && alpha is Preserve && report.evaluations == 0
    &&& flattened ==> picture.transparent() && loses_alpha(&codecs[k]) && alpha is FlattenOnto
}

/// Whether a report is on a format that no codec is for.
pub open spec fn unhandled<C: Codec>(codecs: Seq<C>, report: FormatReportView) -> bool {
    &&& report.codec is None
    &&& report.outcome is Skipped
    &&& report.evaluations == 0
    &&& forall|j: int|
        0 <= j < codecs.len() ==> says_another(#[trigger] &codecs[j], report.format)
}

/// Whether a report is on what was done for its format.
pub open spec fn report_handled<C: Codec>(
    codecs: Seq<C>,
    alpha: AlphaPolicy,
    picture: ImageView,
    report: FormatReportView,
    flattened: bool,
) -> bool {
    ||| !flattened && unhandled(codecs, report)
    ||| exists|k: int| #[trigger] handled(codecs, alpha, picture, report, flattened, k)
}

proof fn lemma_handled<'a, C: Codec, M: Metric>(
    codecs: Seq<C>,
    gates: Seq<Gate<'a, M>>,
    reference: &Image,
    request: OptimizationRequest,
    format: ImageFormat,
    t: Trial,
)
    requires
        tried(codecs, gates, reference, request, format, t),
    ensures
        report_handled(
            codecs,
            request.alpha,
            reference@,
            t.report@,
            t.winner is Some && t.winner->0.alpha_flattened,
        ),
        request.trace ==> t.trace@.len() == t.report.evaluations,
        !request.trace ==> t.trace@.len() == 0,
        request.trace && t.winner is Some ==> report::evaluation_views(t.trace@).contains(
            t.winner->0.evaluation@,
        ),
{
    let flat = t.winner is Some && t.winner->0.alpha_flattened;
    if none_for(codecs, format) && skipped(format, None, "no codec registered"@, t) {
        assert(t.report.outcome@ is Skipped);
        assert forall|j: int| 0 <= j < codecs.len() implies says_another(
            #[trigger] &codecs[j],
            format,
        ) by {
            assert(for_another(&codecs[j], format));
        }
        assert(unhandled(codecs, t.report@));
    } else {
        let k = choose|k: int| #[trigger]
            first_for(codecs, format, k) && tried_with(
                &codecs[k],
                gates,
                reference,
                request,
                format,
                t,
            );
        let codec = &codecs[k];
        assert forall|j: int| 0 <= j < k implies says_another(#[trigger] &codecs[j], format) by {
            assert(for_another(&codecs[j], format));
        }
        assert(registered_first(codecs, format, k));
        if reference@.transparent() {
            let capabilities = choose|capabilities: Capabilities| #[trigger]
                call_ensures(C::capabilities, (codec,), capabilities) && if capabilities.alpha {
                    tried_by_search(codec, gates, reference, false, request, format, t)
                } else {
                    match request.alpha {
                        AlphaPolicy::Preserve => skipped_for_alpha(codec, format, t),
                        AlphaPolicy::FlattenOnto { background } => tried_flattened(
                            codec,
                            gates,
                            reference,
                            background,
                            request,
                            format,
                            t,
                        ),
                    }
                };
            if capabilities.alpha {
                lemma_searched_trial(codec, gates, reference, false, request, format, t);
            } else {
                assert(loses_alpha(codec));
                match request.alpha {
                    AlphaPolicy::Preserve => {
                        let id = choose|id: CodecId| #[trigger]
                            call_ensures(C::id, (codec,), id) && skipped(
                                format,
                                Some(id),
                                "format cannot preserve transparency"@,
                                t,
                            );
                        assert(t.report@.codec == Some(id));
                    },
                    AlphaPolicy::FlattenOnto { background } => {
                        let flattened = choose|flattened: Image|
                            flattened@ == reference@.flattened(background@)
                                && #[trigger] tried_by_search(
                                codec,
                                gates,
                                &flattened,
                                true,
                                request,
                                format,
                                t,
                            );
                        lemma_searched_trial(codec, gates, &flattened, true, request, format, t);
                    },
                }
            }
        } else {
            lemma_searched_trial(codec, gates, reference, false, request, format, t);
        }
        assert(handled(codecs, request.alpha, reference@, t.report@, flat, k));
    }
}

proof fn lemma_searched_trial<'a, C: Codec, M: Metric>(
    codec: &C,
    gates: Seq<Gate<'a, M>>,
    image: &Image,
    alpha_flattened: bool,
    request: OptimizationRequest,
    format: ImageFormat,
    t: Trial,
)
    requires
        tried_by_search(codec, gates, image, alpha_flattened, request, format, t),
    ensures
        !(t.report.outcome is Skipped),
        t.winner matches Some(w) ==> w.alpha_flattened == alpha_flattened,
        request.trace ==> t.trace@.len() == t.report.evaluations,
        !request.trace ==> t.trace@.len() == 0,
        request.trace && t.winner is Some ==> report::evaluation_views(t.trace@).contains(
            t.winner->0.evaluation@,
        ),
{
    let (samples, r) = choose|samples: Seq<Sample>, r: Result<Option<u32>, String>| #[trigger]
        search::searched(codec, image, gates, request.metadata, request.budget, samples, r)
            && concluded(samples, r, alpha_flattened, t) && report::evaluation_views(t.trace@) == (
        if request.trace {
            sample_views(samples)
        } else {
            Seq::empty()
        });
    assert(report::evaluation_views(t.trace@).len() == t.trace@.len());
    assert(sample_views(samples).len() == samples.len());
    if let Ok(Some(level)) = r {
        let i = choose|i: int|
            0 <= i < samples.len() && (#[trigger] samples[i]).evaluation.level == level
                && t.report.outcome@ == (FormatOutcomeView::Found {
                best: samples[i].evaluation@,
            }) && won(samples[i], alpha_flattened, t.winner);
        assert(sample_views(samples)[i] == samples[i].evaluation@);
        assert(t.report.outcome@ is Found);
    }
}

/// How many candidates reports say were evaluated.
pub open spec fn evaluations_in(reports: Seq<FormatReport>) -> nat
    decreases reports.len(),
{
    if reports.len() == 0 {
        0
    } else {
        evaluations_in(reports.drop_last()) + reports.last().evaluations as nat
    }
}

proof fn lemma_traces(trials: Seq<Trial>, reports: Seq<FormatReport>, trace: bool)
    requires
        reports.len() == trials.len(),
        forall|i: int|
            0 <= i < trials.len() ==> (#[trigger] reports[i]).evaluations
                == trials[i].report.evaluations,
        forall|i: int|
            0 <= i < trials.len() ==> (#[trigger] trials[i]).trace@.len() == (if trace {
                trials[i].report.evaluations as nat
            } else {
                0
            }),
    ensures
        traces_of(trials).len() == (if trace {
            evaluations_in(reports)
        } else {
            0
        }),
        forall|i: int, e: EvaluationView|
            0 <= i < trials.len() && #[trigger] report::evaluation_views(
                (#[trigger] trials[i]).trace@,
            ).contains(e) ==> traces_of(trials).contains(e),
    decreases trials.len(),
{
    if trials.len() > 0 {
        let (front, less) = (trials.drop_last(), reports.drop_last());
        assert forall|i: int| 0 <= i < front.len() implies (#[trigger] less[i]).evaluations
            == front[i].report.evaluations by {
            assert(less[i] == reports[i]);
        }
        assert forall|i: int| 0 <= i < front.len() implies (#[trigger] front[i]).trace@.len() == (
        if trace {
            front[i].report.evaluations as nat
        } else {
            0
        }) by {
            assert(front[i] == trials[i]);
        }
        lemma_traces(front, less, trace);
        let n = trials.len() - 1;
        assert(trials[n] == trials.last() && reports[n] == reports.last());
        let before = traces_of(front);
        let more = report::evaluation_views(trials.last().trace@);
        assert(more.len() == trials.last().trace@.len());
        let all = traces_of(trials);
        assert forall|i: int, e: EvaluationView|
            0 <= i < trials.len() && #[trigger] report::evaluation_views(
                (#[trigger] trials[i]).trace@,
            ).contains(e) implies all.contains(e) by {
            if i < n {
                assert(front[i] == trials[i]);
                assert(report::evaluation_views(front[i].trace@).contains(e));
                let k = choose|k: int| 0 <= k < before.len() && before[k] == e;
                assert(all[k] == e);
            } else {
                let k = choose|k: int| 0 <= k < more.len() && more[k] == e;
                assert(all[before.len() + k] == e);
            }
        }
    }
}

/// Whether every report is on what was done for its format.
pub open spec fn formats_handled<C: Codec>(
    codecs: Seq<C>,
    alpha: AlphaPolicy,
    picture: ImageView,
    formats: Seq<FormatReport>,
) -> bool {
    forall|i: int|
        0 <= i < formats.len() ==> report_handled(
            codecs,
            alpha,
            picture,
            (#[trigger] formats[i])@,
            false,
        )
}

/// Whether the chosen candidate is one for which the picture had to be flattened.
pub open spec fn flattened_for_a_reason<C: Codec>(
    codecs: Seq<C>,
    alpha: AlphaPolicy,
    picture: ImageView,
    r: OptimizationResult,
) -> bool {
    exists|w: int, k: int|
        0 <= w < r.formats@.len() && #[trigger] handled(
            codecs,
            alpha,
            picture,
            r.formats@[w]@,
            true,
            k,
        ) && (r.selection matches Selection::Encoded { best } && r.formats@[w].outcome@ == (
        FormatOutcomeView::Found { best: best@ }))
}

/// Every format is handled by the codec that was registered first for it; it is left out only where
/// there is none or where that one would lose transparency that must stay. Flattening is the last
/// resort: only a transparent picture is flattened, and only for a codec that cannot encode alpha.
pub proof fn lemma_formats_are_left_out_only_for_a_reason<
    P: ImagePipeline,
    C: Codec,
    M: Metric,
>(
    engine: &Engine<P, C, M>,
    input: &[u8],
    request: OptimizationRequest,
    r: OptimizationResult,
)
    requires
        optimized(engine, input, request, r),
    ensures
        exists|source: DecodedSource, picture: Image| #[trigger]
            prepared(&engine.pipeline, input, request, source, picture) && formats_handled(
                engine.codecs@,
                request.alpha,
                picture@,
                r.formats@,
            ) && (r.alpha_flattened ==> flattened_for_a_reason(
                engine.codecs@,
                request.alpha,
                picture@,
                r,
            )),
{
    let (gates, source, reference, trials, w) = choose|
        gates: Seq<Gate<'_, M>>,
        source: DecodedSource,
        reference: Image,
        trials: Seq<Trial>,
        i: int,
    |
        {
            &&& resolved(engine.metrics@, request.quality@, gates)
            &&& #[trigger] prepared(&engine.pipeline, input, request, source, reference)
            &&& #[trigger] all_tried(engine.codecs@, gates, &reference, request, trials)
            &&& #[trigger] preferred(trials, i)
            &&& selected(input@, request, source, trials, i, r)
        };
    assert(report::report_views(r.formats@).len() == reports_of(trials).len());
    assert forall|i: int| 0 <= i < r.formats@.len() implies report_handled(
        engine.codecs@,
        request.alpha,
        reference@,
        (#[trigger] r.formats@[i])@,
        false,
    ) by {
        assert(report::report_views(r.formats@)[i] == reports_of(trials)[i]);
        assert(r.formats@[i]@ == trials[i].report@);
        let format = distinct(request.allowed_formats@)[i];
        lemma_handled(engine.codecs@, gates, &reference, request, format, trials[i]);
        let flat = trials[i].winner is Some && trials[i].winner->0.alpha_flattened;
        if flat {
            let k = choose|k: int| #[trigger]
                handled(engine.codecs@, request.alpha, reference@, trials[i].report@, flat, k);
            assert(handled(
                engine.codecs@,
                request.alpha,
                reference@,
                r.formats@[i]@,
                false,
                k,
            ));
        }
    }
    assert(formats_handled(engine.codecs@, request.alpha, reference@, r.formats@));
    if r.alpha_flattened {
        assert(report::report_views(r.formats@)[w] == reports_of(trials)[w]);
        assert(r.formats@[w]@ == trials[w].report@);
        let format = distinct(request.allowed_formats@)[w];
        lemma_handled(engine.codecs@, gates, &reference, request, format, trials[w]);
        lemma_tried(engine.codecs@, gates, &reference, request, format, trials[w]);
        let k = choose|k: int| #[trigger]
            handled(engine.codecs@, request.alpha, reference@, trials[w].report@, true, k);
        assert(handled(engine.codecs@, request.alpha, reference@, r.formats@[w]@, true, k));
        assert(r.formats@[w].outcome@ == trials[w].report@.outcome);
        assert(flattened_for_a_reason(engine.codecs@, request.alpha, reference@, r));
    }
}

/// Of formats whose best candidates are as small and at as high a level, the one that is reported
/// first is taken.
pub proof fn lemma_first_of_equals_is_taken<P: ImagePipeline, C: Codec, M: Metric>(
    engine: &Engine<P, C, M>,
    input: &[u8],
    request: OptimizationRequest,
    r: OptimizationResult,
)
    requires
        optimized(engine, input, request, r),
    ensures
        r.selection matches Selection::Encoded { best } ==> exists|w: int|
            0 <= w < r.formats@.len() && (#[trigger] r.formats@[w]).outcome@ == (
            FormatOutcomeView::Found { best: best@ }) && forall|i: int|
                0 <= i < w ==> ((#[trigger] r.formats@[i]).outcome matches FormatOutcome::Found {
                    best: other,
                } ==> best.bytes < other.bytes || (best.bytes == other.bytes && best.level
                    > other.level)),
{
    let (gates, source, reference, trials, w) = choose|
        gates: Seq<Gate<'_, M>>,
        source: DecodedSource,
        reference: Image,
        trials: Seq<Trial>,
        i: int,
    |
        {
            &&& resolved(engine.metrics@, request.quality@, gates)
            &&& #[trigger] prepared(&engine.pipeline, input, request, source, reference)
            &&& #[trigger] all_tried(engine.codecs@, gates, &reference, request, trials)
            &&& #[trigger] preferred(trials, i)
            &&& selected(input@, request, source, trials, i, r)
        };
    assert(report::report_views(r.formats@).len() == reports_of(trials).len());
    if let Selection::Encoded { best } = r.selection {
        assert(report::report_views(r.formats@)[w] == reports_of(trials)[w]);
        assert(r.formats@[w]@ == trials[w].report@);
        let format = distinct(request.allowed_formats@)[w];
        lemma_tried(engine.codecs@, gates, &reference, request, format, trials[w]);
        assert(r.formats@[w].outcome@ == trials[w].report@.outcome);
        assert(best@ == trials[w].winner->0.evaluation@);
        assert forall|i: int| 0 <= i < w implies ((
        #[trigger] r.formats@[i]).outcome matches FormatOutcome::Found { best: other }
            ==> best.bytes < other.bytes || (best.bytes == other.bytes && best.level
            > other.level)) by {
            assert(report::report_views(r.formats@)[i] == reports_of(trials)[i]);
            assert(r.formats@[i]@ == trials[i].report@);
            assert(r.formats@[i].outcome@ == trials[i].report@.outcome);
            lemma_tried(
                engine.codecs@,
                gates,
                &reference,
                request,
                distinct(request.allowed_formats@)[i],
                trials[i],
            );
            if let FormatOutcome::Found { best: other } = r.formats@[i].outcome {
                assert(other@ == trials[i].winner->0.evaluation@);
                assert(best@.precedes(other@));
            }
        }
    }
}

/// A trace holds as many candidates as were evaluated for all formats together, the best of each
/// among them; nothing is traced unasked.
pub proof fn lemma_trace_holds_every_candidate<P: ImagePipeline, C: Codec, M: Metric>(
    engine: &Engine<P, C, M>,
    input: &[u8],
    request: OptimizationRequest,
    r: OptimizationResult,
)
    requires
        optimized(engine, input, request, r),
    ensures
        !request.trace ==> r.trace@.len() == 0,
        request.trace ==> r.trace@.len() == evaluations_in(r.formats@),
        request.trace ==> forall|i: int|
            0 <= i < r.formats@.len() ==> ((#[trigger] r.formats@[i]).outcome matches
                FormatOutcome::Found { best } ==> exists|k: int|
                0 <= k < r.trace@.len() && (#[trigger] r.trace@[k])@ == best@),
{
    let (gates, source, reference, trials, w) = choose|
        gates: Seq<Gate<'_, M>>,
        source: DecodedSource,
        reference: Image,
        trials: Seq<Trial>,
        i: int,
    |
        {
            &&& resolved(engine.metrics@, request.quality@, gates)
            &&& #[trigger] prepared(&engine.pipeline, input, request, source, reference)
            &&& #[trigger] all_tried(engine.codecs@, gates, &reference, request, trials)
            &&& #[trigger] preferred(trials, i)
            &&& selected(input@, request, source, trials, i, r)
        };
    assert(report::report_views(r.formats@).len() == reports_of(trials).len());
    assert(report::evaluation_views(r.trace@).len() == r.trace@.len());
    assert forall|i: int| 0 <= i < trials.len() implies (#[trigger] r.formats@[i]).evaluations
        == trials[i].report.evaluations by {
        assert(report::report_views(r.formats@)[i] == reports_of(trials)[i]);
        assert(r.formats@[i]@ == trials[i].report@);
    }
    assert forall|i: int| 0 <= i < trials.len() implies (#[trigger] trials[i]).trace@.len() == (
    if request.trace {
        trials[i].report.evaluations as nat
    } else {
        0
    }) by {
        lemma_handled(
            engine.codecs@,
            gates,
            &reference,
            request,
            distinct(request.allowed_formats@)[i],
            trials[i],
        );
    }
    lemma_traces(trials, r.formats@, request.trace);
    if request.trace {
        assert forall|i: int| 0 <= i < r.formats@.len() implies ((
        #[trigger] r.formats@[i]).outcome matches FormatOutcome::Found { best } ==> exists|k: int|
            0 <= k < r.trace@.len() && (#[trigger] r.trace@[k])@ == best@) by {
            assert(report::report_views(r.formats@)[i] == reports_of(trials)[i]);
            assert(r.formats@[i]@ == trials[i].report@);
            assert(r.formats@[i].outcome@ == trials[i].report@.outcome);
            let format = distinct(request.allowed_formats@)[i];
            lemma_handled(engine.codecs@, gates, &reference, request, format, trials[i]);
            lemma_tried(engine.codecs@, gates, &reference, request, format, trials[i]);
            if let FormatOutcome::Found { best } = r.formats@[i].outcome {
                let e = trials[i].winner->0.evaluation@;
                assert(best@ == e);
                assert(report::evaluation_views(trials[i].trace@).contains(e));
                let all = report::evaluation_views(r.trace@);
                let k = choose|k: int| 0 <= k < all.len() && all[k] == e;
                assert(r.trace@[k]@ == e);
            }
        }
    }
}

} // verus!
