//! The search for the smallest acceptable encoding in one format.
//!
//! Levels are probed by bisection for the lowest one that passes every gate, and then in the
//! neighborhood of that boundary, because byte size is not strictly monotonic in the level
//! for every encoder. Every evaluated level is kept, so no level is encoded twice.

use vstd::prelude::*;

use crate::codecs::{Codec, CodecError, EncodeSettings, Encoded, QualityAxis};
use crate::metrics::{Metric, MetricError};
use crate::report::{self, Evaluation, MetricResult};
use crate::request::{MetadataPolicy, OptimizationRequest, QualityGate, SearchBudget};
use crate::types::{Image, ImageFormat};

verus! {

/// The boundary and the levels seen once bisection is over: it goes on with `lo..=hi`, having
/// seen some levels and found a boundary among them, while fewer than `cap` were seen.
pub open spec fn bisected(
    accept: spec_fn(int) -> bool,
    lo: int,
    hi: int,
    boundary: Option<int>,
    seen: Set<int>,
    cap: nat,
) -> (Option<int>, Set<int>)
    decreases
            (if lo <= hi {
                hi - lo + 1
            } else {
                0
            }),
{
    let mid = (lo + hi) / 2;
    if lo > hi || seen.len() >= cap {
        (boundary, seen)
    } else if accept(mid) {
        bisected(accept, lo, mid - 1, Some(mid), seen.insert(mid), cap)
    } else {
        bisected(accept, mid + 1, hi, boundary, seen.insert(mid), cap)
    }
}

/// The levels seen once `from..=to` were visited in order, while fewer than `cap` were seen.
pub open spec fn swept(seen: Set<int>, from: int, to: int, cap: nat) -> Set<int>
    decreases
            (if from <= to {
                to - from + 1
            } else {
                0
            }),
{
    if from > to || seen.len() >= cap {
        seen
    } else {
        swept(seen.insert(from), from + 1, to, cap)
    }
}

/// The boundary that bisection of a whole axis finds, and the levels it probes.
pub open spec fn bisection(
    accept: spec_fn(int) -> bool,
    axis: QualityAxis,
    budget: SearchBudget,
) -> (Option<int>, Set<int>) {
    bisected(
        accept,
        axis.min as int,
        axis.max as int,
        None,
        Set::empty(),
        budget.max_evaluations_per_format as nat,
    )
}

/// The lowest level of the neighborhood of a boundary.
pub open spec fn sweep_from(boundary: int, axis: QualityAxis, budget: SearchBudget) -> int {
    if boundary - budget.sweep_radius > axis.min {
        boundary - budget.sweep_radius
    } else {
        axis.min as int
    }
}

/// The highest level of the neighborhood of a boundary.
pub open spec fn sweep_to(boundary: int, axis: QualityAxis, budget: SearchBudget) -> int {
    if boundary + budget.sweep_radius < axis.max {
        boundary + budget.sweep_radius
    } else {
        axis.max as int
    }
}

/// Every level a search evaluates, as it depends on which levels are acceptable.
pub open spec fn examined(
    accept: spec_fn(int) -> bool,
    axis: QualityAxis,
    budget: SearchBudget,
) -> Set<int> {
    let (boundary, seen) = bisection(accept, axis, budget);
    match boundary {
        None => seen,
        Some(b) => swept(
            seen,
            sweep_from(b, axis, budget),
            sweep_to(b, axis, budget),
            budget.max_evaluations_per_format as nat,
        ),
    }
}

/// Bisection only adds levels of its range, keeps to the cap, and its boundary is one of them.
proof fn lemma_bisected(
    accept: spec_fn(int) -> bool,
    lo: int,
    hi: int,
    boundary: Option<int>,
    seen: Set<int>,
    cap: nat,
)
    requires
        seen.finite(),
    ensures
        ({
            let r = bisected(accept, lo, hi, boundary, seen, cap);
            &&& r.1.finite()
            &&& seen.subset_of(r.1)
            &&& seen.len() <= cap ==> r.1.len() <= cap
            &&& forall|l: int| #[trigger] r.1.contains(l) ==> seen.contains(l) || lo <= l <= hi
            &&& r.0 != boundary ==> r.0 is Some && lo <= r.0->0 <= hi && accept(r.0->0)
            &&& boundary is Some ==> r.0 is Some
        }),
    decreases
            (if lo <= hi {
                hi - lo + 1
            } else {
                0
            }),
{
    let mid = (lo + hi) / 2;
    if lo > hi || seen.len() >= cap {
    } else if accept(mid) {
        lemma_bisected(accept, lo, mid - 1, Some(mid), seen.insert(mid), cap);
    } else {
        lemma_bisected(accept, mid + 1, hi, boundary, seen.insert(mid), cap);
    }
}

/// Sweeping only adds levels of its range and keeps to the cap.
proof fn lemma_swept(seen: Set<int>, from: int, to: int, cap: nat)
    requires
        seen.finite(),
    ensures
        ({
            let r = swept(seen, from, to, cap);
            &&& r.finite()
            &&& seen.subset_of(r)
            &&& seen.len() <= cap ==> r.len() <= cap
            &&& forall|l: int| #[trigger] r.contains(l) ==> seen.contains(l) || from <= l <= to
        }),
    decreases
            (if from <= to {
                to - from + 1
            } else {
                0
            }),
{
    if from > to || seen.len() >= cap {
    } else {
        lemma_swept(seen.insert(from), from + 1, to, cap);
    }
}

/// A search never evaluates more levels than its budget allows, and only levels of the axis.
pub proof fn lemma_examined_within_budget(
    accept: spec_fn(int) -> bool,
    axis: QualityAxis,
    budget: SearchBudget,
)
    ensures
        examined(accept, axis, budget).finite(),
        examined(accept, axis, budget).len() <= budget.max_evaluations_per_format,
        forall|l: int| #[trigger]
            examined(accept, axis, budget).contains(l) ==> axis.contains(l),
{
    let cap = budget.max_evaluations_per_format as nat;
    lemma_bisected(accept, axis.min as int, axis.max as int, None, Set::empty(), cap);
    let (boundary, seen) = bisection(accept, axis, budget);
    if boundary is Some {
        let b = boundary->0;
        lemma_swept(seen, sweep_from(b, axis, budget), sweep_to(b, axis, budget), cap);
    }
}

proof fn lemma_bisected_determined(
    f: spec_fn(int) -> bool,
    g: spec_fn(int) -> bool,
    lo: int,
    hi: int,
    boundary: Option<int>,
    seen: Set<int>,
    cap: nat,
)
    requires
        seen.finite(),
        forall|l: int| #[trigger]
            bisected(f, lo, hi, boundary, seen, cap).1.contains(l) ==> f(l) == g(l),
    ensures
        bisected(f, lo, hi, boundary, seen, cap) == bisected(g, lo, hi, boundary, seen, cap),
    decreases
            (if lo <= hi {
                hi - lo + 1
            } else {
                0
            }),
{
    let mid = (lo + hi) / 2;
    if lo > hi || seen.len() >= cap {
    } else if f(mid) {
        lemma_bisected(f, lo, mid - 1, Some(mid), seen.insert(mid), cap);
        assert(bisected(f, lo, hi, boundary, seen, cap).1.contains(mid));
        lemma_bisected_determined(f, g, lo, mid - 1, Some(mid), seen.insert(mid), cap);
    } else {
        lemma_bisected(f, mid + 1, hi, boundary, seen.insert(mid), cap);
        assert(bisected(f, lo, hi, boundary, seen, cap).1.contains(mid));
        lemma_bisected_determined(f, g, mid + 1, hi, boundary, seen.insert(mid), cap);
    }
}

/// Which levels a search evaluates depends on nothing but the outcomes at those levels: two
/// searches that agree on what one of them evaluates evaluate the same levels.
pub proof fn lemma_search_is_deterministic(
    f: spec_fn(int) -> bool,
    g: spec_fn(int) -> bool,
    axis: QualityAxis,
    budget: SearchBudget,
)
    requires
        forall|l: int| #[trigger] examined(f, axis, budget).contains(l) ==> f(l) == g(l),
    ensures
        bisection(f, axis, budget) == bisection(g, axis, budget),
        examined(f, axis, budget) == examined(g, axis, budget),
{
    let cap = budget.max_evaluations_per_format as nat;
    lemma_bisected(f, axis.min as int, axis.max as int, None, Set::empty(), cap);
    let (boundary, seen) = bisection(f, axis, budget);
    if boundary is Some {
        let b = boundary->0;
        lemma_swept(seen, sweep_from(b, axis, budget), sweep_to(b, axis, budget), cap);
    }
    assert forall|l: int| #[trigger] seen.contains(l) implies f(l) == g(l) by {
        assert(examined(f, axis, budget).contains(l));
    }
    lemma_bisected_determined(f, g, axis.min as int, axis.max as int, None, Set::empty(), cap);
}

/// Powers of two.
pub open spec fn doublings(n: nat) -> nat
    decreases n,
{
    if n == 0 {
        1
    } else {
        2 * doublings((n - 1) as nat)
    }
}

/// Whether every level from some point on is acceptable, and none below it.
pub open spec fn monotone(accept: spec_fn(int) -> bool, axis: QualityAxis) -> bool {
    forall|a: int, b: int|
        axis.min <= a <= b <= axis.max && #[trigger] accept(a) ==> #[trigger] accept(b)
}

proof fn lemma_bisected_finds_lowest(
    accept: spec_fn(int) -> bool,
    axis: QualityAxis,
    lo: int,
    hi: int,
    boundary: Option<int>,
    seen: Set<int>,
    cap: nat,
    steps: nat,
)
    requires
        monotone(accept, axis),
        seen.finite(),
        axis.min <= lo,
        lo <= hi + 1,
        hi <= axis.max,
        hi - lo + 1 < doublings(steps),
        seen.len() + steps <= cap,
        forall|l: int| lo <= l <= hi ==> !#[trigger] seen.contains(l),
        forall|l: int| axis.min <= l < lo ==> !#[trigger] accept(l),
        (match boundary {
            None => hi == axis.max,
            Some(b) => b == hi + 1 && b <= axis.max && accept(b),
        }),
    ensures
        (match bisected(accept, lo, hi, boundary, seen, cap).0 {
            None => forall|l: int| axis.contains(l) ==> !#[trigger] accept(l),
            Some(b) => axis.contains(b) && accept(b) && forall|l: int|
                axis.min <= l < b ==> !#[trigger] accept(l),
        }),
    decreases
            (if lo <= hi {
                hi - lo + 1
            } else {
                0
            }),
{
    let mid = (lo + hi) / 2;
    if lo > hi {
    } else {
        assert(steps > 0);
        assert(!seen.contains(mid));
        let fewer = (steps - 1) as nat;
        assert(doublings(steps) == 2 * doublings(fewer));
        if accept(mid) {
            lemma_bisected_finds_lowest(
                accept,
                axis,
                lo,
                mid - 1,
                Some(mid),
                seen.insert(mid),
                cap,
                fewer,
            );
        } else {
            assert forall|l: int| axis.min <= l < mid + 1 implies !#[trigger] accept(l) by {
                if accept(l) {
                    assert(accept(mid));
                }
            }
            lemma_bisected_finds_lowest(
                accept,
                axis,
                mid + 1,
                hi,
                boundary,
                seen.insert(mid),
                cap,
                fewer,
            );
        }
    }
}

/// Where quality grows with the level and the budget suffices to halve the axis away, the
/// boundary is the lowest acceptable level of the whole axis, and that level is evaluated;
/// without a boundary no level of the axis is acceptable.
pub proof fn lemma_search_finds_lowest_passing_level(
    accept: spec_fn(int) -> bool,
    axis: QualityAxis,
    budget: SearchBudget,
)
    requires
        monotone(accept, axis),
        axis.max - axis.min + 1 < doublings(budget.max_evaluations_per_format as nat),
    ensures
        (match bisection(accept, axis, budget).0 {
            None => forall|l: int| axis.contains(l) ==> !#[trigger] accept(l),
            Some(b) => axis.contains(b) && accept(b) && examined(accept, axis, budget).contains(b)
                && forall|l: int| axis.min <= l < b ==> !#[trigger] accept(l),
        }),
{
    let cap = budget.max_evaluations_per_format as nat;
    if axis.min <= axis.max {
        lemma_bisected_finds_lowest(
            accept,
            axis,
            axis.min as int,
            axis.max as int,
            None,
            Set::empty(),
            cap,
            cap,
        );
    }
    lemma_boundary_seen(accept, axis.min as int, axis.max as int, None, Set::empty(), cap);
    lemma_bisected(accept, axis.min as int, axis.max as int, None, Set::empty(), cap);
    let (boundary, seen) = bisection(accept, axis, budget);
    if boundary is Some {
        let b = boundary->0;
        lemma_swept(seen, sweep_from(b, axis, budget), sweep_to(b, axis, budget), cap);
    }
}

proof fn lemma_boundary_seen(
    accept: spec_fn(int) -> bool,
    lo: int,
    hi: int,
    boundary: Option<int>,
    seen: Set<int>,
    cap: nat,
)
    requires
        seen.finite(),
        boundary is Some ==> seen.contains(boundary->0),
    ensures
        ({
            let r = bisected(accept, lo, hi, boundary, seen, cap);
            r.0 is Some ==> r.1.contains(r.0->0)
        }),
    decreases
            (if lo <= hi {
                hi - lo + 1
            } else {
                0
            }),
{
    let mid = (lo + hi) / 2;
    if lo > hi || seen.len() >= cap {
    } else if accept(mid) {
        lemma_boundary_seen(accept, lo, mid - 1, Some(mid), seen.insert(mid), cap);
    } else {
        lemma_boundary_seen(accept, mid + 1, hi, boundary, seen.insert(mid), cap);
    }
}

/// Bisection takes the same way for two outcomes that agree wherever both are probed.
proof fn lemma_bisected_agree(
    f: spec_fn(int) -> bool,
    g: spec_fn(int) -> bool,
    lo: int,
    hi: int,
    boundary: Option<int>,
    seen: Set<int>,
    cap: nat,
)
    requires
        seen.finite(),
        forall|l: int| #[trigger]
            bisected(f, lo, hi, boundary, seen, cap).1.contains(l) && bisected(
                g,
                lo,
                hi,
                boundary,
                seen,
                cap,
            ).1.contains(l) ==> f(l) == g(l),
    ensures
        bisected(f, lo, hi, boundary, seen, cap) == bisected(g, lo, hi, boundary, seen, cap),
    decreases
            (if lo <= hi {
                hi - lo + 1
            } else {
                0
            }),
{
    let mid = (lo + hi) / 2;
    if !(lo > hi || seen.len() >= cap) {
        let more = seen.insert(mid);
        lemma_bisected(f, lo, mid - 1, Some(mid), more, cap);
        lemma_bisected(f, mid + 1, hi, boundary, more, cap);
        lemma_bisected(g, lo, mid - 1, Some(mid), more, cap);
        lemma_bisected(g, mid + 1, hi, boundary, more, cap);
        assert(more.contains(mid));
        assert(bisected(f, lo, hi, boundary, seen, cap).1.contains(mid));
        assert(bisected(g, lo, hi, boundary, seen, cap).1.contains(mid));
        if f(mid) {
            lemma_bisected_agree(f, g, lo, mid - 1, Some(mid), more, cap);
        } else {
            lemma_bisected_agree(f, g, mid + 1, hi, boundary, more, cap);
        }
    }
}

/// A search evaluates the same levels for two outcomes that agree wherever both are evaluated.
proof fn lemma_examined_agree(
    f: spec_fn(int) -> bool,
    g: spec_fn(int) -> bool,
    axis: QualityAxis,
    budget: SearchBudget,
)
    requires
        forall|l: int| #[trigger]
            examined(f, axis, budget).contains(l) && examined(g, axis, budget).contains(l) ==> f(l)
                == g(l),
    ensures
        examined(f, axis, budget) == examined(g, axis, budget),
{
    let cap = budget.max_evaluations_per_format as nat;
    lemma_bisected(f, axis.min as int, axis.max as int, None, Set::empty(), cap);
    lemma_bisected(g, axis.min as int, axis.max as int, None, Set::empty(), cap);
    let (x, seen_x) = bisection(f, axis, budget);
    let (y, seen_y) = bisection(g, axis, budget);
    if x is Some {
        lemma_swept(seen_x, sweep_from(x->0, axis, budget), sweep_to(x->0, axis, budget), cap);
    }
    if y is Some {
        lemma_swept(seen_y, sweep_from(y->0, axis, budget), sweep_to(y->0, axis, budget), cap);
    }
    assert forall|l: int| #[trigger] seen_x.contains(l) && seen_y.contains(l) implies f(l) == g(
        l,
    ) by {
        assert(examined(f, axis, budget).contains(l));
        assert(examined(g, axis, budget).contains(l));
    }
    lemma_bisected_agree(f, g, axis.min as int, axis.max as int, None, Set::empty(), cap);
}

/// A metric with the threshold that its scores must meet.
pub struct Gate<'a, M> {
    pub metric: &'a M,
    pub spec: &'a QualityGate,
}

/// An evaluated candidate with its encoded bytes.
pub struct Sample {
    pub evaluation: Evaluation,
    pub bytes: Vec<u8>,
}

/// Whether every measurement meets the threshold of its gate.
pub open spec fn passes<'a, M: Metric>(
    gates: Seq<Gate<'a, M>>,
    results: Seq<MetricResult>,
) -> bool {
    forall|k: int|
        0 <= k < gates.len() ==> (#[trigger] results[k]).direction.meets_spec(
            results[k].score,
            gates[k].spec.threshold,
        )
}

/// What a codec may return for an image at a level.
pub open spec fn encodes<C: Codec>(
    codec: &C,
    image: &Image,
    metadata: MetadataPolicy,
    level: u32,
    r: Result<Encoded, CodecError>,
) -> bool {
    call_ensures(C::encode, (codec, image, &EncodeSettings { level, metadata }), r)
}

/// What a codec may return for encoded bytes.
pub open spec fn decodes<C: Codec>(
    codec: &C,
    bytes: Seq<u8>,
    r: Result<Image, CodecError>,
) -> bool {
    exists|stream: &[u8]| stream@ == bytes && #[trigger] call_ensures(C::decode, (codec, stream), r)
}

/// What the metric of a gate may return for a decoded candidate.
pub open spec fn measures<'a, M: Metric>(
    gate: Gate<'a, M>,
    image: &Image,
    decoded: Image,
    r: Result<MetricResult, MetricError>,
) -> bool {
    call_ensures(M::measure, (gate.metric, image, &decoded), r)
}

/// Whether a sample is what encoding an image at a level, decoding it again and measuring it
/// against the image gave.
pub open spec fn evaluated<'a, C: Codec, M: Metric>(
    codec: &C,
    image: &Image,
    gates: Seq<Gate<'a, M>>,
    metadata: MetadataPolicy,
    level: u32,
    s: Sample,
) -> bool {
    exists|encoded: Encoded, decoded: Image| #[trigger]
        assessed(codec, image, gates, metadata, level, encoded, decoded, s)
}

/// The parts of [`evaluated`], with the encoding and its decoded image.
pub open spec fn assessed<'a, C: Codec, M: Metric>(
    codec: &C,
    image: &Image,
    gates: Seq<Gate<'a, M>>,
    metadata: MetadataPolicy,
    level: u32,
    encoded: Encoded,
    decoded: Image,
    s: Sample,
) -> bool {
    let e = s.evaluation@;
    &&& encodes(codec, image, metadata, level, Ok(encoded))
    &&& decodes(codec, encoded.bytes@, Ok(decoded))
    &&& e.metrics.len() == gates.len()
    &&& forall|k: int|
        0 <= k < gates.len() ==> measures(gates[k], image, decoded, Ok(#[trigger] e.metrics[k]))
    &&& e.accepted == passes(gates, e.metrics)
    &&& call_ensures(C::format, (codec,), e.format)
    &&& e.level == level
    &&& e.bytes == encoded.bytes@.len()
    &&& e.encoder_parameters == encoded.parameters@
    &&& s.bytes@ == encoded.bytes@
}

/// Whether evaluating a level came to nothing with this message: the encoder, the decoder or
/// a metric failed, and whatever came before it succeeded.
pub open spec fn failed<'a, C: Codec, M: Metric>(
    codec: &C,
    image: &Image,
    gates: Seq<Gate<'a, M>>,
    metadata: MetadataPolicy,
    level: u32,
    message: Seq<char>,
) -> bool {
    ||| exists|e: CodecError| #[trigger]
        encodes(codec, image, metadata, level, Err(e)) && message == e.message_spec()
    ||| exists|encoded: Encoded, e: CodecError|
        #![trigger encodes(codec, image, metadata, level, Ok(encoded)), decodes(codec, encoded.bytes@, Err(e))]
        encodes(codec, image, metadata, level, Ok(encoded)) && decodes(
            codec,
            encoded.bytes@,
            Err(e),
        ) && message == e.message_spec()
    ||| exists|encoded: Encoded, decoded: Image, k: int, e: MetricError|
        #![trigger encodes(codec, image, metadata, level, Ok(encoded)), measures(gates[k], image, decoded, Err(e))]
        encodes(codec, image, metadata, level, Ok(encoded)) && decodes(
            codec,
            encoded.bytes@,
            Ok(decoded),
        ) && 0 <= k < gates.len() && measures(gates[k], image, decoded, Err(e)) && message
            == e.message_spec() && forall|j: int|
            0 <= j < k ==> measurable(#[trigger] gates[j], image, decoded)
}

/// Whether the metric of a gate may return a score for a decoded candidate.
pub open spec fn measurable<'a, M: Metric>(
    gate: Gate<'a, M>,
    image: &Image,
    decoded: Image,
) -> bool {
    exists|m: MetricResult| measures(gate, image, decoded, Ok(m))
}

/// The levels of samples.
pub open spec fn levels(samples: Seq<Sample>) -> Seq<int> {
    samples.map_values(|s: Sample| s.evaluation.level as int)
}

/// Whether samples stand in the order of their levels, none of which occurs twice.
pub open spec fn ascending(samples: Seq<Sample>) -> bool {
    forall|i: int, j: int|
        0 <= i < j < samples.len() ==> (#[trigger] samples[i]).evaluation.level < (
        #[trigger] samples[j]).evaluation.level
}

/// Which levels are acceptable, as far as samples tell.
pub open spec fn accepted_levels(samples: Seq<Sample>) -> spec_fn(int) -> bool {
    |level: int|
        exists|i: int|
            0 <= i < samples.len() && (#[trigger] samples[i]).evaluation.level == level
                && samples[i].evaluation.accepted
}

/// Whether an outcome for every level agrees with the samples taken.
pub open spec fn agrees(accept: spec_fn(int) -> bool, samples: Seq<Sample>) -> bool {
    forall|i: int|
        0 <= i < samples.len() ==> accept((#[trigger] samples[i]).evaluation.level as int)
            == samples[i].evaluation.accepted
}

/// Whether a level is the preferred one among the accepted samples; none where no sample was
/// accepted.
pub open spec fn is_best(samples: Seq<Sample>, best: Option<u32>) -> bool {
    match best {
        None => forall|i: int|
            0 <= i < samples.len() ==> !(#[trigger] samples[i]).evaluation.accepted,
        Some(level) => exists|i: int| #[trigger]
            best_at(samples, i) && samples[i].evaluation.level == level,
    }
}

/// Whether a sample was accepted and is preferred to every other accepted one.
pub open spec fn best_at(samples: Seq<Sample>, i: int) -> bool {
    &&& 0 <= i < samples.len()
    &&& samples[i].evaluation.accepted
    &&& forall|j: int|
        0 <= j < samples.len() && j != i && (#[trigger] samples[j]).evaluation.accepted
            ==> samples[i].evaluation@.precedes(samples[j].evaluation@)
}

/// Whether samples and an outcome are what searching one format gave. On success the levels
/// sampled are those that the acceptance of the samples leads to, and the outcome is the
/// preferred one of them. On failure the level to be evaluated next could not be evaluated.
pub open spec fn searched<'a, C: Codec, M: Metric>(
    codec: &C,
    image: &Image,
    gates: Seq<Gate<'a, M>>,
    metadata: MetadataPolicy,
    budget: SearchBudget,
    samples: Seq<Sample>,
    r: Result<Option<u32>, String>,
) -> bool {
    exists|axis: QualityAxis| #[trigger]
        call_ensures(C::quality_axis, (codec,), axis) && searched_on(
            codec,
            image,
            gates,
            metadata,
            axis,
            budget,
            samples,
            r,
        )
}

/// The parts of [`searched`], with the axis of the codec.
pub open spec fn searched_on<'a, C: Codec, M: Metric>(
    codec: &C,
    image: &Image,
    gates: Seq<Gate<'a, M>>,
    metadata: MetadataPolicy,
    axis: QualityAxis,
    budget: SearchBudget,
    samples: Seq<Sample>,
    r: Result<Option<u32>, String>,
) -> bool {
    &&& ascending(samples)
    &&& forall|i: int|
        0 <= i < samples.len() ==> evaluated(
            codec,
            image,
            gates,
            metadata,
            (#[trigger] samples[i]).evaluation.level,
            samples[i],
        )
    &&& match r {
        Ok(best) => {
            &&& levels(samples).to_set() == examined(accepted_levels(samples), axis, budget)
            &&& is_best(samples, best)
        },
        Err(message) => abandoned(
            codec,
            image,
            gates,
            metadata,
            axis,
            budget,
            samples,
            message@,
        ),
    }
}

/// Whether the level to be evaluated after these samples could not be evaluated.
pub open spec fn abandoned<'a, C: Codec, M: Metric>(
    codec: &C,
    image: &Image,
    gates: Seq<Gate<'a, M>>,
    metadata: MetadataPolicy,
    axis: QualityAxis,
    budget: SearchBudget,
    samples: Seq<Sample>,
    message: Seq<char>,
) -> bool {
    exists|level: u32| #[trigger]
        failed(codec, image, gates, metadata, level, message) && stops_before(
            samples,
            level as int,
            axis,
            budget,
        )
}

/// Whether a search that took these samples goes on to another level, whatever the outcome
/// there is.
pub open spec fn stops_before(
    samples: Seq<Sample>,
    level: int,
    axis: QualityAxis,
    budget: SearchBudget,
) -> bool {
    &&& !levels(samples).contains(level)
    &&& forall|accept: spec_fn(int) -> bool| #[trigger]
        agrees(accept, samples) ==> examined(accept, axis, budget).contains(level) && levels(
            samples,
        ).to_set().subset_of(examined(accept, axis, budget))
}

/// Whether a sample of a level was taken, with this acceptance.
spec fn sampled(samples: Seq<Sample>, level: u32, accepted: bool) -> bool {
    exists|i: int|
        0 <= i < samples.len() && (#[trigger] samples[i]).evaluation.level == level
            && samples[i].evaluation.accepted == accepted
}

/// Whether samples differ by one more, of a level.
spec fn gained(before: Seq<Sample>, after: Seq<Sample>, level: u32) -> bool {
    exists|at: int, s: Sample|
        0 <= at <= before.len() && s.evaluation.level == level && after
            == #[trigger] before.insert(at, s)
}

/// A level as a mathematical integer.
spec fn as_int(level: Option<u32>) -> Option<int> {
    match level {
        Some(l) => Some(l as int),
        None => None,
    }
}

/// As many levels as samples.
proof fn lemma_level_count(samples: Seq<Sample>)
    requires
        ascending(samples),
    ensures
        levels(samples).to_set().finite(),
        levels(samples).to_set().len() == samples.len(),
{
    assert forall|i: int, j: int|
        0 <= i < levels(samples).len() && 0 <= j < levels(samples).len() && i != j implies levels(
        samples,
    )[i] != levels(samples)[j] by {
        if i < j {
            assert(samples[i].evaluation.level < samples[j].evaluation.level);
        } else {
            assert(samples[j].evaluation.level < samples[i].evaluation.level);
        }
    }
    levels(samples).unique_seq_to_set();
}

/// What one more sample changes.
proof fn lemma_gained(before: Seq<Sample>, after: Seq<Sample>, level: u32)
    requires
        gained(before, after, level),
    ensures
        levels(after).to_set() == levels(before).to_set().insert(level as int),
        after.len() == before.len() + 1,
        forall|accept: spec_fn(int) -> bool|
            agrees(accept, after) ==> #[trigger] agrees(accept, before),
        forall|l: u32, a: bool| sampled(before, l, a) ==> #[trigger] sampled(after, l, a),
        forall|i: int|
            0 <= i < after.len() && (#[trigger] after[i]).evaluation.level != level
                ==> before.contains(after[i]),
{
    let (at, s) = choose|at: int, s: Sample|
        0 <= at <= before.len() && s.evaluation.level == level && after == #[trigger] before.insert(
            at,
            s,
        );
    assert forall|i: int| 0 <= i < before.len() implies #[trigger] before[i] == after[if i < at {
        i
    } else {
        i + 1
    }] by {}
    assert forall|accept: spec_fn(int) -> bool| agrees(accept, after) implies #[trigger] agrees(
        accept,
        before,
    ) by {
        assert forall|i: int| 0 <= i < before.len() implies accept(
            (#[trigger] before[i]).evaluation.level as int,
        ) == before[i].evaluation.accepted by {
            let j = if i < at {
                i
            } else {
                i + 1
            };
            assert(before[i] == after[j]);
        }
    }
    assert forall|l: u32, a: bool| sampled(before, l, a) implies #[trigger] sampled(
        after,
        l,
        a,
    ) by {
        let i = choose|i: int|
            0 <= i < before.len() && (#[trigger] before[i]).evaluation.level == l
                && before[i].evaluation.accepted == a;
        let j = if i < at {
            i
        } else {
            i + 1
        };
        assert(after[j] == before[i]);
    }
    assert forall|i: int|
        0 <= i < after.len() && (#[trigger] after[i]).evaluation.level
            != level implies before.contains(after[i]) by {
        let j = if i < at {
            i
        } else {
            i - 1
        };
        assert(after[i] == before[j]);
    }
    assert forall|l: int|
        levels(after).to_set().contains(l) == levels(before).to_set().insert(level as int).contains(
            l,
        ) by {
        if levels(after).contains(l) {
            let i = choose|i: int| 0 <= i < levels(after).len() && levels(after)[i] == l;
            let j = if i < at {
                i
            } else {
                i - 1
            };
            if i != at {
                assert(levels(before)[j] == l);
            }
        }
        if levels(before).contains(l) {
            let i = choose|i: int| 0 <= i < levels(before).len() && levels(before)[i] == l;
            let j = if i < at {
                i
            } else {
                i + 1
            };
            assert(levels(after)[j] == l);
        }
        assert(levels(after)[at] == level as int);
    }
    assert(levels(after).to_set() =~= levels(before).to_set().insert(level as int));
}

/// What the samples tell agrees with them.
proof fn lemma_accepted_agrees(samples: Seq<Sample>)
    requires
        ascending(samples),
    ensures
        agrees(accepted_levels(samples), samples),
{
    let f = accepted_levels(samples);
    assert forall|i: int| 0 <= i < samples.len() implies f(
        (#[trigger] samples[i]).evaluation.level as int,
    ) == samples[i].evaluation.accepted by {
        if f(samples[i].evaluation.level as int) {
            let j = choose|j: int|
                0 <= j < samples.len() && (#[trigger] samples[j]).evaluation.level
                    == samples[i].evaluation.level && samples[j].evaluation.accepted;
            if i < j {
                assert(samples[i].evaluation.level < samples[j].evaluation.level);
            } else if j < i {
                assert(samples[j].evaluation.level < samples[i].evaluation.level);
            }
        }
    }
}

/// What a sample tells of an outcome that agrees with it.
proof fn lemma_sampled_agrees(
    accept: spec_fn(int) -> bool,
    samples: Seq<Sample>,
    level: u32,
    accepted: bool,
)
    requires
        agrees(accept, samples),
        sampled(samples, level, accepted),
    ensures
        accept(level as int) == accepted,
{
    let i = choose|i: int|
        0 <= i < samples.len() && (#[trigger] samples[i]).evaluation.level == level
            && samples[i].evaluation.accepted == accepted;
    assert(accept(samples[i].evaluation.level as int) == samples[i].evaluation.accepted);
}

/// Where bisection stands, a level it is about to probe is one the search evaluates.
proof fn lemma_bisection_goes_on(
    accept: spec_fn(int) -> bool,
    axis: QualityAxis,
    budget: SearchBudget,
    lo: int,
    hi: int,
    boundary: Option<int>,
    seen: Set<int>,
)
    requires
        seen.finite(),
        lo <= hi,
        seen.len() < budget.max_evaluations_per_format,
        bisection(accept, axis, budget) == bisected(
            accept,
            lo,
            hi,
            boundary,
            seen,
            budget.max_evaluations_per_format as nat,
        ),
    ensures
        seen.insert((lo + hi) / 2).subset_of(examined(accept, axis, budget)),
{
    let cap = budget.max_evaluations_per_format as nat;
    let mid = (lo + hi) / 2;
    lemma_bisected(accept, lo, hi, boundary, seen, cap);
    if accept(mid) {
        lemma_bisected(accept, lo, mid - 1, Some(mid), seen.insert(mid), cap);
    } else {
        lemma_bisected(accept, mid + 1, hi, boundary, seen.insert(mid), cap);
    }
    let r = bisection(accept, axis, budget);
    if r.0 is Some {
        let b = r.0->0;
        lemma_swept(r.1, sweep_from(b, axis, budget), sweep_to(b, axis, budget), cap);
    }
}

/// Whether evaluating a level always comes to the same.
pub open spec fn repeatable<'a, C: Codec, M: Metric>(
    codec: &C,
    image: &Image,
    gates: Seq<Gate<'a, M>>,
    metadata: MetadataPolicy,
) -> bool {
    &&& forall|a: QualityAxis, b: QualityAxis| #[trigger]
        call_ensures(C::quality_axis, (codec,), a) && #[trigger] call_ensures(
            C::quality_axis,
            (codec,),
            b,
        ) ==> a == b
    &&& forall|level: u32, s: Sample, t: Sample| #[trigger]
        evaluated(codec, image, gates, metadata, level, s) && #[trigger] evaluated(
            codec,
            image,
            gates,
            metadata,
            level,
            t,
        ) ==> same_sample(s, t)
    &&& forall|level: u32, s: Sample, message: Seq<char>| #[trigger]
        evaluated(codec, image, gates, metadata, level, s) ==> !#[trigger] failed(
            codec,
            image,
            gates,
            metadata,
            level,
            message,
        )
}

/// Whether two samples are the same candidate.
pub open spec fn same_sample(s: Sample, t: Sample) -> bool {
    s.evaluation@ == t.evaluation@ && s.bytes@ == t.bytes@
}

/// Samples in the order of the same levels have the same level at every place.
proof fn lemma_same_levels(a: Seq<Sample>, b: Seq<Sample>, i: int)
    requires
        ascending(a),
        ascending(b),
        levels(a).to_set() == levels(b).to_set(),
        0 <= i < a.len(),
        i < b.len(),
    ensures
        a[i].evaluation.level == b[i].evaluation.level,
    decreases i,
{
    assert forall|k: int| 0 <= k < i implies (#[trigger] a[k]).evaluation.level
        == b[k].evaluation.level by {
        lemma_same_levels(a, b, k);
    }
    let x = a[i].evaluation.level;
    let y = b[i].evaluation.level;
    assert(levels(a)[i] == x);
    assert(levels(b)[i] == y);
    assert(levels(a).to_set().contains(x as int));
    assert(levels(b).to_set().contains(y as int));
    if x < y {
        assert(levels(b).contains(x as int));
        let k = choose|k: int| 0 <= k < levels(b).len() && levels(b)[k] == x as int;
        assert(b[k].evaluation.level == x);
        if k > i {
            assert(b[i].evaluation.level < b[k].evaluation.level);
        } else if k < i {
            assert(a[k].evaluation.level < a[i].evaluation.level);
        }
    } else if y < x {
        assert(levels(a).contains(y as int));
        let k = choose|k: int| 0 <= k < levels(a).len() && levels(a)[k] == y as int;
        assert(a[k].evaluation.level == y);
        if k > i {
            assert(a[i].evaluation.level < a[k].evaluation.level);
        } else if k < i {
            assert(b[k].evaluation.level < b[i].evaluation.level);
        }
    }
}

/// A level of samples has a sample.
proof fn lemma_sample_of(samples: Seq<Sample>, level: int) -> (i: int)
    requires
        levels(samples).to_set().contains(level),
    ensures
        0 <= i < samples.len(),
        samples[i].evaluation.level == level,
{
    assert(levels(samples).contains(level));
    let i = choose|i: int| 0 <= i < levels(samples).len() && levels(samples)[i] == level;
    assert(levels(samples)[i] == samples[i].evaluation.level as int);
    i
}

/// Searching is repeatable: where evaluating a level always comes to the same, two searches that
/// go through take the same samples and give the same level.
pub proof fn lemma_search_is_repeatable<'a, C: Codec, M: Metric>(
    codec: &C,
    image: &Image,
    gates: Seq<Gate<'a, M>>,
    metadata: MetadataPolicy,
    budget: SearchBudget,
    a: Seq<Sample>,
    x: Option<u32>,
    b: Seq<Sample>,
    y: Option<u32>,
)
    requires
        repeatable(codec, image, gates, metadata),
        searched(codec, image, gates, metadata, budget, a, Ok(x)),
        searched(codec, image, gates, metadata, budget, b, Ok(y)),
    ensures
        x == y,
        a.len() == b.len(),
        forall|i: int| 0 <= i < a.len() ==> same_sample(#[trigger] a[i], b[i]),
{
    let axis = choose|axis: QualityAxis| #[trigger]
        call_ensures(C::quality_axis, (codec,), axis) && searched_on(
            codec,
            image,
            gates,
            metadata,
            axis,
            budget,
            a,
            Ok(x),
        );
    let other = choose|other: QualityAxis| #[trigger]
        call_ensures(C::quality_axis, (codec,), other) && searched_on(
            codec,
            image,
            gates,
            metadata,
            other,
            budget,
            b,
            Ok(y),
        );
    assert(axis == other);
    let f = accepted_levels(a);
    let g = accepted_levels(b);
    lemma_accepted_agrees(a);
    lemma_accepted_agrees(b);
    assert forall|l: int| #[trigger]
        examined(f, axis, budget).contains(l) && examined(g, axis, budget).contains(l) implies f(l)
        == g(l) by {
        let i = lemma_sample_of(a, l);
        let j = lemma_sample_of(b, l);
        let level = a[i].evaluation.level;
        assert(evaluated(codec, image, gates, metadata, level, a[i]));
        assert(evaluated(codec, image, gates, metadata, level, b[j]));
        assert(a[i].evaluation@.accepted == b[j].evaluation@.accepted);
    }
    lemma_examined_agree(f, g, axis, budget);
    lemma_level_count(a);
    lemma_level_count(b);
    assert forall|i: int| 0 <= i < a.len() implies same_sample(#[trigger] a[i], b[i]) by {
        lemma_same_levels(a, b, i);
        let level = a[i].evaluation.level;
        assert(evaluated(codec, image, gates, metadata, level, a[i]));
        assert(evaluated(codec, image, gates, metadata, level, b[i]));
    }
    lemma_same_best(a, x, b, y);
}

/// The same samples have the same best one.
proof fn lemma_same_best(a: Seq<Sample>, x: Option<u32>, b: Seq<Sample>, y: Option<u32>)
    requires
        is_best(a, x),
        is_best(b, y),
        a.len() == b.len(),
        forall|i: int| 0 <= i < a.len() ==> same_sample(#[trigger] a[i], b[i]),
    ensures
        x == y,
{
    if x is Some {
        let i = choose|i: int| #[trigger] best_at(a, i) && a[i].evaluation.level == x->0;
        assert(same_sample(a[i], b[i]));
        assert(a[i].evaluation@.accepted == b[i].evaluation@.accepted);
        assert(a[i].evaluation@.level == b[i].evaluation@.level);
        if y is Some {
            let j = choose|j: int| #[trigger] best_at(b, j) && b[j].evaluation.level == y->0;
            assert(same_sample(a[j], b[j]));
            assert(a[j].evaluation@.accepted == b[j].evaluation@.accepted);
            if i != j {
                assert(a[i].evaluation@.precedes(a[j].evaluation@));
                assert(b[j].evaluation@.precedes(b[i].evaluation@));
            }
        } else {
            assert(!b[i].evaluation.accepted);
        }
    } else if y is Some {
        let j = choose|j: int| #[trigger] best_at(b, j) && b[j].evaluation.level == y->0;
        assert(same_sample(a[j], b[j]));
        assert(a[j].evaluation@.accepted == b[j].evaluation@.accepted);
        assert(!a[j].evaluation.accepted);
    }
}

/// Where evaluating a level always comes to the same, a search does not fail if another one went
/// through.
pub proof fn lemma_search_fails_repeatably<'a, C: Codec, M: Metric>(
    codec: &C,
    image: &Image,
    gates: Seq<Gate<'a, M>>,
    metadata: MetadataPolicy,
    budget: SearchBudget,
    a: Seq<Sample>,
    x: Option<u32>,
    b: Seq<Sample>,
    r: Result<Option<u32>, String>,
)
    requires
        repeatable(codec, image, gates, metadata),
        searched(codec, image, gates, metadata, budget, a, Ok(x)),
        searched(codec, image, gates, metadata, budget, b, r),
    ensures
        r is Ok,
{
    let axis = choose|axis: QualityAxis| #[trigger]
        call_ensures(C::quality_axis, (codec,), axis) && searched_on(
            codec,
            image,
            gates,
            metadata,
            axis,
            budget,
            a,
            Ok(x),
        );
    let other = choose|other: QualityAxis| #[trigger]
        call_ensures(C::quality_axis, (codec,), other) && searched_on(
            codec,
            image,
            gates,
            metadata,
            other,
            budget,
            b,
            r,
        );
    assert(axis == other);
    if let Err(message) = r {
        assert(abandoned(codec, image, gates, metadata, axis, budget, b, message@));
        let level = choose|level: u32| #[trigger]
            failed(codec, image, gates, metadata, level, message@) && stops_before(
                b,
                level as int,
                axis,
                budget,
            );
        let f = accepted_levels(a);
        let g = accepted_levels(b);
        lemma_accepted_agrees(a);
        lemma_accepted_agrees(b);
        let h = |l: int|
            if levels(b).contains(l) {
                g(l)
            } else {
                f(l)
            };
        assert forall|i: int| 0 <= i < b.len() implies h(
            (#[trigger] b[i]).evaluation.level as int,
        ) == b[i].evaluation.accepted by {
            assert(levels(b)[i] == b[i].evaluation.level as int);
        }
        assert(agrees(h, b));
        assert(examined(h, axis, budget).contains(level as int));
        assert forall|l: int| #[trigger]
            examined(h, axis, budget).contains(l) && examined(f, axis, budget).contains(
                l,
            ) implies h(l) == f(l) by {
            if levels(b).contains(l) {
                let i = lemma_sample_of(a, l);
                let j = lemma_sample_of(b, l);
                let here = a[i].evaluation.level;
                assert(evaluated(codec, image, gates, metadata, here, a[i]));
                assert(evaluated(codec, image, gates, metadata, here, b[j]));
                assert(a[i].evaluation@.accepted == b[j].evaluation@.accepted);
            }
        }
        lemma_examined_agree(h, f, axis, budget);
        let i = lemma_sample_of(a, level as int);
        assert(evaluated(codec, image, gates, metadata, level, a[i]));
    }
}

/// Whatever the codec and the metrics do, a search takes at most as many samples as its budget
/// allows, each of another level.
pub proof fn lemma_search_keeps_to_budget<'a, C: Codec, M: Metric>(
    codec: &C,
    image: &Image,
    gates: Seq<Gate<'a, M>>,
    metadata: MetadataPolicy,
    budget: SearchBudget,
    samples: Seq<Sample>,
    r: Result<Option<u32>, String>,
)
    requires
        searched(codec, image, gates, metadata, budget, samples, r),
    ensures
        samples.len() <= budget.max_evaluations_per_format,
        levels(samples).no_duplicates(),
{
    let axis = choose|axis: QualityAxis| #[trigger]
        call_ensures(C::quality_axis, (codec,), axis) && searched_on(
            codec,
            image,
            gates,
            metadata,
            axis,
            budget,
            samples,
            r,
        );
    let accept = accepted_levels(samples);
    lemma_accepted_agrees(samples);
    lemma_level_count(samples);
    lemma_examined_within_budget(accept, axis, budget);
    match r {
        Ok(_) => {},
        Err(message) => {
            let level = choose|level: u32| #[trigger]
                failed(codec, image, gates, metadata, level, message@) && stops_before(
                    samples,
                    level as int,
                    axis,
                    budget,
                );
            vstd::set_lib::lemma_len_subset(
                levels(samples).to_set(),
                examined(accept, axis, budget),
            );
        },
    }
    assert forall|i: int, j: int|
        0 <= i < levels(samples).len() && 0 <= j < levels(samples).len() && i != j implies levels(
        samples,
    )[i] != levels(samples)[j] by {
        if i < j {
            assert(samples[i].evaluation.level < samples[j].evaluation.level);
        } else {
            assert(samples[j].evaluation.level < samples[i].evaluation.level);
        }
    }
}

/// The level that a search returns is that of a sample which passed every gate, and no sample
/// that passed every gate is preferred to it.
pub proof fn lemma_search_returns_best<'a, C: Codec, M: Metric>(
    codec: &C,
    image: &Image,
    gates: Seq<Gate<'a, M>>,
    metadata: MetadataPolicy,
    budget: SearchBudget,
    samples: Seq<Sample>,
    r: Result<Option<u32>, String>,
    i: int,
)
    requires
        searched(codec, image, gates, metadata, budget, samples, r),
        0 <= i < samples.len(),
        r == Ok::<Option<u32>, String>(Some(samples[i].evaluation.level)),
    ensures
        samples[i].evaluation.accepted,
        samples[i].evaluation.metrics@.len() == gates.len(),
        passes(gates, samples[i].evaluation.metrics@),
        samples[i].bytes@.len() == samples[i].evaluation.bytes,
        forall|j: int|
            0 <= j < samples.len() && (#[trigger] samples[j]).evaluation.accepted
                ==> !samples[j].evaluation@.precedes(samples[i].evaluation@),
{
    let axis = choose|axis: QualityAxis| #[trigger]
        call_ensures(C::quality_axis, (codec,), axis) && searched_on(
            codec,
            image,
            gates,
            metadata,
            axis,
            budget,
            samples,
            r,
        );
    lemma_evaluated(codec, image, gates, metadata, samples[i].evaluation.level, samples[i]);
    lemma_best_unique(samples, i);
}

proof fn lemma_evaluated<'a, C: Codec, M: Metric>(
    codec: &C,
    image: &Image,
    gates: Seq<Gate<'a, M>>,
    metadata: MetadataPolicy,
    level: u32,
    s: Sample,
)
    requires
        evaluated(codec, image, gates, metadata, level, s),
    ensures
        s.evaluation.metrics@.len() == gates.len(),
        s.evaluation.accepted == passes(gates, s.evaluation.metrics@),
        s.bytes@.len() == s.evaluation.bytes,
{
    let (encoded, decoded) = choose|encoded: Encoded, decoded: Image| #[trigger]
        assessed(codec, image, gates, metadata, level, encoded, decoded, s);
    assert(s.evaluation@.metrics == s.evaluation.metrics@);
}

proof fn lemma_best_unique(samples: Seq<Sample>, i: int)
    requires
        ascending(samples),
        0 <= i < samples.len(),
        is_best(samples, Some(samples[i].evaluation.level)),
    ensures
        samples[i].evaluation.accepted,
        forall|j: int|
            0 <= j < samples.len() && (#[trigger] samples[j]).evaluation.accepted
                ==> !samples[j].evaluation@.precedes(samples[i].evaluation@),
{
    let level = samples[i].evaluation.level;
    let k = choose|k: int| #[trigger]
        best_at(samples, k) && samples[k].evaluation.level == level;
    if i < k {
        assert(samples[i].evaluation.level < samples[k].evaluation.level);
    } else if k < i {
        assert(samples[k].evaluation.level < samples[i].evaluation.level);
    }
}

/// Search state for one format.
pub(crate) struct FormatSearch<'a, C, M> {
    pub codec: &'a C,
    pub image: &'a Image,
    pub gates: &'a Vec<Gate<'a, M>>,
    pub request: &'a OptimizationRequest,
    pub samples: Vec<Sample>,
}

impl<'a, C: Codec, M: Metric> FormatSearch<'a, C, M> {
    /// Whether only the samples differ from another state of the search.
    pub(crate) open spec fn same_search(self, other: Self) -> bool {
        &&& self.codec == other.codec
        &&& self.image == other.image
        &&& self.gates == other.gates
        &&& self.request == other.request
    }

    /// Whether every sample is what its level gave, in the order of the levels.
    pub(crate) open spec fn well_formed(self) -> bool {
        &&& ascending(self.samples@)
        &&& forall|i: int|
            0 <= i < self.samples@.len() ==> evaluated(
                self.codec,
                self.image,
                self.gates@,
                self.request.metadata,
                (#[trigger] self.samples@[i]).evaluation.level,
                self.samples@[i],
            )
    }

    fn evaluate(&self, level: u32) -> (r: Result<Sample, String>)
        ensures
            (match r {
                Ok(s) => s.evaluation.level == level && evaluated(
                    self.codec,
                    self.image,
                    self.gates@,
                    self.request.metadata,
                    level,
                    s,
                ),
                Err(message) => failed(
                    self.codec,
                    self.image,
                    self.gates@,
                    self.request.metadata,
                    level,
                    message@,
                ),
            }),
    {
        let settings = EncodeSettings { level, metadata: self.request.metadata };
        let encoded: Encoded = match self.codec.encode(self.image, &settings) {
            Ok(encoded) => encoded,
            Err(e) => {
                proof {
                    assert(encodes(self.codec, self.image, self.request.metadata, level, Err(e)));
                }
                return Err(e.message());
            },
        };
        proof {
            assert(encodes(self.codec, self.image, self.request.metadata, level, Ok(encoded)));
        }
        let stream: &[u8] = encoded.bytes.as_slice();
        let decoded: Image = match self.codec.decode(stream) {
            Ok(decoded) => decoded,
            Err(e) => {
                proof {
                    assert(decodes(self.codec, encoded.bytes@, Err(e)));
                }
                return Err(e.message());
            },
        };
        proof {
            assert(decodes(self.codec, encoded.bytes@, Ok(decoded)));
        }

        let mut metrics: Vec<MetricResult> = Vec::new();
        let mut accepted: bool = true;
        let mut k: usize = 0;
        while k < self.gates.len()
            invariant
                k <= self.gates@.len(),
                metrics@.len() == k,
                encodes(self.codec, self.image, self.request.metadata, level, Ok(encoded)),
                decodes(self.codec, encoded.bytes@, Ok(decoded)),
                forall|j: int|
                    0 <= j < k ==> measures(
                        self.gates@[j],
                        self.image,
                        decoded,
                        Ok(#[trigger] metrics@[j]),
                    ),
                accepted == (forall|j: int|
                    0 <= j < k ==> (#[trigger] metrics@[j]).direction.meets_spec(
                        metrics@[j].score,
                        self.gates@[j].spec.threshold,
                    )),
            decreases self.gates@.len() - k,
        {
            let gate = &self.gates[k];
            let result: MetricResult = match gate.metric.measure(self.image, &decoded) {
                Ok(result) => result,
                Err(e) => {
                    proof {
                        assert(measures(self.gates@[k as int], self.image, decoded, Err(e)));
                        assert forall|j: int| 0 <= j < k implies measurable(
                            #[trigger] self.gates@[j],
                            self.image,
                            decoded,
                        ) by {
                            assert(measures(self.gates@[j], self.image, decoded, Ok(metrics@[j])));
                        }
                    }
                    return Err(e.message());
                },
            };
            let ghost before = metrics@;
            let met: bool = result.direction.meets(result.score, gate.spec.threshold);
            accepted = accepted && met;
            metrics.push(result);
            proof {
                assert(metrics@[k as int].direction.meets_spec(
                    metrics@[k as int].score,
                    self.gates@[k as int].spec.threshold,
                ) == met);
                assert forall|j: int| 0 <= j < k implies metrics@[j] == #[trigger] before[j] by {}
            }
            k = k + 1;
        }
        let format: ImageFormat = self.codec.format();
        let Encoded { bytes, parameters } = encoded;
        let evaluation = Evaluation {
            format,
            level,
            bytes: bytes.len() as u64,
            metrics,
            accepted,
            encoder_parameters: parameters,
        };
        let s = Sample { evaluation, bytes };
        proof {
            assert(assessed(
                self.codec,
                self.image,
                self.gates@,
                self.request.metadata,
                level,
                encoded,
                decoded,
                s,
            ));
        }
        Ok(s)
    }

    fn has_budget(&self) -> (r: bool)
        requires
            self.samples@.len() <= u32::MAX,
        ensures
            r == (self.samples@.len() < self.request.budget.max_evaluations_per_format),
    {
        (self.samples.len() as u32) < self.request.budget.max_evaluations_per_format
    }

    /// Evaluates a level unless it was evaluated before, and tells whether it is acceptable.
    fn sample(&mut self, level: u32) -> (r: Result<bool, String>)
        requires
            old(self).well_formed(),
        ensures
            final(self).same_search(*old(self)),
            final(self).well_formed(),
            (match r {
                Ok(accepted) => {
                    &&& sampled(final(self).samples@, level, accepted)
                    &&& if levels(old(self).samples@).contains(level as int) {
                        final(self).samples@ == old(self).samples@
                    } else {
                        gained(old(self).samples@, final(self).samples@, level)
                    }
                },
                Err(message) => {
                    &&& final(self).samples@ == old(self).samples@
                    &&& !levels(old(self).samples@).contains(level as int)
                    &&& failed(
                        old(self).codec,
                        old(self).image,
                        old(self).gates@,
                        old(self).request.metadata,
                        level,
                        message@,
                    )
                },
            }),
    {
        let ghost before = self.samples@;
        let mut at: usize = 0;
        while at < self.samples.len() && self.samples[at].evaluation.level < level
            invariant
                *self == *old(self),
                at <= self.samples@.len(),
                forall|i: int|
                    0 <= i < at ==> (#[trigger] self.samples@[i]).evaluation.level < level,
            decreases self.samples@.len() - at,
        {
            at = at + 1;
        }
        if at < self.samples.len() && self.samples[at].evaluation.level == level {
            proof {
                assert(levels(before)[at as int] == level as int);
            }
            return Ok(self.samples[at].evaluation.accepted);
        }
        proof {
            assert forall|i: int| at <= i < before.len() implies (
            #[trigger] before[i]).evaluation.level > level by {
                if i > at {
                    assert(before[at as int].evaluation.level < before[i].evaluation.level);
                }
            }
            if levels(before).contains(level as int) {
                let i = choose|i: int|
                    0 <= i < levels(before).len() && levels(before)[i] == level as int;
                assert(before[i].evaluation.level == level);
            }
        }
        match self.evaluate(level) {
            Ok(s) => {
                let accepted: bool = s.evaluation.accepted;
                self.samples.insert(at, s);
                proof {
                    let after = self.samples@;
                    assert(after == before.insert(at as int, s));
                    assert(after[at as int] == s);
                    assert forall|i: int, j: int| 0 <= i < j < after.len() implies (
                    #[trigger] after[i]).evaluation.level < (
                    #[trigger] after[j]).evaluation.level by {
                        let a = if i < at {
                            i
                        } else {
                            i - 1
                        };
                        let b = if j < at {
                            j
                        } else {
                            j - 1
                        };
                        if i != at {
                            assert(after[i] == before[a]);
                        }
                        if j != at {
                            assert(after[j] == before[b]);
                        }
                    }
                    assert forall|i: int| 0 <= i < after.len() implies evaluated(
                        self.codec,
                        self.image,
                        self.gates@,
                        self.request.metadata,
                        (#[trigger] after[i]).evaluation.level,
                        after[i],
                    ) by {
                        if i < at {
                            assert(after[i] == before[i]);
                        } else if i > at {
                            assert(after[i] == before[i - 1]);
                        }
                    }
                }
                Ok(accepted)
            },
            Err(message) => Err(message),
        }
    }

    /// Returns the level of the smallest accepted candidate.
    pub(crate) fn run(&mut self) -> (r: Result<Option<u32>, String>)
        requires
            old(self).samples@.len() == 0,
        ensures
            final(self).same_search(*old(self)),
            final(self).samples@.len() <= old(self).request.budget.max_evaluations_per_format,
            searched(
                old(self).codec,
                old(self).image,
                old(self).gates@,
                old(self).request.metadata,
                old(self).request.budget,
                final(self).samples@,
                r,
            ),
    {
        let axis: QualityAxis = self.codec.quality_axis();
        let budget: SearchBudget = self.request.budget;
        let ghost cap = budget.max_evaluations_per_format as nat;

        // Binary search for the lowest level that passes every gate.
        let mut lo: i64 = axis.min as i64;
        let mut hi: i64 = axis.max as i64;
        let mut boundary: Option<u32> = None;
        proof {
            assert(levels(self.samples@).to_set() =~= Set::<int>::empty());
        }
        while lo <= hi && self.has_budget()
            invariant
                self.same_search(*old(self)),
                self.well_formed(),
                call_ensures(C::quality_axis, (self.codec,), axis),
                budget == self.request.budget,
                cap == budget.max_evaluations_per_format,
                self.samples@.len() <= cap,
                axis.min <= lo <= u32::MAX + 1,
                -1 <= hi <= axis.max,
                (match boundary {
                    Some(b) => axis.contains(b as int) && sampled(self.samples@, b, true),
                    None => forall|i: int|
                        0 <= i < self.samples@.len() ==> !(
                        #[trigger] self.samples@[i]).evaluation.accepted,
                }),
                forall|accept: spec_fn(int) -> bool| #[trigger]
                    agrees(accept, self.samples@) ==> bisection(accept, axis, budget) == bisected(
                        accept,
                        lo as int,
                        hi as int,
                        as_int(boundary),
                        levels(self.samples@).to_set(),
                        cap,
                    ),
            decreases
                    (if lo <= hi {
                        hi - lo + 1
                    } else {
                        0
                    }),
        {
            let mid: i64 = (lo + hi) / 2;
            let ghost before = self.samples@;
            proof {
                lemma_level_count(before);
            }
            match self.sample(mid as u32) {
                Ok(accepted) => {
                    let ghost after = self.samples@;
                    proof {
                        if levels(before).contains(mid as int) {
                            assert(levels(before).to_set() =~= levels(before).to_set().insert(
                                mid as int,
                            ));
                        } else {
                            lemma_gained(before, after, mid as u32);
                        }
                        assert forall|accept: spec_fn(int) -> bool| #[trigger]
                            agrees(accept, after) implies bisection(accept, axis, budget)
                            == bisected(
                            accept,
                            if accepted {
                                lo as int
                            } else {
                                mid + 1
                            },
                            if accepted {
                                mid - 1
                            } else {
                                hi as int
                            },
                            if accepted {
                                Some(mid as int)
                            } else {
                                as_int(boundary)
                            },
                            levels(after).to_set(),
                            cap,
                        ) by {
                            assert(agrees(accept, before));
                            lemma_sampled_agrees(accept, after, mid as u32, accepted);
                        }
                        if !accepted && boundary is None {
                            assert forall|i: int| 0 <= i < after.len() implies !(
                            #[trigger] after[i]).evaluation.accepted by {
                                if after[i].evaluation.level == mid {
                                    lemma_accepted_agrees(after);
                                    lemma_sampled_agrees(
                                        accepted_levels(after),
                                        after,
                                        mid as u32,
                                        accepted,
                                    );
                                } else if !levels(before).contains(mid as int) {
                                    assert(before.contains(after[i]));
                                }
                            }
                        }
                        lemma_level_count(after);
                    }
                    if accepted {
                        boundary = Some(mid as u32);
                        hi = mid - 1;
                    } else {
                        lo = mid + 1;
                    }
                },
                Err(message) => {
                    proof {
                        assert forall|accept: spec_fn(int) -> bool| #[trigger]
                            agrees(accept, before) implies examined(accept, axis, budget).contains(
                            mid as int,
                        ) && levels(before).to_set().subset_of(examined(accept, axis, budget)) by {
                            lemma_bisection_goes_on(
                                accept,
                                axis,
                                budget,
                                lo as int,
                                hi as int,
                                as_int(boundary),
                                levels(before).to_set(),
                            );
                        }
                        assert(failed(
                            self.codec,
                            self.image,
                            self.gates@,
                            self.request.metadata,
                            mid as u32,
                            message@,
                        ));
                        assert(stops_before(self.samples@, (mid as u32) as int, axis, budget));
                        assert(abandoned(
                            self.codec,
                            self.image,
                            self.gates@,
                            self.request.metadata,
                            axis,
                            budget,
                            self.samples@,
                            message@,
                        ));
                    }
                    return Err(message);
                },
            }
        }
        let lowest: u32 = match boundary {
            Some(b) => b,
            None => {
                proof {
                    lemma_accepted_agrees(self.samples@);
                    lemma_level_count(self.samples@);
                    assert(is_best(self.samples@, None));
                }
                return Ok(None);
            },
        };

        // Byte size is not strictly monotonic in the level for every encoder, so check the
        // neighborhood of the boundary for a smaller passing candidate.
        let from: u32 = if lowest >= budget.sweep_radius && lowest - budget.sweep_radius
            > axis.min {
            lowest - budget.sweep_radius
        } else {
            axis.min
        };
        let to: u32 = if budget.sweep_radius < axis.max && lowest < axis.max - budget.sweep_radius {
            lowest + budget.sweep_radius
        } else {
            axis.max
        };
        let mut level: u64 = from as u64;
        proof {
            lemma_level_count(self.samples@);
            assert(from == sweep_from(lowest as int, axis, budget));
            assert(to == sweep_to(lowest as int, axis, budget));
        }
        while level <= to as u64 && self.has_budget()
            invariant
                self.same_search(*old(self)),
                self.well_formed(),
                call_ensures(C::quality_axis, (self.codec,), axis),
                budget == self.request.budget,
                cap == budget.max_evaluations_per_format,
                self.samples@.len() <= cap,
                level <= u32::MAX + 1,
                sampled(self.samples@, lowest, true),
                forall|accept: spec_fn(int) -> bool| #[trigger]
                    agrees(accept, self.samples@) ==> examined(accept, axis, budget) == swept(
                        levels(self.samples@).to_set(),
                        level as int,
                        to as int,
                        cap,
                    ),
            decreases u32::MAX + 1 - level,
        {
            let ghost before = self.samples@;
            proof {
                lemma_level_count(before);
            }
            match self.sample(level as u32) {
                Ok(_accepted) => {
                    proof {
                        let after = self.samples@;
                        if levels(before).contains(level as int) {
                            assert(levels(before).to_set() =~= levels(before).to_set().insert(
                                level as int,
                            ));
                        } else {
                            lemma_gained(before, after, level as u32);
                        }
                        assert forall|accept: spec_fn(int) -> bool| #[trigger]
                            agrees(accept, after) implies examined(accept, axis, budget) == swept(
                            levels(after).to_set(),
                            level + 1,
                            to as int,
                            cap,
                        ) by {
                            assert(agrees(accept, before));
                        }
                        lemma_level_count(after);
                    }
                },
                Err(message) => {
                    proof {
                        let seen = levels(before).to_set();
                        lemma_swept(seen.insert(level as int), level + 1, to as int, cap);
                        assert forall|accept: spec_fn(int) -> bool| #[trigger]
                            agrees(accept, before) implies examined(accept, axis, budget).contains(
                            level as int,
                        ) && seen.subset_of(examined(accept, axis, budget)) by {
                            assert(examined(accept, axis, budget) == swept(
                                seen.insert(level as int),
                                level + 1,
                                to as int,
                                cap,
                            ));
                        }
                        assert(failed(
                            self.codec,
                            self.image,
                            self.gates@,
                            self.request.metadata,
                            level as u32,
                            message@,
                        ));
                        assert(stops_before(self.samples@, (level as u32) as int, axis, budget));
                        assert(abandoned(
                            self.codec,
                            self.image,
                            self.gates@,
                            self.request.metadata,
                            axis,
                            budget,
                            self.samples@,
                            message@,
                        ));
                    }
                    return Err(message);
                },
            }
            level = level + 1;
        }
        proof {
            lemma_accepted_agrees(self.samples@);
            lemma_level_count(self.samples@);
            assert(levels(self.samples@).to_set() == examined(
                accepted_levels(self.samples@),
                axis,
                budget,
            ));
        }
        let best: Option<u32> = best_level(&self.samples);
        Ok(best)
    }
}

/// The level of the preferred accepted sample.
fn best_level(samples: &Vec<Sample>) -> (r: Option<u32>)
    requires
        ascending(samples@),
    ensures
        is_best(samples@, r),
{
    let mut best: Option<usize> = None;
    let mut i: usize = 0;
    while i < samples.len()
        invariant
            i <= samples@.len(),
            ascending(samples@),
            (match best {
                None => forall|j: int|
                    0 <= j < i ==> !(#[trigger] samples@[j]).evaluation.accepted,
                Some(b) => b < i && samples@[b as int].evaluation.accepted && forall|j: int|
                    0 <= j < i && j != b && (#[trigger] samples@[j]).evaluation.accepted
                        ==> samples@[b as int].evaluation@.precedes(samples@[j].evaluation@),
            }),
        decreases samples@.len() - i,
    {
        if samples[i].evaluation.accepted {
            match best {
                None => {
                    best = Some(i);
                },
                Some(b) => {
                    proof {
                        assert(samples@[b as int].evaluation.level
                            < samples@[i as int].evaluation.level);
                    }
                    if samples[i].evaluation.is_better_than(&samples[b].evaluation) {
                        best = Some(i);
                    }
                },
            }
        }
        i = i + 1;
    }
    match best {
        None => None,
        Some(b) => {
            proof {
                assert(best_at(samples@, b as int));
            }
            Some(samples[b].evaluation.level)
        },
    }
}

/// Whether a level was evaluated and passed every gate, or was evaluated and did not.
pub open spec fn tried_level(samples: Seq<Sample>, level: int, accepted: bool) -> bool {
    exists|i: int|
        0 <= i < samples.len() && (#[trigger] samples[i]).evaluation.level == level
            && samples[i].evaluation.accepted == accepted
}

/// Whether a level is where acceptance begins: it passed, and the level below it did not, unless
/// it is the lowest of all.
pub open spec fn begins_at(samples: Seq<Sample>, lowest: int, level: int) -> bool {
    &&& tried_level(samples, level, true)
    &&& level == lowest || tried_level(samples, level - 1, false)
}

/// Whether every level of an axis that is no further than a radius from another was evaluated.
pub open spec fn surrounded(
    samples: Seq<Sample>,
    axis: QualityAxis,
    level: int,
    radius: int,
) -> bool {
    forall|l: int|
        axis.min <= l <= axis.max && level - radius <= l <= level + radius ==> tried_level(
            samples,
            l,
            true,
        ) || #[trigger] tried_level(samples, l, false)
}

/// Whether a sample passed every gate and no other one that did has fewer bytes, nor as many at a
/// higher level.
pub open spec fn smallest_passing(samples: Seq<Sample>, i: int) -> bool {
    &&& 0 <= i < samples.len()
    &&& samples[i].evaluation.accepted
    &&& forall|j: int|
        0 <= j < samples.len() && (#[trigger] samples[j]).evaluation.accepted ==> {
            ||| samples[i].evaluation.bytes < samples[j].evaluation.bytes
            ||| samples[i].evaluation.bytes == samples[j].evaluation.bytes
                && samples[i].evaluation.level >= samples[j].evaluation.level
        }
}

/// Bisection that ends before the cap leaves nothing between what it accepted and what it did
/// not.
proof fn lemma_bisected_ends(
    accept: spec_fn(int) -> bool,
    axis: QualityAxis,
    lo: int,
    hi: int,
    boundary: Option<int>,
    seen: Set<int>,
    cap: nat,
    steps: nat,
)
    requires
        seen.finite(),
        axis.min <= lo,
        lo <= hi + 1,
        hi <= axis.max,
        lo == axis.min || (seen.contains(lo - 1) && !accept(lo - 1)),
        (match boundary {
            None => hi == axis.max,
            Some(b) => b == hi + 1 && accept(b) && seen.contains(b),
        }),
        forall|l: int| lo <= l <= hi ==> !#[trigger] seen.contains(l),
        bisected(accept, lo, hi, boundary, seen, cap).1.len() < cap || (hi - lo + 1 < doublings(
            steps,
        ) && seen.len() + steps <= cap),
    ensures
        ({
            let r = bisected(accept, lo, hi, boundary, seen, cap);
            match r.0 {
                None => axis.min <= axis.max ==> r.1.contains(axis.max as int) && !accept(
                    axis.max as int,
                ),
                Some(b) => axis.min <= b <= hi + 1 && accept(b) && r.1.contains(b) && (b == axis.min
                    || (r.1.contains(b - 1) && !accept(b - 1))),
            }
        }),
    decreases
            (if lo <= hi {
                hi - lo + 1
            } else {
                0
            }),
{
    let mid = (lo + hi) / 2;
    if lo <= hi {
        lemma_bisected(accept, lo, hi, boundary, seen, cap);
        if seen.len() >= cap {
            assert(steps == 0);
        } else {
            assert(!seen.contains(mid));
            let fewer = (steps - 1) as nat;
            if steps > 0 {
                assert(doublings(steps) == 2 * doublings(fewer));
            }
            if accept(mid) {
                lemma_bisected_ends(
                    accept,
                    axis,
                    lo,
                    mid - 1,
                    Some(mid),
                    seen.insert(mid),
                    cap,
                    fewer,
                );
            } else {
                lemma_bisected_ends(
                    accept,
                    axis,
                    mid + 1,
                    hi,
                    boundary,
                    seen.insert(mid),
                    cap,
                    fewer,
                );
            }
        }
    }
}

/// Sweeping that ends before the cap has seen its whole range.
proof fn lemma_swept_whole(seen: Set<int>, from: int, to: int, cap: nat)
    requires
        seen.finite(),
        swept(seen, from, to, cap).len() < cap,
    ensures
        forall|l: int| from <= l <= to ==> #[trigger] swept(seen, from, to, cap).contains(l),
    decreases
            (if from <= to {
                to - from + 1
            } else {
                0
            }),
{
    lemma_swept(seen, from, to, cap);
    if from <= to {
        if seen.len() >= cap {
            vstd::set_lib::lemma_len_subset(seen, swept(seen, from, to, cap));
        } else {
            lemma_swept(seen.insert(from), from + 1, to, cap);
            lemma_swept_whole(seen.insert(from), from + 1, to, cap);
        }
    }
}

proof fn lemma_seen_is_tried(samples: Seq<Sample>, level: int)
    requires
        ascending(samples),
        levels(samples).to_set().contains(level),
    ensures
        tried_level(samples, level, accepted_levels(samples)(level)),
{
    let i = choose|i: int| 0 <= i < levels(samples).len() && levels(samples)[i] == level;
    assert(samples[i].evaluation.level == level);
    lemma_accepted_agrees(samples);
}

/// The search does what it is for. Where the budget is not used up, or suffices to halve the axis
/// away, it finds a level that passes with none below it, or one below it that does not pass, and
/// without such a level the highest one does not pass.
pub proof fn lemma_search_finds_where_acceptance_begins<'a, C: Codec, M: Metric>(
    codec: &C,
    image: &Image,
    gates: Seq<Gate<'a, M>>,
    metadata: MetadataPolicy,
    budget: SearchBudget,
    samples: Seq<Sample>,
    best: Option<u32>,
)
    requires
        searched(codec, image, gates, metadata, budget, samples, Ok(best)),
    ensures
        exists|axis: QualityAxis| #[trigger]
            call_ensures(C::quality_axis, (codec,), axis) && (samples.len()
                < budget.max_evaluations_per_format || axis.max - axis.min + 1 < doublings(
                budget.max_evaluations_per_format as nat,
            ) ==> (match best {
                None => axis.min <= axis.max ==> tried_level(samples, axis.max as int, false),
                Some(_) => exists|b: int| #[trigger] begins_at(samples, axis.min as int, b),
            })),
{
    let axis = choose|axis: QualityAxis| #[trigger]
        call_ensures(C::quality_axis, (codec,), axis) && searched_on(
            codec,
            image,
            gates,
            metadata,
            axis,
            budget,
            samples,
            Ok(best),
        );
    if samples.len() < budget.max_evaluations_per_format || axis.max - axis.min + 1 < doublings(
        budget.max_evaluations_per_format as nat,
    ) {
        lemma_begins_on_axis(samples, axis, budget, best);
    }
}

proof fn lemma_begins_on_axis(
    samples: Seq<Sample>,
    axis: QualityAxis,
    budget: SearchBudget,
    best: Option<u32>,
)
    requires
        ascending(samples),
        levels(samples).to_set() == examined(accepted_levels(samples), axis, budget),
        is_best(samples, best),
        samples.len() < budget.max_evaluations_per_format || axis.max - axis.min + 1 < doublings(
            budget.max_evaluations_per_format as nat,
        ),
    ensures
        (match best {
            None => axis.min <= axis.max ==> tried_level(samples, axis.max as int, false),
            Some(_) => {
                &&& bisection(accepted_levels(samples), axis, budget).0 is Some
                &&& begins_at(
                    samples,
                    axis.min as int,
                    bisection(accepted_levels(samples), axis, budget).0->0,
                )
                &&& axis.min <= bisection(accepted_levels(samples), axis, budget).0->0 <= axis.max
            },
        }),
{
    let accept = accepted_levels(samples);
    let cap = budget.max_evaluations_per_format as nat;
    lemma_accepted_agrees(samples);
    lemma_level_count(samples);
    lemma_examined_within_budget(accept, axis, budget);
    lemma_bisected(accept, axis.min as int, axis.max as int, None, Set::empty(), cap);
    let (boundary, seen) = bisection(accept, axis, budget);
    if boundary is Some {
        let b = boundary->0;
        lemma_swept(seen, sweep_from(b, axis, budget), sweep_to(b, axis, budget), cap);
    }
    vstd::set_lib::lemma_len_subset(seen, examined(accept, axis, budget));
    if axis.min <= axis.max {
        lemma_bisected_ends(
            accept,
            axis,
            axis.min as int,
            axis.max as int,
            None,
            Set::empty(),
            cap,
            cap,
        );
    }
    match boundary {
        None => {
            if axis.min <= axis.max {
                lemma_seen_is_tried(samples, axis.max as int);
            }
            if best is Some {
                let i = choose|i: int| #[trigger]
                    best_at(samples, i) && samples[i].evaluation.level == best->0;
                lemma_none_accepted(accept, axis, budget, samples, i);
            }
        },
        Some(b) => {
            lemma_seen_is_tried(samples, b);
            if b != axis.min {
                lemma_seen_is_tried(samples, b - 1);
            }
            if best is None {
                let i = choose|i: int|
                    0 <= i < samples.len() && (#[trigger] samples[i]).evaluation.level == b
                        && samples[i].evaluation.accepted == true;
                assert(!samples[i].evaluation.accepted);
            }
        },
    }
}

/// Without a boundary nothing that was evaluated was accepted.
proof fn lemma_none_accepted(
    accept: spec_fn(int) -> bool,
    axis: QualityAxis,
    budget: SearchBudget,
    samples: Seq<Sample>,
    i: int,
)
    requires
        agrees(accept, samples),
        bisection(accept, axis, budget).0 is None,
        levels(samples).to_set() == examined(accept, axis, budget),
        0 <= i < samples.len(),
    ensures
        !samples[i].evaluation.accepted,
{
    let cap = budget.max_evaluations_per_format as nat;
    lemma_bisected_rejects(accept, axis.min as int, axis.max as int, Set::empty(), cap);
    assert(levels(samples)[i] == samples[i].evaluation.level);
    assert(levels(samples).to_set().contains(samples[i].evaluation.level as int));
}

proof fn lemma_bisected_rejects(
    accept: spec_fn(int) -> bool,
    lo: int,
    hi: int,
    seen: Set<int>,
    cap: nat,
)
    requires
        seen.finite(),
        bisected(accept, lo, hi, None, seen, cap).0 is None,
    ensures
        forall|l: int| #[trigger]
            bisected(accept, lo, hi, None, seen, cap).1.contains(l) ==> seen.contains(l) || !accept(
                l,
            ),
    decreases
            (if lo <= hi {
                hi - lo + 1
            } else {
                0
            }),
{
    let mid = (lo + hi) / 2;
    if !(lo > hi || seen.len() >= cap) {
        if accept(mid) {
            lemma_bisected(accept, lo, mid - 1, Some(mid), seen.insert(mid), cap);
        } else {
            lemma_bisected_rejects(accept, mid + 1, hi, seen.insert(mid), cap);
        }
    }
}

/// Where the budget is not used up, every level of the axis within the radius of where acceptance
/// begins was evaluated, and of all levels evaluated the one returned passes with the fewest bytes,
/// and among those with as many at the highest level.
pub proof fn lemma_neighborhood_is_evaluated<'a, C: Codec, M: Metric>(
    codec: &C,
    image: &Image,
    gates: Seq<Gate<'a, M>>,
    metadata: MetadataPolicy,
    budget: SearchBudget,
    samples: Seq<Sample>,
    level: u32,
)
    requires
        searched(codec, image, gates, metadata, budget, samples, Ok(Some(level))),
        samples.len() < budget.max_evaluations_per_format,
    ensures
        exists|axis: QualityAxis, b: int, i: int|
            {
                &&& #[trigger] call_ensures(C::quality_axis, (codec,), axis)
                &&& #[trigger] begins_at(samples, axis.min as int, b)
                &&& surrounded(samples, axis, b, budget.sweep_radius as int)
                &&& #[trigger] smallest_passing(samples, i)
                &&& samples[i].evaluation.level == level
            },
{
    let axis = choose|axis: QualityAxis| #[trigger]
        call_ensures(C::quality_axis, (codec,), axis) && searched_on(
            codec,
            image,
            gates,
            metadata,
            axis,
            budget,
            samples,
            Ok(Some(level)),
        );
    let accept = accepted_levels(samples);
    let cap = budget.max_evaluations_per_format as nat;
    lemma_level_count(samples);
    lemma_begins_on_axis(samples, axis, budget, Some(level));
    lemma_bisected(accept, axis.min as int, axis.max as int, None, Set::empty(), cap);
    let (boundary, seen) = bisection(accept, axis, budget);
    let b = boundary->0;
    lemma_swept_whole(seen, sweep_from(b, axis, budget), sweep_to(b, axis, budget), cap);
    assert forall|l: int|
        axis.min <= l <= axis.max && b - budget.sweep_radius <= l <= b
            + budget.sweep_radius implies tried_level(samples, l, true) || #[trigger] tried_level(
        samples,
        l,
        false,
    ) by {
        assert(examined(accept, axis, budget).contains(l));
        lemma_seen_is_tried(samples, l);
    }
    assert(surrounded(samples, axis, b, budget.sweep_radius as int));
    let i = lemma_smallest_is_returned(
        codec,
        image,
        gates,
        metadata,
        budget,
        samples,
        level,
    );
    assert(smallest_passing(samples, i));
    assert(begins_at(samples, axis.min as int, b));
}

/// Whatever the budget, the level returned passes with the fewest bytes of all levels evaluated
/// that pass, and among those with as many it is the highest.
pub proof fn lemma_smallest_is_returned<'a, C: Codec, M: Metric>(
    codec: &C,
    image: &Image,
    gates: Seq<Gate<'a, M>>,
    metadata: MetadataPolicy,
    budget: SearchBudget,
    samples: Seq<Sample>,
    level: u32,
) -> (i: int)
    requires
        searched(codec, image, gates, metadata, budget, samples, Ok(Some(level))),
    ensures
        smallest_passing(samples, i),
        samples[i].evaluation.level == level,
{
    let axis = choose|axis: QualityAxis| #[trigger]
        call_ensures(C::quality_axis, (codec,), axis) && searched_on(
            codec,
            image,
            gates,
            metadata,
            axis,
            budget,
            samples,
            Ok(Some(level)),
        );
    let i = choose|i: int| #[trigger]
        best_at(samples, i) && samples[i].evaluation.level == level;
    assert forall|j: int|
        0 <= j < samples.len() && (#[trigger] samples[j]).evaluation.accepted implies {
        ||| samples[i].evaluation.bytes < samples[j].evaluation.bytes
        ||| samples[i].evaluation.bytes == samples[j].evaluation.bytes
            && samples[i].evaluation.level >= samples[j].evaluation.level
    } by {
        if j != i {
            assert(samples[i].evaluation@.precedes(samples[j].evaluation@));
        }
    }
    i
}

/// Every sample is an encoding of the image itself at the level it is reported with, under the
/// metadata policy of the request, and it is accepted exactly where the score of every gate's
/// metric, for the decoded encoding against the image, is on the right side of its threshold.
pub proof fn lemma_samples_are_encodings_of_the_image<'a, C: Codec, M: Metric>(
    codec: &C,
    image: &Image,
    gates: Seq<Gate<'a, M>>,
    metadata: MetadataPolicy,
    budget: SearchBudget,
    samples: Seq<Sample>,
    r: Result<Option<u32>, String>,
    i: int,
)
    requires
        searched(codec, image, gates, metadata, budget, samples, r),
        0 <= i < samples.len(),
    ensures
        exists|encoded: Encoded, stream: &[u8], decoded: Image|
            {
                &&& #[trigger] call_ensures(
                    C::encode,
                    (
                        codec,
                        image,
                        &EncodeSettings { level: samples[i].evaluation.level, metadata },
                    ),
                    Ok(encoded),
                )
                &&& #[trigger] call_ensures(C::decode, (codec, stream), Ok(decoded))
                &&& stream@ == encoded.bytes@
                &&& samples[i].bytes@ == encoded.bytes@
                &&& samples[i].evaluation.bytes == encoded.bytes@.len()
                &&& samples[i].evaluation.metrics@.len() == gates.len()
                &&& forall|k: int|
                    0 <= k < gates.len() ==> call_ensures(
                        M::measure,
                        (gates[k].metric, image, &decoded),
                        Ok(#[trigger] samples[i].evaluation.metrics@[k]),
                    )
            },
        samples[i].evaluation.accepted <==> forall|k: int|
            0 <= k < gates.len() ==> report::on_the_right_side(
                (#[trigger] samples[i].evaluation.metrics@[k]).direction,
                samples[i].evaluation.metrics@[k].score.bits,
                gates[k].spec.threshold.bits,
            ),
{
    let axis = choose|axis: QualityAxis| #[trigger]
        call_ensures(C::quality_axis, (codec,), axis) && searched_on(
            codec,
            image,
            gates,
            metadata,
            axis,
            budget,
            samples,
            r,
        );
    let s = samples[i];
    let (encoded, decoded) = choose|encoded: Encoded, decoded: Image| #[trigger]
        assessed(codec, image, gates, metadata, s.evaluation.level, encoded, decoded, s);
    let stream = choose|stream: &[u8]|
        stream@ == encoded.bytes@ && #[trigger] call_ensures(
            C::decode,
            (codec, stream),
            Ok(decoded),
        );
    assert(s.evaluation@.metrics == s.evaluation.metrics@);
    assert forall|k: int| 0 <= k < gates.len() implies call_ensures(
        M::measure,
        (gates[k].metric, image, &decoded),
        Ok(#[trigger] s.evaluation.metrics@[k]),
    ) by {
        assert(measures(gates[k], image, decoded, Ok(s.evaluation@.metrics[k])));
    }
    assert forall|k: int| 0 <= k < gates.len() implies (
    #[trigger] s.evaluation.metrics@[k]).direction.meets_spec(
        s.evaluation.metrics@[k].score,
        gates[k].spec.threshold,
    ) == report::on_the_right_side(
        s.evaluation.metrics@[k].direction,
        s.evaluation.metrics@[k].score.bits,
        gates[k].spec.threshold.bits,
    ) by {
        report::lemma_meets_is_the_order_of_numbers(
            s.evaluation.metrics@[k].direction,
            s.evaluation.metrics@[k].score,
            gates[k].spec.threshold,
        );
    }
    assert(call_ensures(
        C::encode,
        (codec, image, &EncodeSettings { level: s.evaluation.level, metadata }),
        Ok(encoded),
    ));
}

/// The encoding behind a sample.
pub(crate) proof fn lemma_sample_is_encoded<'a, C: Codec, M: Metric>(
    codec: &C,
    image: &Image,
    gates: Seq<Gate<'a, M>>,
    metadata: MetadataPolicy,
    budget: SearchBudget,
    samples: Seq<Sample>,
    r: Result<Option<u32>, String>,
    i: int,
) -> (encoded: Encoded)
    requires
        searched(codec, image, gates, metadata, budget, samples, r),
        0 <= i < samples.len(),
    ensures
        call_ensures(
            C::encode,
            (codec, image, &EncodeSettings { level: samples[i].evaluation.level, metadata }),
            Ok(encoded),
        ),
        call_ensures(C::format, (codec,), samples[i].evaluation.format),
        samples[i].bytes@ == encoded.bytes@,
{
    let axis = choose|axis: QualityAxis| #[trigger]
        call_ensures(C::quality_axis, (codec,), axis) && searched_on(
            codec,
            image,
            gates,
            metadata,
            axis,
            budget,
            samples,
            r,
        );
    let s = samples[i];
    let (encoded, decoded) = choose|encoded: Encoded, decoded: Image| #[trigger]
        assessed(codec, image, gates, metadata, s.evaluation.level, encoded, decoded, s);
    encoded
}

/// The decoded encoding behind a sample, and its measurements.
pub(crate) proof fn lemma_sample_is_measured<'a, 'b, C: Codec, M: Metric>(
    codec: &C,
    image: &Image,
    gates: Seq<Gate<'a, M>>,
    metadata: MetadataPolicy,
    budget: SearchBudget,
    samples: Seq<Sample>,
    r: Result<Option<u32>, String>,
    i: int,
) -> (m: (&'b [u8], Image))
    requires
        searched(codec, image, gates, metadata, budget, samples, r),
        0 <= i < samples.len(),
    ensures
        call_ensures(C::decode, (codec, m.0), Ok(m.1)),
        m.0@ == samples[i].bytes@,
        samples[i].evaluation.metrics@.len() == gates.len(),
        forall|k: int|
            0 <= k < gates.len() ==> call_ensures(
                M::measure,
                (gates[k].metric, image, &m.1),
                Ok(#[trigger] samples[i].evaluation.metrics@[k]),
            ),
{
    let axis = choose|axis: QualityAxis| #[trigger]
        call_ensures(C::quality_axis, (codec,), axis) && searched_on(
            codec,
            image,
            gates,
            metadata,
            axis,
            budget,
            samples,
            r,
        );
    let s = samples[i];
    let (encoded, decoded) = choose|encoded: Encoded, decoded: Image| #[trigger]
        assessed(codec, image, gates, metadata, s.evaluation.level, encoded, decoded, s);
    let stream = choose|stream: &[u8]|
        stream@ == encoded.bytes@ && #[trigger] call_ensures(
            C::decode,
            (codec, stream),
            Ok(decoded),
        );
    assert(s.evaluation@.metrics == s.evaluation.metrics@);
    assert forall|k: int| 0 <= k < gates.len() implies call_ensures(
        M::measure,
        (gates[k].metric, image, &decoded),
        Ok(#[trigger] s.evaluation.metrics@[k]),
    ) by {
        assert(measures(gates[k], image, decoded, Ok(s.evaluation@.metrics[k])));
    }
    (stream, decoded)
}

} // verus!
