//! Benchmark sweeps: every quality level of every format on an image.
//!
//! Strategies are evaluated offline from the same table, so every strategy is judged on
//! identical encodes. Sweeps are resumable: what an earlier run measured is skipped.

use std::time::Duration;

use vstd::prelude::*;

use crate::clock;
use crate::codecs::{Codec, CodecError, EncodeSettings, Encoded, QualityAxis};
use crate::geometry::{DimensionPolicy, Dimensions};
use crate::metrics::{Metric, MetricError};
use crate::pipeline::{self, DecodedSource, ImagePipeline, PipelineError};
use crate::report::{CodecId, ComponentId, MetricId, MetricResult};
use crate::request::MetadataPolicy;
use crate::search;
use crate::text;
use crate::types::{Image, ImageFormat};

verus! {

/// The levels of a sweep that were not done before.
pub open spec fn pending(from: nat, to: nat, step: nat, done: Seq<u32>) -> Seq<u32>
    decreases
            (if from <= to {
                to - from + 1
            } else {
                0
            }),
{
    if from > to || step == 0 {
        Seq::empty()
    } else if done.contains(from as u32) {
        pending(from + step, to, step, done)
    } else {
        seq![from as u32] + pending(from + step, to, step, done)
    }
}

/// Whether a level was done before.
fn is_done(done: &Vec<u32>, level: u32) -> (r: bool)
    ensures
        r == done@.contains(level),
{
    let mut i: usize = 0;
    while i < done.len()
        invariant
            i <= done@.len(),
            forall|j: int| 0 <= j < i ==> done@[j] != level,
        decreases done@.len() - i,
    {
        if done[i] == level {
            return true;
        }
        i = i + 1;
    }
    false
}

/// The levels that a sweep still has to run, in ascending order.
pub fn pending_levels(axis: QualityAxis, step: u32, done: &Vec<u32>) -> (r: Vec<u32>)
    requires
        step > 0,
    ensures
        r@ == pending(axis.min as nat, axis.max as nat, step as nat, done@),
{
    let mut out: Vec<u32> = Vec::new();
    let mut level: u64 = axis.min as u64;
    proof {
        assert(out@ + pending(level as nat, axis.max as nat, step as nat, done@) =~= pending(
            level as nat,
            axis.max as nat,
            step as nat,
            done@,
        ));
    }
    while level <= axis.max as u64
        invariant
            step > 0,
            level <= 0x2_0000_0000,
            out@ + pending(level as nat, axis.max as nat, step as nat, done@) == pending(
                axis.min as nat,
                axis.max as nat,
                step as nat,
                done@,
            ),
        decreases 0x2_0000_0000 - level,
    {
        let ghost before = out@;
        let ghost rest = pending((level + step) as nat, axis.max as nat, step as nat, done@);
        if !is_done(done, level as u32) {
            out.push(level as u32);
            proof {
                assert(out@ + rest =~= before + (seq![level as u32] + rest));
            }
        }
        level = level + step as u64;
    }
    proof {
        assert(out@ + Seq::<u32>::empty() =~= out@);
    }
    out
}

/// What is left of a sweep are the levels at the steps of the axis that were not done.
pub proof fn lemma_pending_is_what_is_left(
    axis: QualityAxis,
    step: u32,
    done: Seq<u32>,
    level: u32,
)
    requires
        step > 0,
    ensures
        pending(axis.min as nat, axis.max as nat, step as nat, done).contains(level) <==> {
            &&& axis.contains(level as int)
            &&& (level - axis.min) % (step as int) == 0
            &&& !done.contains(level)
        },
{
    lemma_pending_from(axis.min as nat, axis.max as nat, step as nat, done, level);
}

proof fn lemma_pending_from(from: nat, to: nat, step: nat, done: Seq<u32>, level: u32)
    requires
        step > 0,
        to <= u32::MAX,
    ensures
        pending(from, to, step, done).contains(level) <==> from <= level <= to && (level - from)
            % (step as int) == 0 && !done.contains(level),
    decreases
            (if from <= to {
                to - from + 1
            } else {
                0
            }),
{
    if from <= to {
        let rest = pending(from + step, to, step, done);
        let all = pending(from, to, step, done);
        lemma_pending_from(from + step, to, step, done, level);
        assert((level - (from + step)) % (step as int) == (level - from) % (step as int)) by {
            vstd::arithmetic::div_mod::lemma_mod_sub_multiples_vanish(
                level - from,
                step as int,
            );
            assert(level - (from + step) == -(step as int) + (level - from));
        }
        if from < level < from + step {
            vstd::arithmetic::div_mod::lemma_small_mod((level - from) as nat, step);
        }
        if level == from {
            vstd::arithmetic::div_mod::lemma_small_mod(0, step);
        }
        if !done.contains(from as u32) {
            assert(all =~= seq![from as u32] + rest);
            assert(all[0] == from as u32);
            if rest.contains(level) {
                let k = choose|k: int| 0 <= k < rest.len() && rest[k] == level;
                assert(all[k + 1] == level);
            }
            if all.contains(level) && level != from {
                let k = choose|k: int| 0 <= k < all.len() && all[k] == level;
                assert(rest[k - 1] == level);
            }
        }
    }
}

/// One measured candidate.
#[derive(Debug)]
pub struct SweepRow {
    pub format: ImageFormat,
    pub level: u32,
    pub bytes: u64,
    pub encode_time: Duration,
    pub metrics: Vec<MetricResult>,
    pub metric_times: Vec<Duration>,
}

/// Whether a row is what encoding an image at a level, decoding it again and measuring it
/// against the image gave. Times are the machine's, and nothing is said of them.
pub open spec fn measured<C: Codec, M: Metric>(
    codec: &C,
    metrics: Seq<M>,
    image: &Image,
    level: u32,
    row: SweepRow,
) -> bool {
    exists|encoded: Encoded, decoded: Image| #[trigger]
        measured_on(codec, metrics, image, level, encoded, decoded, row)
}

/// The parts of [`measured`], with the encoding and its decoded image.
pub open spec fn measured_on<C: Codec, M: Metric>(
    codec: &C,
    metrics: Seq<M>,
    image: &Image,
    level: u32,
    encoded: Encoded,
    decoded: Image,
    row: SweepRow,
) -> bool {
    &&& search::encodes(codec, image, MetadataPolicy::KeepIccOnly, level, Ok(encoded))
    &&& search::decodes(codec, encoded.bytes@, Ok(decoded))
    &&& row.metrics@.len() == metrics.len()
    &&& row.metric_times@.len() == metrics.len()
    &&& forall|k: int|
        0 <= k < metrics.len() ==> scores(
            &metrics[k],
            image,
            &decoded,
            Ok(#[trigger] row.metrics@[k]),
        )
    &&& call_ensures(C::format, (codec,), row.format)
    &&& row.level == level
    &&& row.bytes == encoded.bytes@.len()
}

/// What a metric may return for a decoded candidate.
pub open spec fn scores<M: Metric>(
    metric: &M,
    image: &Image,
    decoded: &Image,
    r: Result<MetricResult, MetricError>,
) -> bool {
    call_ensures(M::measure, (metric, image, decoded), r)
}

/// Whether measuring a level came to nothing with a message: the encoder, the decoder or a
/// metric failed.
pub open spec fn unmeasured<C: Codec, M: Metric>(
    codec: &C,
    metrics: Seq<M>,
    image: &Image,
    level: u32,
    message: Seq<char>,
) -> bool {
    ||| exists|e: CodecError| #[trigger]
        search::encodes(codec, image, MetadataPolicy::KeepIccOnly, level, Err(e)) && message
            == e.message_spec()
    ||| exists|encoded: Encoded, e: CodecError| #[trigger]
        undecoded(codec, image, level, encoded, e) && message == e.message_spec()
    ||| exists|encoded: Encoded, decoded: Image, k: int, e: MetricError| #[trigger]
        unscored(codec, metrics, image, level, encoded, decoded, k, e) && message
            == e.message_spec()
}

/// Whether an encoding could not be decoded.
pub open spec fn undecoded<C: Codec>(
    codec: &C,
    image: &Image,
    level: u32,
    encoded: Encoded,
    e: CodecError,
) -> bool {
    &&& search::encodes(codec, image, MetadataPolicy::KeepIccOnly, level, Ok(encoded))
    &&& search::decodes(codec, encoded.bytes@, Err(e))
}

/// Whether a metric scored a decoded candidate.
pub open spec fn scored_by<M: Metric>(metric: &M, image: &Image, decoded: &Image) -> bool {
    exists|m: MetricResult| #[trigger] scores(metric, image, decoded, Ok(m))
}

/// Whether a metric was the first to fail on a decoded candidate.
pub open spec fn unscored<C: Codec, M: Metric>(
    codec: &C,
    metrics: Seq<M>,
    image: &Image,
    level: u32,
    encoded: Encoded,
    decoded: Image,
    k: int,
    e: MetricError,
) -> bool {
    &&& search::encodes(codec, image, MetadataPolicy::KeepIccOnly, level, Ok(encoded))
    &&& search::decodes(codec, encoded.bytes@, Ok(decoded))
    &&& 0 <= k < metrics.len()
    &&& forall|j: int| 0 <= j < k ==> scored_by(&#[trigger] metrics[j], image, &decoded)
    &&& scores(&metrics[k], image, &decoded, Err(e))
}

/// Measures one level.
pub fn sweep_level<C: Codec, M: Metric>(
    codec: &C,
    metrics: &Vec<M>,
    image: &Image,
    level: u32,
) -> (r: Result<SweepRow, String>)
    ensures
        (match r {
            Ok(row) => measured(codec, metrics@, image, level, row),
            Err(message) => unmeasured(codec, metrics@, image, level, message@),
        }),
{
    let settings = EncodeSettings { level, metadata: MetadataPolicy::KeepIccOnly };
    let started = clock::now();
    let encoded: Encoded = match codec.encode(image, &settings) {
        Ok(encoded) => encoded,
        Err(e) => {
            proof {
                assert(search::encodes(
                    codec,
                    image,
                    MetadataPolicy::KeepIccOnly,
                    level,
                    Err(e),
                ));
            }
            return Err(e.message());
        },
    };
    let encode_time: Duration = clock::since(&started);
    let stream: &[u8] = encoded.bytes.as_slice();
    let decoded: Image = match codec.decode(stream) {
        Ok(decoded) => decoded,
        Err(e) => {
            proof {
                assert(search::decodes(codec, encoded.bytes@, Err(e)));
                assert(undecoded(codec, image, level, encoded, e));
            }
            return Err(e.message());
        },
    };
    proof {
        assert(search::decodes(codec, encoded.bytes@, Ok(decoded)));
    }
    let mut results: Vec<MetricResult> = Vec::new();
    let mut times: Vec<Duration> = Vec::new();
    let mut k: usize = 0;
    while k < metrics.len()
        invariant
            k <= metrics@.len(),
            results@.len() == k,
            times@.len() == k,
            search::encodes(codec, image, MetadataPolicy::KeepIccOnly, level, Ok(encoded)),
            search::decodes(codec, encoded.bytes@, Ok(decoded)),
            forall|j: int|
                0 <= j < k ==> scores(
                    &metrics@[j],
                    image,
                    &decoded,
                    Ok(#[trigger] results@[j]),
                ),
        decreases metrics@.len() - k,
    {
        let started = clock::now();
        match metrics[k].measure(image, &decoded) {
            Ok(result) => {
                times.push(clock::since(&started));
                results.push(result);
            },
            Err(e) => {
                proof {
                    assert forall|j: int| 0 <= j < k implies scored_by(
                        &#[trigger] metrics@[j],
                        image,
                        &decoded,
                    ) by {
                        assert(scores(&metrics@[j], image, &decoded, Ok(results@[j])));
                    }
                    assert(unscored(
                        codec,
                        metrics@,
                        image,
                        level,
                        encoded,
                        decoded,
                        k as int,
                        e,
                    ));
                }
                return Err(e.message());
            },
        }
        k = k + 1;
    }
    let row = SweepRow {
        format: codec.format(),
        level,
        bytes: encoded.bytes.len() as u64,
        encode_time,
        metrics: results,
        metric_times: times,
    };
    proof {
        assert(measured_on(codec, metrics@, image, level, encoded, decoded, row));
    }
    Ok(row)
}

/// Whether a level can be measured.
pub open spec fn measurable<C: Codec, M: Metric>(
    codec: &C,
    metrics: Seq<M>,
    image: &Image,
    level: u32,
) -> bool {
    exists|row: SweepRow| #[trigger] measured(codec, metrics, image, level, row)
}

/// Whether a result is what measuring some levels gave: a row for each, or the message about the
/// first that could not be measured.
pub open spec fn swept_levels<C: Codec, M: Metric>(
    codec: &C,
    metrics: Seq<M>,
    image: &Image,
    levels: Seq<u32>,
    r: Result<Seq<SweepRow>, Seq<char>>,
) -> bool {
    match r {
        Ok(rows) => rows.len() == levels.len() && forall|i: int|
            0 <= i < levels.len() ==> measured(
                codec,
                metrics,
                image,
                #[trigger] levels[i],
                rows[i],
            ),
        Err(message) => stopped(codec, metrics, image, levels, message),
    }
}

/// Whether there is a level that is the first that could not be measured.
pub open spec fn stopped<C: Codec, M: Metric>(
    codec: &C,
    metrics: Seq<M>,
    image: &Image,
    levels: Seq<u32>,
    message: Seq<char>,
) -> bool {
    exists|i: int| #[trigger] stopped_at(codec, metrics, image, levels, i, message)
}

/// Whether a level is the first that could not be measured.
pub open spec fn stopped_at<C: Codec, M: Metric>(
    codec: &C,
    metrics: Seq<M>,
    image: &Image,
    levels: Seq<u32>,
    i: int,
    message: Seq<char>,
) -> bool {
    &&& 0 <= i < levels.len()
    &&& unmeasured(codec, metrics, image, levels[i], message)
    &&& forall|j: int| 0 <= j < i ==> measurable(codec, metrics, image, #[trigger] levels[j])
}

/// The rows of a sweep, or what is said about its end.
pub open spec fn swept(r: Result<Vec<SweepRow>, String>) -> Result<Seq<SweepRow>, Seq<char>> {
    match r {
        Ok(rows) => Ok(rows@),
        Err(message) => Err(message@),
    }
}

/// Measures some levels, as long as nothing fails.
pub fn sweep_levels<C: Codec, M: Metric>(
    codec: &C,
    metrics: &Vec<M>,
    image: &Image,
    levels: &Vec<u32>,
) -> (r: Result<Vec<SweepRow>, String>)
    ensures
        swept_levels(codec, metrics@, image, levels@, swept(r)),
{
    let mut rows: Vec<SweepRow> = Vec::new();
    let mut i: usize = 0;
    while i < levels.len()
        invariant
            i <= levels@.len(),
            rows@.len() == i,
            forall|j: int|
                0 <= j < i ==> measured(codec, metrics@, image, #[trigger] levels@[j], rows@[j]),
        decreases levels@.len() - i,
    {
        match sweep_level(codec, metrics, image, levels[i]) {
            Ok(row) => {
                rows.push(row);
            },
            Err(message) => {
                proof {
                    assert(unmeasured(codec, metrics@, image, levels@[i as int], message@));
                    assert forall|j: int| 0 <= j < i implies measurable(
                        codec,
                        metrics@,
                        image,
                        #[trigger] levels@[j],
                    ) by {
                        assert(measured(codec, metrics@, image, levels@[j], rows@[j]));
                    }
                    assert(stopped_at(codec, metrics@, image, levels@, i as int, message@));
                }
                return Err(message);
            },
        }
        i = i + 1;
    }
    Ok(rows)
}

/// A candidate that an earlier run measured.
#[derive(Debug)]
pub struct DoneRow {
    pub image: String,
    pub format: ImageFormat,
    pub level: u32,
}

/// The levels of a format that were measured for an image.
pub open spec fn done_levels(
    done: Seq<DoneRow>,
    image: Seq<char>,
    format: ImageFormat,
) -> Seq<u32>
    decreases done.len(),
{
    if done.len() == 0 {
        Seq::empty()
    } else {
        let before = done_levels(done.drop_last(), image, format);
        if done.last().image@ == image && done.last().format == format {
            before.push(done.last().level)
        } else {
            before
        }
    }
}

/// The levels of a format that an earlier run measured for an image.
pub fn levels_done(done: &Vec<DoneRow>, image: &str, format: ImageFormat) -> (r: Vec<u32>)
    ensures
        r@ == done_levels(done@, image@, format),
{
    let mut out: Vec<u32> = Vec::new();
    let mut i: usize = 0;
    while i < done.len()
        invariant
            i <= done@.len(),
            out@ == done_levels(done@.take(i as int), image@, format),
        decreases done@.len() - i,
    {
        proof {
            assert(done@.take(i + 1).drop_last() =~= done@.take(i as int));
        }
        if done[i].format == format && text::same_text(done[i].image.as_str(), image) {
            out.push(done[i].level);
        }
        i = i + 1;
    }
    proof {
        assert(done@.take(i as int) =~= done@);
    }
    out
}

/// Whether a result is what sweeping a codec over what is not done yet gave.
#[verifier::opaque]
pub open spec fn swept_codec<C: Codec, M: Metric>(
    codec: &C,
    metrics: Seq<M>,
    step: u32,
    done: Seq<DoneRow>,
    name: Seq<char>,
    image: &Image,
    r: Result<Seq<SweepRow>, Seq<char>>,
) -> bool {
    exists|axis: QualityAxis, format: ImageFormat|
        {
            &&& #[trigger] call_ensures(C::quality_axis, (codec,), axis)
            &&& #[trigger] call_ensures(C::format, (codec,), format)
            &&& swept_levels(
                codec,
                metrics,
                image,
                pending(
                    axis.min as nat,
                    axis.max as nat,
                    step as nat,
                    done_levels(done, name, format),
                ),
                r,
            )
        }
}

/// Whether rows are what sweeping codecs one after the other gave.
pub open spec fn all_swept<C: Codec, M: Metric>(
    codecs: Seq<C>,
    metrics: Seq<M>,
    step: u32,
    done: Seq<DoneRow>,
    name: Seq<char>,
    image: &Image,
    rows: Seq<SweepRow>,
) -> bool
    decreases codecs.len(),
{
    if codecs.len() == 0 {
        rows.len() == 0
    } else {
        exists|cut: int|
            0 <= cut <= rows.len() && #[trigger] swept_codec(
                &codecs.last(),
                metrics,
                step,
                done,
                name,
                image,
                Ok(rows.skip(cut)),
            ) && all_swept(
                codecs.drop_last(),
                metrics,
                step,
                done,
                name,
                image,
                rows.take(cut),
            )
    }
}

/// Whether sweeping codecs one after the other came to nothing with a message, at the first codec
/// that failed.
pub open spec fn sweep_failed<C: Codec, M: Metric>(
    codecs: Seq<C>,
    metrics: Seq<M>,
    step: u32,
    done: Seq<DoneRow>,
    name: Seq<char>,
    image: &Image,
    message: Seq<char>,
) -> bool {
    exists|n: int, rows: Seq<SweepRow>|
        0 <= n < codecs.len() && #[trigger] swept_codec(
            &codecs[n],
            metrics,
            step,
            done,
            name,
            image,
            Err(message),
        ) && #[trigger] all_swept(codecs.take(n), metrics, step, done, name, image, rows)
}

/// Whether a result is what sweeping codecs one after the other gave.
pub open spec fn swept_codecs<C: Codec, M: Metric>(
    codecs: Seq<C>,
    metrics: Seq<M>,
    step: u32,
    done: Seq<DoneRow>,
    name: Seq<char>,
    image: &Image,
    r: Result<Seq<SweepRow>, Seq<char>>,
) -> bool {
    match r {
        Ok(rows) => all_swept(codecs, metrics, step, done, name, image, rows),
        Err(message) => sweep_failed(codecs, metrics, step, done, name, image, message),
    }
}

/// The measured candidates of an image.
#[derive(Debug)]
pub struct ImageSweep {
    pub source: Dimensions,
    pub dimensions: Dimensions,
    pub has_alpha: bool,
    pub rows: Vec<SweepRow>,
}

/// Whether a sweep is that of a reference which was made of a source.
pub open spec fn swept_reference<P: ImagePipeline, C: Codec, M: Metric>(
    pipeline: &P,
    policy: DimensionPolicy,
    codecs: Seq<C>,
    metrics: Seq<M>,
    step: u32,
    done: Seq<DoneRow>,
    name: Seq<char>,
    source: &Image,
    reference: &Image,
    r: Result<ImageSweep, String>,
) -> bool {
    match r {
        Ok(sweep) => {
            &&& sweep.source == source@.dimensions
            &&& sweep.dimensions == policy.target_spec(source@.dimensions)
            &&& sweep.has_alpha == reference@.transparent()
            &&& swept_codecs(codecs, metrics, step, done, name, reference, Ok(sweep.rows@))
        },
        Err(message) => swept_codecs(
            codecs,
            metrics,
            step,
            done,
            name,
            reference,
            Err(message@),
        ),
    }
}

/// Whether a result is what sweeping a decoded source gave: every candidate is measured against
/// the source at the dimensions that the policy asks for.
pub open spec fn swept_source<P: ImagePipeline, C: Codec, M: Metric>(
    pipeline: &P,
    policy: DimensionPolicy,
    codecs: Seq<C>,
    metrics: Seq<M>,
    step: u32,
    done: Seq<DoneRow>,
    name: Seq<char>,
    source: &Image,
    r: Result<ImageSweep, String>,
) -> bool {
    let dimensions = policy.target_spec(source@.dimensions);
    ||| exists|e: PipelineError| #[trigger]
        pipeline::fitted(pipeline, source, dimensions, Err(e)) && r is Err && r->Err_0@
            == e.message_spec()
    ||| exists|reference: Image| #[trigger]
        pipeline::fitted(pipeline, source, dimensions, Ok(reference)) && swept_reference(
            pipeline,
            policy,
            codecs,
            metrics,
            step,
            done,
            name,
            source,
            &reference,
            r,
        )
}

/// Whether a result is what sweeping an input gave.
pub open spec fn swept_image<P: ImagePipeline, C: Codec, M: Metric>(
    pipeline: &P,
    policy: DimensionPolicy,
    codecs: Seq<C>,
    metrics: Seq<M>,
    step: u32,
    done: Seq<DoneRow>,
    name: Seq<char>,
    input: &[u8],
    r: Result<ImageSweep, String>,
) -> bool {
    ||| exists|e: PipelineError| #[trigger]
        call_ensures(P::decode, (pipeline, input), Err(e)) && r is Err && r->Err_0@
            == e.message_spec()
    ||| exists|decoded: DecodedSource| #[trigger]
        call_ensures(P::decode, (pipeline, input), Ok(decoded)) && swept_source(
            pipeline,
            policy,
            codecs,
            metrics,
            step,
            done,
            name,
            &decoded.image,
            r,
        )
}

/// Sweeps a codec over the levels that are not done yet.
fn sweep_codec<C: Codec, M: Metric>(
    codec: &C,
    metrics: &Vec<M>,
    step: u32,
    done: &Vec<DoneRow>,
    name: &str,
    image: &Image,
) -> (r: Result<Vec<SweepRow>, String>)
    requires
        step > 0,
    ensures
        swept_codec(codec, metrics@, step, done@, name@, image, swept(r)),
{
    let axis: QualityAxis = codec.quality_axis();
    let format: ImageFormat = codec.format();
    let measured_before: Vec<u32> = levels_done(done, name, format);
    let levels: Vec<u32> = pending_levels(axis, step, &measured_before);
    let r = sweep_levels(codec, metrics, image, &levels);
    proof {
        reveal(swept_codec);
    }
    r
}

/// Measures every level of every codec on an input that was not measured before, at the
/// dimensions that a policy asks for.
pub fn sweep_image<P: ImagePipeline, C: Codec, M: Metric>(
    pipeline: &P,
    policy: DimensionPolicy,
    codecs: &Vec<C>,
    metrics: &Vec<M>,
    step: u32,
    done: &Vec<DoneRow>,
    name: &str,
    input: &[u8],
) -> (r: Result<ImageSweep, String>)
    requires
        step > 0,
    ensures
        swept_image(pipeline, policy, codecs@, metrics@, step, done@, name@, input, r),
{
    let decoded: DecodedSource = match pipeline.decode(input) {
        Ok(decoded) => decoded,
        Err(e) => {
            return Err(e.message());
        },
    };
    let source: Dimensions = decoded.image.dimensions();
    let dimensions: Dimensions = policy.target(source);
    let fitted = pipeline::fit(pipeline, &decoded.image, dimensions);
    proof {
        assert(pipeline::fitted(
            pipeline,
            &decoded.image,
            policy.target_spec(decoded.image@.dimensions),
            fitted,
        ));
    }
    let reference: Image = match fitted {
        Ok(reference) => reference,
        Err(e) => {
            let r = Err(e.message());
            proof {
                assert(swept_source(
                    pipeline,
                    policy,
                    codecs@,
                    metrics@,
                    step,
                    done@,
                    name@,
                    &decoded.image,
                    r,
                ));
            }
            return r;
        },
    };
    let has_alpha: bool = reference.has_transparency();
    let r: Result<ImageSweep, String> = match sweep_codecs(
        codecs,
        metrics,
        step,
        done,
        name,
        &reference,
    ) {
        Ok(rows) => Ok(ImageSweep { source, dimensions, has_alpha, rows }),
        Err(message) => Err(message),
    };
    proof {
        assert(swept_reference(
            pipeline,
            policy,
            codecs@,
            metrics@,
            step,
            done@,
            name@,
            &decoded.image,
            &reference,
            r,
        ));
        assert(swept_source(
            pipeline,
            policy,
            codecs@,
            metrics@,
            step,
            done@,
            name@,
            &decoded.image,
            r,
        ));
    }
    r
}

/// Sweeps codecs one after the other.
fn sweep_codecs<C: Codec, M: Metric>(
    codecs: &Vec<C>,
    metrics: &Vec<M>,
    step: u32,
    done: &Vec<DoneRow>,
    name: &str,
    image: &Image,
) -> (r: Result<Vec<SweepRow>, String>)
    requires
        step > 0,
    ensures
        swept_codecs(codecs@, metrics@, step, done@, name@, image, swept(r)),
{
    let mut rows: Vec<SweepRow> = Vec::new();
    let mut i: usize = 0;
    while i < codecs.len()
        invariant
            step > 0,
            i <= codecs@.len(),
            all_swept(codecs@.take(i as int), metrics@, step, done@, name@, image, rows@),
        decreases codecs@.len() - i,
    {
        let ghost before = rows@;
        let ghost here = codecs@.take(i + 1);
        proof {
            assert(here.drop_last() =~= codecs@.take(i as int));
            assert(here.last() == codecs@[i as int]);
        }
        match sweep_codec(&codecs[i], metrics, step, done, name, image) {
            Ok(more) => {
                let mut more: Vec<SweepRow> = more;
                let ghost added = more@;
                rows.append(&mut more);
                proof {
                    let cut = before.len() as int;
                    assert(rows@.take(cut) =~= before);
                    assert(rows@.skip(cut) =~= added);
                    assert(swept_codec(
                        &here.last(),
                        metrics@,
                        step,
                        done@,
                        name@,
                        image,
                        Ok(rows@.skip(cut)),
                    ));
                }
            },
            Err(message) => {
                proof {
                    assert(swept_codec(
                        &codecs@[i as int],
                        metrics@,
                        step,
                        done@,
                        name@,
                        image,
                        Err(message@),
                    ));
                }
                return Err(message);
            },
        }
        i = i + 1;
    }
    proof {
        assert(codecs@.take(i as int) =~= codecs@);
    }
    Ok(rows)
}

/// A codec of a run, with the settings it had.
#[derive(Debug)]
pub struct CodecSetup {
    pub format: String,
    pub id: CodecId,
    pub settings: String,
}

/// What a run directory is bound to, so that results from different settings never mix.
#[derive(Debug)]
pub struct RunConfig {
    pub max_dimension: u32,
    pub step: u32,
    pub codecs: Vec<CodecSetup>,
    pub metrics: Vec<MetricId>,
}

/// Whether two names with their versions are the same.
pub open spec fn same_component(a: ComponentId, b: ComponentId) -> bool {
    a.name@ == b.name@ && a.version@ == b.version@
}

/// Whether two codecs are the same, with the same settings.
pub open spec fn same_setup(a: CodecSetup, b: CodecSetup) -> bool {
    a.format@ == b.format@ && same_component(a.id, b.id) && a.settings@ == b.settings@
}

/// Whether two runs have the same settings.
pub open spec fn same_config(a: RunConfig, b: RunConfig) -> bool {
    &&& a.max_dimension == b.max_dimension
    &&& a.step == b.step
    &&& a.codecs@.len() == b.codecs@.len()
    &&& forall|i: int|
        0 <= i < a.codecs@.len() ==> same_setup(#[trigger] a.codecs@[i], b.codecs@[i])
    &&& a.metrics@.len() == b.metrics@.len()
    &&& forall|i: int|
        0 <= i < a.metrics@.len() ==> same_component(#[trigger] a.metrics@[i], b.metrics@[i])
}

fn is_same_component(a: &ComponentId, b: &ComponentId) -> (r: bool)
    ensures
        r == same_component(*a, *b),
{
    text::same_text(a.name.as_str(), b.name.as_str()) && text::same_text(
        a.version.as_str(),
        b.version.as_str(),
    )
}

impl RunConfig {
    /// Whether a run with these settings can go on in the directory of another.
    pub fn continues(&self, other: &RunConfig) -> (r: bool)
        ensures
            r == same_config(*self, *other),
    {
        if self.max_dimension != other.max_dimension || self.step != other.step {
            return false;
        }
        if self.codecs.len() != other.codecs.len() || self.metrics.len() != other.metrics.len() {
            return false;
        }
        let mut i: usize = 0;
        while i < self.codecs.len()
            invariant
                i <= self.codecs@.len(),
                self.codecs@.len() == other.codecs@.len(),
                forall|j: int|
                    0 <= j < i ==> same_setup(#[trigger] self.codecs@[j], other.codecs@[j]),
            decreases self.codecs@.len() - i,
        {
            let a: &CodecSetup = &self.codecs[i];
            let b: &CodecSetup = &other.codecs[i];
            if !(text::same_text(a.format.as_str(), b.format.as_str()) && is_same_component(
                &a.id,
                &b.id,
            ) && text::same_text(a.settings.as_str(), b.settings.as_str())) {
                assert(!same_setup(self.codecs@[i as int], other.codecs@[i as int]));
                return false;
            }
            i = i + 1;
        }
        let mut i: usize = 0;
        while i < self.metrics.len()
            invariant
                i <= self.metrics@.len(),
                self.metrics@.len() == other.metrics@.len(),
                forall|j: int|
                    0 <= j < i ==> same_component(#[trigger] self.metrics@[j], other.metrics@[j]),
            decreases self.metrics@.len() - i,
        {
            if !is_same_component(&self.metrics[i], &other.metrics[i]) {
                return false;
            }
            i = i + 1;
        }
        true
    }
}

/// Whether a row holds what encoding an image at a level with its profile, decoding that again and
/// measuring it against the image gave.
pub open spec fn row_of<C: Codec, M: Metric>(
    codec: &C,
    metrics: Seq<M>,
    image: &Image,
    level: u32,
    encoded: Encoded,
    stream: &[u8],
    decoded: Image,
    row: SweepRow,
) -> bool {
    &&& call_ensures(
        C::encode,
        (codec, image, &EncodeSettings { level, metadata: MetadataPolicy::KeepIccOnly }),
        Ok(encoded),
    )
    &&& stream@ == encoded.bytes@
    &&& call_ensures(C::decode, (codec, stream), Ok(decoded))
    &&& call_ensures(C::format, (codec,), row.format)
    &&& row.level == level
    &&& row.bytes == encoded.bytes@.len()
    &&& row.metrics@.len() == metrics.len()
    &&& forall|k: int|
        0 <= k < metrics.len() ==> call_ensures(
            M::measure,
            (&metrics[k], image, &decoded),
            Ok(#[trigger] row.metrics@[k]),
        )
}

/// Whether a row is that of a level.
pub open spec fn row_right<C: Codec, M: Metric>(
    codec: &C,
    metrics: Seq<M>,
    image: &Image,
    level: u32,
    row: SweepRow,
) -> bool {
    exists|encoded: Encoded, stream: &[u8], decoded: Image| #[trigger]
        row_of(codec, metrics, image, level, encoded, stream, decoded, row)
}

/// Whether a level is one of the steps of an axis, and no earlier row is that of the image, the
/// format and the level.
pub open spec fn left_over(
    axis: QualityAxis,
    format: ImageFormat,
    step: u32,
    done: Seq<DoneRow>,
    name: Seq<char>,
    level: u32,
) -> bool {
    &&& axis.min <= level <= axis.max
    &&& (level - axis.min) % (step as int) == 0
    &&& forall|k: int|
        0 <= k < done.len() ==> (#[trigger] done[k]).image@ != name || done[k].format != format
            || done[k].level != level
}

/// Whether there is a row of a level.
pub open spec fn has_row<C: Codec, M: Metric>(
    codec: &C,
    metrics: Seq<M>,
    image: &Image,
    level: u32,
    rows: Seq<SweepRow>,
) -> bool {
    exists|i: int|
        0 <= i < rows.len() && row_right(codec, metrics, image, level, #[trigger] rows[i])
}

/// Whether there is a row of every level of a codec that was left over.
pub open spec fn nothing_left<C: Codec, M: Metric>(
    codec: &C,
    metrics: Seq<M>,
    step: u32,
    done: Seq<DoneRow>,
    name: Seq<char>,
    image: &Image,
    axis: QualityAxis,
    format: ImageFormat,
    rows: Seq<SweepRow>,
) -> bool {
    &&& call_ensures(C::quality_axis, (codec,), axis)
    &&& call_ensures(C::format, (codec,), format)
    &&& forall|level: u32| #[trigger]
        left_over(axis, format, step, done, name, level) ==> has_row(
            codec,
            metrics,
            image,
            level,
            rows,
        )
}

/// Whether a row is that of a level of a codec that was left over.
pub open spec fn row_was_left<C: Codec, M: Metric>(
    codec: &C,
    metrics: Seq<M>,
    step: u32,
    done: Seq<DoneRow>,
    name: Seq<char>,
    image: &Image,
    axis: QualityAxis,
    format: ImageFormat,
    row: SweepRow,
) -> bool {
    &&& call_ensures(C::quality_axis, (codec,), axis)
    &&& call_ensures(C::format, (codec,), format)
    &&& left_over(axis, format, step, done, name, row.level)
    &&& row_right(codec, metrics, image, row.level, row)
}

/// Whether a row is that of a level of one of the codecs that was left over.
pub open spec fn row_expected<C: Codec, M: Metric>(
    codecs: Seq<C>,
    metrics: Seq<M>,
    step: u32,
    done: Seq<DoneRow>,
    name: Seq<char>,
    image: &Image,
    row: SweepRow,
) -> bool {
    exists|n: int, axis: QualityAxis, format: ImageFormat|
        0 <= n < codecs.len() && #[trigger] row_was_left(
            &codecs[n],
            metrics,
            step,
            done,
            name,
            image,
            axis,
            format,
            row,
        )
}

/// Whether there is a row of every level of a codec that was left over.
pub open spec fn codec_done<C: Codec, M: Metric>(
    codec: &C,
    metrics: Seq<M>,
    step: u32,
    done: Seq<DoneRow>,
    name: Seq<char>,
    image: &Image,
    rows: Seq<SweepRow>,
) -> bool {
    exists|axis: QualityAxis, format: ImageFormat| #[trigger]
        nothing_left(codec, metrics, step, done, name, image, axis, format, rows)
}

/// Whether a sweep is that of a decoded source and of the picture that it was resized to.
pub open spec fn sweep_right<P: ImagePipeline, C: Codec, M: Metric>(
    pipeline: &P,
    codecs: Seq<C>,
    metrics: Seq<M>,
    step: u32,
    done: Seq<DoneRow>,
    name: Seq<char>,
    input: &[u8],
    source: DecodedSource,
    reference: Image,
    sweep: ImageSweep,
) -> bool {
    &&& call_ensures(P::decode, (pipeline, input), Ok(source))
    &&& sweep.source == source.image@.dimensions
    &&& sweep.dimensions == sweep.source ==> reference@ == source.image@
    &&& sweep.dimensions != sweep.source ==> call_ensures(
        P::resize,
        (pipeline, &source.image, sweep.dimensions),
        Ok(reference),
    )
    &&& forall|n: int|
        0 <= n < codecs.len() ==> codec_done(
            &#[trigger] codecs[n],
            metrics,
            step,
            done,
            name,
            &reference,
            sweep.rows@,
        )
    &&& forall|i: int|
        0 <= i < sweep.rows@.len() ==> row_expected(
            codecs,
            metrics,
            step,
            done,
            name,
            &reference,
            #[trigger] sweep.rows@[i],
        )
}

/// A sweep has a row for every level of every codec that an earlier run left over and none besides,
/// and each of them is measured on the picture at the dimensions of the sweep: the source, resized
/// where it has others.
pub proof fn lemma_sweep_measures_what_is_left<P: ImagePipeline, C: Codec, M: Metric>(
    pipeline: &P,
    policy: DimensionPolicy,
    codecs: Seq<C>,
    metrics: Seq<M>,
    step: u32,
    done: Seq<DoneRow>,
    name: Seq<char>,
    input: &[u8],
    sweep: ImageSweep,
)
    requires
        step > 0,
        swept_image(pipeline, policy, codecs, metrics, step, done, name, input, Ok(sweep)),
    ensures
        exists|source: DecodedSource, reference: Image| #[trigger]
            sweep_right(
                pipeline,
                codecs,
                metrics,
                step,
                done,
                name,
                input,
                source,
                reference,
                sweep,
            ),
{
    let r: Result<ImageSweep, String> = Ok(sweep);
    let source = choose|source: DecodedSource| #[trigger]
        call_ensures(P::decode, (pipeline, input), Ok(source)) && swept_source(
            pipeline,
            policy,
            codecs,
            metrics,
            step,
            done,
            name,
            &source.image,
            r,
        );
    let dimensions = policy.target_spec(source.image@.dimensions);
    let reference = choose|reference: Image| #[trigger]
        pipeline::fitted(pipeline, &source.image, dimensions, Ok(reference)) && swept_reference(
            pipeline,
            policy,
            codecs,
            metrics,
            step,
            done,
            name,
            &source.image,
            &reference,
            r,
        );
    let rows = sweep.rows@;
    lemma_rows_right(codecs, metrics, step, done, name, &reference, rows);
    assert(sweep_right(
        pipeline,
        codecs,
        metrics,
        step,
        done,
        name,
        input,
        source,
        reference,
        sweep,
    ));
}

proof fn lemma_rows_right<C: Codec, M: Metric>(
    codecs: Seq<C>,
    metrics: Seq<M>,
    step: u32,
    done: Seq<DoneRow>,
    name: Seq<char>,
    image: &Image,
    rows: Seq<SweepRow>,
)
    requires
        step > 0,
        all_swept(codecs, metrics, step, done, name, image, rows),
    ensures
        forall|n: int|
            0 <= n < codecs.len() ==> codec_done(
                &#[trigger] codecs[n],
                metrics,
                step,
                done,
                name,
                image,
                rows,
            ),
        forall|i: int|
            0 <= i < rows.len() ==> row_expected(
                codecs,
                metrics,
                step,
                done,
                name,
                image,
                #[trigger] rows[i],
            ),
    decreases codecs.len(),
{
    if codecs.len() > 0 {
        let last = codecs.last();
        let front = codecs.drop_last();
        let cut = choose|cut: int|
            0 <= cut <= rows.len() && #[trigger] swept_codec(
                &last,
                metrics,
                step,
                done,
                name,
                image,
                Ok(rows.skip(cut)),
            ) && all_swept(front, metrics, step, done, name, image, rows.take(cut));
        let (before, after) = (rows.take(cut), rows.skip(cut));
        lemma_rows_right(front, metrics, step, done, name, image, before);
        let (axis, format) = lemma_codec_rows(&last, metrics, step, done, name, image, after);
        assert forall|n: int| 0 <= n < codecs.len() implies codec_done(
            &#[trigger] codecs[n],
            metrics,
            step,
            done,
            name,
            image,
            rows,
        ) by {
            if n < front.len() {
                assert(front[n] == codecs[n]);
                let (a, f) = choose|a: QualityAxis, f: ImageFormat| #[trigger]
                    nothing_left(&codecs[n], metrics, step, done, name, image, a, f, before);
                assert forall|level: u32| #[trigger]
                    left_over(a, f, step, done, name, level) implies has_row(
                    &codecs[n],
                    metrics,
                    image,
                    level,
                    rows,
                ) by {
                    let i = choose|i: int|
                        0 <= i < before.len() && row_right(
                            &codecs[n],
                            metrics,
                            image,
                            level,
                            #[trigger] before[i],
                        );
                    assert(rows[i] == before[i]);
                }
                assert(nothing_left(&codecs[n], metrics, step, done, name, image, a, f, rows));
            } else {
                assert forall|level: u32| #[trigger]
                    left_over(axis, format, step, done, name, level) implies has_row(
                    &last,
                    metrics,
                    image,
                    level,
                    rows,
                ) by {
                    let i = choose|i: int|
                        0 <= i < after.len() && row_right(
                            &last,
                            metrics,
                            image,
                            level,
                            #[trigger] after[i],
                        );
                    assert(rows[cut + i] == after[i]);
                }
                assert(nothing_left(&last, metrics, step, done, name, image, axis, format, rows));
            }
        }
        assert forall|i: int| 0 <= i < rows.len() implies row_expected(
            codecs,
            metrics,
            step,
            done,
            name,
            image,
            #[trigger] rows[i],
        ) by {
            if i < cut {
                assert(before[i] == rows[i]);
                let (n, a, f) = choose|n: int, a: QualityAxis, f: ImageFormat|
                    0 <= n < front.len() && #[trigger] row_was_left(
                        &front[n],
                        metrics,
                        step,
                        done,
                        name,
                        image,
                        a,
                        f,
                        before[i],
                    );
                assert(front[n] == codecs[n]);
                assert(row_was_left(
                    &codecs[n],
                    metrics,
                    step,
                    done,
                    name,
                    image,
                    a,
                    f,
                    rows[i],
                ));
            } else {
                assert(after[i - cut] == rows[i]);
                assert(row_was_left(
                    &codecs[codecs.len() - 1],
                    metrics,
                    step,
                    done,
                    name,
                    image,
                    axis,
                    format,
                    rows[i],
                ));
            }
        }
    }
}

proof fn lemma_codec_rows<C: Codec, M: Metric>(
    codec: &C,
    metrics: Seq<M>,
    step: u32,
    done: Seq<DoneRow>,
    name: Seq<char>,
    image: &Image,
    rows: Seq<SweepRow>,
) -> (r: (QualityAxis, ImageFormat))
    requires
        step > 0,
        swept_codec(codec, metrics, step, done, name, image, Ok(rows)),
    ensures
        nothing_left(codec, metrics, step, done, name, image, r.0, r.1, rows),
        forall|i: int|
            0 <= i < rows.len() ==> row_was_left(
                codec,
                metrics,
                step,
                done,
                name,
                image,
                r.0,
                r.1,
                #[trigger] rows[i],
            ),
{
    reveal(swept_codec);
    let (axis, format) = choose|axis: QualityAxis, format: ImageFormat|
        {
            &&& #[trigger] call_ensures(C::quality_axis, (codec,), axis)
            &&& #[trigger] call_ensures(C::format, (codec,), format)
            &&& swept_levels(
                codec,
                metrics,
                image,
                pending(
                    axis.min as nat,
                    axis.max as nat,
                    step as nat,
                    done_levels(done, name, format),
                ),
                Ok(rows),
            )
        };
    let levels = pending(
        axis.min as nat,
        axis.max as nat,
        step as nat,
        done_levels(done, name, format),
    );
    assert forall|i: int| 0 <= i < rows.len() implies row_right(
        codec,
        metrics,
        image,
        levels[i],
        #[trigger] rows[i],
    ) && rows[i].level == levels[i] by {
        assert(measured(codec, metrics, image, levels[i], rows[i]));
        let (encoded, decoded) = choose|encoded: Encoded, decoded: Image| #[trigger]
            measured_on(codec, metrics, image, levels[i], encoded, decoded, rows[i]);
        let r: Result<Image, CodecError> = Ok(decoded);
        let stream = choose|stream: &[u8]|
            stream@ == encoded.bytes@ && #[trigger] call_ensures(C::decode, (codec, stream), r);
        assert forall|k: int| 0 <= k < metrics.len() implies call_ensures(
            M::measure,
            (&metrics[k], image, &decoded),
            Ok(#[trigger] rows[i].metrics@[k]),
        ) by {
            assert(scores(&metrics[k], image, &decoded, Ok(rows[i].metrics@[k])));
        }
        assert(row_of(codec, metrics, image, levels[i], encoded, stream, decoded, rows[i]));
    }
    assert forall|i: int| 0 <= i < rows.len() implies row_was_left(
        codec,
        metrics,
        step,
        done,
        name,
        image,
        axis,
        format,
        #[trigger] rows[i],
    ) by {
        let level = levels[i];
        assert(levels.contains(level));
        lemma_pending_is_what_is_left(axis, step, done_levels(done, name, format), level);
        lemma_done_levels(done, name, format, level);
    }
    assert forall|level: u32| #[trigger] left_over(axis, format, step, done, name, level) implies has_row(
        codec,
        metrics,
        image,
        level,
        rows,
    ) by {
        lemma_done_levels(done, name, format, level);
        lemma_pending_is_what_is_left(axis, step, done_levels(done, name, format), level);
        let i = choose|i: int| 0 <= i < levels.len() && levels[i] == level;
        assert(row_right(codec, metrics, image, level, rows[i]));
    }
    (axis, format)
}

/// A level was done exactly where some row is that of the image, the format and the level.
proof fn lemma_done_levels(done: Seq<DoneRow>, name: Seq<char>, format: ImageFormat, level: u32)
    ensures
        done_levels(done, name, format).contains(level) <==> exists|k: int|
            0 <= k < done.len() && (#[trigger] done[k]).image@ == name && done[k].format == format
                && done[k].level == level,
    decreases done.len(),
{
    let all = done_levels(done, name, format);
    if done.len() > 0 {
        let front = done.drop_last();
        let last = done.last();
        let before = done_levels(front, name, format);
        lemma_done_levels(front, name, format, level);
        assert(done[done.len() - 1] == last);
        if before.contains(level) {
            let k = choose|k: int|
                0 <= k < front.len() && (#[trigger] front[k]).image@ == name && front[k].format
                    == format && front[k].level == level;
            assert(done[k] == front[k]);
            let j = choose|j: int| 0 <= j < before.len() && before[j] == level;
            assert(all[j] == level);
        }
        if last.image@ == name && last.format == format {
            assert(all == before.push(last.level));
            assert(all[before.len() as int] == last.level);
            if all.contains(level) && level != last.level {
                let j = choose|j: int| 0 <= j < all.len() && all[j] == level;
                assert(before[j] == level);
            }
        }
        if exists|k: int|
            0 <= k < done.len() && (#[trigger] done[k]).image@ == name && done[k].format == format
                && done[k].level == level {
            let k = choose|k: int|
                0 <= k < done.len() && (#[trigger] done[k]).image@ == name && done[k].format
                    == format && done[k].level == level;
            if k < front.len() {
                assert(front[k] == done[k]);
            }
        }
    }
}

/// The levels of a sweep ascend.
pub proof fn lemma_levels_ascend(
    axis: QualityAxis,
    step: u32,
    done: Seq<u32>,
    i: int,
    j: int,
)
    requires
        step > 0,
        0 <= i < j < pending(axis.min as nat, axis.max as nat, step as nat, done).len(),
    ensures
        pending(axis.min as nat, axis.max as nat, step as nat, done)[i] < pending(
            axis.min as nat,
            axis.max as nat,
            step as nat,
            done,
        )[j],
{
    lemma_ascend_from(axis.min as nat, axis.max as nat, step as nat, done, i, j);
}

proof fn lemma_ascend_from(from: nat, to: nat, step: nat, done: Seq<u32>, i: int, j: int)
    requires
        step > 0,
        to <= u32::MAX,
        0 <= i < j < pending(from, to, step, done).len(),
    ensures
        pending(from, to, step, done)[i] < pending(from, to, step, done)[j],
    decreases
            (if from <= to {
                to - from + 1
            } else {
                0
            }),
{
    let all = pending(from, to, step, done);
    let rest = pending(from + step, to, step, done);
    if done.contains(from as u32) {
        lemma_ascend_from(from + step, to, step, done, i, j);
    } else {
        assert(all =~= seq![from as u32] + rest);
        if i > 0 {
            lemma_ascend_from(from + step, to, step, done, i - 1, j - 1);
        } else {
            assert(rest.contains(rest[j - 1]));
            lemma_pending_from(from + step, to, step, done, rest[j - 1]);
        }
    }
}

/// A run goes on in a directory exactly where nothing that decides its results is different: the
/// longest side, the step, and every codec and every metric in their order, with names, versions and
/// settings.
pub proof fn lemma_runs_do_not_mix(a: RunConfig, b: RunConfig)
    ensures
        same_config(a, b) <==> {
            &&& a.max_dimension == b.max_dimension && a.step == b.step
            &&& a.codecs@.len() == b.codecs@.len() && a.metrics@.len() == b.metrics@.len()
            &&& forall|i: int|
                0 <= i < a.codecs@.len() ==> (#[trigger] a.codecs@[i]).format@
                    == b.codecs@[i].format@ && a.codecs@[i].id.name@ == b.codecs@[i].id.name@
                    && a.codecs@[i].id.version@ == b.codecs@[i].id.version@ && a.codecs@[i].settings@
                    == b.codecs@[i].settings@
            &&& forall|i: int|
                0 <= i < a.metrics@.len() ==> (#[trigger] a.metrics@[i]).name@ == b.metrics@[i].name@
                    && a.metrics@[i].version@ == b.metrics@[i].version@
        },
{
    if same_config(a, b) {
        assert forall|i: int| 0 <= i < a.codecs@.len() implies (#[trigger] a.codecs@[i]).format@
            == b.codecs@[i].format@ && a.codecs@[i].id.name@ == b.codecs@[i].id.name@
            && a.codecs@[i].id.version@ == b.codecs@[i].id.version@ && a.codecs@[i].settings@
            == b.codecs@[i].settings@ by {
            assert(same_setup(a.codecs@[i], b.codecs@[i]));
        }
        assert forall|i: int| 0 <= i < a.metrics@.len() implies (#[trigger] a.metrics@[i]).name@
            == b.metrics@[i].name@ && a.metrics@[i].version@ == b.metrics@[i].version@ by {
            assert(same_component(a.metrics@[i], b.metrics@[i]));
        }
    }
}

/// What a sweep returns is what was left of it, measured.
pub proof fn lemma_calls_sweep<P: ImagePipeline, C: Codec, M: Metric>(
    pipeline: &P,
    policy: DimensionPolicy,
    codecs: &Vec<C>,
    metrics: &Vec<M>,
    step: u32,
    done: &Vec<DoneRow>,
    name: &str,
    input: &[u8],
    sweep: ImageSweep,
)
    requires
        step > 0,
        call_ensures(
            sweep_image::<P, C, M>,
            (pipeline, policy, codecs, metrics, step, done, name, input),
            Ok(sweep),
        ),
    ensures
        exists|source: DecodedSource, reference: Image| #[trigger]
            sweep_right(
                pipeline,
                codecs@,
                metrics@,
                step,
                done@,
                name@,
                input,
                source,
                reference,
                sweep,
            ),
        sweep.dimensions == policy.target_spec(sweep.source),
{
    lemma_sweep_measures_what_is_left(
        pipeline,
        policy,
        codecs@,
        metrics@,
        step,
        done@,
        name@,
        input,
        sweep,
    );
}

/// A run goes on in a directory only where nothing that decides its results is different.
pub proof fn lemma_calls_do_not_mix_runs(a: &RunConfig, b: &RunConfig, r: bool)
    requires
        call_ensures(RunConfig::continues, (a, b), r),
    ensures
        r ==> a.max_dimension == b.max_dimension && a.step == b.step && a.codecs@.len()
            == b.codecs@.len() && a.metrics@.len() == b.metrics@.len(),
        r ==> forall|i: int|
            0 <= i < a.codecs@.len() ==> (#[trigger] a.codecs@[i]).settings@ == b.codecs@[i].settings@
                && a.codecs@[i].id.version@ == b.codecs@[i].id.version@,
        r ==> forall|i: int|
            0 <= i < a.metrics@.len() ==> (#[trigger] a.metrics@[i]).version@
                == b.metrics@[i].version@,
        r == same_config(*a, *b),
{
    lemma_runs_do_not_mix(*a, *b);
}

} // verus!
