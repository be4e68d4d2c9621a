//! Encoding one image for the web.

use vstd::prelude::*;

use crate::binary64::Binary64;
use crate::budget::{self, BudgetOptions, BudgetedEncode};
use crate::codecs::{Codec, CodecError, EncodeSettings, Encoded, QualityAxis};
use crate::engine::EngineError;
use crate::geometry::Dimensions;
use crate::metrics::{Metric, MetricError};
use crate::pipeline::{self, ImagePipeline, PipelineError};
use crate::report::MetricResult;
use crate::request::MetadataPolicy;
use crate::search;
use crate::text;
use crate::types::Image;
use crate::web::plan;

verus! {

/// What is said of a codec whose range of levels cannot be worked through.
pub open spec fn no_levels() -> Seq<char> {
    "the codec has no usable range of levels"@
}

/// Whether a result is what encoding an image at a level under a cap gave, with its error in
/// words.
pub open spec fn encoded_for_web<P: ImagePipeline, C: Codec>(
    pipeline: &P,
    codec: &C,
    axis: QualityAxis,
    image: &Image,
    options: BudgetOptions,
    r: Result<BudgetedEncode, String>,
) -> bool {
    if options.workable_on(axis) {
        match r {
            Ok(b) => budget::budgeted(pipeline, codec, axis, image, options, Ok(b)),
            Err(message) => exists|e: EngineError| #[trigger]
                budget::budgeted(pipeline, codec, axis, image, options, Err(e)) && message@
                    == e.message_spec(),
        }
    } else {
        r is Err && r->Err_0@ == no_levels()
    }
}

/// Whether a result is what encoding an image at a level under a cap may give, on the range that
/// the codec names.
pub open spec fn web_encoding<P: ImagePipeline, C: Codec>(
    pipeline: &P,
    codec: &C,
    image: &Image,
    level: u32,
    max_bytes: u64,
    r: Result<BudgetedEncode, String>,
) -> bool {
    exists|axis: QualityAxis| #[trigger]
        call_ensures(C::quality_axis, (codec,), axis) && encoded_for_web(
            pipeline,
            codec,
            axis,
            image,
            plan::web_budget(level, max_bytes),
            r,
        )
}

/// Encodes an image at a level, degrading only as far as a cap demands; a cap of zero is none.
pub fn encode_image<P: ImagePipeline, C: Codec>(
    pipeline: &P,
    codec: &C,
    image: &Image,
    level: u32,
    max_bytes: u64,
) -> (r: Result<BudgetedEncode, String>)
    ensures
        web_encoding(pipeline, codec, image, level, max_bytes, r),
{
    let axis: QualityAxis = codec.quality_axis();
    let options: BudgetOptions = plan::budget_for(level, max_bytes);
    if !options.works_on(axis) {
        return Err("the codec has no usable range of levels".to_string());
    }
    match budget::encode_on_axis(pipeline, codec, axis, image, &options) {
        Ok(b) => Ok(b),
        Err(e) => {
            proof {
                assert(budget::budgeted(pipeline, codec, axis, image, options, Err(e)));
            }
            Err(e.message())
        },
    }
}

/// The warnings about a result that fits only because it was degraded, or does not fit.
pub open spec fn cap_warnings_spec(
    ext: Seq<char>,
    quality: u32,
    main: Dimensions,
    b: BudgetedEncode,
) -> Seq<Seq<char>> {
    let about_size = if !b.within_budget {
        seq![
            ext + " is still over the size cap ("@ + text::decimal(b.encoded.bytes@.len())
                + " bytes)"@,
        ]
    } else if b.level < quality {
        seq![
            ext + " quality lowered "@ + text::decimal(quality as nat) + " -> "@ + text::decimal(
                b.level as nat,
            ) + " to fit the cap"@,
        ]
    } else {
        Seq::empty()
    };
    let about_dimensions = if b.dimensions != main {
        seq![
            ext + " downscaled to "@ + text::decimal(b.dimensions.width as nat) + "x"@
                + text::decimal(b.dimensions.height as nat) + " to fit the cap"@,
        ]
    } else {
        Seq::empty()
    };
    about_size + about_dimensions
}

/// The characters of every text in a list.
pub open spec fn texts(list: Seq<String>) -> Seq<Seq<char>> {
    list.map_values(|s: String| s@)
}

/// What a user should know about a result.
pub fn cap_warnings(ext: &str, quality: u32, main: Dimensions, b: &BudgetedEncode) -> (r: Vec<
    String,
>)
    ensures
        texts(r@) == cap_warnings_spec(ext@, quality, main, *b),
{
    let mut out: Vec<String> = Vec::new();
    if !b.within_budget {
        let mut w: String = ext.to_string();
        w.append(" is still over the size cap (");
        text::push_decimal(&mut w, b.encoded.bytes.len() as u64);
        w.append(" bytes)");
        out.push(w);
    } else if b.level < quality {
        let mut w: String = ext.to_string();
        w.append(" quality lowered ");
        text::push_decimal(&mut w, quality as u64);
        w.append(" -> ");
        text::push_decimal(&mut w, b.level as u64);
        w.append(" to fit the cap");
        out.push(w);
    }
    let ghost before = out@;
    if b.dimensions != main {
        let mut w: String = ext.to_string();
        w.append(" downscaled to ");
        text::push_decimal(&mut w, b.dimensions.width as u64);
        w.append("x");
        text::push_decimal(&mut w, b.dimensions.height as u64);
        w.append(" to fit the cap");
        out.push(w);
    }
    proof {
        assert(texts(out@) =~= cap_warnings_spec(ext@, quality, main, *b));
    }
    out
}

/// Whether a score is that of an encoded result, decoded again and measured against the image
/// it was made from, at the dimensions actually written.
pub open spec fn scored<P: ImagePipeline, C: Codec, M: Metric>(
    pipeline: &P,
    codec: &C,
    metric: &M,
    source: &Image,
    main: &Image,
    expected: Dimensions,
    b: BudgetedEncode,
    score: Binary64,
) -> bool {
    exists|reference: Image, decoded: Image, result: MetricResult|
        {
            &&& #[trigger] referenced(pipeline, source, main, expected, b.dimensions, Ok(reference))
            &&& #[trigger] search::decodes(codec, b.encoded.bytes@, Ok(decoded))
            &&& #[trigger] call_ensures(M::measure, (metric, &reference, &decoded), Ok(result))
            &&& score == result.score
        }
}

/// The image that a result is measured against: the main one where the dimensions are those
/// expected of it, and otherwise the source at those dimensions.
pub open spec fn referenced<P: ImagePipeline>(
    pipeline: &P,
    source: &Image,
    main: &Image,
    expected: Dimensions,
    dimensions: Dimensions,
    r: Result<Image, PipelineError>,
) -> bool {
    if dimensions == expected {
        r is Ok && r->Ok_0@ == main@
    } else {
        pipeline::fitted(pipeline, source, dimensions, r)
    }
}

/// Whether scoring came to nothing with a message: there was no image to measure against, or
/// the decoder or the metric failed.
pub open spec fn unscored<P: ImagePipeline, C: Codec, M: Metric>(
    pipeline: &P,
    codec: &C,
    metric: &M,
    source: &Image,
    main: &Image,
    expected: Dimensions,
    b: BudgetedEncode,
    message: Seq<char>,
) -> bool {
    ||| exists|e: PipelineError| #[trigger]
        referenced(pipeline, source, main, expected, b.dimensions, Err(e)) && message == e.message_spec()
    ||| exists|reference: Image, e: CodecError| #[trigger]
        undecoded(pipeline, codec, source, main, expected, b, reference, e) && message
            == e.message_spec()
    ||| exists|reference: Image, decoded: Image, e: MetricError| #[trigger]
        unmeasured(pipeline, codec, metric, source, main, expected, b, reference, decoded, e) && message
            == e.message_spec()
}

/// Whether there was an image to measure against, and the decoder failed.
pub open spec fn undecoded<P: ImagePipeline, C: Codec>(
    pipeline: &P,
    codec: &C,
    source: &Image,
    main: &Image,
    expected: Dimensions,
    b: BudgetedEncode,
    reference: Image,
    e: CodecError,
) -> bool {
    &&& referenced(pipeline, source, main, expected, b.dimensions, Ok(reference))
    &&& search::decodes(codec, b.encoded.bytes@, Err(e))
}

/// Whether the metric failed on an image and what was decoded.
pub open spec fn unmeasured<P: ImagePipeline, C: Codec, M: Metric>(
    pipeline: &P,
    codec: &C,
    metric: &M,
    source: &Image,
    main: &Image,
    expected: Dimensions,
    b: BudgetedEncode,
    reference: Image,
    decoded: Image,
    e: MetricError,
) -> bool {
    &&& referenced(pipeline, source, main, expected, b.dimensions, Ok(reference))
    &&& search::decodes(codec, b.encoded.bytes@, Ok(decoded))
    &&& call_ensures(M::measure, (metric, &reference, &decoded), Err(e))
}

/// Whether scoring a result may come to this.
pub open spec fn scoring<P: ImagePipeline, C: Codec, M: Metric>(
    pipeline: &P,
    codec: &C,
    metric: &M,
    source: &Image,
    main: &Image,
    expected: Dimensions,
    b: BudgetedEncode,
    r: Result<Binary64, String>,
) -> bool {
    match r {
        Ok(score) => scored(pipeline, codec, metric, source, main, expected, b, score),
        Err(message) => unscored(pipeline, codec, metric, source, main, expected, b, message@),
    }
}

/// The quality of a result, by a metric, at the dimensions actually written.
pub fn score_output<P: ImagePipeline, C: Codec, M: Metric>(
    pipeline: &P,
    codec: &C,
    metric: &M,
    source: &Image,
    main: &Image,
    expected: Dimensions,
    b: &BudgetedEncode,
) -> (r: Result<Binary64, String>)
    ensures
        scoring(pipeline, codec, metric, source, main, expected, *b, r),
{
    let found: Result<Image, PipelineError> = if b.dimensions == expected {
        Ok(main.clone())
    } else {
        pipeline::fit(pipeline, source, b.dimensions)
    };
    proof {
        assert(referenced(pipeline, source, main, expected, b.dimensions, found));
    }
    let reference: Image = match found {
        Ok(reference) => reference,
        Err(e) => {
            return Err(e.message());
        },
    };
    let stream: &[u8] = b.encoded.bytes.as_slice();
    let decoded: Image = match codec.decode(stream) {
        Ok(decoded) => decoded,
        Err(e) => {
            proof {
                assert(search::decodes(codec, b.encoded.bytes@, Err(e)));
                assert(undecoded(pipeline, codec, source, main, expected, *b, reference, e));
            }
            return Err(e.message());
        },
    };
    proof {
        assert(search::decodes(codec, b.encoded.bytes@, Ok(decoded)));
    }
    match metric.measure(&reference, &decoded) {
        Ok(result) => Ok(result.score),
        Err(e) => {
            proof {
                assert(unmeasured(
                    pipeline,
                    codec,
                    metric,
                    source,
                    main,
                    expected,
                    *b,
                    reference,
                    decoded,
                    e,
                ));
            }
            Err(e.message())
        },
    }
}

/// Whether a file is what a picture comes to for the web: it, or what the pipeline made of it by
/// shrinking it by 0.85 up to four times, which only a cap leads to, encoded with its profile kept.
/// Only a cap lowers the level, and the file is within the cap exactly where it is no longer.
pub open spec fn web_made<P: ImagePipeline, C: Codec>(
    pipeline: &P,
    codec: &C,
    picture: &Image,
    start: u32,
    max_bytes: u64,
    level: u32,
    dimensions: Dimensions,
    bytes: Seq<u8>,
    within: bool,
) -> bool {
    exists|axis: QualityAxis, shown: Image, n: nat, encoded: Encoded|
        {
            &&& #[trigger] call_ensures(C::quality_axis, (codec,), axis)
            &&& #[trigger] shown_as(pipeline, picture, n, shown)
            &&& n <= 4
            &&& max_bytes == 0 ==> n == 0
            &&& #[trigger] call_ensures(
                C::encode,
                (
                    codec,
                    &shown,
                    &EncodeSettings { level, metadata: MetadataPolicy::KeepIccOnly },
                ),
                Ok(encoded),
            )
            &&& encoded.bytes@ == bytes
            &&& dimensions == shown@.dimensions
            &&& axis.min <= level <= budget::moved_into(axis, start as int)
            &&& max_bytes == 0 ==> level == budget::moved_into(axis, start as int)
            &&& within <==> max_bytes == 0 || bytes.len() <= max_bytes
        }
}

/// Whether an image is a picture, or what the pipeline made of it by shrinking it a number of
/// times.
pub open spec fn shown_as<P: ImagePipeline>(
    pipeline: &P,
    picture: &Image,
    n: nat,
    shown: Image,
) -> bool {
    if n == 0 {
        shown == *picture
    } else {
        call_ensures(
            P::resize,
            (
                pipeline,
                picture,
                budget::shrunk(
                    picture@.dimensions,
                    Binary64 { bits: 0x3feb_3333_3333_3333 },
                    n,
                ),
            ),
            Ok(shown),
        )
    }
}

/// What is encoded for the web is made of the picture, with its profile kept, and degraded only for
/// a cap.
pub proof fn lemma_web_encoding_is_made_of_the_picture<P: ImagePipeline, C: Codec>(
    pipeline: &P,
    codec: &C,
    picture: &Image,
    start: u32,
    max_bytes: u64,
    b: BudgetedEncode,
)
    requires
        web_encoding(pipeline, codec, picture, start, max_bytes, Ok(b)),
    ensures
        web_made(
            pipeline,
            codec,
            picture,
            start,
            max_bytes,
            b.level,
            b.dimensions,
            b.encoded.bytes@,
            b.within_budget,
        ),
{
    let options = plan::web_budget(start, max_bytes);
    plan::lemma_web_budget_is_what_was_asked_for(start, max_bytes);
    let axis = choose|axis: QualityAxis| #[trigger]
        call_ensures(C::quality_axis, (codec,), axis) && encoded_for_web(
            pipeline,
            codec,
            axis,
            picture,
            options,
            Ok(b),
        );
    assert(budget::budgeted(pipeline, codec, axis, picture, options, Ok(b)));
    if max_bytes == 0 {
        budget::lemma_no_budget_is_a_single_encode(pipeline, codec, axis, picture, options, b);
        assert(shown_as(pipeline, picture, 0, *picture));
        assert(call_ensures(
            C::encode,
            (
                codec,
                picture,
                &EncodeSettings { level: b.level, metadata: MetadataPolicy::KeepIccOnly },
            ),
            Ok(b.encoded),
        ));
    } else {
        budget::lemma_cap_is_met_with_the_least_loss(
            pipeline,
            codec,
            axis,
            picture,
            options,
            max_bytes,
            b,
        );
        let (start_at, floor) = (
            budget::highest_tried(axis, options),
            budget::lowest_tried(axis, options),
        );
        let (pictures, n) = choose|pictures: Seq<Image>, n: int| #[trigger]
            budget::degraded(
                pipeline,
                codec,
                start_at,
                floor,
                picture,
                options,
                max_bytes as nat,
                b,
                pictures,
                n,
            );
        assert(shown_as(pipeline, picture, n as nat, pictures[n]));
        let i = choose|i: nat|
            b.level == #[trigger] budget::lowered(
                start_at,
                floor,
                options.level_step as int,
                i,
            );
        assert(0 <= i * options.level_step) by (nonlinear_arith)
            requires
                i >= 0,
                options.level_step >= 0,
        ;
        assert(call_ensures(
            C::encode,
            (
                codec,
                &pictures[n],
                &EncodeSettings { level: b.level, metadata: MetadataPolicy::KeepIccOnly },
            ),
            Ok(b.encoded),
        ));
    }
}

/// A score is that of what was written: the metric compares the decoded bytes with the main image
/// or, where the file is smaller than that, with the source resized to the dimensions of the file.
pub proof fn lemma_score_is_of_what_was_written<P: ImagePipeline, C: Codec, M: Metric>(
    pipeline: &P,
    codec: &C,
    metric: &M,
    source: &Image,
    main: &Image,
    expected: Dimensions,
    b: BudgetedEncode,
    score: Binary64,
)
    requires
        scoring(pipeline, codec, metric, source, main, expected, b, Ok(score)),
    ensures
        exists|reference: Image, stream: &[u8], decoded: Image, result: MetricResult|
            {
                &&& #[trigger] call_ensures(C::decode, (codec, stream), Ok(decoded))
                &&& stream@ == b.encoded.bytes@
                &&& #[trigger] call_ensures(M::measure, (metric, &reference, &decoded), Ok(result))
                &&& score == result.score
                &&& if b.dimensions == expected {
                    reference@ == main@
                } else if b.dimensions == source@.dimensions {
                    reference@ == source@
                } else {
                    call_ensures(P::resize, (pipeline, source, b.dimensions), Ok(reference))
                }
            },
{
    let (reference, decoded, result) = choose|
        reference: Image,
        decoded: Image,
        result: MetricResult,
    |
        {
            &&& #[trigger] referenced(pipeline, source, main, expected, b.dimensions, Ok(reference))
            &&& #[trigger] search::decodes(codec, b.encoded.bytes@, Ok(decoded))
            &&& #[trigger] call_ensures(M::measure, (metric, &reference, &decoded), Ok(result))
            &&& score == result.score
        };
    let stream = choose|stream: &[u8]|
        stream@ == b.encoded.bytes@ && #[trigger] call_ensures(
            C::decode,
            (codec, stream),
            Ok(decoded),
        );
    assert(call_ensures(C::decode, (codec, stream), Ok(decoded)));
}

/// A user is warned exactly where something had to be given up for a cap: of a file that is still
/// too large, of a lowered quality, and of smaller dimensions.
pub proof fn lemma_warnings_tell_what_was_given_up(
    ext: Seq<char>,
    quality: u32,
    main: Dimensions,
    b: BudgetedEncode,
)
    ensures
        cap_warnings_spec(ext, quality, main, b).len() == (if !b.within_budget || b.level < quality {
            1int
        } else {
            0
        }) + (if b.dimensions != main {
            1int
        } else {
            0
        }),
        !b.within_budget ==> cap_warnings_spec(ext, quality, main, b)[0] == ext
            + " is still over the size cap ("@ + text::decimal(b.encoded.bytes@.len())
            + " bytes)"@,
        b.within_budget && b.level < quality ==> cap_warnings_spec(ext, quality, main, b)[0] == ext
            + " quality lowered "@ + text::decimal(quality as nat) + " -> "@ + text::decimal(
            b.level as nat,
        ) + " to fit the cap"@,
        b.dimensions != main ==> cap_warnings_spec(ext, quality, main, b).last() == ext
            + " downscaled to "@ + text::decimal(b.dimensions.width as nat) + "x"@ + text::decimal(
            b.dimensions.height as nat,
        ) + " to fit the cap"@,
{
}

} // verus!
