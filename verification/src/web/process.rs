//! Everything that is done with one input, as a list of steps to be carried out in order.
//!
//! Nothing here touches a file: a step says what is written, and whoever carries the steps out
//! stops at the first one that cannot be carried out.

use vstd::prelude::*;

use crate::binary64::Binary64;
use crate::budget::{self, BudgetedEncode};
use crate::codecs::{Codec, EncodeSettings, Encoded, QualityAxis};
use crate::geometry::{self, DimensionPolicy, Dimensions};
use crate::metrics::Metric;
use crate::pipeline::image_rs::ImageRsPipeline;
use crate::pipeline::{self, DecodedSource, ImagePipeline, PipelineError};
use crate::report::MetricResult;
use crate::request::MetadataPolicy;
use crate::text;
use crate::types::{Image, ImageFormat};
use crate::web::markup::{self, FileReport};
use crate::web::names;
use crate::web::plan;
use crate::web::render;

verus! {

/// What is asked for.
#[derive(Debug)]
pub struct Settings {
    /// Largest output width in pixels (never upscales).
    pub max_width: u32,
    /// Largest output height in pixels (never upscales).
    pub max_height: u32,
    /// Hard size cap per file; zero is none.
    pub max_bytes: u64,
    /// Extra responsive widths. Widths at or above the main width are skipped.
    pub sizes: Vec<u32>,
    /// Appended to output names.
    pub suffix: String,
    /// Whether main outputs are scored.
    pub score: bool,
}

/// A codec and the quality that is asked of it.
pub struct Encoder<C> {
    pub codec: C,
    pub quality: u32,
}

/// One thing to do, or to report.
#[derive(Debug)]
pub enum Step {
    /// Something that a user should know.
    Note(String),
    /// A file to write. A guarded one must not be the input itself.
    Write { name: String, bytes: Vec<u8>, guarded: bool },
    /// The quality of a main output.
    Score(ImageFormat, Binary64),
    /// A main output that was written.
    Output(FileReport),
    /// A responsive variant that was written.
    Variant(FileReport),
}

/// The steps for an input.
#[derive(Debug)]
pub struct Script {
    /// The dimensions of the input, or none in either direction if it could not be read.
    pub source: Dimensions,
    pub steps: Vec<Step>,
    /// Why there are no more steps, unless all is done with them.
    pub error: Option<String>,
}

/// An image that was read, with everything that is needed to make outputs of it.
pub struct Job<'a, P, M> {
    pub pipeline: &'a P,
    pub metric: &'a M,
    pub settings: &'a Settings,
    /// What output names begin with.
    pub name: &'a str,
    pub source: &'a Image,
    /// The source, fitted into the largest box allowed.
    pub main: &'a Image,
    /// The dimensions that it was fitted to.
    pub dimensions: Dimensions,
    /// The widths of the responsive variants.
    pub widths: &'a Vec<u32>,
}

/// The characters of a message, if there is one.
pub open spec fn said(error: Option<String>) -> Option<Seq<char>> {
    match error {
        Some(message) => Some(message@),
        None => None,
    }
}

/// Whether a step is a note with certain words.
pub open spec fn notes(step: Step, words: Seq<char>) -> bool {
    step matches Step::Note(note) && note@ == words
}

/// Whether steps are notes with certain words, one each.
pub open spec fn all_notes(steps: Seq<Step>, words: Seq<Seq<char>>) -> bool {
    &&& steps.len() == words.len()
    &&& forall|i: int| 0 <= i < steps.len() ==> notes(#[trigger] steps[i], words[i])
}

/// Whether a step writes a file.
pub open spec fn writes(step: Step, name: Seq<char>, bytes: Seq<u8>, guarded: bool) -> bool {
    match step {
        Step::Write { name: n, bytes: b, guarded: g } => n@ == name && b@ == bytes && g == guarded,
        _ => false,
    }
}

/// Whether a file report is that on a written result.
pub open spec fn reports(
    f: FileReport,
    name: Seq<char>,
    format: ImageFormat,
    b: BudgetedEncode,
) -> bool {
    &&& f.name@ == name
    &&& f.format == format
    &&& f.width == b.dimensions.width
    &&& f.height == b.dimensions.height
    &&& f.bytes == b.encoded.bytes@.len()
    &&& f.quality == b.level
    &&& f.within_budget == b.within_budget
}

/// Whether widths are the extra ones below the main width, each once, in ascending order.
pub open spec fn extra(sizes: Seq<u32>, main_width: u32, widths: Seq<u32>) -> bool {
    &&& plan::rising(widths)
    &&& forall|w: u32| widths.contains(w) <==> sizes.contains(w) && w < main_width
}

/// The dimensions of a source at another width.
pub open spec fn at_width(source: Dimensions, width: u32) -> Dimensions {
    Dimensions { width, height: plan::proportional_height(source, width) }
}

/// Whether two steps write a variant and report it.
pub open spec fn variant_made<P: ImagePipeline, C: Codec, M: Metric>(
    job: &Job<P, M>,
    codec: &C,
    format: ImageFormat,
    level: u32,
    width: u32,
    write: Step,
    report: Step,
) -> bool {
    let dimensions = at_width(job.source@.dimensions, width);
    exists|image: Image, b: BudgetedEncode|
        {
            &&& #[trigger] pipeline::fitted(job.pipeline, job.source, dimensions, Ok(image))
            &&& #[trigger] render::web_encoding(
                job.pipeline,
                codec,
                &image,
                level,
                job.settings.max_bytes,
                Ok(b),
            )
            &&& variant_listed(job, format, width, b, write, report)
        }
}

/// Whether two steps write a result as a variant and report it.
pub open spec fn variant_listed<P: ImagePipeline, M: Metric>(
    job: &Job<P, M>,
    format: ImageFormat,
    width: u32,
    b: BudgetedEncode,
    write: Step,
    report: Step,
) -> bool {
    let file = names::variant_name_spec(job.name@, job.settings.suffix@, width as nat, format);
    &&& writes(write, file, b.encoded.bytes@, false)
    &&& report matches Step::Variant(f) && reports(f, file, format, b)
}

/// Whether a variant came to nothing with a message: the source could not be resized, or not
/// encoded.
pub open spec fn variant_failed<P: ImagePipeline, C: Codec, M: Metric>(
    job: &Job<P, M>,
    codec: &C,
    level: u32,
    width: u32,
    message: Seq<char>,
) -> bool {
    let dimensions = at_width(job.source@.dimensions, width);
    ||| exists|e: PipelineError| #[trigger]
        pipeline::fitted(job.pipeline, job.source, dimensions, Err(e)) && message
            == e.message_spec()
    ||| exists|image: Image, m: String|
        {
            &&& #[trigger] pipeline::fitted(job.pipeline, job.source, dimensions, Ok(image))
            &&& #[trigger] render::web_encoding(
                job.pipeline,
                codec,
                &image,
                level,
                job.settings.max_bytes,
                Err(m),
            )
            &&& message == m@
        }
}

/// Whether steps are those for the variants of a format, two for each width, up to the first one
/// that failed.
pub open spec fn variants_played<P: ImagePipeline, C: Codec, M: Metric>(
    job: &Job<P, M>,
    codec: &C,
    format: ImageFormat,
    level: u32,
    steps: Seq<Step>,
    error: Option<Seq<char>>,
) -> bool {
    let widths = job.widths@;
    let n = steps.len() / 2;
    &&& steps.len() == 2 * n
    &&& n <= widths.len()
    &&& forall|i: int|
        0 <= i < n ==> variant_made(
            job,
            codec,
            format,
            level,
            #[trigger] widths[i],
            steps[2 * i],
            steps[2 * i + 1],
        )
    &&& match error {
        None => n == widths.len(),
        Some(message) => n < widths.len() && variant_failed(
            job,
            codec,
            level,
            widths[n as int],
            message,
        ),
    }
}

/// Whether steps list a main output and then make its variants.
pub open spec fn listed<P: ImagePipeline, C: Codec, M: Metric>(
    job: &Job<P, M>,
    codec: &C,
    format: ImageFormat,
    level: u32,
    b: BudgetedEncode,
    steps: Seq<Step>,
    error: Option<Seq<char>>,
) -> bool {
    let file = names::output_name_spec(job.name@, job.settings.suffix@, format);
    &&& steps.len() >= 1
    &&& steps[0] matches Step::Output(f) && reports(f, file, format, b)
    &&& variants_played(job, codec, format, level, steps.skip(1), error)
}

/// Whether scoring a main output may come to this.
pub open spec fn scores<P: ImagePipeline, C: Codec, M: Metric>(
    job: &Job<P, M>,
    codec: &C,
    b: BudgetedEncode,
    r: Result<Binary64, String>,
) -> bool {
    render::scoring(
        job.pipeline,
        codec,
        job.metric,
        job.source,
        job.main,
        job.dimensions,
        b,
        r,
    )
}

/// Whether steps score a main output, where that is asked for, and then list it and make its
/// variants.
pub open spec fn scored_and_listed<P: ImagePipeline, C: Codec, M: Metric>(
    job: &Job<P, M>,
    codec: &C,
    format: ImageFormat,
    level: u32,
    b: BudgetedEncode,
    steps: Seq<Step>,
    error: Option<Seq<char>>,
) -> bool {
    if job.settings.score {
        ||| exists|m: String| #[trigger]
            scores(job, codec, b, Err(m)) && steps.len() == 0 && error == Some(m@)
        ||| exists|score: Binary64|
            {
                &&& #[trigger] scores(job, codec, b, Ok(score))
                &&& steps.len() >= 1
                &&& steps[0] == Step::Score(format, score)
                &&& listed(job, codec, format, level, b, steps.skip(1), error)
            }
    } else {
        listed(job, codec, format, level, b, steps, error)
    }
}

/// Whether steps write a main output, tell what had to be given up for the cap, and go on with
/// its score and its variants.
pub open spec fn written<P: ImagePipeline, C: Codec, M: Metric>(
    job: &Job<P, M>,
    codec: &C,
    format: ImageFormat,
    level: u32,
    b: BudgetedEncode,
    steps: Seq<Step>,
    error: Option<Seq<char>>,
) -> bool {
    let file = names::output_name_spec(job.name@, job.settings.suffix@, format);
    let warnings = render::cap_warnings_spec(
        format.extension_spec(),
        level,
        job.dimensions,
        b,
    );
    let told = 1 + warnings.len();
    &&& steps.len() >= told
    &&& writes(steps[0], file, b.encoded.bytes@, true)
    &&& all_notes(steps.subrange(1, told as int), warnings)
    &&& scored_and_listed(job, codec, format, level, b, steps.skip(told as int), error)
}

/// Whether encoding the main image at a level may come to this.
pub open spec fn encodes_main<P: ImagePipeline, C: Codec, M: Metric>(
    job: &Job<P, M>,
    codec: &C,
    level: u32,
    r: Result<BudgetedEncode, String>,
) -> bool {
    render::web_encoding(job.pipeline, codec, job.main, level, job.settings.max_bytes, r)
}

/// Whether steps encode the main image at a level and go on from there.
pub open spec fn main_played<P: ImagePipeline, C: Codec, M: Metric>(
    job: &Job<P, M>,
    codec: &C,
    format: ImageFormat,
    level: u32,
    steps: Seq<Step>,
    error: Option<Seq<char>>,
) -> bool {
    ||| exists|m: String| #[trigger]
        encodes_main(job, codec, level, Err(m)) && steps.len() == 0 && error == Some(m@)
    ||| exists|b: BudgetedEncode| #[trigger]
        encodes_main(job, codec, level, Ok(b)) && written(
            job,
            codec,
            format,
            level,
            b,
            steps,
            error,
        )
}

/// The notes about a quality: one if it had to be moved into a codec's range.
pub open spec fn quality_notes(ext: Seq<char>, requested: u32, axis: QualityAxis) -> Seq<Seq<char>> {
    if axis.clamp_spec(requested) == requested {
        Seq::empty()
    } else {
        seq![plan::clamp_note(ext, requested, axis)]
    }
}

/// Whether steps are those for one format, on a range of levels.
pub open spec fn format_played_on<P: ImagePipeline, C: Codec, M: Metric>(
    job: &Job<P, M>,
    codec: &C,
    format: ImageFormat,
    requested: u32,
    axis: QualityAxis,
    steps: Seq<Step>,
    error: Option<Seq<char>>,
) -> bool {
    if axis.min > axis.max {
        steps.len() == 0 && error == Some(render::no_levels())
    } else {
        let told = quality_notes(format.extension_spec(), requested, axis);
        &&& steps.len() >= told.len()
        &&& all_notes(steps.take(told.len() as int), told)
        &&& main_played(
            job,
            codec,
            format,
            axis.clamp_spec(requested),
            steps.skip(told.len() as int),
            error,
        )
    }
}

/// Whether steps are those for one format.
#[verifier::opaque]
pub open spec fn format_played<P: ImagePipeline, C: Codec, M: Metric>(
    job: &Job<P, M>,
    encoder: Encoder<C>,
    steps: Seq<Step>,
    error: Option<Seq<char>>,
) -> bool {
    exists|format: ImageFormat, axis: QualityAxis|
        {
            &&& #[trigger] call_ensures(C::format, (&encoder.codec,), format)
            &&& #[trigger] call_ensures(C::quality_axis, (&encoder.codec,), axis)
            &&& format_played_on(
                job,
                &encoder.codec,
                format,
                encoder.quality,
                axis,
                steps,
                error,
            )
        }
}

/// Whether steps are those for all formats, one after the other, up to the first one that
/// failed.
pub open spec fn formats_played<P: ImagePipeline, C: Codec, M: Metric>(
    job: &Job<P, M>,
    encoders: Seq<Encoder<C>>,
    steps: Seq<Step>,
    error: Option<Seq<char>>,
) -> bool
    decreases encoders.len(),
{
    if encoders.len() == 0 {
        steps.len() == 0 && error is None
    } else {
        ||| error is Some && format_played(job, encoders[0], steps, error)
        ||| exists|cut: int|
            0 <= cut <= steps.len() && #[trigger] format_played(
                job,
                encoders[0],
                steps.take(cut),
                None,
            ) && formats_played(job, encoders.skip(1), steps.skip(cut), error)
    }
}

/// The dimensions of the main outputs of a source.
pub open spec fn main_dimensions(settings: Settings, source: Dimensions) -> Dimensions {
    (DimensionPolicy::MaxBox {
        width: settings.max_width,
        height: settings.max_height,
    }).target_spec(source)
}

/// Whether steps are those for a decoded source: it is fitted into the largest box allowed, and
/// every format is made of that.
pub open spec fn source_played<P: ImagePipeline, C: Codec, M: Metric>(
    pipeline: &P,
    encoders: Seq<Encoder<C>>,
    metric: &M,
    source: &Image,
    settings: &Settings,
    name: &str,
    steps: Seq<Step>,
    error: Option<Seq<char>>,
) -> bool {
    let dimensions = main_dimensions(*settings, source@.dimensions);
    ||| exists|e: PipelineError| #[trigger]
        pipeline::fitted(pipeline, source, dimensions, Err(e)) && steps.len() == 0 && error == Some(
            e.message_spec(),
        )
    ||| exists|main: Image, widths: Vec<u32>|
        {
            &&& #[trigger] pipeline::fitted(pipeline, source, dimensions, Ok(main))
            &&& #[trigger] extra(settings.sizes@, dimensions.width, widths@)
            &&& formats_played(
                &(Job {
                    pipeline,
                    metric,
                    settings,
                    name,
                    source,
                    main: &main,
                    dimensions,
                    widths: &widths,
                }),
                encoders,
                steps,
                error,
            )
        }
}

/// Whether a script is that for an input.
pub open spec fn played<P: ImagePipeline, C: Codec, M: Metric>(
    pipeline: &P,
    encoders: Seq<Encoder<C>>,
    metric: &M,
    input: &[u8],
    settings: &Settings,
    name: &str,
    script: Script,
) -> bool {
    ||| exists|e: PipelineError|
        {
            &&& #[trigger] call_ensures(P::decode, (pipeline, input), Err(e))
            &&& script.source == (Dimensions { width: 0, height: 0 })
            &&& script.steps@.len() == 0
            &&& said(script.error) == Some(e.message_spec())
        }
    ||| exists|decoded: DecodedSource|
        {
            &&& #[trigger] call_ensures(P::decode, (pipeline, input), Ok(decoded))
            &&& script.source == decoded.image@.dimensions
            &&& source_played(
                pipeline,
                encoders,
                metric,
                &decoded.image,
                settings,
                name,
                script.steps@,
                said(script.error),
            )
        }
}

/// The variants of a format.
fn play_variants<P: ImagePipeline, C: Codec, M: Metric>(
    job: &Job<P, M>,
    codec: &C,
    format: ImageFormat,
    level: u32,
) -> (r: (Vec<Step>, Option<String>))
    ensures
        variants_played(job, codec, format, level, r.0@, said(r.1)),
{
    let mut steps: Vec<Step> = Vec::new();
    let mut i: usize = 0;
    let d: Dimensions = job.source.dimensions();
    while i < job.widths.len()
        invariant
            i <= job.widths@.len(),
            d == job.source@.dimensions,
            steps@.len() == 2 * i,
            forall|j: int|
                0 <= j < i ==> variant_made(
                    job,
                    codec,
                    format,
                    level,
                    #[trigger] job.widths@[j],
                    steps@[2 * j],
                    steps@[2 * j + 1],
                ),
        decreases job.widths@.len() - i,
    {
        let width: u32 = job.widths[i];
        let fitted = pipeline::fit(job.pipeline, job.source, plan::scaled(d, width));
        proof {
            assert(pipeline::fitted(job.pipeline, job.source, at_width(d, width), fitted));
        }
        let image: Image = match fitted {
            Ok(image) => image,
            Err(e) => {
                return (steps, Some(e.message()));
            },
        };
        match render::encode_image(job.pipeline, codec, &image, level, job.settings.max_bytes) {
            Ok(b) => {
                let file: String = names::variant_name(
                    job.name,
                    job.settings.suffix.as_str(),
                    width,
                    format,
                );
                let report: FileReport = markup::file_report(file.clone(), format, &b);
                let ghost before = steps@;
                let ghost made = b;
                steps.push(Step::Write { name: file, bytes: b.encoded.bytes, guarded: false });
                steps.push(Step::Variant(report));
                proof {
                    assert(variant_listed(
                        job,
                        format,
                        width,
                        made,
                        steps@[2 * i],
                        steps@[2 * i + 1],
                    ));
                    assert forall|j: int| 0 <= j < i + 1 implies variant_made(
                        job,
                        codec,
                        format,
                        level,
                        #[trigger] job.widths@[j],
                        steps@[2 * j],
                        steps@[2 * j + 1],
                    ) by {
                        if j < i {
                            assert(steps@[2 * j] == before[2 * j]);
                            assert(steps@[2 * j + 1] == before[2 * j + 1]);
                        }
                    }
                }
            },
            Err(m) => {
                return (steps, Some(m));
            },
        }
        i = i + 1;
    }
    (steps, None)
}

/// The listing of a main output and its variants.
fn play_listing<P: ImagePipeline, C: Codec, M: Metric>(
    job: &Job<P, M>,
    codec: &C,
    format: ImageFormat,
    level: u32,
    b: &BudgetedEncode,
) -> (r: (Vec<Step>, Option<String>))
    ensures
        listed(job, codec, format, level, *b, r.0@, said(r.1)),
{
    let file: String = names::output_name(job.name, job.settings.suffix.as_str(), format);
    let mut steps: Vec<Step> = vec![Step::Output(markup::file_report(file, format, b))];
    let (mut rest, error) = play_variants(job, codec, format, level);
    let ghost after = rest@;
    steps.append(&mut rest);
    proof {
        assert(steps@.skip(1) =~= after);
    }
    (steps, error)
}

/// The score of a main output, its listing and its variants.
fn play_scored<P: ImagePipeline, C: Codec, M: Metric>(
    job: &Job<P, M>,
    codec: &C,
    format: ImageFormat,
    level: u32,
    b: &BudgetedEncode,
) -> (r: (Vec<Step>, Option<String>))
    ensures
        scored_and_listed(job, codec, format, level, *b, r.0@, said(r.1)),
{
    if !job.settings.score {
        return play_listing(job, codec, format, level, b);
    }
    let scored = render::score_output(
        job.pipeline,
        codec,
        job.metric,
        job.source,
        job.main,
        job.dimensions,
        b,
    );
    proof {
        assert(scores(job, codec, *b, scored));
    }
    match scored {
        Ok(score) => {
            let mut steps: Vec<Step> = vec![Step::Score(format, score)];
            let (mut rest, error) = play_listing(job, codec, format, level, b);
            let ghost after = rest@;
            steps.append(&mut rest);
            proof {
                assert(steps@.skip(1) =~= after);
            }
            (steps, error)
        },
        Err(m) => (Vec::new(), Some(m)),
    }
}

/// Adds a note for each text of a list.
fn push_notes(steps: &mut Vec<Step>, words: &Vec<String>)
    ensures
        final(steps)@.len() == old(steps)@.len() + words@.len(),
        final(steps)@.take(old(steps)@.len() as int) == old(steps)@,
        all_notes(final(steps)@.skip(old(steps)@.len() as int), render::texts(words@)),
{
    let ghost before = steps@;
    let mut i: usize = 0;
    while i < words.len()
        invariant
            i <= words@.len(),
            steps@.len() == before.len() + i,
            forall|j: int| 0 <= j < before.len() ==> #[trigger] steps@[j] == before[j],
            forall|j: int|
                0 <= j < i ==> notes(#[trigger] steps@[before.len() + j], words@[j]@),
        decreases words@.len() - i,
    {
        steps.push(Step::Note(words[i].clone()));
        i = i + 1;
    }
    proof {
        let added = steps@.skip(before.len() as int);
        assert forall|j: int| 0 <= j < added.len() implies notes(
            #[trigger] added[j],
            render::texts(words@)[j],
        ) by {
            assert(added[j] == steps@[before.len() + j]);
        }
        assert(steps@.take(before.len() as int) =~= before);
    }
}

/// The main output of a format at a level, and everything after it.
fn play_main<P: ImagePipeline, C: Codec, M: Metric>(
    job: &Job<P, M>,
    codec: &C,
    format: ImageFormat,
    level: u32,
) -> (r: (Vec<Step>, Option<String>))
    ensures
        main_played(job, codec, format, level, r.0@, said(r.1)),
{
    let encoded = render::encode_image(
        job.pipeline,
        codec,
        job.main,
        level,
        job.settings.max_bytes,
    );
    proof {
        assert(encodes_main(job, codec, level, encoded));
    }
    let b: BudgetedEncode = match encoded {
        Ok(b) => b,
        Err(m) => {
            return (Vec::new(), Some(m));
        },
    };
    let file: String = names::output_name(job.name, job.settings.suffix.as_str(), format);
    let warnings: Vec<String> = render::cap_warnings(
        format.extension(),
        level,
        job.dimensions,
        &b,
    );
    let bytes: Vec<u8> = b.encoded.bytes.clone();
    let mut steps: Vec<Step> = vec![Step::Write { name: file, bytes, guarded: true }];
    let ghost first = steps@;
    push_notes(&mut steps, &warnings);
    let ghost told = steps@;
    let (mut rest, error) = play_scored(job, codec, format, level, &b);
    let ghost after = rest@;
    steps.append(&mut rest);
    proof {
        let n = 1 + warnings@.len();
        assert(steps@.skip(n as int) =~= after);
        assert(steps@.subrange(1, n as int) =~= told.skip(1));
        assert(steps@[0] == told.take(1)[0]);
        assert(written(job, codec, format, level, b, steps@, said(error)));
    }
    (steps, error)
}

/// One format.
fn play_format<P: ImagePipeline, C: Codec, M: Metric>(
    job: &Job<P, M>,
    encoder: &Encoder<C>,
) -> (r: (Vec<Step>, Option<String>))
    ensures
        format_played(job, *encoder, r.0@, said(r.1)),
{
    let format: ImageFormat = encoder.codec.format();
    let axis: QualityAxis = encoder.codec.quality_axis();
    if axis.min > axis.max {
        proof {
            reveal(format_played);
        }
        return (Vec::new(), Some("the codec has no usable range of levels".to_string()));
    }
    let (level, note) = plan::start_level(format.extension(), encoder.quality, axis);
    let mut steps: Vec<Step> = Vec::new();
    match note {
        Some(words) => {
            steps.push(Step::Note(words));
        },
        None => {},
    }
    let ghost told = steps@;
    let (mut rest, error) = play_main(job, &encoder.codec, format, level);
    let ghost after = rest@;
    steps.append(&mut rest);
    proof {
        assert(steps@.skip(told.len() as int) =~= after);
        assert(steps@.take(told.len() as int) =~= told);
        reveal(format_played);
    }
    (steps, error)
}

/// The formats from a place on.
fn play_formats<P: ImagePipeline, C: Codec, M: Metric>(
    job: &Job<P, M>,
    encoders: &Vec<Encoder<C>>,
    from: usize,
) -> (r: (Vec<Step>, Option<String>))
    requires
        from <= encoders@.len(),
    ensures
        formats_played(job, encoders@.skip(from as int), r.0@, said(r.1)),
    decreases encoders@.len() - from,
{
    if from == encoders.len() {
        return (Vec::new(), None);
    }
    let (mut steps, error) = play_format(job, &encoders[from]);
    let ghost first = steps@;
    if error.is_some() {
        return (steps, error);
    }
    let (mut rest, error) = play_formats(job, encoders, from + 1);
    let ghost after = rest@;
    steps.append(&mut rest);
    proof {
        let cut = first.len() as int;
        let all = encoders@.skip(from as int);
        assert(steps@.take(cut) =~= first);
        assert(steps@.skip(cut) =~= after);
        assert(all.skip(1) =~= encoders@.skip(from + 1));
        assert(format_played(job, all[0], steps@.take(cut), None));
    }
    (steps, error)
}

/// The steps for an input: it is decoded and fitted into the largest box allowed, and every
/// format is made of that, with its responsive variants.
pub fn process<P: ImagePipeline, C: Codec, M: Metric>(
    pipeline: &P,
    encoders: &Vec<Encoder<C>>,
    metric: &M,
    input: &[u8],
    settings: &Settings,
    name: &str,
) -> (r: Script)
    ensures
        played(pipeline, encoders@, metric, input, settings, name, r),
{
    let decoded: DecodedSource = match pipeline.decode(input) {
        Ok(decoded) => decoded,
        Err(e) => {
            return Script {
                source: Dimensions::new(0, 0),
                steps: Vec::new(),
                error: Some(e.message()),
            };
        },
    };
    let source: Dimensions = decoded.image.dimensions();
    let policy = DimensionPolicy::MaxBox {
        width: settings.max_width,
        height: settings.max_height,
    };
    let dimensions: Dimensions = policy.target(source);
    let fitted = pipeline::fit(pipeline, &decoded.image, dimensions);
    proof {
        assert(pipeline::fitted(
            pipeline,
            &decoded.image,
            main_dimensions(*settings, decoded.image@.dimensions),
            fitted,
        ));
    }
    let main: Image = match fitted {
        Ok(main) => main,
        Err(e) => {
            proof {
                assert(source_played(
                    pipeline,
                    encoders@,
                    metric,
                    &decoded.image,
                    settings,
                    name,
                    Seq::empty(),
                    Some(e.message_spec()),
                ));
            }
            return Script { source, steps: Vec::new(), error: Some(e.message()) };
        },
    };
    let widths: Vec<u32> = plan::extra_widths(&settings.sizes, dimensions.width);
    let job = Job {
        pipeline,
        metric,
        settings,
        name,
        source: &decoded.image,
        main: &main,
        dimensions,
        widths: &widths,
    };
    let (steps, error) = play_formats(&job, encoders, 0);
    proof {
        assert(encoders@.skip(0) =~= encoders@);
        assert(extra(settings.sizes@, dimensions.width, widths@));
        assert(source_played(
            pipeline,
            encoders@,
            metric,
            &decoded.image,
            settings,
            name,
            steps@,
            said(error),
        ));
    }
    Script { source, steps, error }
}

/// What carrying out steps has come to so far.
#[derive(Debug)]
pub struct Outcome {
    pub warnings: Vec<String>,
    pub scores: Vec<(ImageFormat, Binary64)>,
    pub outputs: Vec<FileReport>,
    pub variants: Vec<FileReport>,
}

impl Outcome {
    /// Nothing yet.
    pub fn new() -> (r: Self)
        ensures
            r.warnings@.len() == 0,
            r.scores@.len() == 0,
            r.outputs@.len() == 0,
            r.variants@.len() == 0,
    {
        Outcome {
            warnings: Vec::new(),
            scores: Vec::new(),
            outputs: Vec::new(),
            variants: Vec::new(),
        }
    }

    /// Takes down a step that was carried out.
    pub fn record(&mut self, step: Step)
        ensures
            final(self).warnings@ == (match step {
                Step::Note(words) => old(self).warnings@.push(words),
                _ => old(self).warnings@,
            }),
            final(self).scores@ == (match step {
                Step::Score(format, score) => old(self).scores@.push((format, score)),
                _ => old(self).scores@,
            }),
            final(self).outputs@ == (match step {
                Step::Output(f) => old(self).outputs@.push(f),
                _ => old(self).outputs@,
            }),
            final(self).variants@ == (match step {
                Step::Variant(f) => old(self).variants@.push(f),
                _ => old(self).variants@,
            }),
    {
        match step {
            Step::Note(words) => {
                self.warnings.push(words);
            },
            Step::Write { name: _, bytes: _, guarded: _ } => {},
            Step::Score(format, score) => {
                self.scores.push((format, score));
            },
            Step::Output(f) => {
                self.outputs.push(f);
            },
            Step::Variant(f) => {
                self.variants.push(f);
            },
        }
    }
}

/// The file that a step lists, if it lists one.
pub open spec fn file_of(step: Step) -> Option<FileReport> {
    match step {
        Step::Output(f) => Some(f),
        Step::Variant(f) => Some(f),
        _ => None,
    }
}

/// Whether a step writes a file of a name and a size.
pub open spec fn writes_file(step: Step, name: Seq<char>, size: nat) -> bool {
    match step {
        Step::Write { name: n, bytes, guarded: _ } => n@ == name && bytes@.len() == size,
        _ => false,
    }
}

/// Whether a listed file was written before, and is said to be within the cap if and only if it
/// is.
pub open spec fn accounted(steps: Seq<Step>, max_bytes: u64, i: int, f: FileReport) -> bool {
    &&& exists|j: int| 0 <= j < i && #[trigger] writes_file(steps[j], f.name@, f.bytes as nat)
    &&& f.within_budget <==> max_bytes == 0 || f.bytes <= max_bytes
}

/// Whether everything listed is accounted for.
pub open spec fn all_accounted(steps: Seq<Step>, max_bytes: u64) -> bool {
    forall|i: int|
        0 <= i < steps.len() && file_of(#[trigger] steps[i]) is Some ==> accounted(
            steps,
            max_bytes,
            i,
            file_of(steps[i])->0,
        )
}

proof fn lemma_accounted_behind(before: Seq<Step>, steps: Seq<Step>, max_bytes: u64, i: int)
    requires
        all_accounted(steps, max_bytes),
        0 <= i < steps.len(),
        file_of(steps[i]) is Some,
    ensures
        accounted(before + steps, max_bytes, before.len() + i, file_of(steps[i])->0),
{
    let f = file_of(steps[i])->0;
    assert(accounted(steps, max_bytes, i, f));
    let j = choose|j: int| 0 <= j < i && #[trigger] writes_file(steps[j], f.name@, f.bytes as nat);
    assert((before + steps)[before.len() + j] == steps[j]);
}

/// Two lists of steps that are accounted for make one.
proof fn lemma_accounted_together(a: Seq<Step>, b: Seq<Step>, max_bytes: u64)
    requires
        all_accounted(a, max_bytes),
        all_accounted(b, max_bytes),
    ensures
        all_accounted(a + b, max_bytes),
{
    let all = a + b;
    assert forall|i: int|
        0 <= i < all.len() && file_of(#[trigger] all[i]) is Some implies accounted(
        all,
        max_bytes,
        i,
        file_of(all[i])->0,
    ) by {
        if i < a.len() {
            let f = file_of(a[i])->0;
            assert(accounted(a, max_bytes, i, f));
            let j = choose|j: int|
                0 <= j < i && #[trigger] writes_file(a[j], f.name@, f.bytes as nat);
            assert(all[j] == a[j]);
        } else {
            assert(all[i] == b[i - a.len()]);
            lemma_accounted_behind(a, b, max_bytes, i - a.len());
        }
    }
}

proof fn lemma_web_encoding_within<P: ImagePipeline, C: Codec>(
    pipeline: &P,
    codec: &C,
    image: &Image,
    level: u32,
    max_bytes: u64,
    b: BudgetedEncode,
)
    requires
        render::web_encoding(pipeline, codec, image, level, max_bytes, Ok(b)),
    ensures
        b.within_budget <==> max_bytes == 0 || b.encoded.bytes@.len() <= max_bytes,
{
    let options = plan::web_budget(level, max_bytes);
    let axis = choose|axis: QualityAxis| #[trigger]
        call_ensures(C::quality_axis, (codec,), axis) && render::encoded_for_web(
            pipeline,
            codec,
            axis,
            image,
            options,
            Ok(b),
        );
    assert(budget::budgeted(pipeline, codec, axis, image, options, Ok(b)));
}

proof fn lemma_variants_accounted<P: ImagePipeline, C: Codec, M: Metric>(
    job: &Job<P, M>,
    codec: &C,
    format: ImageFormat,
    level: u32,
    steps: Seq<Step>,
    error: Option<Seq<char>>,
)
    requires
        variants_played(job, codec, format, level, steps, error),
    ensures
        all_accounted(steps, job.settings.max_bytes),
{
    let max_bytes = job.settings.max_bytes;
    assert forall|i: int|
        0 <= i < steps.len() && file_of(#[trigger] steps[i]) is Some implies accounted(
        steps,
        max_bytes,
        i,
        file_of(steps[i])->0,
    ) by {
        let k = i / 2;
        let width = job.widths@[k];
        assert(variant_made(
            job,
            codec,
            format,
            level,
            width,
            steps[2 * k],
            steps[2 * k + 1],
        ));
        let dimensions = at_width(job.source@.dimensions, width);
        let (image, b) = choose|image: Image, b: BudgetedEncode|
            {
                &&& #[trigger] pipeline::fitted(job.pipeline, job.source, dimensions, Ok(image))
                &&& #[trigger] render::web_encoding(
                    job.pipeline,
                    codec,
                    &image,
                    level,
                    max_bytes,
                    Ok(b),
                )
                &&& variant_listed(job, format, width, b, steps[2 * k], steps[2 * k + 1])
            };
        lemma_web_encoding_within(job.pipeline, codec, &image, level, max_bytes, b);
        assert(i == 2 * k + 1);
        let f = file_of(steps[i])->0;
        assert(writes_file(steps[2 * k], f.name@, f.bytes as nat));
    }
}

proof fn lemma_written_accounted<P: ImagePipeline, C: Codec, M: Metric>(
    job: &Job<P, M>,
    codec: &C,
    format: ImageFormat,
    level: u32,
    b: BudgetedEncode,
    steps: Seq<Step>,
    error: Option<Seq<char>>,
)
    requires
        encodes_main(job, codec, level, Ok(b)),
        written(job, codec, format, level, b, steps, error),
    ensures
        all_accounted(steps, job.settings.max_bytes),
{
    let max_bytes = job.settings.max_bytes;
    let warnings = render::cap_warnings_spec(
        format.extension_spec(),
        level,
        job.dimensions,
        b,
    );
    lemma_web_encoding_within(job.pipeline, codec, job.main, level, max_bytes, b);
    let told = 1 + warnings.len() as int;
    let rest = steps.skip(told);
    assert forall|i: int| 0 <= i < told implies file_of(#[trigger] steps[i]) is None by {
        if i > 0 {
            assert(steps[i] == steps.subrange(1, told)[i - 1]);
        }
    }
    if rest.len() > 0 {
        let at = if job.settings.score {
            1int
        } else {
            0
        };
        if job.settings.score {
            assert(rest.skip(1).skip(1) =~= steps.skip(told + at + 1));
            assert(rest[0] is Score);
            assert(rest.skip(1)[0] == steps[told + at]);
        } else {
            assert(rest.skip(1) =~= steps.skip(told + at + 1));
        }
        let tail = steps.skip(told + at + 1);
        lemma_variants_accounted(job, codec, format, level, tail, error);
        let before = steps.take(told + at + 1);
        assert(before + tail =~= steps);
        assert forall|i: int|
            0 <= i < steps.len() && file_of(#[trigger] steps[i]) is Some implies accounted(
            steps,
            max_bytes,
            i,
            file_of(steps[i])->0,
        ) by {
            if i > told + at {
                assert(steps[i] == tail[i - before.len()]);
                lemma_accounted_behind(before, tail, max_bytes, i - before.len());
            } else if i == told + at {
                let f = file_of(steps[i])->0;
                assert(writes_file(steps[0], f.name@, f.bytes as nat));
            } else if i == told {
                assert(steps[i] == rest[0]);
            }
        }
    } else {
        assert forall|i: int|
            0 <= i < steps.len() && file_of(#[trigger] steps[i]) is Some implies accounted(
            steps,
            max_bytes,
            i,
            file_of(steps[i])->0,
        ) by {
            assert(i < told);
        }
    }
}

proof fn lemma_format_accounted<P: ImagePipeline, C: Codec, M: Metric>(
    job: &Job<P, M>,
    encoder: Encoder<C>,
    steps: Seq<Step>,
    error: Option<Seq<char>>,
)
    requires
        format_played(job, encoder, steps, error),
    ensures
        all_accounted(steps, job.settings.max_bytes),
{
    reveal(format_played);
    let max_bytes = job.settings.max_bytes;
    let codec = &encoder.codec;
    let (format, axis) = choose|format: ImageFormat, axis: QualityAxis|
        {
            &&& #[trigger] call_ensures(C::format, (codec,), format)
            &&& #[trigger] call_ensures(C::quality_axis, (codec,), axis)
            &&& format_played_on(job, codec, format, encoder.quality, axis, steps, error)
        };
    if axis.min <= axis.max {
        let told = quality_notes(format.extension_spec(), encoder.quality, axis).len() as int;
        let level = axis.clamp_spec(encoder.quality);
        let before = steps.take(told);
        let rest = steps.skip(told);
        assert(all_accounted(before, max_bytes));
        if rest.len() > 0 {
            let b = choose|b: BudgetedEncode| #[trigger]
                encodes_main(job, codec, level, Ok(b)) && written(
                    job,
                    codec,
                    format,
                    level,
                    b,
                    rest,
                    error,
                );
            lemma_written_accounted(job, codec, format, level, b, rest, error);
        }
        lemma_accounted_together(before, rest, max_bytes);
        assert(before + rest =~= steps);
    }
}

proof fn lemma_formats_accounted<P: ImagePipeline, C: Codec, M: Metric>(
    job: &Job<P, M>,
    encoders: Seq<Encoder<C>>,
    steps: Seq<Step>,
    error: Option<Seq<char>>,
)
    requires
        formats_played(job, encoders, steps, error),
    ensures
        all_accounted(steps, job.settings.max_bytes),
    decreases encoders.len(),
{
    if encoders.len() > 0 {
        if error is Some && format_played(job, encoders[0], steps, error) {
            lemma_format_accounted(job, encoders[0], steps, error);
        } else {
            let cut = choose|cut: int|
                0 <= cut <= steps.len() && #[trigger] format_played(
                    job,
                    encoders[0],
                    steps.take(cut),
                    None,
                ) && formats_played(job, encoders.skip(1), steps.skip(cut), error);
            lemma_format_accounted(job, encoders[0], steps.take(cut), None);
            lemma_formats_accounted(job, encoders.skip(1), steps.skip(cut), error);
            lemma_accounted_together(steps.take(cut), steps.skip(cut), job.settings.max_bytes);
            assert(steps.take(cut) + steps.skip(cut) =~= steps);
        }
    }
}

/// Every file that the steps for an input list was written before, at the size that is listed,
/// and it is said to be within the cap if and only if it is.
pub proof fn lemma_listed_files_are_accounted_for<P: ImagePipeline, C: Codec, M: Metric>(
    pipeline: &P,
    encoders: Seq<Encoder<C>>,
    metric: &M,
    input: &[u8],
    settings: &Settings,
    name: &str,
    script: Script,
)
    requires
        played(pipeline, encoders, metric, input, settings, name, script),
    ensures
        all_accounted(script.steps@, settings.max_bytes),
{
    if script.steps@.len() > 0 {
        let job = lemma_played_as_job(pipeline, encoders, metric, input, settings, name, script);
        lemma_formats_accounted(&job, encoders, script.steps@, said(script.error));
    }
}

/// Where there are steps, or no error, they are those of a job with these settings.
proof fn lemma_played_as_job<'a, P: ImagePipeline, C: Codec, M: Metric>(
    pipeline: &'a P,
    encoders: Seq<Encoder<C>>,
    metric: &'a M,
    input: &[u8],
    settings: &'a Settings,
    name: &'a str,
    script: Script,
) -> (job: Job<'a, P, M>)
    requires
        played(pipeline, encoders, metric, input, settings, name, script),
        script.steps@.len() > 0 || script.error is None,
    ensures
        job.settings == settings,
        formats_played(&job, encoders, script.steps@, said(script.error)),
{
    let decoded = choose|decoded: DecodedSource|
        {
            &&& #[trigger] call_ensures(P::decode, (pipeline, input), Ok(decoded))
            &&& script.source == decoded.image@.dimensions
            &&& source_played(
                pipeline,
                encoders,
                metric,
                &decoded.image,
                settings,
                name,
                script.steps@,
                said(script.error),
            )
        };
    let source = &decoded.image;
    let dimensions = main_dimensions(*settings, source@.dimensions);
    let (main, widths) = choose|main: Image, widths: Vec<u32>|
        {
            &&& #[trigger] pipeline::fitted(pipeline, source, dimensions, Ok(main))
            &&& #[trigger] extra(settings.sizes@, dimensions.width, widths@)
            &&& formats_played(
                &(Job {
                    pipeline,
                    metric,
                    settings,
                    name,
                    source,
                    main: &main,
                    dimensions,
                    widths: &widths,
                }),
                encoders,
                script.steps@,
                said(script.error),
            )
        };
    Job { pipeline, metric, settings, name, source, main: &main, dimensions, widths: &widths }
}

/// The main outputs that steps list.
pub open spec fn outputs_of(steps: Seq<Step>) -> Seq<FileReport>
    decreases steps.len(),
{
    if steps.len() == 0 {
        Seq::empty()
    } else {
        let before = outputs_of(steps.drop_last());
        match steps.last() {
            Step::Output(f) => before.push(f),
            _ => before,
        }
    }
}

proof fn lemma_outputs_together(a: Seq<Step>, b: Seq<Step>)
    ensures
        outputs_of(a + b) == outputs_of(a) + outputs_of(b),
    decreases b.len(),
{
    if b.len() == 0 {
        assert(a + b =~= a);
        assert(outputs_of(a) + outputs_of(b) =~= outputs_of(a));
    } else {
        lemma_outputs_together(a, b.drop_last());
        assert((a + b).drop_last() =~= a + b.drop_last());
        assert(outputs_of(a + b) =~= outputs_of(a) + outputs_of(b));
    }
}

proof fn lemma_no_outputs(steps: Seq<Step>)
    requires
        forall|i: int| 0 <= i < steps.len() ==> !(#[trigger] steps[i] is Output),
    ensures
        outputs_of(steps).len() == 0,
    decreases steps.len(),
{
    if steps.len() > 0 {
        assert(!(steps[steps.len() - 1] is Output));
        lemma_no_outputs(steps.drop_last());
    }
}

/// Steps with one listed output between steps without any have that output.
proof fn lemma_output_between(steps: Seq<Step>, at: int)
    requires
        0 <= at < steps.len(),
        steps[at] is Output,
        forall|i: int|
            0 <= i < steps.len() && i != at ==> !(#[trigger] steps[i] is Output),
    ensures
        outputs_of(steps) == seq![file_of(steps[at])->0],
{
    let before = steps.take(at);
    let one = seq![steps[at]];
    let behind = steps.skip(at + 1);
    lemma_no_outputs(before);
    lemma_no_outputs(behind);
    lemma_outputs_together(before + one, behind);
    lemma_outputs_together(before, one);
    assert(steps =~= before + one + behind);
    assert(one.drop_last() =~= Seq::empty());
    assert(outputs_of(one.drop_last()) =~= Seq::empty());
    assert(one.last() == steps[at]);
    assert(outputs_of(one) =~= seq![file_of(steps[at])->0]);
    assert(outputs_of(steps) =~= outputs_of(one));
}

/// The steps for variants list no main output.
proof fn lemma_variants_without_output<P: ImagePipeline, C: Codec, M: Metric>(
    job: &Job<P, M>,
    codec: &C,
    format: ImageFormat,
    level: u32,
    steps: Seq<Step>,
    error: Option<Seq<char>>,
    i: int,
)
    requires
        variants_played(job, codec, format, level, steps, error),
        0 <= i < steps.len(),
    ensures
        !(steps[i] is Output),
{
    let k = i / 2;
    assert(variant_made(
        job,
        codec,
        format,
        level,
        job.widths@[k],
        steps[2 * k],
        steps[2 * k + 1],
    ));
    assert(i == 2 * k || i == 2 * k + 1);
}

/// The listing of a main output with its variants has that output alone.
proof fn lemma_listed_output<P: ImagePipeline, C: Codec, M: Metric>(
    job: &Job<P, M>,
    codec: &C,
    format: ImageFormat,
    level: u32,
    b: BudgetedEncode,
    steps: Seq<Step>,
    error: Option<Seq<char>>,
)
    requires
        listed(job, codec, format, level, b, steps, error),
    ensures
        outputs_of(steps).len() == 1,
        outputs_of(steps)[0].format == format,
{
    let behind = steps.skip(1);
    assert forall|i: int| 0 <= i < steps.len() && i != 0 implies !(
    #[trigger] steps[i] is Output) by {
        assert(steps[i] == behind[i - 1]);
        lemma_variants_without_output(job, codec, format, level, behind, error, i - 1);
    }
    lemma_output_between(steps, 0);
}

/// A main output that was written and done with is listed once.
proof fn lemma_written_output<P: ImagePipeline, C: Codec, M: Metric>(
    job: &Job<P, M>,
    codec: &C,
    format: ImageFormat,
    level: u32,
    b: BudgetedEncode,
    steps: Seq<Step>,
)
    requires
        written(job, codec, format, level, b, steps, None),
    ensures
        outputs_of(steps).len() == 1,
        outputs_of(steps)[0].format == format,
{
    let told = 1 + render::cap_warnings_spec(
        format.extension_spec(),
        level,
        job.dimensions,
        b,
    ).len() as int;
    let before = steps.take(told);
    let rest = steps.skip(told);
    assert forall|i: int| 0 <= i < before.len() implies !(#[trigger] before[i] is Output) by {
        if i > 0 {
            assert(before[i] == steps.subrange(1, told)[i - 1]);
        }
    }
    lemma_no_outputs(before);
    lemma_outputs_together(before, rest);
    assert(before + rest =~= steps);
    if job.settings.score {
        let one = seq![rest[0]];
        lemma_listed_output(job, codec, format, level, b, rest.skip(1), None);
        lemma_no_outputs(one);
        lemma_outputs_together(one, rest.skip(1));
        assert(one + rest.skip(1) =~= rest);
    } else {
        lemma_listed_output(job, codec, format, level, b, rest, None);
    }
}

/// A format that was done has one main output.
proof fn lemma_one_output<P: ImagePipeline, C: Codec, M: Metric>(
    job: &Job<P, M>,
    encoder: Encoder<C>,
    steps: Seq<Step>,
)
    requires
        format_played(job, encoder, steps, None),
    ensures
        outputs_of(steps).len() == 1,
        call_ensures(C::format, (&encoder.codec,), outputs_of(steps)[0].format),
{
    reveal(format_played);
    let codec = &encoder.codec;
    let (format, axis) = choose|format: ImageFormat, axis: QualityAxis|
        {
            &&& #[trigger] call_ensures(C::format, (codec,), format)
            &&& #[trigger] call_ensures(C::quality_axis, (codec,), axis)
            &&& format_played_on(job, codec, format, encoder.quality, axis, steps, None)
        };
    let noted = quality_notes(format.extension_spec(), encoder.quality, axis).len() as int;
    let level = axis.clamp_spec(encoder.quality);
    let before = steps.take(noted);
    let rest = steps.skip(noted);
    let b = choose|b: BudgetedEncode| #[trigger]
        encodes_main(job, codec, level, Ok(b)) && written(
            job,
            codec,
            format,
            level,
            b,
            rest,
            None,
        );
    lemma_no_outputs(before);
    lemma_written_output(job, codec, format, level, b, rest);
    lemma_outputs_together(before, rest);
    assert(before + rest =~= steps);
}

proof fn lemma_one_output_each<P: ImagePipeline, C: Codec, M: Metric>(
    job: &Job<P, M>,
    encoders: Seq<Encoder<C>>,
    steps: Seq<Step>,
)
    requires
        formats_played(job, encoders, steps, None),
    ensures
        outputs_of(steps).len() == encoders.len(),
        forall|k: int|
            0 <= k < encoders.len() ==> call_ensures(
                C::format,
                (&(#[trigger] encoders[k]).codec,),
                outputs_of(steps)[k].format,
            ),
    decreases encoders.len(),
{
    if encoders.len() > 0 {
        let cut = choose|cut: int|
            0 <= cut <= steps.len() && #[trigger] format_played(
                job,
                encoders[0],
                steps.take(cut),
                None,
            ) && formats_played(job, encoders.skip(1), steps.skip(cut), None);
        lemma_one_output(job, encoders[0], steps.take(cut));
        lemma_one_output_each(job, encoders.skip(1), steps.skip(cut));
        lemma_outputs_together(steps.take(cut), steps.skip(cut));
        assert(steps.take(cut) + steps.skip(cut) =~= steps);
        assert forall|k: int| 0 <= k < encoders.len() implies call_ensures(
            C::format,
            (&(#[trigger] encoders[k]).codec,),
            outputs_of(steps)[k].format,
        ) by {
            if k > 0 {
                assert(encoders[k] == encoders.skip(1)[k - 1]);
            }
        }
    }
}

/// Where nothing failed, there is one main output for each format that was asked for, in that
/// order.
pub proof fn lemma_every_format_has_an_output<P: ImagePipeline, C: Codec, M: Metric>(
    pipeline: &P,
    encoders: Seq<Encoder<C>>,
    metric: &M,
    input: &[u8],
    settings: &Settings,
    name: &str,
    script: Script,
)
    requires
        played(pipeline, encoders, metric, input, settings, name, script),
        script.error is None,
    ensures
        outputs_of(script.steps@).len() == encoders.len(),
        forall|k: int|
            0 <= k < encoders.len() ==> call_ensures(
                C::format,
                (&(#[trigger] encoders[k]).codec,),
                outputs_of(script.steps@)[k].format,
            ),
{
    let job = lemma_played_as_job(pipeline, encoders, metric, input, settings, name, script);
    lemma_one_output_each(&job, encoders, script.steps@);
}

/// Whether a file is what an encoder made of a picture, at the quality that is asked of it as far
/// as the codec supports it.
pub open spec fn file_made<P: ImagePipeline, C: Codec, M: Metric>(
    job: &Job<P, M>,
    encoder: Encoder<C>,
    picture: &Image,
    level: u32,
    dimensions: Dimensions,
    bytes: Seq<u8>,
    within: bool,
) -> bool {
    exists|axis: QualityAxis| #[trigger]
        call_ensures(C::quality_axis, (&encoder.codec,), axis) && render::web_made(
            job.pipeline,
            &encoder.codec,
            picture,
            budget::moved_into(axis, encoder.quality as int) as u32,
            job.settings.max_bytes,
            level,
            dimensions,
            bytes,
            within,
        )
}

/// Whether a file report is on a file that an encoder made of a picture.
pub open spec fn report_right<P: ImagePipeline, C: Codec, M: Metric>(
    job: &Job<P, M>,
    encoder: Encoder<C>,
    picture: &Image,
    f: FileReport,
) -> bool {
    &&& call_ensures(C::format, (&encoder.codec,), f.format)
    &&& exists|bytes: Seq<u8>| #[trigger]
        file_made(
            job,
            encoder,
            picture,
            f.quality,
            Dimensions { width: f.width, height: f.height },
            bytes,
            f.within_budget,
        ) && f.bytes == bytes.len()
}

/// Whether an image is the source at a width that is asked for and below that of the main image.
pub open spec fn at_extra_width<P: ImagePipeline, M: Metric>(
    job: &Job<P, M>,
    width: u32,
    picture: Image,
) -> bool {
    &&& job.widths@.contains(width)
    &&& pipeline::fitted(
        job.pipeline,
        job.source,
        Dimensions {
            width,
            height: plan::proportional_height(job.source@.dimensions, width),
        },
        Ok(picture),
    )
}

/// Whether a step is one for an encoder: what is written, listed and scored is made of the main
/// image or, for a variant, of the source at an extra width.
pub open spec fn step_right<P: ImagePipeline, C: Codec, M: Metric>(
    job: &Job<P, M>,
    encoder: Encoder<C>,
    step: Step,
) -> bool {
    match step {
        Step::Note(_) => true,
        Step::Write { name: _, bytes, guarded } => exists|
            picture: Image,
            level: u32,
            dimensions: Dimensions,
            within: bool,
        |
            #[trigger] file_made(job, encoder, &picture, level, dimensions, bytes@, within) && if guarded {
                picture == *job.main
            } else {
                exists|width: u32| #[trigger] at_extra_width(job, width, picture)
            },
        Step::Score(format, _) => job.settings.score && call_ensures(
            C::format,
            (&encoder.codec,),
            format,
        ),
        Step::Output(f) => {
            &&& report_right(job, encoder, job.main, f)
            &&& f.name@ == job.name@ + job.settings.suffix@ + "."@ + f.format.extension_spec()
        },
        Step::Variant(f) => exists|picture: Image, width: u32|
            {
                &&& #[trigger] at_extra_width(job, width, picture)
                &&& report_right(job, encoder, &picture, f)
                &&& f.name@ == job.name@ + job.settings.suffix@ + "-"@ + text::decimal(width as nat)
                    + "."@ + f.format.extension_spec()
            },
    }
}

/// Whether every step is one for an encoder.
spec fn steps_right<P: ImagePipeline, C: Codec, M: Metric>(
    job: &Job<P, M>,
    encoder: Encoder<C>,
    steps: Seq<Step>,
) -> bool {
    forall|i: int| 0 <= i < steps.len() ==> step_right(job, encoder, #[trigger] steps[i])
}

proof fn lemma_variants_right<P: ImagePipeline, C: Codec, M: Metric>(
    job: &Job<P, M>,
    encoder: Encoder<C>,
    format: ImageFormat,
    axis: QualityAxis,
    steps: Seq<Step>,
    error: Option<Seq<char>>,
)
    requires
        axis.min <= axis.max,
        call_ensures(C::format, (&encoder.codec,), format),
        call_ensures(C::quality_axis, (&encoder.codec,), axis),
        variants_played(
            job,
            &encoder.codec,
            format,
            axis.clamp_spec(encoder.quality),
            steps,
            error,
        ),
    ensures
        steps_right(job, encoder, steps),
{
    let codec = &encoder.codec;
    let level = axis.clamp_spec(encoder.quality);
    assert forall|i: int| 0 <= i < steps.len() implies step_right(
        job,
        encoder,
        #[trigger] steps[i],
    ) by {
        let k = i / 2;
        let width = job.widths@[k];
        assert(variant_made(job, codec, format, level, width, steps[2 * k], steps[2 * k + 1]));
        let dimensions = at_width(job.source@.dimensions, width);
        let (image, b) = choose|image: Image, b: BudgetedEncode|
            {
                &&& #[trigger] pipeline::fitted(job.pipeline, job.source, dimensions, Ok(image))
                &&& #[trigger] render::web_encoding(
                    job.pipeline,
                    codec,
                    &image,
                    level,
                    job.settings.max_bytes,
                    Ok(b),
                )
                &&& variant_listed(job, format, width, b, steps[2 * k], steps[2 * k + 1])
            };
        render::lemma_web_encoding_is_made_of_the_picture(
            job.pipeline,
            codec,
            &image,
            level,
            job.settings.max_bytes,
            b,
        );
        assert(file_made(
            job,
            encoder,
            &image,
            b.level,
            b.dimensions,
            b.encoded.bytes@,
            b.within_budget,
        ));
        assert(job.widths@.contains(width));
        assert(at_extra_width(job, width, image));
        if i == 2 * k + 1 {
            let f = file_of(steps[i])->0;
            assert(b.dimensions == Dimensions { width: f.width, height: f.height });
            assert(report_right(job, encoder, &image, f));
        }
    }
}

proof fn lemma_main_right<P: ImagePipeline, C: Codec, M: Metric>(
    job: &Job<P, M>,
    encoder: Encoder<C>,
    format: ImageFormat,
    axis: QualityAxis,
    b: BudgetedEncode,
    steps: Seq<Step>,
    error: Option<Seq<char>>,
)
    requires
        axis.min <= axis.max,
        call_ensures(C::format, (&encoder.codec,), format),
        call_ensures(C::quality_axis, (&encoder.codec,), axis),
        encodes_main(job, &encoder.codec, axis.clamp_spec(encoder.quality), Ok(b)),
        written(
            job,
            &encoder.codec,
            format,
            axis.clamp_spec(encoder.quality),
            b,
            steps,
            error,
        ),
    ensures
        steps_right(job, encoder, steps),
{
    let codec = &encoder.codec;
    let level = axis.clamp_spec(encoder.quality);
    render::lemma_web_encoding_is_made_of_the_picture(
        job.pipeline,
        codec,
        job.main,
        level,
        job.settings.max_bytes,
        b,
    );
    assert(file_made(
        job,
        encoder,
        job.main,
        b.level,
        b.dimensions,
        b.encoded.bytes@,
        b.within_budget,
    ));
    let told = 1 + render::cap_warnings_spec(
        format.extension_spec(),
        level,
        job.dimensions,
        b,
    ).len() as int;
    let rest = steps.skip(told);
    let at = if job.settings.score {
        1int
    } else {
        0
    };
    if rest.len() > 0 {
        let list = rest.skip(at);
        assert(listed(job, codec, format, level, b, list, error)) by {
            if !job.settings.score {
                assert(rest.skip(0) =~= rest);
            }
        }
        let tail = list.skip(1);
        lemma_variants_right(job, encoder, format, axis, tail, error);
        let f = file_of(list[0])->0;
        assert(b.dimensions == Dimensions { width: f.width, height: f.height });
        assert(report_right(job, encoder, job.main, f));
        assert forall|i: int| told <= i < steps.len() implies step_right(
            job,
            encoder,
            #[trigger] steps[i],
        ) by {
            assert(steps[i] == rest[i - told]);
            if i > told + at {
                assert(steps[i] == tail[i - told - at - 1]);
            } else if i == told + at {
                assert(steps[i] == list[0]);
            }
        }
    }
    assert forall|i: int| 0 <= i < told implies step_right(job, encoder, #[trigger] steps[i]) by {
        if i > 0 {
            assert(steps[i] == steps.subrange(1, told)[i - 1]);
        }
    }
}

proof fn lemma_format_right<P: ImagePipeline, C: Codec, M: Metric>(
    job: &Job<P, M>,
    encoder: Encoder<C>,
    steps: Seq<Step>,
    error: Option<Seq<char>>,
)
    requires
        format_played(job, encoder, steps, error),
    ensures
        steps_right(job, encoder, steps),
{
    reveal(format_played);
    let codec = &encoder.codec;
    let (format, axis) = choose|format: ImageFormat, axis: QualityAxis|
        {
            &&& #[trigger] call_ensures(C::format, (codec,), format)
            &&& #[trigger] call_ensures(C::quality_axis, (codec,), axis)
            &&& format_played_on(job, codec, format, encoder.quality, axis, steps, error)
        };
    if axis.min <= axis.max {
        let told = quality_notes(format.extension_spec(), encoder.quality, axis).len() as int;
        let level = axis.clamp_spec(encoder.quality);
        let rest = steps.skip(told);
        if rest.len() > 0 {
            let b = choose|b: BudgetedEncode| #[trigger]
                encodes_main(job, codec, level, Ok(b)) && written(
                    job,
                    codec,
                    format,
                    level,
                    b,
                    rest,
                    error,
                );
            lemma_main_right(job, encoder, format, axis, b, rest, error);
        }
        assert forall|i: int| 0 <= i < steps.len() implies step_right(
            job,
            encoder,
            #[trigger] steps[i],
        ) by {
            if i < told {
                assert(steps[i] == steps.take(told)[i]);
            } else {
                assert(steps[i] == rest[i - told]);
            }
        }
    }
}

proof fn lemma_formats_right<P: ImagePipeline, C: Codec, M: Metric>(
    job: &Job<P, M>,
    encoders: Seq<Encoder<C>>,
    steps: Seq<Step>,
    error: Option<Seq<char>>,
    i: int,
) -> (k: int)
    requires
        formats_played(job, encoders, steps, error),
        0 <= i < steps.len(),
    ensures
        0 <= k < encoders.len(),
        step_right(job, encoders[k], steps[i]),
    decreases encoders.len(),
{
    if error is Some && format_played(job, encoders[0], steps, error) {
        lemma_format_right(job, encoders[0], steps, error);
        0
    } else {
        let cut = choose|cut: int|
            0 <= cut <= steps.len() && #[trigger] format_played(
                job,
                encoders[0],
                steps.take(cut),
                None,
            ) && formats_played(job, encoders.skip(1), steps.skip(cut), error);
        if i < cut {
            lemma_format_right(job, encoders[0], steps.take(cut), None);
            assert(steps[i] == steps.take(cut)[i]);
            0
        } else {
            assert(steps[i] == steps.skip(cut)[i - cut]);
            let k = lemma_formats_right(
                job,
                encoders.skip(1),
                steps.skip(cut),
                error,
                i - cut,
            );
            assert(encoders.skip(1)[k] == encoders[k + 1]);
            k + 1
        }
    }
}

/// The job behind a script, with what its parts are: the decoded source, that fitted into the box
/// of the settings, and the extra widths below the width of the box.
proof fn lemma_job_of<'a, P: ImagePipeline, C: Codec, M: Metric>(
    pipeline: &'a P,
    encoders: Seq<Encoder<C>>,
    metric: &'a M,
    input: &[u8],
    settings: &'a Settings,
    name: &'a str,
    script: Script,
) -> (job: Job<'a, P, M>)
    requires
        played(pipeline, encoders, metric, input, settings, name, script),
        script.steps@.len() > 0 || script.error is None,
    ensures
        job.pipeline == pipeline,
        job.metric == metric,
        job.settings == settings,
        job.name == name,
        exists|decoded: DecodedSource| #[trigger]
            call_ensures(P::decode, (pipeline, input), Ok(decoded)) && *job.source
                == decoded.image,
        script.source == job.source@.dimensions,
        job.dimensions == main_dimensions(*settings, job.source@.dimensions),
        pipeline::fitted(pipeline, job.source, job.dimensions, Ok(*job.main)),
        extra(settings.sizes@, job.dimensions.width, job.widths@),
        formats_played(&job, encoders, script.steps@, said(script.error)),
{
    let decoded = choose|decoded: DecodedSource|
        {
            &&& #[trigger] call_ensures(P::decode, (pipeline, input), Ok(decoded))
            &&& script.source == decoded.image@.dimensions
            &&& source_played(
                pipeline,
                encoders,
                metric,
                &decoded.image,
                settings,
                name,
                script.steps@,
                said(script.error),
            )
        };
    let source = &decoded.image;
    let dimensions = main_dimensions(*settings, source@.dimensions);
    let (main, widths) = choose|main: Image, widths: Vec<u32>|
        {
            &&& #[trigger] pipeline::fitted(pipeline, source, dimensions, Ok(main))
            &&& #[trigger] extra(settings.sizes@, dimensions.width, widths@)
            &&& formats_played(
                &(Job {
                    pipeline,
                    metric,
                    settings,
                    name,
                    source,
                    main: &main,
                    dimensions,
                    widths: &widths,
                }),
                encoders,
                script.steps@,
                said(script.error),
            )
        };
    assert(call_ensures(P::decode, (pipeline, input), Ok(decoded)));
    Job { pipeline, metric, settings, name, source, main: &main, dimensions, widths: &widths }
}

/// Whether a codec gave bytes for a picture at a level, with its profile kept.
pub open spec fn encoded_with_profile<C: Codec>(
    codec: &C,
    picture: &Image,
    level: u32,
    bytes: Seq<u8>,
) -> bool {
    exists|encoded: Encoded| #[trigger]
        call_ensures(
            C::encode,
            (codec, picture, &EncodeSettings { level, metadata: MetadataPolicy::KeepIccOnly }),
            Ok(encoded),
        ) && encoded.bytes@ == bytes
}

/// Colour profiles are kept: every file that the steps for an input write is an encoding under the
/// policy that keeps the profile of the picture.
pub proof fn lemma_written_files_keep_the_profile<P: ImagePipeline, C: Codec, M: Metric>(
    pipeline: &P,
    encoders: Seq<Encoder<C>>,
    metric: &M,
    input: &[u8],
    settings: &Settings,
    name: &str,
    script: Script,
    i: int,
)
    requires
        played(pipeline, encoders, metric, input, settings, name, script),
        0 <= i < script.steps@.len(),
    ensures
        script.steps@[i] matches Step::Write { bytes, .. } ==> exists|
            k: int,
            picture: Image,
            level: u32,
        |
            0 <= k < encoders.len() && #[trigger] encoded_with_profile(
                &encoders[k].codec,
                &picture,
                level,
                bytes@,
            ),
{
    let job = lemma_job_of(pipeline, encoders, metric, input, settings, name, script);
    let k = lemma_formats_right(&job, encoders, script.steps@, said(script.error), i);
    let encoder = encoders[k];
    if let Step::Write { name: _, bytes, guarded } = script.steps@[i] {
        let (picture, level, dimensions, within) = choose|
            picture: Image,
            level: u32,
            dimensions: Dimensions,
            within: bool,
        |
            #[trigger] file_made(&job, encoder, &picture, level, dimensions, bytes@, within) && if guarded {
                picture == *job.main
            } else {
                exists|width: u32| #[trigger] at_extra_width(&job, width, picture)
            };
        let axis = choose|axis: QualityAxis| #[trigger]
            call_ensures(C::quality_axis, (&encoder.codec,), axis) && render::web_made(
                job.pipeline,
                &encoder.codec,
                &picture,
                budget::moved_into(axis, encoder.quality as int) as u32,
                job.settings.max_bytes,
                level,
                dimensions,
                bytes@,
                within,
            );
        let start = budget::moved_into(axis, encoder.quality as int) as u32;
        let (other, shown, n, encoded) = lemma_made(
            &job,
            encoder,
            &picture,
            start,
            level,
            dimensions,
            bytes@,
            within,
        );
        assert(encoded_with_profile(&encoder.codec, &shown, level, bytes@));
    }
}

/// The parts of a file made for the web.
proof fn lemma_made<P: ImagePipeline, C: Codec, M: Metric>(
    job: &Job<P, M>,
    encoder: Encoder<C>,
    picture: &Image,
    start: u32,
    level: u32,
    dimensions: Dimensions,
    bytes: Seq<u8>,
    within: bool,
) -> (r: (QualityAxis, Image, nat, Encoded))
    requires
        render::web_made(
            job.pipeline,
            &encoder.codec,
            picture,
            start,
            job.settings.max_bytes,
            level,
            dimensions,
            bytes,
            within,
        ),
    ensures
        call_ensures(C::quality_axis, (&encoder.codec,), r.0),
        render::shown_as(job.pipeline, picture, r.2, r.1),
        r.2 <= 4,
        job.settings.max_bytes == 0 ==> r.2 == 0,
        call_ensures(
            C::encode,
            (
                &encoder.codec,
                &r.1,
                &EncodeSettings { level, metadata: MetadataPolicy::KeepIccOnly },
            ),
            Ok(r.3),
        ),
        r.3.bytes@ == bytes,
        dimensions == r.1@.dimensions,
        r.0.min <= level <= budget::moved_into(r.0, start as int),
        job.settings.max_bytes == 0 ==> level == budget::moved_into(r.0, start as int),
        within <==> job.settings.max_bytes == 0 || bytes.len() <= job.settings.max_bytes,
{
    let (axis, shown, n, encoded) = choose|
        axis: QualityAxis,
        shown: Image,
        n: nat,
        encoded: Encoded,
    |
        {
            &&& #[trigger] call_ensures(C::quality_axis, (&encoder.codec,), axis)
            &&& #[trigger] render::shown_as(job.pipeline, picture, n, shown)
            &&& n <= 4
            &&& job.settings.max_bytes == 0 ==> n == 0
            &&& #[trigger] call_ensures(
                C::encode,
                (
                    &encoder.codec,
                    &shown,
                    &EncodeSettings { level, metadata: MetadataPolicy::KeepIccOnly },
                ),
                Ok(encoded),
            )
            &&& encoded.bytes@ == bytes
            &&& dimensions == shown@.dimensions
            &&& axis.min <= level <= budget::moved_into(axis, start as int)
            &&& job.settings.max_bytes == 0 ==> level == budget::moved_into(axis, start as int)
            &&& within <==> job.settings.max_bytes == 0 || bytes.len() <= job.settings.max_bytes
        };
    (axis, shown, n, encoded)
}

/// Whether a pipeline resizes to exactly the dimensions asked for.
pub open spec fn resizes_exactly<P: ImagePipeline>(pipeline: &P) -> bool {
    forall|image: Image, dimensions: Dimensions, out: Image| #[trigger]
        call_ensures(P::resize, (pipeline, &image, dimensions), Ok(out)) ==> out@.dimensions
            == dimensions
}

/// A file report is on a picture no larger than the one it was made of, and just as large without a
/// cap.
proof fn lemma_report_dimensions<P: ImagePipeline, C: Codec, M: Metric>(
    job: &Job<P, M>,
    encoder: Encoder<C>,
    picture: &Image,
    f: FileReport,
)
    requires
        resizes_exactly(job.pipeline),
        picture@.dimensions.nonzero(),
        report_right(job, encoder, picture, f),
    ensures
        1 <= f.width <= picture@.dimensions.width,
        1 <= f.height <= picture@.dimensions.height,
        job.settings.max_bytes == 0 ==> f.width == picture@.dimensions.width && f.height
            == picture@.dimensions.height,
{
    let bytes = choose|bytes: Seq<u8>| #[trigger]
        file_made(
            job,
            encoder,
            picture,
            f.quality,
            Dimensions { width: f.width, height: f.height },
            bytes,
            f.within_budget,
        ) && f.bytes == bytes.len();
    let dimensions = Dimensions { width: f.width, height: f.height };
    let axis = choose|axis: QualityAxis| #[trigger]
        call_ensures(C::quality_axis, (&encoder.codec,), axis) && render::web_made(
            job.pipeline,
            &encoder.codec,
            picture,
            budget::moved_into(axis, encoder.quality as int) as u32,
            job.settings.max_bytes,
            f.quality,
            dimensions,
            bytes,
            f.within_budget,
        );
    let start = budget::moved_into(axis, encoder.quality as int) as u32;
    let (other, shown, n, encoded) = lemma_made(
        job,
        encoder,
        picture,
        start,
        f.quality,
        dimensions,
        bytes,
        f.within_budget,
    );
    if n > 0 {
        let factor = Binary64 { bits: 0x3feb_3333_3333_3333 };
        budget::lemma_shrunk_side_is_the_power(picture@.dimensions.width, factor, n);
        budget::lemma_shrunk_side_is_the_power(picture@.dimensions.height, factor, n);
    }
}

/// Main outputs fit into the largest width and height allowed, and are never larger than the
/// source. Without a cap a source that fits keeps its dimensions, and of one that does not one side
/// meets its limit and the other keeps the proportions.
pub proof fn lemma_main_outputs_fit_the_box<P: ImagePipeline, C: Codec, M: Metric>(
    pipeline: &P,
    encoders: Seq<Encoder<C>>,
    metric: &M,
    input: &[u8],
    settings: &Settings,
    name: &str,
    script: Script,
    i: int,
)
    requires
        played(pipeline, encoders, metric, input, settings, name, script),
        resizes_exactly(pipeline),
        script.source.nonzero(),
        settings.max_width > 0,
        settings.max_height > 0,
        0 <= i < script.steps@.len(),
    ensures
        script.steps@[i] matches Step::Output(f) ==> {
            &&& 1 <= f.width <= settings.max_width
            &&& 1 <= f.height <= settings.max_height
            &&& f.width <= script.source.width
            &&& f.height <= script.source.height
            &&& settings.max_bytes == 0 ==> if script.source.width <= settings.max_width
                && script.source.height <= settings.max_height {
                f.width == script.source.width && f.height == script.source.height
            } else {
                ||| f.width == settings.max_width && geometry::side_of(
                    f.height,
                    script.source.height * settings.max_width,
                    script.source.width as int,
                )
                ||| f.height == settings.max_height && geometry::side_of(
                    f.width,
                    script.source.width * settings.max_height,
                    script.source.height as int,
                )
            }
        },
{
    let job = lemma_job_of(pipeline, encoders, metric, input, settings, name, script);
    let k = lemma_formats_right(&job, encoders, script.steps@, said(script.error), i);
    let (w, h) = (settings.max_width, settings.max_height);
    let policy = DimensionPolicy::MaxBox { width: w, height: h };
    geometry::lemma_max_box_fits(w, h, script.source);
    geometry::lemma_max_box_touches(w, h, script.source);
    if script.source.width > w || script.source.height > h {
        geometry::lemma_max_box_keeps_proportions(w, h, script.source);
    }
    geometry::lemma_target_never_upscales(policy, script.source);
    if let Step::Output(f) = script.steps@[i] {
        assert(job.main@.dimensions == job.dimensions);
        lemma_report_dimensions(&job, encoders[k], job.main, f);
    }
}

/// Variants are the source at the extra widths asked for below the width of the main image, in its
/// proportions; only a cap makes them smaller.
pub proof fn lemma_variants_have_the_widths_asked_for<P: ImagePipeline, C: Codec, M: Metric>(
    pipeline: &P,
    encoders: Seq<Encoder<C>>,
    metric: &M,
    input: &[u8],
    settings: &Settings,
    name: &str,
    script: Script,
    i: int,
)
    requires
        played(pipeline, encoders, metric, input, settings, name, script),
        resizes_exactly(pipeline),
        script.source.nonzero(),
        settings.max_width > 0,
        settings.max_height > 0,
        forall|k: int| 0 <= k < settings.sizes@.len() ==> #[trigger] settings.sizes@[k] > 0,
        0 <= i < script.steps@.len(),
    ensures
        script.steps@[i] matches Step::Variant(f) ==> exists|width: u32, height: u32|
            {
                &&& #[trigger] settings.sizes@.contains(width)
                &&& width < settings.max_width
                &&& width < script.source.width
                &&& 1 <= height <= script.source.height
                &&& #[trigger] keeps_proportions(script.source, width, height)
                &&& f.width <= width
                &&& f.height <= height
                &&& settings.max_bytes == 0 ==> f.width == width && f.height == height
                &&& f.name@ == name@ + settings.suffix@ + "-"@ + text::decimal(width as nat) + "."@
                    + f.format.extension_spec()
            },
{
    let job = lemma_job_of(pipeline, encoders, metric, input, settings, name, script);
    let k = lemma_formats_right(&job, encoders, script.steps@, said(script.error), i);
    let (w, h) = (settings.max_width, settings.max_height);
    let policy = DimensionPolicy::MaxBox { width: w, height: h };
    geometry::lemma_max_box_fits(w, h, script.source);
    geometry::lemma_target_never_upscales(policy, script.source);
    if let Step::Variant(f) = script.steps@[i] {
        let (picture, width) = choose|picture: Image, width: u32|
            {
                &&& #[trigger] at_extra_width(&job, width, picture)
                &&& report_right(&job, encoders[k], &picture, f)
                &&& f.name@ == job.name@ + job.settings.suffix@ + "-"@ + text::decimal(width as nat)
                    + "."@ + f.format.extension_spec()
            };
        assert(settings.sizes@.contains(width));
        let j = choose|j: int| 0 <= j < settings.sizes@.len() && settings.sizes@[j] == width;
        assert(settings.sizes@[j] > 0);
        plan::lemma_height_keeps_proportions(script.source, width);
        let height = plan::proportional_height(script.source, width);
        assert(keeps_proportions(script.source, width, height));
        lemma_report_dimensions(&job, encoders[k], &picture, f);
    }
}

/// Whether a height goes with a width in the proportions of a source, but for less than a pixel: it
/// is off by no more than 5/8 of one, and at least one.
pub open spec fn keeps_proportions(source: Dimensions, width: u32, height: u32) -> bool {
    &&& 8 * (source.height * width) <= (8 * height + 5) * source.width
    &&& height == 1 || (8 * height - 5) * source.width <= 8 * (source.height * width)
}

/// Every file is listed at the quality that was asked for, as far as the codec supports it; only a
/// cap lowers it. A main output is called by the name and the suffix.
pub proof fn lemma_files_have_the_quality_asked_for<P: ImagePipeline, C: Codec, M: Metric>(
    pipeline: &P,
    encoders: Seq<Encoder<C>>,
    metric: &M,
    input: &[u8],
    settings: &Settings,
    name: &str,
    script: Script,
    i: int,
)
    requires
        played(pipeline, encoders, metric, input, settings, name, script),
        0 <= i < script.steps@.len(),
        file_of(script.steps@[i]) is Some,
    ensures
        exists|k: int, axis: QualityAxis, other: QualityAxis|
            {
                let f = file_of(script.steps@[i])->0;
                let start = budget::moved_into(
                    other,
                    budget::moved_into(axis, encoders[k].quality as int),
                );
                &&& 0 <= k < encoders.len()
                &&& #[trigger] call_ensures(C::quality_axis, (&encoders[k].codec,), axis)
                &&& #[trigger] call_ensures(C::quality_axis, (&encoders[k].codec,), other)
                &&& call_ensures(C::format, (&encoders[k].codec,), f.format)
                &&& other.min <= f.quality <= start
                &&& settings.max_bytes == 0 ==> f.quality == start
            },
        script.steps@[i] matches Step::Output(f) ==> f.name@ == name@ + settings.suffix@ + "."@
            + f.format.extension_spec(),
{
    let job = lemma_job_of(pipeline, encoders, metric, input, settings, name, script);
    let k = lemma_formats_right(&job, encoders, script.steps@, said(script.error), i);
    let encoder = encoders[k];
    let f = file_of(script.steps@[i])->0;
    let picture = match script.steps@[i] {
        Step::Output(_) => *job.main,
        _ => {
            let (picture, width) = choose|picture: Image, width: u32|
                {
                    &&& #[trigger] at_extra_width(&job, width, picture)
                    &&& report_right(&job, encoders[k], &picture, f)
                    &&& f.name@ == job.name@ + job.settings.suffix@ + "-"@ + text::decimal(
                        width as nat,
                    ) + "."@ + f.format.extension_spec()
                };
            picture
        },
    };
    let bytes = choose|bytes: Seq<u8>| #[trigger]
        file_made(
            &job,
            encoder,
            &picture,
            f.quality,
            Dimensions { width: f.width, height: f.height },
            bytes,
            f.within_budget,
        ) && f.bytes == bytes.len();
    let dimensions = Dimensions { width: f.width, height: f.height };
    let axis = choose|axis: QualityAxis| #[trigger]
        call_ensures(C::quality_axis, (&encoder.codec,), axis) && render::web_made(
            job.pipeline,
            &encoder.codec,
            &picture,
            budget::moved_into(axis, encoder.quality as int) as u32,
            job.settings.max_bytes,
            f.quality,
            dimensions,
            bytes,
            f.within_budget,
        );
    let start = budget::moved_into(axis, encoder.quality as int) as u32;
    let (other, shown, n, encoded) = lemma_made(
        &job,
        encoder,
        &picture,
        start,
        f.quality,
        dimensions,
        bytes,
        f.within_budget,
    );
    assert(call_ensures(C::quality_axis, (&encoders[k].codec,), axis));
    assert(call_ensures(C::quality_axis, (&encoders[k].codec,), other));
}

/// The pipeline of the library resizes to exactly the dimensions asked for, and keeps the profile.
pub proof fn lemma_library_resizes_exactly(pipeline: &ImageRsPipeline)
    ensures
        resizes_exactly(pipeline),
        forall|image: Image, dimensions: Dimensions, out: Image| #[trigger]
            call_ensures(ImageRsPipeline::resize, (pipeline, &image, dimensions), Ok(out))
                ==> out@.icc_profile == image@.icc_profile && out@.format == image@.format,
{
}

/// Every script of a call is one that the laws on scripts hold of.
pub proof fn lemma_calls_process<P: ImagePipeline, C: Codec, M: Metric>(
    pipeline: &P,
    encoders: &Vec<Encoder<C>>,
    metric: &M,
    input: &[u8],
    settings: &Settings,
    name: &str,
    r: Script,
)
    requires
        call_ensures(
            process::<P, C, M>,
            (pipeline, encoders, metric, input, settings, name),
            r,
        ),
    ensures
        played(pipeline, encoders@, metric, input, settings, name, r),
{
}

/// Whether a score is that of the file that a report is on: what was written under its name, decoded
/// again, and measured by the metric.
pub open spec fn score_of_file<C: Codec, M: Metric>(
    codec: &C,
    metric: &M,
    steps: Seq<Step>,
    f: FileReport,
    score: Binary64,
    at: int,
    stream: &[u8],
    reference: Image,
    decoded: Image,
    result: MetricResult,
) -> bool {
    &&& 0 <= at < steps.len()
    &&& steps[at] matches Step::Write { name, bytes, .. } && name@ == f.name@ && bytes@ == stream@
    &&& f.bytes == stream@.len()
    &&& call_ensures(C::decode, (codec, stream), Ok(decoded))
    &&& call_ensures(M::measure, (metric, &reference, &decoded), Ok(result))
    &&& score == result.score
}

/// Whether a score is that of the file that a report is on.
pub open spec fn is_score_of<C: Codec, M: Metric>(
    codec: &C,
    metric: &M,
    steps: Seq<Step>,
    f: FileReport,
    score: Binary64,
) -> bool {
    exists|at: int, stream: &[u8], reference: Image, decoded: Image, result: MetricResult| #[trigger]
        score_of_file(
            codec,
            metric,
            steps,
            f,
            score,
            at,
            stream,
            reference,
            decoded,
            result,
        )
}

/// Whether a step scores the file that a report is on.
pub open spec fn scores_file<C: Codec, M: Metric>(
    codec: &C,
    metric: &M,
    steps: Seq<Step>,
    f: FileReport,
    step: Step,
) -> bool {
    match step {
        Step::Score(format, score) => format == f.format && is_score_of(
            codec,
            metric,
            steps,
            f,
            score,
        ),
        _ => false,
    }
}

/// How the steps for a format begin, where it is done or has a main output: with notes, and then with
/// what is written.
proof fn lemma_written_part<P: ImagePipeline, C: Codec, M: Metric>(
    job: &Job<P, M>,
    encoder: Encoder<C>,
    steps: Seq<Step>,
    error: Option<Seq<char>>,
    i: int,
) -> (r: (ImageFormat, u32, BudgetedEncode, int))
    requires
        format_played(job, encoder, steps, error),
        error is None || (0 <= i < steps.len() && steps[i] is Output),
    ensures
        call_ensures(C::format, (&encoder.codec,), r.0),
        0 <= r.3 <= steps.len(),
        forall|j: int| 0 <= j < r.3 ==> #[trigger] steps[j] is Note,
        written(job, &encoder.codec, r.0, r.1, r.2, steps.skip(r.3), error),
{
    reveal(format_played);
    let codec = &encoder.codec;
    let (format, axis) = choose|format: ImageFormat, axis: QualityAxis|
        {
            &&& #[trigger] call_ensures(C::format, (codec,), format)
            &&& #[trigger] call_ensures(C::quality_axis, (codec,), axis)
            &&& format_played_on(job, codec, format, encoder.quality, axis, steps, error)
        };
    let words = quality_notes(format.extension_spec(), encoder.quality, axis);
    let noted = words.len() as int;
    let level = axis.clamp_spec(encoder.quality);
    assert forall|j: int| 0 <= j < noted implies #[trigger] steps[j] is Note by {
        assert(notes(steps.take(noted)[j], words[j]));
    }
    let rest = steps.skip(noted);
    let b = choose|b: BudgetedEncode| #[trigger]
        encodes_main(job, codec, level, Ok(b)) && written(
            job,
            codec,
            format,
            level,
            b,
            rest,
            error,
        );
    (format, level, b, noted)
}

/// How what is written goes on: with notes, with a score where that is asked for, and then with the
/// list.
proof fn lemma_listed_part<P: ImagePipeline, C: Codec, M: Metric>(
    job: &Job<P, M>,
    codec: &C,
    format: ImageFormat,
    level: u32,
    b: BudgetedEncode,
    steps: Seq<Step>,
    error: Option<Seq<char>>,
    i: int,
) -> (at: int)
    requires
        written(job, codec, format, level, b, steps, error),
        error is None || (0 <= i < steps.len() && steps[i] is Output),
    ensures
        1 <= at <= steps.len(),
        forall|j: int| 0 <= j < at ==> !(#[trigger] steps[j] is Output),
        writes(
            steps[0],
            names::output_name_spec(job.name@, job.settings.suffix@, format),
            b.encoded.bytes@,
            true,
        ),
        job.settings.score ==> steps[at - 1] is Score && steps[at - 1]->Score_0 == format && scores(
            job,
            codec,
            b,
            Ok(steps[at - 1]->Score_1),
        ),
        listed(job, codec, format, level, b, steps.skip(at), error),
{
    let warnings = render::cap_warnings_spec(
        format.extension_spec(),
        level,
        job.dimensions,
        b,
    );
    let told = 1 + warnings.len() as int;
    assert forall|j: int| 0 <= j < told implies !(#[trigger] steps[j] is Output) by {
        if j > 0 {
            assert(notes(steps.subrange(1, told)[j - 1], warnings[j - 1]));
            assert(steps.subrange(1, told)[j - 1] == steps[j]);
        }
    }
    let tail = steps.skip(told);
    if job.settings.score {
        let score = choose|score: Binary64|
            {
                &&& #[trigger] scores(job, codec, b, Ok(score))
                &&& tail.len() >= 1
                &&& tail[0] == Step::Score(format, score)
                &&& listed(job, codec, format, level, b, tail.skip(1), error)
            };
        assert(tail[0] == steps[told]);
        assert(tail.skip(1) =~= steps.skip(told + 1));
        told + 1
    } else {
        told
    }
}

/// Behind a main output only variants are listed.
proof fn lemma_only_the_first<P: ImagePipeline, C: Codec, M: Metric>(
    job: &Job<P, M>,
    codec: &C,
    format: ImageFormat,
    level: u32,
    b: BudgetedEncode,
    steps: Seq<Step>,
    error: Option<Seq<char>>,
    j: int,
)
    requires
        listed(job, codec, format, level, b, steps, error),
        0 < j < steps.len(),
    ensures
        !(steps[j] is Output),
{
    let more = steps.skip(1);
    let n = (j - 1) / 2;
    assert(more[j - 1] == steps[j]);
    assert(variant_made(
        job,
        codec,
        format,
        level,
        job.widths@[n],
        more[2 * n],
        more[2 * n + 1],
    ));
}

/// Where a main output is listed among the steps for a format, and what stands before it.
proof fn lemma_score_in_block<P: ImagePipeline, C: Codec, M: Metric>(
    job: &Job<P, M>,
    encoder: Encoder<C>,
    steps: Seq<Step>,
    error: Option<Seq<char>>,
    i: int,
)
    requires
        format_played(job, encoder, steps, error),
        0 <= i < steps.len(),
        steps[i] is Output,
        job.settings.score,
    ensures
        i > 0,
        scores_file(&encoder.codec, job.metric, steps, steps[i]->Output_0, steps[i - 1]),
{
    let codec = &encoder.codec;
    let (format, level, b, noted) = lemma_written_part(job, encoder, steps, error, i);
    let rest = steps.skip(noted);
    let k = i - noted;
    assert(rest[k] == steps[i]);
    let at = lemma_listed_part(job, codec, format, level, b, rest, error, k);
    let list = rest.skip(at);
    if k > at {
        assert(list[k - at] == rest[k]);
        lemma_only_the_first(job, codec, format, level, b, list, error, k - at);
    }
    assert(k == at);
    assert(list[0] == rest[at]);
    let f = steps[i]->Output_0;
    assert(steps[i - 1] == rest[at - 1]);
    assert(steps[noted] == rest[0]);
    let score = rest[at - 1]->Score_1;
    lemma_score_is_of_the_file(job, codec, format, b, steps, noted, f, score);
}

proof fn lemma_score_is_of_the_file<P: ImagePipeline, C: Codec, M: Metric>(
    job: &Job<P, M>,
    codec: &C,
    format: ImageFormat,
    b: BudgetedEncode,
    steps: Seq<Step>,
    at: int,
    f: FileReport,
    score: Binary64,
)
    requires
        scores(job, codec, b, Ok(score)),
        0 <= at < steps.len(),
        writes(
            steps[at],
            names::output_name_spec(job.name@, job.settings.suffix@, format),
            b.encoded.bytes@,
            true,
        ),
        reports(f, names::output_name_spec(job.name@, job.settings.suffix@, format), format, b),
    ensures
        scores_file(codec, job.metric, steps, f, Step::Score(format, score)),
{
    render::lemma_score_is_of_what_was_written(
        job.pipeline,
        codec,
        job.metric,
        job.source,
        job.main,
        job.dimensions,
        b,
        score,
    );
    let (reference, stream, decoded, result) = choose|
        reference: Image,
        stream: &[u8],
        decoded: Image,
        result: MetricResult,
    |
        {
            &&& #[trigger] call_ensures(C::decode, (codec, stream), Ok(decoded))
            &&& stream@ == b.encoded.bytes@
            &&& #[trigger] call_ensures(M::measure, (job.metric, &reference, &decoded), Ok(result))
            &&& score == result.score
            &&& if b.dimensions == job.dimensions {
                reference@ == job.main@
            } else if b.dimensions == job.source@.dimensions {
                reference@ == job.source@
            } else {
                call_ensures(P::resize, (job.pipeline, job.source, b.dimensions), Ok(reference))
            }
        };
    assert(score_of_file(
        codec,
        job.metric,
        steps,
        f,
        score,
        at,
        stream,
        reference,
        decoded,
        result,
    ));
    assert(is_score_of(codec, job.metric, steps, f, score));
}

proof fn lemma_scores_shift<C: Codec, M: Metric>(
    codec: &C,
    metric: &M,
    part: Seq<Step>,
    steps: Seq<Step>,
    from: int,
    f: FileReport,
    step: Step,
)
    requires
        scores_file(codec, metric, part, f, step),
        0 <= from,
        from + part.len() <= steps.len(),
        part == steps.subrange(from, from + part.len()),
    ensures
        scores_file(codec, metric, steps, f, step),
{
    let score = step->Score_1;
    let (at, stream, reference, decoded, result) = choose|
        at: int,
        stream: &[u8],
        reference: Image,
        decoded: Image,
        result: MetricResult,
    | #[trigger]
        score_of_file(
            codec,
            metric,
            part,
            f,
            score,
            at,
            stream,
            reference,
            decoded,
            result,
        );
    assert(steps[from + at] == part[at]);
    assert(score_of_file(
        codec,
        metric,
        steps,
        f,
        score,
        from + at,
        stream,
        reference,
        decoded,
        result,
    ));
}

proof fn lemma_score_before<P: ImagePipeline, C: Codec, M: Metric>(
    job: &Job<P, M>,
    encoders: Seq<Encoder<C>>,
    steps: Seq<Step>,
    error: Option<Seq<char>>,
    i: int,
) -> (k: int)
    requires
        formats_played(job, encoders, steps, error),
        0 <= i < steps.len(),
        steps[i] is Output,
        job.settings.score,
    ensures
        i > 0,
        0 <= k < encoders.len(),
        scores_file(
            &encoders[k].codec,
            job.metric,
            steps,
            steps[i]->Output_0,
            steps[i - 1],
        ),
    decreases encoders.len(),
{
    if error is Some && format_played(job, encoders[0], steps, error) {
        lemma_score_in_block(job, encoders[0], steps, error, i);
        0
    } else {
        let cut = choose|cut: int|
            0 <= cut <= steps.len() && #[trigger] format_played(
                job,
                encoders[0],
                steps.take(cut),
                None,
            ) && formats_played(job, encoders.skip(1), steps.skip(cut), error);
        let (front, back) = (steps.take(cut), steps.skip(cut));
        if i < cut {
            assert(front[i] == steps[i]);
            lemma_score_in_block(job, encoders[0], front, None, i);
            assert(front[i - 1] == steps[i - 1]);
            assert(front =~= steps.subrange(0, front.len() as int));
            lemma_scores_shift(
                &encoders[0].codec,
                job.metric,
                front,
                steps,
                0,
                steps[i]->Output_0,
                steps[i - 1],
            );
            0
        } else {
            assert(back[i - cut] == steps[i]);
            let k = lemma_score_before(job, encoders.skip(1), back, error, i - cut);
            assert(encoders.skip(1)[k] == encoders[k + 1]);
            assert(back[i - cut - 1] == steps[i - 1]);
            assert(back =~= steps.subrange(cut, cut + back.len()));
            lemma_scores_shift(
                &encoders[k + 1].codec,
                job.metric,
                back,
                steps,
                cut,
                steps[i]->Output_0,
                steps[i - 1],
            );
            k + 1
        }
    }
}

/// Where scores are asked for, every main output has one in front of it, and only then: the metric's
/// score of what was written under its name, decoded again.
pub proof fn lemma_every_output_is_scored_where_asked<P: ImagePipeline, C: Codec, M: Metric>(
    pipeline: &P,
    encoders: Seq<Encoder<C>>,
    metric: &M,
    input: &[u8],
    settings: &Settings,
    name: &str,
    script: Script,
    i: int,
)
    requires
        played(pipeline, encoders, metric, input, settings, name, script),
        0 <= i < script.steps@.len(),
    ensures
        !settings.score ==> !(script.steps@[i] is Score),
        settings.score ==> (script.steps@[i] matches Step::Output(f) ==> i > 0 && exists|k: int|
            0 <= k < encoders.len() && scores_file(
                &(#[trigger] encoders[k]).codec,
                metric,
                script.steps@,
                f,
                script.steps@[i - 1],
            )),
{
    let job = lemma_job_of(pipeline, encoders, metric, input, settings, name, script);
    let k = lemma_formats_right(&job, encoders, script.steps@, said(script.error), i);
    if settings.score && script.steps@[i] is Output {
        let n = lemma_score_before(&job, encoders, script.steps@, said(script.error), i);
        assert(scores_file(
            &encoders[n].codec,
            metric,
            script.steps@,
            script.steps@[i]->Output_0,
            script.steps@[i - 1],
        ));
    }
}

/// Whether a step lists the variant of an encoder at a width.
pub open spec fn lists_variant<C: Codec>(
    encoder: Encoder<C>,
    name: Seq<char>,
    suffix: Seq<char>,
    width: u32,
    step: Step,
) -> bool {
    step matches Step::Variant(f) && call_ensures(C::format, (&encoder.codec,), f.format) && f.name@
        == name + suffix + "-"@ + text::decimal(width as nat) + "."@ + f.format.extension_spec()
}

/// Whether the variant of an encoder at a width is listed.
pub open spec fn has_variant<C: Codec>(
    encoder: Encoder<C>,
    name: Seq<char>,
    suffix: Seq<char>,
    width: u32,
    steps: Seq<Step>,
) -> bool {
    exists|i: int|
        0 <= i < steps.len() && lists_variant(encoder, name, suffix, width, #[trigger] steps[i])
}

proof fn lemma_variant_in_block<P: ImagePipeline, C: Codec, M: Metric>(
    job: &Job<P, M>,
    encoder: Encoder<C>,
    steps: Seq<Step>,
    width: u32,
)
    requires
        format_played(job, encoder, steps, None),
        job.widths@.contains(width),
    ensures
        has_variant(encoder, job.name@, job.settings.suffix@, width, steps),
{
    let codec = &encoder.codec;
    let (format, level, b, noted) = lemma_written_part(job, encoder, steps, None, 0);
    let rest = steps.skip(noted);
    let at = lemma_listed_part(job, codec, format, level, b, rest, None, 0);
    let list = rest.skip(at);
    let more = list.skip(1);
    let n = choose|n: int| 0 <= n < job.widths@.len() && job.widths@[n] == width;
    assert(variant_made(
        job,
        codec,
        format,
        level,
        job.widths@[n],
        more[2 * n],
        more[2 * n + 1],
    ));
    let i = noted + at + 1 + 2 * n + 1;
    assert(list[2 * n + 2] == more[2 * n + 1]);
    assert(rest[at + 2 * n + 2] == list[2 * n + 2]);
    assert(steps[i] == rest[at + 2 * n + 2]);
    assert(lists_variant(encoder, job.name@, job.settings.suffix@, width, steps[i]));
}

proof fn lemma_variant_of_each<P: ImagePipeline, C: Codec, M: Metric>(
    job: &Job<P, M>,
    encoders: Seq<Encoder<C>>,
    steps: Seq<Step>,
    width: u32,
    k: int,
)
    requires
        formats_played(job, encoders, steps, None),
        job.widths@.contains(width),
        0 <= k < encoders.len(),
    ensures
        has_variant(encoders[k], job.name@, job.settings.suffix@, width, steps),
    decreases encoders.len(),
{
    let cut = choose|cut: int|
        0 <= cut <= steps.len() && #[trigger] format_played(
            job,
            encoders[0],
            steps.take(cut),
            None,
        ) && formats_played(job, encoders.skip(1), steps.skip(cut), None);
    let (name, suffix) = (job.name@, job.settings.suffix@);
    if k == 0 {
        let front = steps.take(cut);
        lemma_variant_in_block(job, encoders[0], front, width);
        let i = choose|i: int|
            0 <= i < front.len() && lists_variant(
                encoders[0],
                name,
                suffix,
                width,
                #[trigger] front[i],
            );
        assert(steps[i] == front[i]);
    } else {
        let back = steps.skip(cut);
        lemma_variant_of_each(job, encoders.skip(1), back, width, k - 1);
        assert(encoders.skip(1)[k - 1] == encoders[k]);
        let i = choose|i: int|
            0 <= i < back.len() && lists_variant(
                encoders[k],
                name,
                suffix,
                width,
                #[trigger] back[i],
            );
        assert(steps[cut + i] == back[i]);
    }
}

/// Where nothing failed, every format has a variant at every width that is asked for and below that
/// of the main image.
pub proof fn lemma_every_width_is_made<P: ImagePipeline, C: Codec, M: Metric>(
    pipeline: &P,
    encoders: Seq<Encoder<C>>,
    metric: &M,
    input: &[u8],
    settings: &Settings,
    name: &str,
    script: Script,
    width: u32,
    k: int,
)
    requires
        played(pipeline, encoders, metric, input, settings, name, script),
        script.error is None,
        settings.sizes@.contains(width),
        width < (DimensionPolicy::MaxBox {
            width: settings.max_width,
            height: settings.max_height,
        }).target_spec(script.source).width,
        0 <= k < encoders.len(),
    ensures
        has_variant(encoders[k], name@, settings.suffix@, width, script.steps@),
{
    let job = lemma_job_of(pipeline, encoders, metric, input, settings, name, script);
    lemma_variant_of_each(&job, encoders, script.steps@, width, k);
}

} // verus!
