//! Searching for the smallest encoding of one file: the request, where the result goes, and how
//! it is summed up.

use vstd::prelude::*;

use crate::binary64::Binary64;
use crate::geometry::{self, DimensionPolicy, Dimensions};
use crate::report::{FormatOutcome, FormatOutcomeView, Selection};
use crate::request::{
    AlphaPolicy, MetadataPolicy, OptimizationRequest, QualityGate, SearchBudget,
};
use crate::scan;
use crate::text;
use crate::types::ImageFormat;
use crate::web::names;

verus! {

/// The policy for a longest side, where zero stands for none.
pub open spec fn side_limit(max_dimension: u32) -> DimensionPolicy {
    if max_dimension == 0 {
        DimensionPolicy::Preserve
    } else {
        DimensionPolicy::MaxDimension { max: max_dimension }
    }
}

pub fn limit_side(max_dimension: u32) -> (r: DimensionPolicy)
    ensures
        r == side_limit(max_dimension),
{
    if max_dimension == 0 {
        DimensionPolicy::Preserve
    } else {
        DimensionPolicy::MaxDimension { max: max_dimension }
    }
}

/// The request for one metric and its target, with everything else as usual.
pub fn request_for(
    allowed_formats: Vec<ImageFormat>,
    metric: String,
    target: Binary64,
    max_dimension: u32,
    evaluations: u32,
    trace: bool,
) -> (r: OptimizationRequest)
    ensures
        r.allowed_formats == allowed_formats,
        r.quality@ == seq![QualityGate { metric, threshold: target }],
        r.dimensions == side_limit(max_dimension),
        r.alpha == AlphaPolicy::Preserve,
        r.metadata == MetadataPolicy::KeepIccOnly,
        r.budget == (SearchBudget { max_evaluations_per_format: evaluations, sweep_radius: 2 }),
        r.trace == trace,
{
    let mut quality: Vec<QualityGate> = Vec::new();
    quality.push(QualityGate { metric, threshold: target });
    let usual: SearchBudget = SearchBudget::default();
    OptimizationRequest {
        allowed_formats,
        quality,
        dimensions: limit_side(max_dimension),
        alpha: AlphaPolicy::default(),
        metadata: MetadataPolicy::default(),
        budget: SearchBudget {
            max_evaluations_per_format: evaluations,
            sweep_radius: usual.sweep_radius,
        },
        trace,
    }
}

/// An output path that was asked for.
#[derive(Debug, Clone, Copy)]
pub struct AskedPath<'a> {
    /// Its extension, if it has one.
    pub extension: Option<&'a str>,
}

/// Where an output goes.
#[derive(Debug, PartialEq, Eq)]
pub enum OutputPath {
    /// Next to the input, under this name.
    Sibling(String),
    /// The path that was asked for.
    AsAsked,
    /// The path that was asked for, with the extension of the format.
    WithExtension,
}

/// Whether two texts are the same but for the case of ASCII letters.
pub open spec fn same_but_case(a: Seq<char>, b: Seq<char>) -> bool {
    scan::lowered(a) == scan::lowered(b)
}

/// Decides where an output goes. Without a path it stands next to the input, marked as
/// optimized; the extension always follows the format.
pub fn resolve_output(stem: &str, asked: Option<AskedPath<'_>>, format: ImageFormat) -> (r:
    OutputPath)
    ensures
        (match asked {
            None => r is Sibling && r->Sibling_0@ == stem@ + ".optimized."@
                + format.extension_spec(),
            Some(p) => match p.extension {
                Some(e) => if same_but_case(e@, format.extension_spec()) {
                    r is AsAsked
                } else {
                    r is WithExtension
                },
                None => r is WithExtension,
            },
        }),
{
    match asked {
        None => {
            let mut name: String = stem.to_string();
            name.append(".optimized.");
            name.append(format.extension());
            OutputPath::Sibling(name)
        },
        Some(p) => match p.extension {
            Some(e) => {
                let a: Vec<char> = scan::lowercase(text::chars_of(e).as_slice());
                let b: Vec<char> = scan::lowercase(text::chars_of(format.extension()).as_slice());
                if text::same_chars(a.as_slice(), b.as_slice()) {
                    OutputPath::AsAsked
                } else {
                    OutputPath::WithExtension
                }
            },
            None => OutputPath::WithExtension,
        },
    }
}

/// The format of what was selected.
pub fn selected_format(selection: &Selection) -> (r: ImageFormat)
    ensures
        r == (match *selection {
            Selection::Encoded { best } => best.format,
            Selection::KeptOriginal { format } => format,
        }),
{
    match selection {
        Selection::Encoded { best } => best.format,
        Selection::KeptOriginal { format } => *format,
    }
}

/// What became of a format, in words.
pub open spec fn outcome_shown(outcome: FormatOutcomeView) -> Seq<char> {
    match outcome {
        FormatOutcomeView::Found { best } => text::decimal(best.bytes as nat)
            + " bytes at level "@ + text::decimal(best.level as nat),
        FormatOutcomeView::NoAcceptableCandidate => "no level met the target"@,
        FormatOutcomeView::Skipped { reason } => "skipped: "@ + reason,
        FormatOutcomeView::Failed { error } => "failed: "@ + error,
    }
}

pub fn outcome_summary(outcome: &FormatOutcome) -> (r: String)
    ensures
        r@ == outcome_shown(outcome@),
{
    match outcome {
        FormatOutcome::Found { best } => {
            let mut out: String = text::decimal_of(best.bytes);
            out.append(" bytes at level ");
            text::push_decimal(&mut out, best.level as u64);
            out
        },
        FormatOutcome::NoAcceptableCandidate => "no level met the target".to_string(),
        FormatOutcome::Skipped { reason } => {
            let mut out: String = "skipped: ".to_string();
            out.append(reason.as_str());
            out
        },
        FormatOutcome::Failed { error } => {
            let mut out: String = "failed: ".to_string();
            out.append(error.as_str());
            out
        },
    }
}

/// A longest side of zero leaves every image as it is; any other is never exceeded, and shrinks no
/// image that keeps to it.
pub proof fn lemma_longest_side_is_kept(max_dimension: u32, source: Dimensions)
    requires
        source.width > 0,
        source.height > 0,
    ensures
        ({
            let r = side_limit(max_dimension).target_spec(source);
            &&& max_dimension == 0 ==> r == source
            &&& max_dimension > 0 ==> r.width <= max_dimension && r.height <= max_dimension
            &&& source.width <= max_dimension && source.height <= max_dimension ==> r == source
            &&& max_dimension > 0 && (source.width > max_dimension || source.height > max_dimension)
                ==> r.width == max_dimension || r.height == max_dimension
        }),
{
    assert(crate::binary64::exp2(0) == 1);
    if max_dimension > 0 {
        geometry::lemma_max_dimension_is_a_square_box(max_dimension, source);
        geometry::lemma_max_box_touches(max_dimension, max_dimension, source);
        geometry::lemma_max_box_fits(max_dimension, max_dimension, source);
    }
}

/// An extension is that of a format exactly where it is as long and every character is the same, or
/// the same letter in the other case.
pub proof fn lemma_extensions_ignore_case(e: Seq<char>, extension: Seq<char>)
    ensures
        same_but_case(e, extension) <==> names::same_but_for_case(e, extension),
{
    names::lemma_lowered_same(e, extension);
}

/// A request asks for one metric with its target and for nothing that was not asked for: color
/// profiles stay, transparency stays, and the longest side is that of the call.
pub proof fn lemma_request_is_what_was_asked_for(
    formats: Vec<ImageFormat>,
    metric: String,
    target: Binary64,
    max_dimension: u32,
    evaluations: u32,
    trace: bool,
    r: OptimizationRequest,
)
    requires
        call_ensures(
            request_for,
            (formats, metric, target, max_dimension, evaluations, trace),
            r,
        ),
    ensures
        r.allowed_formats@ == formats@,
        r.quality@.len() == 1 && r.quality@[0].metric@ == metric@ && r.quality@[0].threshold == target,
        max_dimension == 0 ==> r.dimensions is Preserve,
        max_dimension > 0 ==> r.dimensions == (DimensionPolicy::MaxDimension { max: max_dimension }),
        r.alpha is Preserve,
        r.metadata is KeepIccOnly,
        r.budget.max_evaluations_per_format == evaluations,
        r.trace == trace,
{
}

/// The extension of an output always is that of its format: a path that was asked for stays only
/// where it has that extension, in whatever case, and without one the output is named after the
/// input.
pub proof fn lemma_extension_follows_the_format(
    stem: &str,
    asked: Option<AskedPath<'_>>,
    format: ImageFormat,
    r: OutputPath,
)
    requires
        call_ensures(resolve_output, (stem, asked, format), r),
    ensures
        asked is None <==> r is Sibling,
        r matches OutputPath::Sibling(name) ==> scan::starts(name@, stem@) && scan::ends(
            name@,
            format.extension_spec(),
        ) && name@ == stem@ + ".optimized."@ + format.extension_spec(),
        r is AsAsked <==> (asked matches Some(p) && (p.extension matches Some(e)
            && names::same_but_for_case(e@, format.extension_spec()))),
{
    if let Some(p) = asked {
        if let Some(e) = p.extension {
            lemma_extensions_ignore_case(e@, format.extension_spec());
        }
    }
    if let OutputPath::Sibling(name) = r {
        let n = name@;
        let x = format.extension_spec();
        assert(n.subrange(0, stem@.len() as int) =~= stem@);
        assert(n.subrange(n.len() - x.len(), n.len() as int) =~= x);
    }
}

} // verus!
