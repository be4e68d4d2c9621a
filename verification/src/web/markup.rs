//! What is reported about the outputs, and the markup to use them with.

use vstd::prelude::*;

use crate::budget::BudgetedEncode;
use crate::text;
use crate::types::ImageFormat;

verus! {

/// One written file.
#[derive(Debug)]
pub struct FileReport {
    pub name: String,
    pub format: ImageFormat,
    pub width: u32,
    pub height: u32,
    pub bytes: u64,
    pub quality: u32,
    pub within_budget: bool,
}

/// The report on a written result.
pub fn file_report(name: String, format: ImageFormat, b: &BudgetedEncode) -> (r: FileReport)
    ensures
        r.name == name,
        r.format == format,
        r.width == b.dimensions.width,
        r.height == b.dimensions.height,
        r.bytes == b.encoded.bytes@.len(),
        r.quality == b.level,
        r.within_budget == b.within_budget,
{
    FileReport {
        name,
        format,
        width: b.dimensions.width,
        height: b.dimensions.height,
        bytes: b.encoded.bytes.len() as u64,
        quality: b.level,
        within_budget: b.within_budget,
    }
}

/// What became of one input.
#[derive(Debug)]
pub struct ImageReport {
    pub input_name: String,
    pub input_stem: String,
    pub input_bytes: u64,
    /// Main (largest) outputs, one per format.
    pub outputs: Vec<FileReport>,
    /// Responsive variants.
    pub variants: Vec<FileReport>,
    pub failed: bool,
}

/// One entry of a source set: a file and its width.
pub open spec fn srcset_entry(f: FileReport) -> Seq<char> {
    f.name@ + " "@ + text::decimal(f.width as nat) + "w"@
}

/// The entries of some variants of a format, each followed by a separator.
pub open spec fn variant_entries(variants: Seq<FileReport>, format: ImageFormat) -> Seq<char>
    decreases variants.len(),
{
    if variants.len() == 0 {
        Seq::empty()
    } else {
        let before = variant_entries(variants.drop_last(), format);
        if variants.last().format == format {
            before + srcset_entry(variants.last()) + ", "@
        } else {
            before
        }
    }
}

/// Whether a format has variants.
pub open spec fn has_variants(variants: Seq<FileReport>, format: ImageFormat) -> bool {
    exists|i: int| 0 <= i < variants.len() && (#[trigger] variants[i]).format == format
}

/// The `<source>` line of a main output: its variants, then itself.
pub open spec fn source_line(main: FileReport, variants: Seq<FileReport>) -> Seq<char> {
    "  <source type=\""@ + main.format.mime_type_spec() + "\" srcset=\""@ + variant_entries(
        variants,
        main.format,
    ) + srcset_entry(main) + "\""@ + (if has_variants(variants, main.format) {
        " sizes=\"100vw\""@
    } else {
        ""@
    }) + ">\n"@
}

/// The `<source>` lines of main outputs.
pub open spec fn source_lines(outputs: Seq<FileReport>, variants: Seq<FileReport>) -> Seq<char>
    decreases outputs.len(),
{
    if outputs.len() == 0 {
        Seq::empty()
    } else {
        source_lines(outputs.drop_last(), variants) + source_line(outputs.last(), variants)
    }
}

/// Whether an output is the one for browsers that know no other: the first that is not AVIF, or
/// the first where all are.
pub open spec fn is_fallback(outputs: Seq<FileReport>, i: int) -> bool {
    &&& 0 <= i < outputs.len()
    &&& forall|j: int| 0 <= j < i ==> (#[trigger] outputs[j]).format == ImageFormat::Avif
    &&& outputs[i].format == ImageFormat::Avif ==> i == 0 && forall|j: int|
        0 <= j < outputs.len() ==> (#[trigger] outputs[j]).format == ImageFormat::Avif
}

/// A text without its double quotes.
pub open spec fn unquoted(s: Seq<char>) -> Seq<char>
    decreases s.len(),
{
    if s.len() == 0 {
        s
    } else if s.last() == '"' {
        unquoted(s.drop_last())
    } else {
        unquoted(s.drop_last()).push(s.last())
    }
}

/// The `<img>` line of a picture.
pub open spec fn img_line(fallback: FileReport, stem: Seq<char>) -> Seq<char> {
    "  <img src=\""@ + fallback.name@ + "\" width=\""@ + text::decimal(fallback.width as nat)
        + "\" height=\""@ + text::decimal(fallback.height as nat) + "\" alt=\""@ + unquoted(stem)
        + "\" loading=\"lazy\" decoding=\"async\">\n"@
}

/// The picture of an input with a fallback.
pub open spec fn picture(r: ImageReport, fallback: FileReport) -> Seq<char> {
    "\n<!-- "@ + r.input_name@ + " -->\n<picture>\n"@ + source_lines(r.outputs@, r.variants@)
        + img_line(fallback, r.input_stem@) + "</picture>\n"@
}

/// The position of the fallback.
pub open spec fn fallback_of(outputs: Seq<FileReport>) -> int {
    choose|i: int| is_fallback(outputs, i)
}

/// The pictures of all inputs that did not fail and have outputs.
pub open spec fn pictures(reports: Seq<ImageReport>) -> Seq<char>
    decreases reports.len(),
{
    if reports.len() == 0 {
        Seq::empty()
    } else {
        let before = pictures(reports.drop_last());
        let r = reports.last();
        if r.failed || r.outputs@.len() == 0 {
            before
        } else {
            before + picture(r, r.outputs@[fallback_of(r.outputs@)])
        }
    }
}

/// The line in front of the pictures.
pub open spec fn heading() -> Seq<char> {
    "<!-- Generated by smartimg web. Adjust paths, `alt` text, and `sizes` to your layout. -->\n"@
}

/// There is exactly one fallback among outputs.
pub proof fn lemma_one_fallback(outputs: Seq<FileReport>, i: int, j: int)
    requires
        is_fallback(outputs, i),
        is_fallback(outputs, j),
    ensures
        i == j,
{
    if i < j {
        assert(outputs[i].format == ImageFormat::Avif);
    }
    if j < i {
        assert(outputs[j].format == ImageFormat::Avif);
    }
}

/// The position of the fallback.
pub fn find_fallback(outputs: &Vec<FileReport>) -> (r: Option<usize>)
    ensures
        (match r {
            Some(i) => is_fallback(outputs@, i as int),
            None => outputs@.len() == 0,
        }),
{
    let mut i: usize = 0;
    while i < outputs.len()
        invariant
            i <= outputs@.len(),
            forall|j: int| 0 <= j < i ==> (#[trigger] outputs@[j]).format == ImageFormat::Avif,
        decreases outputs@.len() - i,
    {
        if outputs[i].format != ImageFormat::Avif {
            return Some(i);
        }
        i = i + 1;
    }
    if outputs.len() == 0 {
        None
    } else {
        Some(0)
    }
}

fn push_entry(html: &mut String, f: &FileReport)
    ensures
        final(html)@ == old(html)@ + srcset_entry(*f),
{
    let ghost before = html@;
    html.append(f.name.as_str());
    html.append(" ");
    text::push_decimal(html, f.width as u64);
    html.append("w");
    proof {
        assert(html@ =~= before + srcset_entry(*f));
    }
}

fn push_source(html: &mut String, main: &FileReport, variants: &Vec<FileReport>)
    ensures
        final(html)@ == old(html)@ + source_line(*main, variants@),
{
    let ghost before = html@;
    html.append("  <source type=\"");
    html.append(main.format.mime_type());
    html.append("\" srcset=\"");
    let ghost opened = html@;
    let mut several: bool = false;
    let mut i: usize = 0;
    proof {
        assert(opened + variant_entries(variants@.take(0), main.format) =~= opened);
    }
    while i < variants.len()
        invariant
            i <= variants@.len(),
            html@ == opened + variant_entries(variants@.take(i as int), main.format),
            several == has_variants(variants@.take(i as int), main.format),
        decreases variants@.len() - i,
    {
        let ghost here = html@;
        let ghost seen = variants@.take(i as int);
        let ghost next = variants@.take(i + 1);
        proof {
            assert(next.drop_last() =~= seen);
        }
        if variants[i].format == main.format {
            push_entry(html, &variants[i]);
            html.append(", ");
            several = true;
            proof {
                assert(next[i as int].format == main.format);
                assert(html@ =~= opened + variant_entries(next, main.format));
            }
        } else {
            proof {
                if has_variants(next, main.format) {
                    let k = choose|k: int|
                        0 <= k < next.len() && (#[trigger] next[k]).format == main.format;
                    assert(seen[k].format == main.format);
                }
            }
        }
        proof {
            if has_variants(seen, main.format) {
                let k = choose|k: int|
                    0 <= k < seen.len() && (#[trigger] seen[k]).format == main.format;
                assert(next[k].format == main.format);
            }
        }
        i = i + 1;
    }
    proof {
        assert(variants@.take(i as int) =~= variants@);
    }
    push_entry(html, main);
    html.append("\"");
    html.append(
        if several {
            " sizes=\"100vw\""
        } else {
            ""
        },
    );
    html.append(">\n");
    proof {
        assert(html@ =~= before + source_line(*main, variants@));
    }
}

fn push_unquoted(html: &mut String, s: &str)
    ensures
        final(html)@ == old(html)@ + unquoted(s@),
{
    let ghost before = html@;
    let chars: Vec<char> = text::chars_of(s);
    let mut i: usize = 0;
    proof {
        assert(before + unquoted(chars@.take(0)) =~= before);
    }
    while i < chars.len()
        invariant
            i <= chars@.len(),
            html@ == before + unquoted(chars@.take(i as int)),
        decreases chars@.len() - i,
    {
        proof {
            assert(chars@.take(i + 1).drop_last() =~= chars@.take(i as int));
        }
        if chars[i] != '"' {
            html.push(chars[i]);
            proof {
                assert(html@ =~= before + unquoted(chars@.take(i + 1)));
            }
        }
        i = i + 1;
    }
    proof {
        assert(chars@.take(i as int) =~= chars@);
    }
}

fn push_picture(html: &mut String, r: &ImageReport, fallback: &FileReport)
    ensures
        final(html)@ == old(html)@ + picture(*r, *fallback),
{
    let ghost before = html@;
    html.append("\n<!-- ");
    html.append(r.input_name.as_str());
    html.append(" -->\n<picture>\n");
    let ghost opened = html@;
    let mut i: usize = 0;
    proof {
        assert(opened + source_lines(r.outputs@.take(0), r.variants@) =~= opened);
    }
    while i < r.outputs.len()
        invariant
            i <= r.outputs@.len(),
            html@ == opened + source_lines(r.outputs@.take(i as int), r.variants@),
        decreases r.outputs@.len() - i,
    {
        proof {
            assert(r.outputs@.take(i + 1).drop_last() =~= r.outputs@.take(i as int));
        }
        push_source(html, &r.outputs[i], &r.variants);
        proof {
            assert(html@ =~= opened + source_lines(r.outputs@.take(i + 1), r.variants@));
        }
        i = i + 1;
    }
    proof {
        assert(r.outputs@.take(i as int) =~= r.outputs@);
    }
    html.append("  <img src=\"");
    html.append(fallback.name.as_str());
    html.append("\" width=\"");
    text::push_decimal(html, fallback.width as u64);
    html.append("\" height=\"");
    text::push_decimal(html, fallback.height as u64);
    html.append("\" alt=\"");
    push_unquoted(html, r.input_stem.as_str());
    html.append("\" loading=\"lazy\" decoding=\"async\">\n");
    html.append("</picture>\n");
    proof {
        assert(html@ =~= before + picture(*r, *fallback));
    }
}

/// Ready-to-paste `<picture>` markup for every input.
pub fn snippets(reports: &Vec<ImageReport>) -> (r: String)
    ensures
        r@ == heading() + pictures(reports@),
{
    let mut html: String =
        "<!-- Generated by smartimg web. Adjust paths, `alt` text, and `sizes` to your layout. -->\n".to_string();
    let mut i: usize = 0;
    proof {
        assert(heading() + pictures(reports@.take(0)) =~= heading());
    }
    while i < reports.len()
        invariant
            i <= reports@.len(),
            html@ == heading() + pictures(reports@.take(i as int)),
        decreases reports@.len() - i,
    {
        let report: &ImageReport = &reports[i];
        proof {
            assert(reports@.take(i + 1).drop_last() =~= reports@.take(i as int));
        }
        if !report.failed {
            match find_fallback(&report.outputs) {
                Some(at) => {
                    proof {
                        lemma_one_fallback(
                            report.outputs@,
                            at as int,
                            fallback_of(report.outputs@),
                        );
                    }
                    push_picture(&mut html, report, &report.outputs[at]);
                    proof {
                        assert(html@ =~= heading() + pictures(reports@.take(i + 1)));
                    }
                },
                None => {},
            }
        }
        i = i + 1;
    }
    proof {
        assert(reports@.take(i as int) =~= reports@);
    }
    html
}

/// Taking the double quotes out takes nothing else out: what is left has none, and the texts in
/// front of, between and behind them stay as they are.
pub proof fn lemma_only_quotes_are_taken_out(a: Seq<char>, b: Seq<char>)
    requires
        forall|i: int| 0 <= i < b.len() ==> #[trigger] b[i] != '"',
    ensures
        !unquoted(a).contains('"'),
        unquoted(b) == b,
        unquoted(a + seq!['"'] + b) == unquoted(a) + b,
        unquoted(a + b) == unquoted(a) + b,
    decreases a.len() + b.len(),
{
    lemma_no_quotes(a);
    lemma_unquoted_plain(a, b);
    lemma_unquoted_plain(a + seq!['"'], b);
    lemma_unquoted_plain(Seq::empty(), b);
    assert((a + seq!['"']).drop_last() =~= a);
    assert(Seq::<char>::empty() + b =~= b);
    assert(unquoted(Seq::empty()) =~= Seq::<char>::empty());
}

proof fn lemma_no_quotes(a: Seq<char>)
    ensures
        !unquoted(a).contains('"'),
    decreases a.len(),
{
    if a.len() > 0 {
        lemma_no_quotes(a.drop_last());
        let front = unquoted(a.drop_last());
        if unquoted(a).contains('"') {
            let k = choose|k: int| 0 <= k < unquoted(a).len() && unquoted(a)[k] == '"';
            if k < front.len() {
                assert(front[k] == '"');
            }
        }
    }
}

proof fn lemma_unquoted_plain(a: Seq<char>, b: Seq<char>)
    requires
        forall|i: int| 0 <= i < b.len() ==> #[trigger] b[i] != '"',
    ensures
        unquoted(a + b) == unquoted(a) + b,
    decreases b.len(),
{
    if b.len() == 0 {
        assert(a + b =~= a);
        assert(unquoted(a) + b =~= unquoted(a));
    } else {
        let front = b.drop_last();
        lemma_unquoted_plain(a, front);
        assert((a + b).drop_last() =~= a + front);
        assert(b[b.len() - 1] != '"');
        assert(unquoted(a + b) =~= unquoted(a) + b);
    }
}

/// The pictures of two lists of inputs follow each other, and one that failed or has no output has
/// none.
pub proof fn lemma_pictures_follow_each_other(a: Seq<ImageReport>, b: Seq<ImageReport>)
    ensures
        pictures(a + b) == pictures(a) + pictures(b),
        (forall|i: int|
            0 <= i < a.len() ==> (#[trigger] a[i]).failed || a[i].outputs@.len() == 0) ==> pictures(
            a,
        ) == Seq::<char>::empty(),
    decreases a.len() + b.len(),
{
    if b.len() == 0 {
        assert(a + b =~= a);
        assert(pictures(a) + pictures(b) =~= pictures(a));
        if a.len() > 0 && forall|i: int|
            0 <= i < a.len() ==> (#[trigger] a[i]).failed || a[i].outputs@.len() == 0 {
            let front = a.drop_last();
            assert forall|i: int| 0 <= i < front.len() implies (#[trigger] front[i]).failed
                || front[i].outputs@.len() == 0 by {
                assert(front[i] == a[i]);
            }
            lemma_pictures_follow_each_other(front, b);
            assert(a[a.len() - 1] == a.last());
        }
    } else {
        lemma_pictures_follow_each_other(a, b.drop_last());
        assert((a + b).drop_last() =~= a + b.drop_last());
        assert((a + b).last() == b.last());
        assert(pictures(a + b) =~= pictures(a) + pictures(b));
    }
}

/// Every output has its `<source>` line, in their order.
pub proof fn lemma_every_output_has_its_line(
    outputs: Seq<FileReport>,
    variants: Seq<FileReport>,
    i: int,
)
    requires
        0 <= i < outputs.len(),
    ensures
        source_lines(outputs, variants) == source_lines(outputs.take(i), variants) + source_line(
            outputs[i],
            variants,
        ) + source_lines(outputs.skip(i + 1), variants),
    decreases outputs.len(),
{
    let front = outputs.drop_last();
    let n = outputs.len() - 1;
    if i == n {
        assert(outputs.take(i) =~= front);
        assert(outputs.skip(i + 1) =~= Seq::empty());
        assert(source_lines(outputs.skip(i + 1), variants) =~= Seq::<char>::empty());
        assert(source_lines(outputs, variants) =~= source_lines(front, variants) + source_line(
            outputs[i],
            variants,
        ) + Seq::<char>::empty());
    } else {
        lemma_every_output_has_its_line(front, variants, i);
        assert(front.take(i) =~= outputs.take(i));
        assert(outputs.skip(i + 1).drop_last() =~= front.skip(i + 1));
        assert(outputs.skip(i + 1).last() == outputs.last());
        assert(source_lines(outputs, variants) =~= source_lines(outputs.take(i), variants)
            + source_line(outputs[i], variants) + source_lines(outputs.skip(i + 1), variants));
    }
}

/// The entries of a format are those of its own variants, in their order: one of another format
/// changes nothing wherever it stands, and one of the format stands with its name and its width
/// between those in front of it and those behind it.
pub proof fn lemma_entries_are_those_of_the_format(
    front: Seq<FileReport>,
    f: FileReport,
    back: Seq<FileReport>,
    format: ImageFormat,
)
    ensures
        variant_entries(front + seq![f] + back, format) == variant_entries(front, format) + (
        if f.format == format {
            f.name@ + seq![' '] + text::decimal(f.width as nat) + seq!['w'] + seq![',', ' ']
        } else {
            Seq::empty()
        }) + variant_entries(back, format),
    decreases back.len(),
{
    reveal_strlit(" ");
    reveal_strlit("w");
    reveal_strlit(", ");
    assert(" "@ =~= seq![' '] && "w"@ =~= seq!['w'] && ", "@ =~= seq![',', ' ']);
    let all = front + seq![f] + back;
    let mid = if f.format == format {
        f.name@ + seq![' '] + text::decimal(f.width as nat) + seq!['w'] + seq![',', ' ']
    } else {
        Seq::empty()
    };
    let goal = variant_entries(front, format) + mid + variant_entries(back, format);
    if back.len() == 0 {
        assert(all.drop_last() =~= front);
        assert(all.last() == f);
        assert(variant_entries(all, format) =~= goal);
    } else {
        lemma_entries_are_those_of_the_format(front, f, back.drop_last(), format);
        assert(all.drop_last() =~= front + seq![f] + back.drop_last());
        assert(all.last() == back.last());
        assert(variant_entries(all, format) =~= goal);
    }
}

/// The snippets of two runs together are those of one after the other, under one heading; inputs
/// that failed or have no output change nothing.
pub proof fn lemma_snippets_follow_each_other(
    a: &Vec<ImageReport>,
    b: &Vec<ImageReport>,
    both: &Vec<ImageReport>,
    x: String,
    y: String,
    z: String,
)
    requires
        both@ == a@ + b@,
        call_ensures(snippets, (a,), x),
        call_ensures(snippets, (b,), y),
        call_ensures(snippets, (both,), z),
    ensures
        heading().is_prefix_of(x@) && heading().is_prefix_of(y@),
        z@ == x@ + y@.skip(heading().len() as int),
        (forall|i: int|
            0 <= i < b@.len() ==> (#[trigger] b@[i]).failed || b@[i].outputs@.len() == 0) ==> z@
            == x@,
{
    lemma_pictures_follow_each_other(a@, b@);
    lemma_pictures_follow_each_other(b@, Seq::empty());
    assert(y@.skip(heading().len() as int) =~= pictures(b@));
    assert(x@.take(heading().len() as int) =~= heading());
    assert(y@.take(heading().len() as int) =~= heading());
    assert(z@ =~= x@ + pictures(b@));
}

/// The image for browsers that know no other is the first that is not AVIF; only where all are AVIF
/// it is the first.
pub proof fn lemma_fallback_is_the_first_that_is_not_avif(outputs: Seq<FileReport>, i: int)
    requires
        0 <= i < outputs.len(),
    ensures
        outputs[i].format != ImageFormat::Avif && (forall|j: int|
            0 <= j < i ==> (#[trigger] outputs[j]).format == ImageFormat::Avif) ==> fallback_of(
            outputs,
        ) == i,
        (forall|j: int|
            0 <= j < outputs.len() ==> (#[trigger] outputs[j]).format == ImageFormat::Avif)
            ==> fallback_of(outputs) == 0,
{
    if outputs[i].format != ImageFormat::Avif && (forall|j: int|
        0 <= j < i ==> (#[trigger] outputs[j]).format == ImageFormat::Avif) {
        assert(is_fallback(outputs, i));
        lemma_one_fallback(outputs, i, fallback_of(outputs));
    }
    if forall|j: int|
        0 <= j < outputs.len() ==> (#[trigger] outputs[j]).format == ImageFormat::Avif {
        assert(is_fallback(outputs, 0));
        lemma_one_fallback(outputs, 0, fallback_of(outputs));
    }
}

} // verus!
