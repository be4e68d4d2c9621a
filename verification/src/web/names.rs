//! Names of inputs and outputs.

use vstd::prelude::*;

use crate::scan;
use crate::text;
use crate::types::ImageFormat;

verus! {

/// Whether a character is an ASCII letter or digit.
pub open spec fn is_alphanumeric(c: char) -> bool {
    'a' <= c <= 'z' || 'A' <= c <= 'Z' || '0' <= c <= '9'
}

/// A text in lowercase with one dash for everything between letters and digits, and one at the
/// end for what follows the last of them.
pub open spec fn dashed(s: Seq<char>) -> Seq<char>
    decreases s.len(),
{
    if s.len() == 0 {
        s
    } else {
        let out = dashed(s.drop_last());
        if is_alphanumeric(s.last()) {
            out.push(scan::lower(s.last()))
        } else if out.len() > 0 && out.last() != '-' {
            out.push('-')
        } else {
            out
        }
    }
}

/// A text without the dashes at its end.
pub open spec fn without_last_dashes(s: Seq<char>) -> Seq<char>
    decreases s.len(),
{
    if s.len() > 0 && s.last() == '-' {
        without_last_dashes(s.drop_last())
    } else {
        s
    }
}

/// The URL-friendly form of a file stem.
pub open spec fn slug_spec(stem: Seq<char>) -> Seq<char> {
    let s = without_last_dashes(dashed(stem));
    if s.len() == 0 {
        "image"@
    } else {
        s
    }
}

/// `AERIAL VIEW` -> `aerial-view`, `1_11 - Photo` -> `1-11-photo`.
pub fn slug(stem: &str) -> (r: String)
    ensures
        r@ == slug_spec(stem@),
{
    let s: Vec<char> = text::chars_of(stem);
    let mut out: Vec<char> = Vec::new();
    let mut i: usize = 0;
    while i < s.len()
        invariant
            i <= s@.len(),
            out@ == dashed(s@.take(i as int)),
        decreases s@.len() - i,
    {
        let c: char = s[i];
        proof {
            assert(s@.take(i + 1).drop_last() =~= s@.take(i as int));
        }
        if ('a' <= c && c <= 'z') || ('A' <= c && c <= 'Z') || ('0' <= c && c <= '9') {
            out.push(scan::to_lower(c));
        } else if out.len() > 0 && out[out.len() - 1] != '-' {
            out.push('-');
        }
        i = i + 1;
    }
    proof {
        assert(s@.take(i as int) =~= s@);
        assert(out@.take(out@.len() as int) =~= out@);
    }
    let mut end: usize = out.len();
    while end > 0 && out[end - 1] == '-'
        invariant
            end <= out@.len(),
            without_last_dashes(out@.take(end as int)) == without_last_dashes(out@),
        decreases end,
    {
        proof {
            assert(out@.take(end as int).drop_last() =~= out@.take(end - 1));
        }
        end = end - 1;
    }
    if end == 0 {
        "image".to_string()
    } else {
        proof {
            assert(out@.subrange(0, end as int) =~= out@.take(end as int));
        }
        text::string_of(scan::part(out.as_slice(), 0, end).as_slice())
    }
}

/// Whether a text is fit for a URL: lowercase letters, digits and single dashes between them.
pub open spec fn url_friendly(s: Seq<char>) -> bool {
    &&& s.len() > 0
    &&& s[0] != '-'
    &&& s.last() != '-'
    &&& forall|i: int|
        0 <= i < s.len() ==> 'a' <= #[trigger] s[i] <= 'z' || '0' <= s[i] <= '9' || s[i] == '-'
    &&& forall|i: int| 0 < i < s.len() && #[trigger] s[i] == '-' ==> s[i - 1] != '-'
}

proof fn lemma_dashed(s: Seq<char>)
    ensures
        dashed(s).len() > 0 ==> dashed(s)[0] != '-',
        forall|i: int|
            0 <= i < dashed(s).len() ==> 'a' <= #[trigger] dashed(s)[i] <= 'z' || '0' <= dashed(
                s,
            )[i] <= '9' || dashed(s)[i] == '-',
        forall|i: int|
            0 < i < dashed(s).len() && #[trigger] dashed(s)[i] == '-' ==> dashed(s)[i - 1] != '-',
    decreases s.len(),
{
    if s.len() > 0 {
        lemma_dashed(s.drop_last());
    }
}

proof fn lemma_without_last_dashes(s: Seq<char>)
    ensures
        without_last_dashes(s).len() <= s.len(),
        without_last_dashes(s) == s.take(without_last_dashes(s).len() as int),
        without_last_dashes(s).len() > 0 ==> without_last_dashes(s).last() != '-',
    decreases s.len(),
{
    if s.len() > 0 && s.last() == '-' {
        lemma_without_last_dashes(s.drop_last());
        let n = without_last_dashes(s).len() as int;
        assert(s.drop_last().take(n) =~= s.take(n));
    } else {
        assert(s.take(s.len() as int) =~= s);
    }
}

/// Every slug is fit for a URL, whatever the file was called.
pub proof fn lemma_slug_is_url_friendly(stem: Seq<char>)
    ensures
        url_friendly(slug_spec(stem)),
{
    let d = dashed(stem);
    let s = without_last_dashes(d);
    lemma_dashed(stem);
    lemma_without_last_dashes(d);
    if s.len() == 0 {
        reveal_strlit("image");
    } else {
        assert forall|i: int| 0 <= i < s.len() implies 'a' <= #[trigger] s[i] <= 'z' || '0'
            <= s[i] <= '9' || s[i] == '-' by {
            assert(s[i] == d[i]);
        }
        assert forall|i: int| 0 < i < s.len() && #[trigger] s[i] == '-' implies s[i - 1]
            != '-' by {
            assert(s[i] == d[i]);
            assert(s[i - 1] == d[i - 1]);
        }
        assert(s[0] == d[0]);
    }
}

/// Whether an extension is one of an image that can be read.
pub open spec fn readable(extension: Seq<char>) -> bool {
    let e = scan::lowered(extension);
    e == "jpg"@ || e == "jpeg"@ || e == "png"@ || e == "webp"@ || e == "tif"@ || e == "tiff"@
}

/// Whether a stem is that of an output with a suffix. An empty suffix would match every stem.
pub open spec fn is_own_output(stem: Seq<char>, suffix: Seq<char>) -> bool {
    suffix.len() > 0 && (scan::ends(stem, suffix) || scan::occurs(stem, suffix + "-"@))
}

/// Whether a stem is marked as that of an earlier output.
pub open spec fn is_marked(stem: Seq<char>) -> bool {
    scan::occurs(stem, "_compressed"@) || scan::occurs(stem, ".optimized"@)
}

/// Whether a stem is that of an output of this or an earlier run.
pub open spec fn is_written(stem: Seq<char>, suffix: Seq<char>) -> bool {
    is_own_output(stem, suffix) || is_marked(stem)
}

/// Whether a file is an input: an image by its extension, and no output of this or an earlier
/// run, which are never processed again.
pub open spec fn is_input(
    extension: Option<Seq<char>>,
    stem: Seq<char>,
    suffix: Seq<char>,
) -> bool {
    &&& extension is Some
    &&& readable(extension->0)
    &&& !is_written(stem, suffix)
}

/// Whether an extension is one of an image that can be read.
pub fn is_readable(extension: &str) -> (r: bool)
    ensures
        r == readable(extension@),
{
    let chars: Vec<char> = text::chars_of(extension);
    let lowered: Vec<char> = scan::lowercase(chars.as_slice());
    let e: String = text::string_of(lowered.as_slice());
    let e: &str = e.as_str();
    text::same_text(e, "jpg") || text::same_text(e, "jpeg") || text::same_text(e, "png")
        || text::same_text(e, "webp") || text::same_text(e, "tif") || text::same_text(e, "tiff")
}

/// Whether a file with this stem is an output of this or an earlier run.
pub fn is_output(stem: &str, suffix: &str) -> (r: bool)
    ensures
        r == is_written(stem@, suffix@),
{
    let s: Vec<char> = text::chars_of(stem);
    let tail: Vec<char> = text::chars_of(suffix);
    let mut inner: String = suffix.to_string();
    inner.append("-");
    let inner: Vec<char> = text::chars_of(inner.as_str());
    let compressed: Vec<char> = text::chars_of("_compressed");
    let optimized: Vec<char> = text::chars_of(".optimized");
    let own: bool = tail.len() > 0 && (scan::ends_with(s.as_slice(), tail.as_slice())
        || scan::contains(s.as_slice(), inner.as_slice()));
    own || scan::contains(s.as_slice(), compressed.as_slice()) || scan::contains(
        s.as_slice(),
        optimized.as_slice(),
    )
}

/// Whether a file with this extension and stem is an input.
pub fn is_image(extension: Option<&str>, stem: &str, suffix: &str) -> (r: bool)
    ensures
        r == is_input(
            match extension {
                Some(e) => Some(e@),
                None => None,
            },
            stem@,
            suffix@,
        ),
{
    let known: bool = match extension {
        Some(e) => is_readable(e),
        None => false,
    };
    known && !is_output(stem, suffix)
}

/// Where the suffix is not empty, no output of a run is taken as an input of the next one with
/// the same suffix, whichever format or width it was written for.
pub proof fn lemma_outputs_are_not_inputs(
    extension: Option<Seq<char>>,
    name: Seq<char>,
    suffix: Seq<char>,
    width: nat,
)
    requires
        suffix.len() > 0,
    ensures
        !is_input(extension, name + suffix, suffix),
        !is_input(extension, name + suffix + "-"@ + text::decimal(width), suffix),
{
    let main = name + suffix;
    assert(main.subrange(name.len() as int, main.len() as int) =~= suffix);
    assert(scan::stands_at(main, suffix, name.len() as int));
    let variant = name + suffix + "-"@ + text::decimal(width);
    let inner = suffix + "-"@;
    let from = name.len() as int;
    assert(variant.subrange(from, from + inner.len()) =~= inner);
    assert(scan::stands_at(variant, inner, from));
}

/// The file name of an output.
pub open spec fn output_name_spec(
    name: Seq<char>,
    suffix: Seq<char>,
    format: ImageFormat,
) -> Seq<char> {
    name + suffix + "."@ + format.extension_spec()
}

pub fn output_name(name: &str, suffix: &str, format: ImageFormat) -> (r: String)
    ensures
        r@ == output_name_spec(name@, suffix@, format),
{
    let mut out: String = name.to_string();
    out.append(suffix);
    out.append(".");
    out.append(format.extension());
    out
}

/// The file name of an output of a certain width.
pub open spec fn variant_name_spec(
    name: Seq<char>,
    suffix: Seq<char>,
    width: nat,
    format: ImageFormat,
) -> Seq<char> {
    name + suffix + "-"@ + text::decimal(width) + "."@ + format.extension_spec()
}

pub fn variant_name(name: &str, suffix: &str, width: u32, format: ImageFormat) -> (r: String)
    ensures
        r@ == variant_name_spec(name@, suffix@, width as nat, format),
{
    let mut out: String = name.to_string();
    out.append(suffix);
    out.append("-");
    text::push_decimal(&mut out, width as u64);
    out.append(".");
    out.append(format.extension());
    out
}

/// A file that is to be written into a folder, which is known by a number.
pub struct Input {
    pub folder: u64,
    pub stem: String,
}

/// The name that an output begins with, unless another file has it.
pub open spec fn base_name(stem: Seq<char>, keep_names: bool) -> Seq<char> {
    if keep_names {
        stem
    } else {
        slug_spec(stem)
    }
}

/// The names to try for a base, in order: the base itself, then with `-2`, `-3` and so on.
pub open spec fn candidate(base: Seq<char>, n: nat) -> Seq<char> {
    if n <= 1 {
        base
    } else {
        base + "-"@ + text::decimal(n)
    }
}

/// The names given to the first files, with their folders.
pub open spec fn given(
    inputs: Seq<Input>,
    names: Seq<String>,
    count: int,
) -> Seq<(u64, Seq<char>)> {
    Seq::new(count as nat, |i: int| (inputs[i].folder, names[i]@))
}

/// Whether a name is the first one to try that is still free in a folder.
pub open spec fn first_free(
    taken: Seq<(u64, Seq<char>)>,
    folder: u64,
    base: Seq<char>,
    name: Seq<char>,
) -> bool {
    !taken.contains((folder, name)) && exists|n: nat|
        n >= 1 && name == #[trigger] candidate(base, n) && all_taken(taken, folder, base, n)
}

/// Whether every name before the `n`-th to try is taken in a folder.
pub open spec fn all_taken(
    taken: Seq<(u64, Seq<char>)>,
    folder: u64,
    base: Seq<char>,
    n: nat,
) -> bool {
    forall|m: nat| 1 <= m < n ==> taken.contains((folder, #[trigger] candidate(base, m)))
}

proof fn lemma_candidates_differ(base: Seq<char>, a: nat, b: nat)
    requires
        1 <= a,
        1 <= b,
        candidate(base, a) == candidate(base, b),
    ensures
        a == b,
{
    reveal_strlit("-");
    let front = base + "-"@;
    let x = text::decimal(a);
    let y = text::decimal(b);
    if a > 1 && b > 1 {
        assert(candidate(base, a).skip(front.len() as int) =~= x);
        assert(candidate(base, b).skip(front.len() as int) =~= y);
        text::lemma_decimal_injective(a, b);
    } else if a > 1 {
        assert(candidate(base, a).len() == base.len() + 1 + x.len());
    } else if b > 1 {
        assert(candidate(base, b).len() == base.len() + 1 + y.len());
    }
}

/// Output names, unique in each folder even when two inputs come to the same name.
pub fn unique_names(inputs: &Vec<Input>, keep_names: bool) -> (r: Vec<String>)
    ensures
        r@.len() == inputs@.len(),
        forall|i: int|
            0 <= i < r@.len() ==> first_free(
                given(inputs@, r@, i),
                inputs@[i].folder,
                base_name(inputs@[i].stem@, keep_names),
                (#[trigger] r@[i])@,
            ),
{
    let mut names: Vec<String> = Vec::new();
    let len: usize = inputs.len();
    let mut i: usize = 0;
    while i < len
        invariant
            len == inputs@.len(),
            i <= len,
            names@.len() == i,
            forall|j: int|
                0 <= j < i ==> first_free(
                    given(inputs@, names@, j),
                    inputs@[j].folder,
                    base_name(inputs@[j].stem@, keep_names),
                    (#[trigger] names@[j])@,
                ),
        decreases len - i,
    {
        let base: String = if keep_names {
            inputs[i].stem.clone()
        } else {
            slug(inputs[i].stem.as_str())
        };
        let name: String = free_name(inputs, &names, inputs[i].folder, base.as_str());
        let ghost before = names@;
        names.push(name);
        proof {
            assert forall|j: int| 0 <= j < i + 1 implies first_free(
                given(inputs@, names@, j),
                inputs@[j].folder,
                base_name(inputs@[j].stem@, keep_names),
                (#[trigger] names@[j])@,
            ) by {
                assert(given(inputs@, names@, j) =~= given(inputs@, before, j));
                if j < i {
                    assert(names@[j] == before[j]);
                }
            }
        }
        i = i + 1;
    }
    names
}

/// Whether a name is taken in a folder.
fn is_taken(inputs: &Vec<Input>, names: &Vec<String>, folder: u64, name: &str) -> (r: bool)
    requires
        names@.len() <= inputs@.len(),
    ensures
        r == given(inputs@, names@, names@.len() as int).contains((folder, name@)),
{
    let ghost taken = given(inputs@, names@, names@.len() as int);
    let mut i: usize = 0;
    while i < names.len()
        invariant
            i <= names@.len() <= inputs@.len(),
            taken == given(inputs@, names@, names@.len() as int),
            forall|j: int| 0 <= j < i ==> #[trigger] taken[j] != (folder, name@),
        decreases names@.len() - i,
    {
        if inputs[i].folder == folder && text::same_text(names[i].as_str(), name) {
            proof {
                assert(taken[i as int] == (folder, name@));
            }
            return true;
        }
        i = i + 1;
    }
    false
}

/// The first name to try that is still free in a folder.
fn free_name(inputs: &Vec<Input>, names: &Vec<String>, folder: u64, base: &str) -> (r: String)
    requires
        names@.len() < inputs@.len(),
    ensures
        first_free(given(inputs@, names@, names@.len() as int), folder, base@, r@),
{
    let ghost taken = given(inputs@, names@, names@.len() as int);
    let len: usize = inputs.len();
    let mut name: String = base.to_string();
    let mut n: u64 = 1;
    let ghost mut left: Set<(u64, Seq<char>)> = taken.to_set();
    proof {
        vstd::seq_lib::seq_to_set_is_finite(taken);
        taken.lemma_cardinality_of_set();
    }
    while is_taken(inputs, names, folder, name.as_str())
        invariant
            names@.len() < inputs@.len() == len,
            taken == given(inputs@, names@, names@.len() as int),
            n >= 1,
            name@ == candidate(base@, n as nat),
            all_taken(taken, folder, base@, n as nat),
            left.finite(),
            n - 1 + left.len() <= names@.len(),
            forall|m: nat| m >= n ==> (taken.contains((folder, #[trigger] candidate(base@, m)))
                ==> left.contains((folder, candidate(base@, m)))),
        decreases left.len(),
    {
        let ghost before = left;
        proof {
            assert(left.contains((folder, candidate(base@, n as nat))));
            left = left.remove((folder, name@));
            assert forall|m: nat| m >= n + 1 && taken.contains(
                (folder, #[trigger] candidate(base@, m)),
            ) implies left.contains((folder, candidate(base@, m))) by {
                if candidate(base@, m) == candidate(base@, n as nat) {
                    lemma_candidates_differ(base@, m, n as nat);
                }
            }
        }
        n = n + 1;
        name = base.to_string();
        name.append("-");
        text::push_decimal(&mut name, n);
    }
    name
}

/// No two outputs in one folder have the same name.
pub proof fn lemma_names_are_unique(
    inputs: Seq<Input>,
    names: Seq<String>,
    keep_names: bool,
    i: int,
    j: int,
)
    requires
        names.len() == inputs.len(),
        0 <= i < j < names.len(),
        forall|k: int|
            0 <= k < names.len() ==> first_free(
                given(inputs, names, k),
                inputs[k].folder,
                base_name(inputs[k].stem@, keep_names),
                (#[trigger] names[k])@,
            ),
    ensures
        inputs[i].folder == inputs[j].folder ==> names[i]@ != names[j]@,
{
    let taken = given(inputs, names, j);
    assert(taken[i] == (inputs[i].folder, names[i]@));
    assert(!taken.contains((inputs[j].folder, names[j]@)));
}

/// The ASCII letters and digits of a text, in order and in lowercase.
pub open spec fn letters_and_digits(s: Seq<char>) -> Seq<char>
    decreases s.len(),
{
    if s.len() == 0 {
        s
    } else {
        let before = letters_and_digits(s.drop_last());
        let c = s.last();
        if 'A' <= c <= 'Z' {
            before.push((c as u8 + 32) as u8 as char)
        } else if 'a' <= c <= 'z' || '0' <= c <= '9' {
            before.push(c)
        } else {
            before
        }
    }
}

/// A text without its dashes.
pub open spec fn without_dashes(s: Seq<char>) -> Seq<char>
    decreases s.len(),
{
    if s.len() == 0 {
        s
    } else {
        let before = without_dashes(s.drop_last());
        if s.last() == '-' {
            before
        } else {
            before.push(s.last())
        }
    }
}

proof fn lemma_dashed_keeps(s: Seq<char>)
    ensures
        without_dashes(dashed(s)) == letters_and_digits(s),
    decreases s.len(),
{
    if s.len() > 0 {
        lemma_dashed_keeps(s.drop_last());
        let out = dashed(s.drop_last());
        let c = s.last();
        if is_alphanumeric(c) {
            assert(dashed(s).drop_last() =~= out);
        } else if out.len() > 0 && out.last() != '-' {
            assert(dashed(s).drop_last() =~= out);
        }
    }
}

proof fn lemma_trimming_keeps(s: Seq<char>)
    ensures
        without_dashes(without_last_dashes(s)) == without_dashes(s),
    decreases s.len(),
{
    if s.len() > 0 && s.last() == '-' {
        lemma_trimming_keeps(s.drop_last());
    }
}

/// A slug keeps every ASCII letter and digit of a stem, in order and in lowercase, and adds nothing
/// but dashes. A stem without any is called `image`.
pub proof fn lemma_slug_keeps_letters_and_digits(stem: Seq<char>)
    ensures
        letters_and_digits(stem).len() > 0 ==> without_dashes(slug_spec(stem))
            == letters_and_digits(stem),
        letters_and_digits(stem).len() == 0 ==> slug_spec(stem) == "image"@,
{
    lemma_dashed_keeps(stem);
    lemma_trimming_keeps(dashed(stem));
    let s = without_last_dashes(dashed(stem));
    lemma_dashed(stem);
    lemma_without_last_dashes(dashed(stem));
    if s.len() > 0 {
        assert(s.last() != '-');
        assert(without_dashes(s).len() > 0);
    }
}

/// What dashing a text after another comes to.
spec fn joined(d: Seq<char>, b: Seq<char>) -> Seq<char> {
    if b.len() == 0 {
        d
    } else if d.len() == 0 {
        dashed(b)
    } else if !is_alphanumeric(b[0]) && d.last() != '-' {
        d.push('-') + dashed(b)
    } else {
        d + dashed(b)
    }
}

proof fn lemma_dashed_joins(a: Seq<char>, b: Seq<char>)
    ensures
        dashed(a + b) == joined(dashed(a), b),
        b.len() > 0 && !is_alphanumeric(b[0]) && dashed(b).len() == 0 && dashed(a).len() > 0
            ==> dashed(a + b).last() == '-',
        b.len() > 0 && is_alphanumeric(b[0]) ==> dashed(b).len() > 0,
    decreases b.len(),
{
    let d = dashed(a);
    if b.len() == 0 {
        assert(a + b =~= a);
    } else {
        let rest = b.drop_last();
        let c = b.last();
        lemma_dashed_joins(a, rest);
        assert((a + b).drop_last() =~= a + rest);
        assert((a + b).last() == c);
        let before = dashed(a + rest);
        if rest.len() == 0 {
            assert(rest =~= Seq::empty());
            assert(dashed(rest) =~= Seq::empty());
            assert(a + rest =~= a);
            if is_alphanumeric(c) {
                assert(dashed(b) =~= seq![scan::lower(c)]);
                assert(dashed(a + b) =~= joined(d, b));
            } else {
                assert(dashed(b) =~= Seq::empty());
                assert(dashed(a + b) =~= joined(d, b));
            }
        } else {
            assert(b[0] == rest[0]);
            if is_alphanumeric(c) {
                assert(dashed(a + b) =~= joined(d, b));
            } else {
                if dashed(rest).len() > 0 {
                    assert(before.last() == dashed(rest).last());
                }
                assert(dashed(a + b) =~= joined(d, b));
            }
        }
    }
}

proof fn lemma_trimming_behind(x: Seq<char>, y: Seq<char>)
    requires
        without_last_dashes(y).len() > 0,
    ensures
        without_last_dashes(x + y) == x + without_last_dashes(y),
    decreases y.len(),
{
    if y.len() > 0 {
        assert((x + y).last() == y.last());
        if y.last() == '-' {
            assert((x + y).drop_last() =~= x + y.drop_last());
            lemma_trimming_behind(x, y.drop_last());
        }
    }
}

/// Words stay apart: whatever stands between two parts of a stem, other than ASCII letters and
/// digits, becomes one dash between their slugs. Nothing else does: where letters or digits meet,
/// the slugs meet too.
pub proof fn lemma_slug_keeps_words(a: Seq<char>, c: char, b: Seq<char>)
    requires
        letters_and_digits(a).len() > 0,
        letters_and_digits(b).len() > 0,
    ensures
        !('a' <= c <= 'z' || 'A' <= c <= 'Z' || '0' <= c <= '9') ==> slug_spec(a.push(c) + b)
            == slug_spec(a) + seq!['-'] + slug_spec(b),
        ('a' <= a.last() <= 'z' || 'A' <= a.last() <= 'Z' || '0' <= a.last() <= '9') && ('a' <= b[0]
            <= 'z' || 'A' <= b[0] <= 'Z' || '0' <= b[0] <= '9') ==> slug_spec(a + b) == slug_spec(a)
            + slug_spec(b),
{
    lemma_slug_keeps_letters_and_digits(a);
    lemma_slug_keeps_letters_and_digits(b);
    lemma_dashed_keeps(a);
    lemma_dashed_keeps(b);
    lemma_dashed(a);
    lemma_dashed(b);
    lemma_trimming_keeps(dashed(a));
    lemma_trimming_keeps(dashed(b));
    lemma_without_last_dashes(dashed(a));
    lemma_without_last_dashes(dashed(b));
    let (d, e) = (dashed(a), dashed(b));
    let (x, y) = (without_last_dashes(d), without_last_dashes(e));
    if x.len() == 0 {
        assert(without_dashes(x) =~= Seq::empty());
    }
    if y.len() == 0 {
        assert(without_dashes(y) =~= Seq::empty());
    }
    if !is_alphanumeric(c) {
        let f = dashed(a.push(c));
        assert(a.push(c).drop_last() =~= a);
        assert(f.last() == '-');
        lemma_dashed_joins(a.push(c), b);
        assert(dashed(a.push(c) + b) =~= f + e);
        lemma_trimming_behind(f, e);
        assert(f =~= x + seq!['-']) by {
            if d.last() == '-' {
                if d.len() > 1 {
                    assert(d[d.len() - 2] != '-');
                }
                assert(without_last_dashes(d.drop_last()) =~= d.drop_last());
                assert(x =~= d.drop_last());
            } else {
                assert(x =~= d);
            }
        }
        assert(slug_spec(a.push(c) + b) =~= x + seq!['-'] + y);
    }
    if is_alphanumeric(a.last()) && is_alphanumeric(b[0]) {
        assert(d.last() == scan::lower(a.last()));
        assert(d.last() != '-');
        assert(x =~= d);
        lemma_dashed_joins(a, b);
        lemma_trimming_behind(d, e);
    }
}

/// Whether two texts are the same but for the case of ASCII letters.
pub open spec fn same_but_for_case(a: Seq<char>, b: Seq<char>) -> bool {
    &&& a.len() == b.len()
    &&& forall|i: int|
        0 <= i < a.len() ==> #[trigger] a[i] == b[i] || ('A' <= a[i] <= 'Z' && b[i] as u32
            == a[i] as u32 + 32) || ('A' <= b[i] <= 'Z' && a[i] as u32 == b[i] as u32 + 32)
}

pub(crate) proof fn lemma_lowered_same(a: Seq<char>, b: Seq<char>)
    ensures
        scan::lowered(a) == scan::lowered(b) <==> same_but_for_case(a, b),
{
    let (x, y) = (scan::lowered(a), scan::lowered(b));
    if x == y {
        assert(x.len() == y.len());
        assert forall|i: int| 0 <= i < a.len() implies #[trigger] a[i] == b[i] || ('A' <= a[i]
            <= 'Z' && b[i] as u32 == a[i] as u32 + 32) || ('A' <= b[i] <= 'Z' && a[i] as u32
            == b[i] as u32 + 32) by {
            assert(x[i] == y[i]);
        }
    }
    if same_but_for_case(a, b) {
        assert forall|i: int| 0 <= i < a.len() implies x[i] == y[i] by {
            assert(a[i] == b[i] || ('A' <= a[i] <= 'Z' && b[i] as u32 == a[i] as u32 + 32) || ('A'
                <= b[i] <= 'Z' && a[i] as u32 == b[i] as u32 + 32));
        }
        assert(x =~= y);
    }
}

/// A file is an input exactly where its extension is, in whatever case, one of those of JPEG, PNG,
/// WebP and TIFF files, its stem holds no mark of an earlier output, and it neither ends with the
/// suffix nor holds the suffix before a dash; an empty suffix says nothing.
pub proof fn lemma_inputs_are_images_and_no_outputs(
    extension: Option<Seq<char>>,
    stem: Seq<char>,
    suffix: Seq<char>,
)
    ensures
        is_input(extension, stem, suffix) <==> {
            &&& extension matches Some(e) && (same_but_for_case(e, seq!['j', 'p', 'g'])
                || same_but_for_case(e, seq!['j', 'p', 'e', 'g']) || same_but_for_case(
                e,
                seq!['p', 'n', 'g'],
            ) || same_but_for_case(e, seq!['w', 'e', 'b', 'p']) || same_but_for_case(
                e,
                seq!['t', 'i', 'f'],
            ) || same_but_for_case(e, seq!['t', 'i', 'f', 'f']))
            &&& forall|a: Seq<char>, b: Seq<char>|
                stem != #[trigger] (a + "_compressed"@ + b)
            &&& forall|a: Seq<char>, b: Seq<char>|
                stem != #[trigger] (a + ".optimized"@ + b)
            &&& suffix.len() > 0 ==> {
                &&& forall|a: Seq<char>| stem != #[trigger] (a + suffix)
                &&& forall|a: Seq<char>, b: Seq<char>|
                    stem != #[trigger] (a + (suffix + "-"@) + b)
            }
        },
{
    reveal_strlit("jpg");
    reveal_strlit("jpeg");
    reveal_strlit("png");
    reveal_strlit("webp");
    reveal_strlit("tif");
    reveal_strlit("tiff");
    if let Some(e) = extension {
        let jpg = seq!['j', 'p', 'g'];
        let jpeg = seq!['j', 'p', 'e', 'g'];
        let png = seq!['p', 'n', 'g'];
        let webp = seq!['w', 'e', 'b', 'p'];
        let tif = seq!['t', 'i', 'f'];
        let tiff = seq!['t', 'i', 'f', 'f'];
        lemma_lowered_same(e, jpg);
        lemma_lowered_same(e, jpeg);
        lemma_lowered_same(e, png);
        lemma_lowered_same(e, webp);
        lemma_lowered_same(e, tif);
        lemma_lowered_same(e, tiff);
        assert("jpg"@ =~= jpg && scan::lowered(jpg) =~= jpg);
        assert("jpeg"@ =~= jpeg && scan::lowered(jpeg) =~= jpeg);
        assert("png"@ =~= png && scan::lowered(png) =~= png);
        assert("webp"@ =~= webp && scan::lowered(webp) =~= webp);
        assert("tif"@ =~= tif && scan::lowered(tif) =~= tif);
        assert("tiff"@ =~= tiff && scan::lowered(tiff) =~= tiff);
    }
    lemma_occurs(stem, "_compressed"@);
    lemma_occurs(stem, ".optimized"@);
    lemma_occurs(stem, suffix + "-"@);
    lemma_ends(stem, suffix);
}

proof fn lemma_occurs(s: Seq<char>, p: Seq<char>)
    ensures
        scan::occurs(s, p) <==> exists|a: Seq<char>, b: Seq<char>| s == #[trigger] (a + p + b),
{
    if scan::occurs(s, p) {
        let i = choose|i: int| scan::stands_at(s, p, i);
        let (a, b) = (s.take(i), s.skip(i + p.len()));
        assert(s =~= a + p + b);
    }
    if exists|a: Seq<char>, b: Seq<char>| s == #[trigger] (a + p + b) {
        let (a, b) = choose|a: Seq<char>, b: Seq<char>| s == #[trigger] (a + p + b);
        assert(s.subrange(a.len() as int, (a.len() + p.len()) as int) =~= p);
        assert(scan::stands_at(s, p, a.len() as int));
    }
}

proof fn lemma_ends(s: Seq<char>, p: Seq<char>)
    ensures
        scan::ends(s, p) <==> exists|a: Seq<char>| s == #[trigger] (a + p),
{
    if scan::ends(s, p) {
        let a = s.take(s.len() - p.len());
        assert(s =~= a + p);
    }
    if exists|a: Seq<char>| s == #[trigger] (a + p) {
        let a = choose|a: Seq<char>| s == #[trigger] (a + p);
        assert(s.subrange(a.len() as int, (a.len() + p.len()) as int) =~= p);
    }
}

/// A file is called by its stem, or the slug of it, unless an earlier file in its folder is. Then a
/// dash and a number follow: the smallest one, from 2 on, that no earlier file there has.
pub proof fn lemma_names_are_numbered_only_where_needed(
    inputs: Seq<Input>,
    names: Seq<String>,
    keep_names: bool,
    i: int,
)
    requires
        names.len() == inputs.len(),
        0 <= i < names.len(),
        forall|k: int|
            0 <= k < names.len() ==> first_free(
                given(inputs, names, k),
                inputs[k].folder,
                base_name(inputs[k].stem@, keep_names),
                (#[trigger] names[k])@,
            ),
    ensures
        ({
            let base = if keep_names {
                inputs[i].stem@
            } else {
                slug_spec(inputs[i].stem@)
            };
            let taken = |name: Seq<char>|
                exists|j: int|
                    0 <= j < i && inputs[j].folder == inputs[i].folder && (#[trigger] names[j])@
                        == name;
            &&& !taken(names[i]@)
            &&& names[i]@ == base || (taken(base) && exists|n: nat|
                n >= 2 && names[i]@ == base + "-"@ + #[trigger] text::decimal(n) && forall|m: nat|
                    2 <= m < n ==> taken(base + "-"@ + #[trigger] text::decimal(m)))
        }),
{
    let base = base_name(inputs[i].stem@, keep_names);
    let folder = inputs[i].folder;
    let before = given(inputs, names, i);
    let taken = |name: Seq<char>|
        exists|j: int|
            0 <= j < i && inputs[j].folder == inputs[i].folder && (#[trigger] names[j])@ == name;
    assert forall|name: Seq<char>| #[trigger] taken(name) <==> before.contains((folder, name)) by {
        if taken(name) {
            let j = choose|j: int|
                0 <= j < i && inputs[j].folder == inputs[i].folder && (#[trigger] names[j])@
                    == name;
            assert(before[j] == (folder, name));
        }
        if before.contains((folder, name)) {
            let j = choose|j: int| 0 <= j < before.len() && before[j] == (folder, name);
            assert(names[j]@ == name);
        }
    }
    let n = choose|n: nat|
        n >= 1 && names[i]@ == #[trigger] candidate(base, n) && all_taken(before, folder, base, n);
    assert(!taken(names[i]@));
    if n > 1 {
        assert(before.contains((folder, candidate(base, 1))));
        assert(taken(base));
        assert forall|m: nat| 2 <= m < n implies taken(base + "-"@ + #[trigger] text::decimal(
            m,
        )) by {
            assert(before.contains((folder, candidate(base, m))));
        }
        assert(names[i]@ == base + "-"@ + text::decimal(n));
    }
}

/// A slug of a text holds its letters and digits and nothing else but single dashes between them.
pub proof fn lemma_calls_make_slugs(stem: &str, r: String)
    requires
        call_ensures(slug, (stem,), r),
        letters_and_digits(stem@).len() > 0,
    ensures
        without_dashes(r@) == letters_and_digits(stem@),
        url_friendly(r@),
{
    lemma_slug_keeps_letters_and_digits(stem@);
    lemma_slug_is_url_friendly(stem@);
}

/// Inputs in one folder get different names.
pub proof fn lemma_calls_give_different_names(
    inputs: &Vec<Input>,
    keep_names: bool,
    r: Vec<String>,
    i: int,
    j: int,
)
    requires
        call_ensures(unique_names, (inputs, keep_names), r),
        0 <= i < j < inputs@.len(),
        inputs@[i].folder == inputs@[j].folder,
    ensures
        r@.len() == inputs@.len(),
        r@[i]@ != r@[j]@,
{
    lemma_names_are_unique(inputs@, r@, keep_names, i, j);
}

/// Only images that no earlier run wrote are taken.
pub proof fn lemma_calls_pick_inputs(extension: Option<&str>, stem: &str, suffix: &str, r: bool)
    requires
        call_ensures(is_image, (extension, stem, suffix), r),
    ensures
        extension is None ==> !r,
        r ==> forall|a: Seq<char>, b: Seq<char>| stem@ != #[trigger] (a + "_compressed"@ + b),
        r ==> forall|a: Seq<char>, b: Seq<char>| stem@ != #[trigger] (a + ".optimized"@ + b),
        r && suffix@.len() > 0 ==> forall|a: Seq<char>| stem@ != #[trigger] (a + suffix@),
        r == is_input(
            match extension {
                Some(e) => Some(e@),
                None => None,
            },
            stem@,
            suffix@,
        ),
{
    lemma_inputs_are_images_and_no_outputs(
        match extension {
            Some(e) => Some(e@),
            None => None,
        },
        stem@,
        suffix@,
    );
}

/// The outputs of one input never stand in each other's way: an output and a variant, outputs of two
/// formats, and variants of two formats or two widths have different names.
pub proof fn lemma_outputs_have_different_names(
    name: Seq<char>,
    suffix: Seq<char>,
    f: ImageFormat,
    g: ImageFormat,
    v: nat,
    w: nat,
)
    ensures
        f != g ==> output_name_spec(name, suffix, f) != output_name_spec(name, suffix, g),
        f != g || v != w ==> variant_name_spec(name, suffix, v, f) != variant_name_spec(
            name,
            suffix,
            w,
            g,
        ),
        f == g ==> output_name_spec(name, suffix, f) != variant_name_spec(name, suffix, w, g),
{
    let base = name + suffix;
    let (x, y) = (f.extension_spec(), g.extension_spec());
    let (dv, dw) = (text::decimal(v), text::decimal(w));
    text::lemma_decimal_is_a_numeral(v);
    text::lemma_decimal_is_a_numeral(w);
    reveal_strlit(".");
    reveal_strlit("-");
    assert("."@ =~= seq!['.'] && "-"@ =~= seq!['-']);
    crate::types::lemma_formats_are_told_apart(f, if f == ImageFormat::Png {
        ImageFormat::Jpeg
    } else {
        ImageFormat::Png
    });
    crate::types::lemma_formats_are_told_apart(g, if g == ImageFormat::Png {
        ImageFormat::Jpeg
    } else {
        ImageFormat::Png
    });
    if f != g {
        crate::types::lemma_formats_are_told_apart(f, g);
        let (p, q) = (output_name_spec(name, suffix, f), output_name_spec(name, suffix, g));
        if p == q {
            assert(p.skip(base.len() as int + 1) =~= x);
            assert(q.skip(base.len() as int + 1) =~= y);
        }
    }
    let (p, q) = (variant_name_spec(name, suffix, v, f), variant_name_spec(name, suffix, w, g));
    if p == q {
        let n = base.len() as int + 1;
        let (i, j) = (n + dv.len(), n + dw.len());
        assert(p[i] == '.' && q[j] == '.');
        if i < j {
            assert(q[i] == dw[i - n]);
        }
        if j < i {
            assert(p[j] == dv[j - n]);
        }
        assert(p.subrange(n, i) =~= dv);
        assert(q.subrange(n, j) =~= dw);
        assert(p.skip(i + 1) =~= x);
        assert(q.skip(j + 1) =~= y);
        if f != g {
            crate::types::lemma_formats_are_told_apart(f, g);
        }
    }
    if f == g {
        assert(output_name_spec(name, suffix, f).len() != variant_name_spec(
            name,
            suffix,
            w,
            g,
        ).len());
    }
}

} // verus!
