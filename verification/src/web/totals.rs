//! What a run comes to.

use vstd::prelude::*;

use crate::types::ImageFormat;
use crate::web::markup::{FileReport, ImageReport};

verus! {

/// The outputs of a format among some.
pub open spec fn of_format(outputs: Seq<FileReport>, format: ImageFormat) -> Seq<FileReport>
    decreases outputs.len(),
{
    if outputs.len() == 0 {
        Seq::empty()
    } else {
        let before = of_format(outputs.drop_last(), format);
        if outputs.last().format == format {
            before.push(outputs.last())
        } else {
            before
        }
    }
}

/// The outputs of a format of all inputs that did not fail.
pub open spec fn written(reports: Seq<ImageReport>, format: ImageFormat) -> Seq<FileReport>
    decreases reports.len(),
{
    if reports.len() == 0 {
        Seq::empty()
    } else {
        let before = written(reports.drop_last(), format);
        if reports.last().failed {
            before
        } else {
            before + of_format(reports.last().outputs@, format)
        }
    }
}

/// The bytes of files.
pub open spec fn sum(files: Seq<FileReport>) -> nat
    decreases files.len(),
{
    if files.len() == 0 {
        0
    } else {
        sum(files.drop_last()) + files.last().bytes as nat
    }
}

/// The bytes of the inputs that did not fail.
pub open spec fn input_sum(reports: Seq<ImageReport>) -> nat
    decreases reports.len(),
{
    if reports.len() == 0 {
        0
    } else {
        input_sum(reports.drop_last()) + if reports.last().failed {
            0
        } else {
            reports.last().input_bytes as nat
        }
    }
}

/// How many files are over the cap.
pub open spec fn over_cap(files: Seq<FileReport>) -> nat
    decreases files.len(),
{
    if files.len() == 0 {
        0
    } else {
        over_cap(files.drop_last()) + if files.last().within_budget {
            0nat
        } else {
            1nat
        }
    }
}

/// Whether a number of bytes is that of the largest file.
pub open spec fn is_largest(files: Seq<FileReport>, bytes: u64) -> bool {
    &&& exists|i: int| 0 <= i < files.len() && (#[trigger] files[i]).bytes == bytes
    &&& forall|i: int| 0 <= i < files.len() ==> (#[trigger] files[i]).bytes <= bytes
}

/// What the outputs of a format come to.
#[derive(Debug, Clone, Copy, PartialEq, Eq)]
pub struct Totals {
    pub files: u64,
    pub bytes: u64,
    pub largest: u64,
    pub over_cap: u64,
}

/// Whether totals are those of some files.
pub open spec fn sums_up(files: Seq<FileReport>, t: Totals) -> bool {
    &&& t.files == files.len()
    &&& t.bytes == sum(files)
    &&& t.over_cap == over_cap(files)
    &&& files.len() > 0 ==> is_largest(files, t.largest)
    &&& files.len() == 0 ==> t.largest == 0
}

proof fn lemma_sum_prefix(a: Seq<FileReport>, b: Seq<FileReport>)
    ensures
        sum(a + b) == sum(a) + sum(b),
    decreases b.len(),
{
    if b.len() > 0 {
        assert((a + b).drop_last() =~= a + b.drop_last());
        lemma_sum_prefix(a, b.drop_last());
    } else {
        assert(a + b =~= a);
    }
}

proof fn lemma_over_cap_bound(files: Seq<FileReport>)
    ensures
        over_cap(files) <= files.len(),
    decreases files.len(),
{
    if files.len() > 0 {
        lemma_over_cap_bound(files.drop_last());
    }
}

/// Counts one more file in.
fn count_in(t: Totals, f: &FileReport, Ghost(files): Ghost<Seq<FileReport>>) -> (r: Totals)
    requires
        sums_up(files, t),
        sum(files) + f.bytes <= u64::MAX,
        files.len() < u64::MAX,
    ensures
        sums_up(files.push(*f), r),
{
    proof {
        let after = files.push(*f);
        assert(after.drop_last() =~= files);
        lemma_over_cap_bound(files);
        assert forall|i: int| 0 <= i < files.len() implies #[trigger] after[i] == files[i] by {}
        assert(after[files.len() as int] == *f);
        if files.len() > 0 {
            let k = choose|k: int| 0 <= k < files.len() && (#[trigger] files[k]).bytes == t.largest;
            assert(after[k].bytes == t.largest);
        }
    }
    Totals {
        files: t.files + 1,
        bytes: t.bytes + f.bytes,
        largest: if f.bytes > t.largest {
            f.bytes
        } else {
            t.largest
        },
        over_cap: if f.within_budget {
            t.over_cap
        } else {
            t.over_cap + 1
        },
    }
}

/// What the outputs of a format come to, over all inputs that did not fail.
pub fn totals(reports: &Vec<ImageReport>, format: ImageFormat) -> (r: Totals)
    requires
        sum(written(reports@, format)) <= u64::MAX,
        written(reports@, format).len() <= u64::MAX,
    ensures
        sums_up(written(reports@, format), r),
{
    let mut t = Totals { files: 0, bytes: 0, largest: 0, over_cap: 0 };
    let mut i: usize = 0;
    while i < reports.len()
        invariant
            sum(written(reports@, format)) <= u64::MAX,
            written(reports@, format).len() <= u64::MAX,
            i <= reports@.len(),
            sums_up(written(reports@.take(i as int), format), t),
        decreases reports@.len() - i,
    {
        let ghost before = written(reports@.take(i as int), format);
        proof {
            assert(reports@.take(i + 1).drop_last() =~= reports@.take(i as int));
        }
        if !reports[i].failed {
            let outputs: &Vec<FileReport> = &reports[i].outputs;
            let mut j: usize = 0;
            proof {
                assert(before + of_format(outputs@.take(0), format) =~= before);
            }
            while j < outputs.len()
                invariant
                    sum(written(reports@, format)) <= u64::MAX,
                    written(reports@, format).len() <= u64::MAX,
                    i < reports@.len(),
                    !reports@[i as int].failed,
                    outputs@ == reports@[i as int].outputs@,
                    j <= outputs@.len(),
                    before == written(reports@.take(i as int), format),
                    sums_up(before + of_format(outputs@.take(j as int), format), t),
                decreases outputs@.len() - j,
            {
                let ghost so_far = before + of_format(outputs@.take(j as int), format);
                proof {
                    assert(outputs@.take(j + 1).drop_last() =~= outputs@.take(j as int));
                }
                if outputs[j].format == format {
                    proof {
                        lemma_within_all(reports@, format, i as int, (j + 1) as int);
                        assert(so_far.push(outputs@[j as int]) =~= before + of_format(
                            outputs@.take(j + 1),
                            format,
                        ));
                        assert(so_far.push(outputs@[j as int]).drop_last() =~= so_far);
                    }
                    t = count_in(t, &outputs[j], Ghost(so_far));
                }
                j = j + 1;
            }
            proof {
                assert(outputs@.take(j as int) =~= outputs@);
            }
        }
        i = i + 1;
    }
    proof {
        assert(reports@.take(i as int) =~= reports@);
    }
    t
}

/// What was counted is no more than what there is.
proof fn lemma_within_all(reports: Seq<ImageReport>, format: ImageFormat, i: int, j: int)
    requires
        0 <= i < reports.len(),
        !reports[i].failed,
        0 <= j <= reports[i].outputs@.len(),
    ensures
        ({
            let part = written(reports.take(i), format) + of_format(
                reports[i].outputs@.take(j),
                format,
            );
            &&& sum(part) <= sum(written(reports, format))
            &&& part.len() <= written(reports, format).len()
        }),
{
    let outputs = reports[i].outputs@;
    let low = of_format(outputs.take(j), format);
    let before = written(reports.take(i), format);
    lemma_of_format_grows(outputs, format, j);
    lemma_sum_prefix(before, low);
    lemma_sum_prefix(before, of_format(outputs, format));
    let here = reports.take(i + 1);
    assert(here.drop_last() =~= reports.take(i));
    assert(written(here, format) == before + of_format(outputs, format));
    lemma_written_grows(reports, format, i + 1);
}

proof fn lemma_of_format_grows(outputs: Seq<FileReport>, format: ImageFormat, j: int)
    requires
        0 <= j <= outputs.len(),
    ensures
        sum(of_format(outputs.take(j), format)) <= sum(of_format(outputs, format)),
        of_format(outputs.take(j), format).len() <= of_format(outputs, format).len(),
    decreases outputs.len(),
{
    if j == outputs.len() {
        assert(outputs.take(j) =~= outputs);
    } else {
        lemma_of_format_grows(outputs.drop_last(), format, j);
        assert(outputs.drop_last().take(j) =~= outputs.take(j));
        let rest = of_format(outputs.drop_last(), format);
        if outputs.last().format == format {
            assert(rest.push(outputs.last()).drop_last() =~= rest);
        }
    }
}

proof fn lemma_written_grows(reports: Seq<ImageReport>, format: ImageFormat, i: int)
    requires
        0 <= i <= reports.len(),
    ensures
        sum(written(reports.take(i), format)) <= sum(written(reports, format)),
        written(reports.take(i), format).len() <= written(reports, format).len(),
    decreases reports.len(),
{
    if i == reports.len() {
        assert(reports.take(i) =~= reports);
    } else {
        lemma_written_grows(reports.drop_last(), format, i);
        assert(reports.drop_last().take(i) =~= reports.take(i));
        lemma_sum_prefix(
            written(reports.drop_last(), format),
            of_format(reports.last().outputs@, format),
        );
    }
}

/// The bytes of the inputs that did not fail.
pub fn input_total(reports: &Vec<ImageReport>) -> (r: u64)
    requires
        input_sum(reports@) <= u64::MAX,
    ensures
        r == input_sum(reports@),
{
    let mut n: u64 = 0;
    let mut i: usize = 0;
    while i < reports.len()
        invariant
            input_sum(reports@) <= u64::MAX,
            i <= reports@.len(),
            n == input_sum(reports@.take(i as int)),
        decreases reports@.len() - i,
    {
        proof {
            assert(reports@.take(i + 1).drop_last() =~= reports@.take(i as int));
            lemma_input_grows(reports@, i + 1);
        }
        if !reports[i].failed {
            n = n + reports[i].input_bytes;
        }
        i = i + 1;
    }
    proof {
        assert(reports@.take(i as int) =~= reports@);
    }
    n
}

proof fn lemma_input_grows(reports: Seq<ImageReport>, i: int)
    requires
        0 <= i <= reports.len(),
    ensures
        input_sum(reports.take(i)) <= input_sum(reports),
    decreases reports.len(),
{
    if i == reports.len() {
        assert(reports.take(i) =~= reports);
    } else {
        lemma_input_grows(reports.drop_last(), i);
        assert(reports.drop_last().take(i) =~= reports.take(i));
    }
}

/// The files that count are exactly those of the format that an input which did not fail has.
pub proof fn lemma_files_that_count(reports: Seq<ImageReport>, format: ImageFormat, f: FileReport)
    ensures
        written(reports, format).contains(f) <==> f.format == format && exists|i: int|
            0 <= i < reports.len() && !(#[trigger] reports[i]).failed
                && reports[i].outputs@.contains(f),
    decreases reports.len(),
{
    let all = written(reports, format);
    if reports.len() > 0 {
        let front = reports.drop_last();
        let last = reports.last();
        let before = written(front, format);
        let more = of_format(last.outputs@, format);
        lemma_files_that_count(front, format, f);
        lemma_of_format(last.outputs@, format, f);
        if before.contains(f) {
            let i = choose|i: int|
                0 <= i < front.len() && !(#[trigger] front[i]).failed && front[i].outputs@.contains(f);
            assert(reports[i] == front[i]);
            let k = choose|k: int| 0 <= k < before.len() && before[k] == f;
            assert(all[k] == f);
        }
        if !last.failed {
            assert(all == before + more);
            if more.contains(f) {
                let k = choose|k: int| 0 <= k < more.len() && more[k] == f;
                assert(all[before.len() + k] == f);
                assert(reports[reports.len() - 1] == last);
            }
            if all.contains(f) && !before.contains(f) {
                let k = choose|k: int| 0 <= k < all.len() && all[k] == f;
                if k < before.len() {
                    assert(before[k] == f);
                } else {
                    assert(more[k - before.len()] == f);
                }
            }
        }
        if f.format == format && exists|i: int|
            0 <= i < reports.len() && !(#[trigger] reports[i]).failed
                && reports[i].outputs@.contains(f) {
            let i = choose|i: int|
                0 <= i < reports.len() && !(#[trigger] reports[i]).failed
                    && reports[i].outputs@.contains(f);
            if i < front.len() {
                assert(front[i] == reports[i]);
            }
        }
    }
}

proof fn lemma_of_format(outputs: Seq<FileReport>, format: ImageFormat, f: FileReport)
    ensures
        of_format(outputs, format).contains(f) <==> f.format == format && outputs.contains(f),
    decreases outputs.len(),
{
    let all = of_format(outputs, format);
    if outputs.len() > 0 {
        let front = outputs.drop_last();
        let last = outputs.last();
        let before = of_format(front, format);
        lemma_of_format(front, format, f);
        assert(outputs[outputs.len() - 1] == last);
        if front.contains(f) {
            let k = choose|k: int| 0 <= k < front.len() && front[k] == f;
            assert(outputs[k] == f);
        }
        if outputs.contains(f) && f != last {
            let k = choose|k: int| 0 <= k < outputs.len() && outputs[k] == f;
            assert(front[k] == f);
        }
        if last.format == format {
            assert(all == before.push(last));
            assert(all[before.len() as int] == last);
            if before.contains(f) {
                let k = choose|k: int| 0 <= k < before.len() && before[k] == f;
                assert(all[k] == f);
            }
            if all.contains(f) && f != last {
                let k = choose|k: int| 0 <= k < all.len() && all[k] == f;
                assert(before[k] == f);
            }
        }
    }
}

/// What two runs come to together is what they come to one after the other, whatever is counted:
/// files, their bytes, those over the cap, or the bytes of the inputs.
pub proof fn lemma_totals_add_up(a: Seq<ImageReport>, b: Seq<ImageReport>, format: ImageFormat)
    ensures
        written(a + b, format) == written(a, format) + written(b, format),
        sum(written(a + b, format)) == sum(written(a, format)) + sum(written(b, format)),
        over_cap(written(a + b, format)) == over_cap(written(a, format)) + over_cap(
            written(b, format),
        ),
        input_sum(a + b) == input_sum(a) + input_sum(b),
    decreases b.len(),
{
    if b.len() == 0 {
        assert(a + b =~= a);
        assert(written(a, format) + written(b, format) =~= written(a, format));
    } else {
        lemma_totals_add_up(a, b.drop_last(), format);
        assert((a + b).drop_last() =~= a + b.drop_last());
        assert((a + b).last() == b.last());
        assert(written(a + b, format) =~= written(a, format) + written(b, format));
    }
    lemma_sum_prefix(written(a, format), written(b, format));
    lemma_over_cap_prefix(written(a, format), written(b, format));
}

proof fn lemma_over_cap_prefix(a: Seq<FileReport>, b: Seq<FileReport>)
    ensures
        over_cap(a + b) == over_cap(a) + over_cap(b),
    decreases b.len(),
{
    if b.len() > 0 {
        assert((a + b).drop_last() =~= a + b.drop_last());
        lemma_over_cap_prefix(a, b.drop_last());
    } else {
        assert(a + b =~= a);
    }
}

/// One input comes to its outputs of the format, unless it failed: then it comes to nothing, whatever
/// it holds.
pub proof fn lemma_one_input(r: ImageReport, format: ImageFormat)
    requires
        r.outputs@.len() == 1,
        r.outputs@[0].format == format,
    ensures
        r.failed ==> written(seq![r], format).len() == 0 && input_sum(seq![r]) == 0,
        !r.failed ==> written(seq![r], format) == r.outputs@ && input_sum(seq![r]) == r.input_bytes
            && sum(written(seq![r], format)) == r.outputs@[0].bytes && over_cap(
            written(seq![r], format),
        ) == (if r.outputs@[0].within_budget {
            0nat
        } else {
            1
        }),
{
    let one = seq![r];
    assert(one.drop_last() =~= Seq::empty());
    assert(r.outputs@.drop_last() =~= Seq::empty());
    assert(written(one.drop_last(), format) =~= Seq::empty());
    assert(of_format(r.outputs@.drop_last(), format) =~= Seq::empty());
    assert(of_format(r.outputs@, format) =~= r.outputs@);
    assert(input_sum(one.drop_last()) == 0);
    if !r.failed {
        assert(written(one, format) =~= r.outputs@);
        assert(sum(r.outputs@.drop_last()) == 0 && over_cap(r.outputs@.drop_last()) == 0);
    }
}

/// Two runs come together to what they come to one after the other: files, bytes and files over the
/// cap add up, and the largest file of both is the larger one.
pub proof fn lemma_calls_add_up(
    a: &Vec<ImageReport>,
    b: &Vec<ImageReport>,
    both: &Vec<ImageReport>,
    format: ImageFormat,
    x: Totals,
    y: Totals,
    z: Totals,
)
    requires
        both@ == a@ + b@,
        call_ensures(totals, (a, format), x),
        call_ensures(totals, (b, format), y),
        call_ensures(totals, (both, format), z),
    ensures
        z.files == x.files + y.files,
        z.bytes == x.bytes + y.bytes,
        z.over_cap == x.over_cap + y.over_cap,
        z.largest == (if x.largest > y.largest {
            x.largest
        } else {
            y.largest
        }),
{
    lemma_totals_add_up(a@, b@, format);
    let (p, q) = (written(a@, format), written(b@, format));
    let all = written(both@, format);
    assert forall|i: int| 0 <= i < p.len() implies #[trigger] all[i] == p[i] by {}
    assert forall|i: int| 0 <= i < q.len() implies #[trigger] q[i] == all[p.len() + i] by {}
    if p.len() > 0 {
        let i = choose|i: int| 0 <= i < p.len() && (#[trigger] p[i]).bytes == x.largest;
        assert(all[i].bytes == x.largest);
    }
    if q.len() > 0 {
        let i = choose|i: int| 0 <= i < q.len() && (#[trigger] q[i]).bytes == y.largest;
        assert(all[p.len() + i].bytes == y.largest);
    }
    if all.len() > 0 {
        let i = choose|i: int| 0 <= i < all.len() && (#[trigger] all[i]).bytes == z.largest;
        if i < p.len() {
            assert(p[i].bytes == z.largest);
        } else {
            assert(q[i - p.len()].bytes == z.largest);
        }
    }
}

/// One input with one output counts as that, unless it failed: then it counts as nothing.
pub proof fn lemma_call_on_one_input(
    reports: &Vec<ImageReport>,
    format: ImageFormat,
    t: Totals,
    bytes: u64,
)
    requires
        reports@.len() == 1,
        reports@[0].outputs@.len() == 1,
        call_ensures(totals, (reports, format), t),
        call_ensures(input_total, (reports,), bytes),
    ensures
        ({
            let r = reports@[0];
            let f = r.outputs@[0];
            if r.failed {
                bytes == 0 && t.files == 0 && t.bytes == 0 && t.largest == 0 && t.over_cap == 0
            } else if f.format != format {
                bytes == r.input_bytes && t.files == 0 && t.bytes == 0
            } else {
                &&& bytes == r.input_bytes
                &&& t.files == 1 && t.bytes == f.bytes && t.largest == f.bytes
                &&& t.over_cap == (if f.within_budget {
                    0u64
                } else {
                    1
                })
            }
        }),
{
    let r = reports@[0];
    let f = r.outputs@[0];
    let all = written(reports@, format);
    assert(reports@ =~= seq![r]);
    if f.format == format {
        lemma_one_input(r, format);
        if !r.failed {
            let i = choose|i: int| 0 <= i < all.len() && (#[trigger] all[i]).bytes == t.largest;
            assert(all[i] == f);
        }
    } else {
        let one = seq![r];
        assert(one.drop_last() =~= Seq::empty());
        assert(r.outputs@.drop_last() =~= Seq::empty());
        assert(written(one.drop_last(), format) =~= Seq::empty());
        assert(of_format(r.outputs@.drop_last(), format) =~= Seq::empty());
        assert(of_format(r.outputs@, format) =~= Seq::empty());
        assert(written(one, format) =~= Seq::empty());
        assert(input_sum(one.drop_last()) == 0);
    }
    if r.failed {
        let one = seq![r];
        assert(one.drop_last() =~= Seq::empty());
        assert(written(one.drop_last(), format) =~= Seq::empty());
        assert(written(one, format) =~= Seq::empty());
        assert(input_sum(one.drop_last()) == 0);
    }
}

} // verus!
