//! Benchmark corpora: where the images are, how they are known, and which of them are taken.

use sha2::Digest;
use vstd::prelude::*;

use crate::scan;
use crate::text;

verus! {

/// Where the images of a corpus are.
#[derive(Debug, PartialEq, Eq)]
pub enum CorpusDir {
    Path(String),
    /// A path below the home directory.
    InHome(String),
}

/// A corpus as it is asked for: `NAME=DIR` or `NAME=DIR@N`.
#[derive(Debug, PartialEq, Eq)]
pub struct CorpusArg {
    pub name: String,
    pub dir: CorpusDir,
    pub sample: Option<usize>,
}

/// The position of the first occurrence of a character, or the length where there is none.
pub open spec fn first_of(s: Seq<char>, c: char) -> int
    decreases s.len(),
{
    if s.len() == 0 || s[0] == c {
        0
    } else {
        1 + first_of(s.skip(1), c)
    }
}

/// The position of the last occurrence of a character, or -1 where there is none.
pub open spec fn last_of(s: Seq<char>, c: char) -> int
    decreases s.len(),
{
    if s.len() == 0 {
        -1
    } else if s.last() == c {
        s.len() - 1
    } else {
        last_of(s.drop_last(), c)
    }
}

/// What a corpus argument says, in characters.
pub struct CorpusView {
    pub name: Seq<char>,
    pub in_home: bool,
    pub dir: Seq<char>,
    pub sample: Option<usize>,
}

/// A directory with or without the home directory in front.
pub open spec fn with_dir(name: Seq<char>, dir: Seq<char>, sample: Option<usize>) -> CorpusView {
    if scan::starts(dir, "~/"@) {
        CorpusView { name, in_home: true, dir: dir.skip(2), sample }
    } else {
        CorpusView { name, in_home: false, dir, sample }
    }
}

/// What a text says about a corpus: the name up to the first `=`, then the directory up to the
/// last `@`, then the size of the sample.
pub open spec fn corpus_spec(s: Seq<char>) -> Result<CorpusView, Seq<char>> {
    let eq = first_of(s, '=');
    if eq == s.len() {
        Err("expected NAME=DIR[@SAMPLE]"@)
    } else {
        let name = s.take(eq);
        let rest = s.skip(eq + 1);
        let at = last_of(rest, '@');
        if at < 0 {
            Ok(with_dir(name, rest, None))
        } else {
            match scan::number(rest.skip(at + 1)) {
                Ok(n) => Ok(with_dir(name, rest.take(at), Some(n))),
                Err(e) => Err(e.message_spec()),
            }
        }
    }
}

impl View for CorpusArg {
    type V = CorpusView;

    open spec fn view(&self) -> CorpusView {
        CorpusView {
            name: self.name@,
            in_home: self.dir is InHome,
            dir: match self.dir {
                CorpusDir::Path(p) => p@,
                CorpusDir::InHome(p) => p@,
            },
            sample: self.sample,
        }
    }
}

fn find_first(s: &[char], c: char) -> (r: usize)
    ensures
        r == first_of(s@, c),
        r <= s@.len(),
{
    let mut i: usize = 0;
    proof {
        assert(s@.skip(0) =~= s@);
    }
    while i < s.len() && s[i] != c
        invariant
            i <= s@.len(),
            first_of(s@, c) == i + first_of(s@.skip(i as int), c),
        decreases s@.len() - i,
    {
        proof {
            assert(s@.skip(i as int).skip(1) =~= s@.skip(i + 1));
        }
        i = i + 1;
    }
    i
}

fn find_last(s: &[char], c: char) -> (r: Option<usize>)
    ensures
        (match r {
            Some(i) => i == last_of(s@, c) && i < s@.len(),
            None => last_of(s@, c) < 0,
        }),
{
    let mut i: usize = s.len();
    proof {
        assert(s@.take(i as int) =~= s@);
    }
    while i > 0
        invariant
            i <= s@.len(),
            last_of(s@, c) == last_of(s@.take(i as int), c),
        decreases i,
    {
        if s[i - 1] == c {
            return Some(i - 1);
        }
        proof {
            assert(s@.take(i as int).drop_last() =~= s@.take(i - 1));
        }
        i = i - 1;
    }
    None
}

/// Reads a corpus argument.
pub fn parse_corpus(s: &str) -> (r: Result<CorpusArg, String>)
    ensures
        (match r {
            Ok(c) => corpus_spec(s@) == Ok::<CorpusView, Seq<char>>(c@),
            Err(message) => corpus_spec(s@) == Err::<CorpusView, Seq<char>>(message@),
        }),
{
    let all: Vec<char> = text::chars_of(s);
    let eq: usize = find_first(all.as_slice(), '=');
    if eq == all.len() {
        return Err("expected NAME=DIR[@SAMPLE]".to_string());
    }
    let name: Vec<char> = scan::part(all.as_slice(), 0, eq);
    let rest: Vec<char> = scan::part(all.as_slice(), eq + 1, all.len());
    proof {
        assert(name@ =~= s@.take(eq as int));
        assert(rest@ =~= s@.skip(eq + 1));
    }
    let mut dir: Vec<char> = scan::part(rest.as_slice(), 0, rest.len());
    let mut sample: Option<usize> = None;
    proof {
        assert(dir@ =~= rest@);
    }
    match find_last(rest.as_slice(), '@') {
        Some(at) => {
            let n: Vec<char> = scan::part(rest.as_slice(), at + 1, rest.len());
            proof {
                assert(n@ =~= rest@.skip(at + 1));
            }
            match scan::parse_number(n.as_slice()) {
                Ok(k) => {
                    sample = Some(k);
                    dir = scan::part(rest.as_slice(), 0, at);
                    proof {
                        assert(dir@ =~= rest@.take(at as int));
                    }
                },
                Err(e) => {
                    return Err(e.message());
                },
            }
        },
        None => {},
    }
    let home: Vec<char> = text::chars_of("~/");
    let name: String = text::string_of(name.as_slice());
    proof {
        reveal_strlit("~/");
    }
    let dir: CorpusDir = if scan::found_at(dir.as_slice(), home.as_slice(), 0) {
        let below: Vec<char> = scan::part(dir.as_slice(), 2, dir.len());
        proof {
            assert(below@ =~= dir@.skip(2));
        }
        CorpusDir::InHome(text::string_of(below.as_slice()))
    } else {
        CorpusDir::Path(text::string_of(dir.as_slice()))
    };
    Ok(CorpusArg { name, dir, sample })
}

/// The SHA-256 digest of some bytes.
pub uninterp spec fn sha256_of(bytes: Seq<u8>) -> Seq<u8>;

/// [`sha2::Sha256::digest`], which has 32 bytes.
#[verifier::external_body]
fn sha256(bytes: &[u8]) -> (r: Vec<u8>)
    ensures
        r@ == sha256_of(bytes@),
        r@.len() == 32,
{
    sha2::Sha256::digest(bytes).to_vec()
}

/// A hexadecimal digit.
pub open spec fn hex_digit(n: u8) -> char {
    if n < 10 {
        (48 + n) as u8 as char
    } else {
        (87 + n) as u8 as char
    }
}

/// Bytes in hexadecimal, two digits each.
pub open spec fn hex(bytes: Seq<u8>) -> Seq<char> {
    Seq::new(
        2 * bytes.len(),
        |i: int|
            hex_digit(
                if i % 2 == 0 {
                    bytes[i / 2] / 16
                } else {
                    bytes[i / 2] % 16
                },
            ),
    )
}

fn to_hex(bytes: &Vec<u8>) -> (r: String)
    requires
        bytes@.len() <= 0xffff_ffff,
    ensures
        r@ == hex(bytes@),
{
    let mut out: Vec<char> = Vec::new();
    let mut i: usize = 0;
    while i < bytes.len()
        invariant
            i <= bytes@.len() <= 0xffff_ffff,
            out@ == hex(bytes@.take(i as int)),
        decreases bytes@.len() - i,
    {
        let b: u8 = bytes[i];
        let high: u8 = b / 16;
        let low: u8 = b % 16;
        out.push(
            if high < 10 {
                (48 + high) as char
            } else {
                (87 + high) as char
            },
        );
        out.push(
            if low < 10 {
                (48 + low) as char
            } else {
                (87 + low) as char
            },
        );
        proof {
            assert(out@ =~= hex(bytes@.take(i + 1)));
        }
        i = i + 1;
    }
    proof {
        assert(bytes@.take(i as int) =~= bytes@);
    }
    text::string_of(out.as_slice())
}

/// Which half of a corpus an image belongs to.
#[derive(Debug, Clone, Copy, PartialEq, Eq, Structural)]
pub enum Split {
    Test,
    Dev,
}

impl Split {
    pub fn name(self) -> (r: &'static str)
        ensures
            r@ == (match self {
                Split::Test => "test"@,
                Split::Dev => "dev"@,
            }),
    {
        match self {
            Split::Test => "test",
            Split::Dev => "dev",
        }
    }
}

/// The half for a digest: by its last byte, which is another one than those that order a corpus,
/// so that sampling does not bias it.
pub open spec fn split_of(digest: Seq<u8>) -> Split {
    if digest.last() % 2 == 0 {
        Split::Test
    } else {
        Split::Dev
    }
}

/// What identifies an image by its content.
#[derive(Debug, PartialEq, Eq)]
pub struct Fingerprint {
    pub id: String,
    pub sha256: String,
    /// Frozen from the content hash; never chosen after looking at results.
    pub split: Split,
}

/// The identity of a digest: its hexadecimal form, and the first sixteen digits of that.
pub fn identify(digest: &Vec<u8>) -> (r: Fingerprint)
    requires
        digest@.len() == 32,
    ensures
        r.sha256@ == hex(digest@),
        r.id@ == hex(digest@).take(16),
        r.split == split_of(digest@),
{
    let sha256: String = to_hex(digest);
    let chars: Vec<char> = text::chars_of(sha256.as_str());
    let front: Vec<char> = scan::part(chars.as_slice(), 0, 16);
    proof {
        assert(front@ =~= hex(digest@).take(16));
    }
    let id: String = text::string_of(front.as_slice());
    let split: Split = if digest[31] % 2 == 0 {
        Split::Test
    } else {
        Split::Dev
    };
    Fingerprint { id, sha256, split }
}

/// The identity of an image file.
pub fn fingerprint(bytes: &[u8]) -> (r: Fingerprint)
    ensures
        r.sha256@ == hex(sha256_of(bytes@)),
        r.id@ == hex(sha256_of(bytes@)).take(16),
        r.split == split_of(sha256_of(bytes@)),
{
    let digest: Vec<u8> = sha256(bytes);
    identify(&digest)
}

/// Whether positions stand in the order of their hashes, none of which occurs twice.
pub open spec fn in_hash_order(hashes: Seq<String>, order: Seq<usize>) -> bool {
    &&& forall|a: int| 0 <= a < order.len() ==> #[trigger] order[a] < hashes.len()
    &&& forall|a: int, b: int|
        0 <= a < b < order.len() ==> text::before(
            hashes[#[trigger] order[a] as int]@,
            hashes[#[trigger] order[b] as int]@,
        )
}

/// Whether every position is the first one with its hash.
pub open spec fn are_first(hashes: Seq<String>, order: Seq<usize>) -> bool {
    forall|a: int, j: int|
        0 <= a < order.len() && 0 <= j < order[a] ==> (#[trigger] hashes[j])@ != hashes[
        #[trigger] order[a] as int]@
}

/// Whether a hash is that of one of the positions.
pub open spec fn has_hash(hashes: Seq<String>, order: Seq<usize>, hash: Seq<char>) -> bool {
    exists|a: int| 0 <= a < order.len() && hashes[#[trigger] order[a] as int]@ == hash
}

/// The order of a corpus: by content hash, where the same content counts once, as its first
/// occurrence, and only a sample from the front is kept.
pub open spec fn arranged(hashes: Seq<String>, sample: Option<usize>, order: Seq<usize>) -> bool {
    &&& in_hash_order(hashes, order)
    &&& are_first(hashes, order)
    &&& sample is Some ==> order.len() <= sample->0
    &&& forall|j: int|
        0 <= j < hashes.len() && !has_hash(hashes, order, (#[trigger] hashes[j])@) ==> sample is Some
            && order.len() == sample->0 && comes_last(hashes, order, hashes[j]@)
}

/// Whether a hash comes after those of all positions.
pub open spec fn comes_last(hashes: Seq<String>, order: Seq<usize>, hash: Seq<char>) -> bool {
    forall|a: int|
        0 <= a < order.len() ==> text::before(hashes[#[trigger] order[a] as int]@, hash)
}

/// The first place whose hash does not come before another.
fn place_for(hashes: &Vec<String>, order: &Vec<usize>, hash: &str) -> (r: usize)
    requires
        in_hash_order(hashes@, order@),
    ensures
        r <= order@.len(),
        forall|a: int|
            0 <= a < r ==> text::before(hashes@[#[trigger] order@[a] as int]@, hash@),
        forall|a: int|
            r <= a < order@.len() ==> !text::before(
                hashes@[#[trigger] order@[a] as int]@,
                hash@,
            ),
{
    let mut lo: usize = 0;
    let mut hi: usize = order.len();
    while lo < hi
        invariant
            in_hash_order(hashes@, order@),
            lo <= hi <= order@.len(),
            forall|a: int|
                0 <= a < lo ==> text::before(hashes@[#[trigger] order@[a] as int]@, hash@),
            forall|a: int|
                hi <= a < order@.len() ==> !text::before(
                    hashes@[#[trigger] order@[a] as int]@,
                    hash@,
                ),
        decreases hi - lo,
    {
        let mid: usize = lo + (hi - lo) / 2;
        let here: &String = &hashes[order[mid]];
        if text::comes_before(here.as_str(), hash) {
            proof {
                assert forall|a: int| 0 <= a < mid + 1 implies text::before(
                    hashes@[#[trigger] order@[a] as int]@,
                    hash@,
                ) by {
                    if a < mid {
                        assert(text::before(
                            hashes@[order@[a] as int]@,
                            hashes@[order@[mid as int] as int]@,
                        ));
                        text::lemma_before_transitive(
                            hashes@[order@[a] as int]@,
                            hashes@[order@[mid as int] as int]@,
                            hash@,
                        );
                    }
                }
            }
            lo = mid + 1;
        } else {
            proof {
                assert forall|a: int| mid <= a < order@.len() implies !text::before(
                    hashes@[#[trigger] order@[a] as int]@,
                    hash@,
                ) by {
                    if a > mid {
                        assert(text::before(
                            hashes@[order@[mid as int] as int]@,
                            hashes@[order@[a] as int]@,
                        ));
                        if text::before(hashes@[order@[a] as int]@, hash@) {
                            text::lemma_before_transitive(
                                hashes@[order@[mid as int] as int]@,
                                hashes@[order@[a] as int]@,
                                hash@,
                            );
                        }
                    }
                }
            }
            hi = mid;
        }
    }
    lo
}

/// Deterministic, content-based order of a corpus; duplicates (same content) are dropped, and
/// of what is left only a sample is kept.
pub fn arrange(hashes: &Vec<String>, sample: Option<usize>) -> (r: Vec<usize>)
    ensures
        arranged(hashes@, sample, r@),
{
    let mut order: Vec<usize> = Vec::new();
    let mut i: usize = 0;
    while i < hashes.len()
        invariant
            i <= hashes@.len(),
            in_hash_order(hashes@, order@),
            are_first(hashes@, order@),
            forall|a: int| 0 <= a < order@.len() ==> #[trigger] order@[a] < i,
            forall|j: int|
                0 <= j < i ==> has_hash(hashes@, order@, (#[trigger] hashes@[j])@),
        decreases hashes@.len() - i,
    {
        let hash: &String = &hashes[i];
        let at: usize = place_for(hashes, &order, hash.as_str());
        let ghost before = order@;
        let known: bool = at < order.len() && text::same_text(
            hashes[order[at]].as_str(),
            hash.as_str(),
        );
        if known {
            proof {
                assert(hashes@[before[at as int] as int]@ == hash@);
                assert(has_hash(hashes@, before, hash@));
            }
        } else {
            proof {
                if at < before.len() {
                    text::lemma_before_total(hashes@[before[at as int] as int]@, hash@);
                }
                assert forall|a: int| 0 <= a < before.len() implies hashes@[
                #[trigger] before[a] as int]@ != hash@ by {
                    if a < at {
                        text::lemma_before_total(hashes@[before[a] as int]@, hash@);
                    } else if a > at {
                        assert(text::before(
                            hashes@[before[at as int] as int]@,
                            hashes@[before[a] as int]@,
                        ));
                        text::lemma_before_transitive(
                            hash@,
                            hashes@[before[at as int] as int]@,
                            hashes@[before[a] as int]@,
                        );
                        text::lemma_before_total(hash@, hashes@[before[a] as int]@);
                    }
                }
            }
            order.insert(at, i);
            proof {
                lemma_placed(hashes@, before, at as int, i);
            }
        }
        i = i + 1;
    }
    if let Some(n) = sample {
        if n < order.len() {
            let ghost all = order@;
            order.truncate(n);
            proof {
                lemma_truncated(hashes@, all, n);
            }
        }
    }
    order
}

/// What one more position does to an order.
proof fn lemma_placed(hashes: Seq<String>, before: Seq<usize>, at: int, i: usize)
    requires
        in_hash_order(hashes, before),
        are_first(hashes, before),
        i < hashes.len(),
        0 <= at <= before.len(),
        forall|a: int| 0 <= a < before.len() ==> #[trigger] before[a] < i,
        forall|a: int|
            0 <= a < at ==> text::before(hashes[#[trigger] before[a] as int]@, hashes[i as int]@),
        at < before.len() ==> text::before(hashes[i as int]@, hashes[before[at] as int]@),
        forall|a: int|
            0 <= a < before.len() ==> hashes[#[trigger] before[a] as int]@ != hashes[i as int]@,
        forall|j: int| 0 <= j < i ==> has_hash(hashes, before, (#[trigger] hashes[j])@),
    ensures
        in_hash_order(hashes, before.insert(at, i)),
        are_first(hashes, before.insert(at, i)),
        forall|a: int|
            0 <= a < before.insert(at, i).len() ==> #[trigger] before.insert(at, i)[a] < i + 1,
        forall|j: int|
            0 <= j < i + 1 ==> has_hash(hashes, before.insert(at, i), (#[trigger] hashes[j])@),
{
    let after = before.insert(at, i);
    let new = hashes[i as int]@;
    assert forall|a: int, b: int| 0 <= a < b < after.len() implies text::before(
        hashes[#[trigger] after[a] as int]@,
        hashes[#[trigger] after[b] as int]@,
    ) by {
        let x = if a < at {
            a
        } else {
            a - 1
        };
        let y = if b < at {
            b
        } else {
            b - 1
        };
        if a == at {
            if y > at {
                assert(text::before(hashes[before[at] as int]@, hashes[before[y] as int]@));
                text::lemma_before_transitive(
                    new,
                    hashes[before[at] as int]@,
                    hashes[before[y] as int]@,
                );
            }
        } else if b == at {
            assert(text::before(hashes[before[x] as int]@, new));
        } else {
            assert(text::before(hashes[before[x] as int]@, hashes[before[y] as int]@));
        }
    }
    assert forall|a: int, j: int| 0 <= a < after.len() && 0 <= j < after[a] implies (
    #[trigger] hashes[j])@ != hashes[#[trigger] after[a] as int]@ by {
        if a == at {
            assert(has_hash(hashes, before, hashes[j]@));
            let k = choose|k: int|
                0 <= k < before.len() && hashes[#[trigger] before[k] as int]@ == hashes[j]@;
            assert(hashes[before[k] as int]@ != new);
        } else {
            let x = if a < at {
                a
            } else {
                a - 1
            };
            assert(after[a] == before[x]);
        }
    }
    assert forall|j: int| 0 <= j < i + 1 implies has_hash(
        hashes,
        after,
        (#[trigger] hashes[j])@,
    ) by {
        if j == i {
            assert(after[at] == i);
        } else {
            let k = choose|k: int|
                0 <= k < before.len() && hashes[#[trigger] before[k] as int]@ == hashes[j]@;
            let x = if k < at {
                k
            } else {
                k + 1
            };
            assert(after[x] == before[k]);
        }
    }
    assert forall|a: int| 0 <= a < after.len() implies #[trigger] after[a] < i + 1 by {
        let x = if a < at {
            a
        } else {
            a - 1
        };
        if a != at {
            assert(after[a] == before[x]);
        }
    }
}

/// What cutting an order short leaves.
proof fn lemma_truncated(hashes: Seq<String>, all: Seq<usize>, n: usize)
    requires
        in_hash_order(hashes, all),
        are_first(hashes, all),
        n < all.len(),
        forall|j: int| 0 <= j < hashes.len() ==> has_hash(hashes, all, (#[trigger] hashes[j])@),
    ensures
        arranged(hashes, Some(n), all.take(n as int)),
{
    let kept = all.take(n as int);
    assert forall|a: int| 0 <= a < kept.len() implies #[trigger] kept[a] == all[a] by {}
    assert forall|j: int|
        0 <= j < hashes.len() && !has_hash(
            hashes,
            kept,
            (#[trigger] hashes[j])@,
        ) implies comes_last(hashes, kept, hashes[j]@) by {
        let k = choose|k: int|
            0 <= k < all.len() && hashes[#[trigger] all[k] as int]@ == hashes[j]@;
        if k < n {
            assert(kept[k] == all[k]);
        }
        assert forall|a: int| 0 <= a < kept.len() implies text::before(
            hashes[#[trigger] kept[a] as int]@,
            hashes[j]@,
        ) by {
            assert(text::before(hashes[all[a] as int]@, hashes[all[k] as int]@));
        }
    }
}

/// The hash at a place of an order.
pub open spec fn hash_at(hashes: Seq<String>, order: Seq<usize>, a: int) -> Seq<char> {
    hashes[order[a] as int]@
}

/// Whether every hash of a list occurs in another.
pub open spec fn covers(g: Seq<String>, h: Seq<String>) -> bool {
    forall|i: int| 0 <= i < g.len() ==> occurs_in(h, (#[trigger] g[i])@)
}

/// Whether a hash occurs in a list.
pub open spec fn occurs_in(h: Seq<String>, hash: Seq<char>) -> bool {
    exists|j: int| 0 <= j < h.len() && (#[trigger] h[j])@ == hash
}

/// Whether two lists have the same hashes, in whatever order and however often.
pub open spec fn same_hashes(g: Seq<String>, h: Seq<String>) -> bool {
    covers(g, h) && covers(h, g)
}

proof fn lemma_same_up_to(
    g: Seq<String>,
    h: Seq<String>,
    sample: Option<usize>,
    x: Seq<usize>,
    y: Seq<usize>,
    n: int,
)
    requires
        same_hashes(g, h),
        arranged(g, sample, x),
        arranged(h, sample, y),
        0 <= n <= x.len(),
    ensures
        n <= y.len(),
        forall|a: int| 0 <= a < n ==> #[trigger] hash_at(g, x, a) == hash_at(h, y, a),
    decreases n,
{
    if n > 0 {
        let a = n - 1;
        lemma_same_up_to(g, h, sample, x, y, a);
        let p = hash_at(g, x, a);
        assert(occurs_in(h, g[x[a] as int]@));
        let j = choose|j: int| 0 <= j < h.len() && (#[trigger] h[j])@ == g[x[a] as int]@;
        assert(h[j]@ == p);
        if has_hash(h, y, p) {
            let c = choose|c: int| 0 <= c < y.len() && h[#[trigger] y[c] as int]@ == p;
            if c < a {
                assert(hash_at(g, x, c) == hash_at(h, y, c));
                assert(text::before(g[x[c] as int]@, g[x[a] as int]@));
                text::lemma_before_total(p, p);
            } else if c > a {
                assert(text::before(h[y[a] as int]@, h[y[c] as int]@));
                lemma_no_earlier(g, h, sample, x, y, a);
            }
        } else {
            assert(comes_last(h, y, h[j]@));
            assert(text::before(h[y[a] as int]@, p));
            lemma_no_earlier(g, h, sample, x, y, a);
        }
    }
}

/// What stands at a place of one order cannot come before what stands there in the other, if
/// they agree up to there.
proof fn lemma_no_earlier(
    g: Seq<String>,
    h: Seq<String>,
    sample: Option<usize>,
    x: Seq<usize>,
    y: Seq<usize>,
    a: int,
)
    requires
        same_hashes(g, h),
        arranged(g, sample, x),
        arranged(h, sample, y),
        0 <= a < x.len(),
        a < y.len(),
        forall|b: int| 0 <= b < a ==> #[trigger] hash_at(g, x, b) == hash_at(h, y, b),
    ensures
        !text::before(h[y[a] as int]@, g[x[a] as int]@),
{
    let p = g[x[a] as int]@;
    let q = h[y[a] as int]@;
    assert(occurs_in(g, h[y[a] as int]@));
    let i = choose|i: int| 0 <= i < g.len() && (#[trigger] g[i])@ == h[y[a] as int]@;
    assert(g[i]@ == q);
    text::lemma_before_total(q, p);
    text::lemma_before_total(q, q);
    if has_hash(g, x, q) {
        let c = choose|c: int| 0 <= c < x.len() && g[#[trigger] x[c] as int]@ == q;
        if c > a {
            assert(text::before(g[x[a] as int]@, g[x[c] as int]@));
        } else if c < a {
            assert(hash_at(g, x, c) == hash_at(h, y, c));
            assert(text::before(h[y[c] as int]@, h[y[a] as int]@));
        }
    } else {
        assert(comes_last(g, x, g[i]@));
        assert(text::before(g[x[a] as int]@, q));
    }
}

/// A sample depends on content alone: files in another order, or with other duplicates, give
/// the same hashes in the same order.
pub proof fn lemma_sample_is_deterministic(
    g: Seq<String>,
    h: Seq<String>,
    sample: Option<usize>,
    x: Seq<usize>,
    y: Seq<usize>,
)
    requires
        same_hashes(g, h),
        arranged(g, sample, x),
        arranged(h, sample, y),
    ensures
        x.len() == y.len(),
        forall|a: int| 0 <= a < x.len() ==> #[trigger] hash_at(g, x, a) == hash_at(h, y, a),
{
    lemma_same_up_to(g, h, sample, x, y, x.len() as int);
    lemma_same_up_to(h, g, sample, y, x, y.len() as int);
}

/// A digest is written with two hexadecimal digits for each byte, so that it can be read back: the
/// digits 0 to 9 and a to f stand for their values.
pub proof fn lemma_hexadecimal_is_read_back(bytes: Seq<u8>, i: int)
    requires
        0 <= i < bytes.len(),
    ensures
        hex(bytes).len() == 2 * bytes.len(),
        ({
            let (h, l) = (hex(bytes)[2 * i], hex(bytes)[2 * i + 1]);
            &&& '0' <= h <= '9' || 'a' <= h <= 'f'
            &&& '0' <= l <= '9' || 'a' <= l <= 'f'
            &&& bytes[i] == 16 * (if h <= '9' {
                h as u32 - 48
            } else {
                h as u32 - 87
            }) + (if l <= '9' {
                l as u32 - 48
            } else {
                l as u32 - 87
            })
        }),
{
    assert((2 * i) / 2 == i && (2 * i) % 2 == 0);
    assert((2 * i + 1) / 2 == i && (2 * i + 1) % 2 == 1);
    let b = bytes[i];
    assert(b / 16 < 16 && b % 16 < 16 && b == 16 * (b / 16) + b % 16);
}

/// A corpus argument falls apart at its first `=` and at the last `@` behind it: the name has no
/// `=`, and what stands behind the `@` is the size of the sample. A directory below home loses its
/// mark.
pub proof fn lemma_corpus_is_read(name: Seq<char>, dir: Seq<char>, sample: Seq<char>)
    requires
        forall|i: int| 0 <= i < name.len() ==> #[trigger] name[i] != '=',
        sample.len() > 0,
        forall|i: int| 0 <= i < sample.len() ==> '0' <= #[trigger] sample[i] <= '9',
        text::numeral_value(sample) <= usize::MAX,
    ensures
        ({
            let n = Some(text::numeral_value(sample) as usize);
            let at_home = dir.len() >= 2 && dir[0] == '~' && dir[1] == '/';
            let named = if at_home {
                dir.skip(2)
            } else {
                dir
            };
            &&& corpus_spec(name + seq!['='] + dir + seq!['@'] + sample) == Ok::<
                CorpusView,
                Seq<char>,
            >(CorpusView { name, in_home: at_home, dir: named, sample: n })
            &&& (forall|i: int| 0 <= i < dir.len() ==> #[trigger] dir[i] != '@') ==> corpus_spec(
                name + seq!['='] + dir,
            ) == Ok::<CorpusView, Seq<char>>(
                CorpusView { name, in_home: at_home, dir: named, sample: None },
            )
        }),
{
    reveal_strlit("~/");
    let mark = "~/"@;
    assert(mark =~= seq!['~', '/']);
    let at_home = dir.len() >= 2 && dir[0] == '~' && dir[1] == '/';
    assert(scan::starts(dir, mark) <==> at_home) by {
        if at_home {
            assert(dir.subrange(0, 2) =~= mark);
        }
        if scan::starts(dir, mark) {
            assert(dir.subrange(0, 2)[0] == '~' && dir.subrange(0, 2)[1] == '/');
        }
    }
    let s = name + seq!['='] + dir + seq!['@'] + sample;
    lemma_first_place(s, '=', name.len() as int);
    let rest = s.skip(name.len() as int + 1);
    assert(s.take(name.len() as int) =~= name);
    assert(rest =~= dir + seq!['@'] + sample);
    assert forall|i: int| dir.len() < i < rest.len() implies #[trigger] rest[i] != '@' by {
        assert(rest[i] == sample[i - dir.len() - 1]);
        assert('0' <= sample[i - dir.len() - 1] <= '9');
    }
    lemma_last_place(rest, '@', dir.len() as int);
    assert(rest.take(dir.len() as int) =~= dir);
    assert(rest.skip(dir.len() as int + 1) =~= sample);
    scan::lemma_numerals_are_read(sample);
    if forall|i: int| 0 <= i < dir.len() ==> #[trigger] dir[i] != '@' {
        let t = name + seq!['='] + dir;
        lemma_first_place(t, '=', name.len() as int);
        assert(t.take(name.len() as int) =~= name);
        assert(t.skip(name.len() as int + 1) =~= dir);
        lemma_last_place(dir, '@', -1);
    }
}

/// Without an equals sign there is no corpus.
pub proof fn lemma_corpus_needs_a_name(s: Seq<char>)
    requires
        forall|i: int| 0 <= i < s.len() ==> #[trigger] s[i] != '=',
    ensures
        corpus_spec(s) is Err,
{
    lemma_first_place(s, '=', s.len() as int);
}

proof fn lemma_first_place(s: Seq<char>, c: char, i: int)
    requires
        0 <= i <= s.len(),
        forall|j: int| 0 <= j < i ==> #[trigger] s[j] != c,
        i == s.len() || s[i] == c,
    ensures
        first_of(s, c) == i,
    decreases s.len(),
{
    if i > 0 {
        assert(s[0] != c);
        assert forall|j: int| 0 <= j < i - 1 implies #[trigger] s.skip(1)[j] != c by {
            assert(s[j + 1] != c);
        }
        lemma_first_place(s.skip(1), c, i - 1);
    }
}

proof fn lemma_last_place(s: Seq<char>, c: char, i: int)
    requires
        -1 <= i < s.len(),
        forall|j: int| i < j < s.len() ==> #[trigger] s[j] != c,
        i == -1 || s[i] == c,
    ensures
        last_of(s, c) == i,
    decreases s.len(),
{
    if s.len() > 0 && i < s.len() - 1 {
        assert(s[s.len() - 1] != c);
        let front = s.drop_last();
        assert forall|j: int| i < j < front.len() implies #[trigger] front[j] != c by {
            assert(s[j] != c);
        }
        lemma_last_place(front, c, i);
    }
}

/// The half of a corpus is that of the parity of the last byte of the digest, whatever the others
/// are.
pub proof fn lemma_half_goes_by_the_last_byte(digest: Seq<u8>)
    requires
        digest.len() > 0,
    ensures
        split_of(digest) is Test <==> digest[digest.len() - 1] % 2 == 0,
{
}

/// A corpus argument is read as what it states.
pub proof fn lemma_calls_read_corpora(s: &str, r: Result<CorpusArg, String>)
    requires
        call_ensures(parse_corpus, (s,), r),
    ensures
        r is Ok <==> corpus_spec(s@) is Ok,
        r matches Ok(c) ==> {
            let v = corpus_spec(s@)->Ok_0;
            &&& c.name@ == v.name && c.sample == v.sample
            &&& (match c.dir {
                CorpusDir::Path(p) => !v.in_home && p@ == v.dir,
                CorpusDir::InHome(p) => v.in_home && p@ == v.dir,
            })
        },
{
}

/// An arrangement holds positions of the list in ascending order of their hashes, each hash once and
/// as its first occurrence. Nothing is left out but by a sample, and then nothing that would come
/// before something taken.
pub proof fn lemma_calls_arrange(hashes: &Vec<String>, sample: Option<usize>, r: Vec<usize>, j: int)
    requires
        call_ensures(arrange, (hashes, sample), r),
        0 <= j < hashes@.len(),
    ensures
        forall|a: int| 0 <= a < r@.len() ==> #[trigger] r@[a] < hashes@.len(),
        forall|a: int, b: int|
            0 <= a < b < r@.len() ==> text::before(
                hashes@[#[trigger] r@[a] as int]@,
                hashes@[#[trigger] r@[b] as int]@,
            ),
        forall|a: int|
            0 <= a < r@.len() && hashes@[#[trigger] r@[a] as int]@ == hashes@[j]@ ==> r@[a] <= j,
        (exists|a: int| 0 <= a < r@.len() && hashes@[#[trigger] r@[a] as int]@ == hashes@[j]@) || (
        sample matches Some(n) && r@.len() == n && forall|a: int|
            0 <= a < r@.len() ==> text::before(
                hashes@[#[trigger] r@[a] as int]@,
                hashes@[j]@,
            )),
        sample matches Some(n) ==> r@.len() <= n,
{
    let order = r@;
    assert(arranged(hashes@, sample, order));
    assert forall|a: int| 0 <= a < order.len() && hashes@[#[trigger] order[a] as int]@
        == hashes@[j]@ implies order[a] <= j by {
        if j < order[a] {
            assert(hashes@[j]@ != hashes@[order[a] as int]@);
        }
    }
    if !has_hash(hashes@, order, hashes@[j]@) {
        assert(comes_last(hashes@, order, hashes@[j]@));
    }
}

/// An image is known by the digest of its bytes: the hexadecimal form, its first sixteen digits, and
/// the parity of the last byte.
pub proof fn lemma_calls_identify(bytes: &[u8], r: Fingerprint)
    requires
        call_ensures(fingerprint, (bytes,), r),
        sha256_of(bytes@).len() == 32,
    ensures
        r.sha256@.len() == 64,
        r.id@ == r.sha256@.take(16),
        r.sha256@ == hex(sha256_of(bytes@)),
        r.split is Test <==> sha256_of(bytes@)[31] % 2 == 0,
{
}

} // verus!
