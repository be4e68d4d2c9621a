//! Named text values in the order of their names.

use vstd::prelude::*;

use crate::text;

verus! {

/// Native encoder settings recorded for reports, e.g. `{"quality": "72", "chroma": "420"}`.
#[derive(Debug, PartialEq, Eq)]
pub struct EncoderParameters {
    entries: Vec<(String, String)>,
}

/// Whether the names ascend, so that none occurs twice.
spec fn ascending(entries: Seq<(String, String)>) -> bool {
    forall|i: int, j: int|
        0 <= i < j < entries.len() ==> text::before(
            #[trigger] entries[i].0@,
            #[trigger] entries[j].0@,
        )
}

/// Whether an entry with this name stands at a position.
spec fn stands_at(entries: Seq<(String, String)>, name: Seq<char>, i: int) -> bool {
    0 <= i < entries.len() && entries[i].0@ == name
}

/// The values by name.
spec fn values_by_name(entries: Seq<(String, String)>) -> Map<Seq<char>, Seq<char>> {
    Map::new(
        |name: Seq<char>| exists|i: int| stands_at(entries, name, i),
        |name: Seq<char>| entries[choose|i: int| stands_at(entries, name, i)].1@,
    )
}

impl View for EncoderParameters {
    type V = Map<Seq<char>, Seq<char>>;

    closed spec fn view(&self) -> Map<Seq<char>, Seq<char>> {
        values_by_name(self.entries@)
    }
}

proof fn lemma_position_unique(entries: Seq<(String, String)>, name: Seq<char>, i: int, j: int)
    requires
        ascending(entries),
        stands_at(entries, name, i),
        stands_at(entries, name, j),
    ensures
        i == j,
{
    text::lemma_before_total(name, name);
    if i < j {
        assert(text::before(entries[i].0@, entries[j].0@));
    }
    if j < i {
        assert(text::before(entries[j].0@, entries[i].0@));
    }
}

proof fn lemma_value_at(entries: Seq<(String, String)>, i: int)
    requires
        ascending(entries),
        0 <= i < entries.len(),
    ensures
        values_by_name(entries).contains_key(entries[i].0@),
        values_by_name(entries)[entries[i].0@] == entries[i].1@,
{
    let name = entries[i].0@;
    assert(stands_at(entries, name, i));
    let j = choose|j: int| stands_at(entries, name, j);
    lemma_position_unique(entries, name, i, j);
}

/// There are as many names as entries.
proof fn lemma_as_many_names(entries: Seq<(String, String)>)
    requires
        ascending(entries),
    ensures
        values_by_name(entries).dom().finite(),
        values_by_name(entries).dom().len() == entries.len(),
    decreases entries.len(),
{
    let names = values_by_name(entries).dom();
    if entries.len() == 0 {
        assert(names =~= Set::<Seq<char>>::empty());
    } else {
        let rest = entries.drop_last();
        let earlier = values_by_name(rest).dom();
        let last = entries.last().0@;
        assert forall|i: int, j: int| 0 <= i < j < rest.len() implies text::before(
            #[trigger] rest[i].0@,
            #[trigger] rest[j].0@,
        ) by {
            assert(text::before(entries[i].0@, entries[j].0@));
        }
        lemma_as_many_names(rest);
        assert(!earlier.contains(last)) by {
            if earlier.contains(last) {
                let i = choose|i: int| stands_at(rest, last, i);
                assert(stands_at(entries, last, i));
                assert(stands_at(entries, last, entries.len() - 1));
                lemma_position_unique(entries, last, i, entries.len() - 1);
            }
        }
        assert forall|name: Seq<char>| names.contains(name) <==> earlier.insert(last).contains(
            name,
        ) by {
            if names.contains(name) {
                let i = choose|i: int| stands_at(entries, name, i);
                if i < rest.len() {
                    assert(stands_at(rest, name, i));
                }
            }
            if earlier.contains(name) {
                let i = choose|i: int| stands_at(rest, name, i);
                assert(stands_at(entries, name, i));
            }
            assert(stands_at(entries, last, entries.len() - 1));
        }
        assert(names =~= earlier.insert(last));
    }
}

/// What an insertion or a replacement at the right place does to the values.
proof fn lemma_entry_added(
    old_entries: Seq<(String, String)>,
    new_entries: Seq<(String, String)>,
    name: Seq<char>,
    value: Seq<char>,
    at: int,
)
    requires
        ascending(old_entries),
        ascending(new_entries),
        0 <= at < new_entries.len(),
        new_entries[at].0@ == name,
        new_entries[at].1@ == value,
        forall|e: (String, String)|
            e.0@ != name ==> (#[trigger] old_entries.contains(e) <==> new_entries.contains(e)),
    ensures
        values_by_name(new_entries) =~= values_by_name(old_entries).insert(name, value),
{
    let a = values_by_name(new_entries);
    let b = values_by_name(old_entries).insert(name, value);
    lemma_value_at(new_entries, at);
    assert forall|k: Seq<char>| #[trigger] a.dom().contains(k) implies b.dom().contains(k) && a[k] == b[k] by {
        let j = choose|j: int| stands_at(new_entries, k, j);
        lemma_value_at(new_entries, j);
        if k != name {
            let e = new_entries[j];
            assert(new_entries.contains(e));
            assert(old_entries.contains(e));
            let i = choose|i: int| 0 <= i < old_entries.len() && old_entries[i] == e;
            lemma_value_at(old_entries, i);
        }
    }
    assert forall|k: Seq<char>| #[trigger] b.dom().contains(k) implies a.dom().contains(k) by {
        if k != name {
            let i = choose|i: int| stands_at(old_entries, k, i);
            let e = old_entries[i];
            assert(old_entries.contains(e));
            assert(new_entries.contains(e));
            let j = choose|j: int| 0 <= j < new_entries.len() && new_entries[j] == e;
            lemma_value_at(new_entries, j);
        }
    }
    assert(a =~= b);
}

/// Replacing the value of a name.
proof fn lemma_replaced(entries: Seq<(String, String)>, at: int, kept: (String, String))
    requires
        ascending(entries),
        0 <= at < entries.len(),
        entries[at].0@ == kept.0@,
    ensures
        ascending(entries.update(at, kept)),
        values_by_name(entries.update(at, kept)) == values_by_name(entries).insert(
            kept.0@,
            kept.1@,
        ),
{
    let after = entries.update(at, kept);
    assert forall|i: int, j: int| 0 <= i < j < after.len() implies text::before(
        #[trigger] after[i].0@,
        #[trigger] after[j].0@,
    ) by {
        assert(text::before(entries[i].0@, entries[j].0@));
    }
    assert forall|e: (String, String)| e.0@ != kept.0@ implies (#[trigger] entries.contains(e)
        <==> after.contains(e)) by {
        if entries.contains(e) {
            let i = choose|i: int| 0 <= i < entries.len() && entries[i] == e;
            assert(after[i] == e);
        }
        if after.contains(e) {
            let i = choose|i: int| 0 <= i < after.len() && after[i] == e;
            assert(entries[i] == e);
        }
    }
    lemma_entry_added(entries, after, kept.0@, kept.1@, at);
}

/// Putting a new name where it belongs.
proof fn lemma_inserted(entries: Seq<(String, String)>, at: int, kept: (String, String))
    requires
        ascending(entries),
        0 <= at <= entries.len(),
        forall|i: int| 0 <= i < at ==> text::before(#[trigger] entries[i].0@, kept.0@),
        at < entries.len() ==> text::before(kept.0@, entries[at].0@),
    ensures
        ascending(entries.insert(at, kept)),
        values_by_name(entries.insert(at, kept)) == values_by_name(entries).insert(
            kept.0@,
            kept.1@,
        ),
{
    let after = entries.insert(at, kept);
    assert forall|i: int, j: int| 0 <= i < j < after.len() implies text::before(
        #[trigger] after[i].0@,
        #[trigger] after[j].0@,
    ) by {
        let a = if i < at { i } else { i - 1 };
        let b = if j < at { j } else { j - 1 };
        if i == at {
            if b > at {
                assert(text::before(entries[at].0@, entries[b].0@));
                text::lemma_before_transitive(kept.0@, entries[at].0@, entries[b].0@);
            }
        } else if j == at {
            assert(text::before(entries[a].0@, kept.0@));
        } else {
            assert(text::before(entries[a].0@, entries[b].0@));
        }
    }
    assert forall|e: (String, String)| e.0@ != kept.0@ implies (#[trigger] entries.contains(e)
        <==> after.contains(e)) by {
        if entries.contains(e) {
            let i = choose|i: int| 0 <= i < entries.len() && entries[i] == e;
            assert(after[if i < at { i } else { i + 1 }] == e);
        }
        if after.contains(e) {
            let i = choose|i: int| 0 <= i < after.len() && after[i] == e;
            assert(entries[if i < at { i } else { i - 1 }] == e);
        }
    }
    lemma_entry_added(entries, after, kept.0@, kept.1@, at);
}

impl EncoderParameters {
    #[verifier::type_invariant]
    closed spec fn in_order(self) -> bool {
        ascending(self.entries@)
    }

    /// No parameters.
    pub fn new() -> (r: Self)
        ensures
            r@ == Map::<Seq<char>, Seq<char>>::empty(),
    {
        let r = EncoderParameters { entries: Vec::new() };
        proof {
            assert(r@ =~= Map::<Seq<char>, Seq<char>>::empty());
        }
        r
    }

    /// Sets a parameter, replacing an earlier value of the same name.
    pub fn insert(&mut self, name: String, value: String)
        ensures
            final(self)@ == old(self)@.insert(name@, value@),
    {
        proof {
            use_type_invariant(&*self);
        }
        let mut entries: Vec<(String, String)> = Vec::new();
        core::mem::swap(&mut entries, &mut self.entries);
        let ghost before_call = entries@;
        let mut at: usize = 0;
        while at < entries.len() && text::comes_before(entries[at].0.as_str(), name.as_str())
            invariant
                at <= entries@.len(),
                entries@ == before_call,
                ascending(entries@),
                forall|i: int| 0 <= i < at ==> text::before(#[trigger] entries@[i].0@, name@),
            decreases entries@.len() - at,
        {
            at = at + 1;
        }
        proof {
            if at < before_call.len() {
                text::lemma_before_total(before_call[at as int].0@, name@);
            }
        }
        if at < entries.len() && !text::comes_before(name.as_str(), entries[at].0.as_str()) {
            let ghost kept = (name, value);
            entries.remove(at);
            entries.insert(at, (name, value));
            proof {
                assert(entries@ =~= before_call.update(at as int, kept));
                lemma_replaced(before_call, at as int, kept);
            }
        } else {
            let ghost kept = (name, value);
            entries.insert(at, (name, value));
            proof {
                lemma_inserted(before_call, at as int, kept);
            }
        }
        self.entries = entries;
    }

    /// The value of a parameter.
    pub fn get(&self, name: &str) -> (r: Option<&str>)
        ensures
            (match r {
                Some(value) => self@.contains_key(name@) && value@ == self@[name@],
                None => !self@.contains_key(name@),
            }),
    {
        proof {
            use_type_invariant(self);
        }
        let mut i: usize = 0;
        while i < self.entries.len()
            invariant
                i <= self.entries@.len(),
                ascending(self.entries@),
                forall|j: int| 0 <= j < i ==> #[trigger] self.entries@[j].0@ != name@,
            decreases self.entries@.len() - i,
        {
            if text::same_text(self.entries[i].0.as_str(), name) {
                proof {
                    lemma_value_at(self.entries@, i as int);
                }
                return Some(self.entries[i].1.as_str());
            }
            i = i + 1;
        }
        proof {
            if self@.contains_key(name@) {
                let j = choose|j: int| stands_at(self.entries@, name@, j);
                assert(self.entries@[j].0@ == name@);
            }
        }
        None
    }

    /// The number of parameters.
    pub fn len(&self) -> (r: usize)
        ensures
            self@.dom().finite(),
            r == self@.dom().len(),
    {
        proof {
            use_type_invariant(self);
            lemma_as_many_names(self.entries@);
        }
        self.entries.len()
    }

    /// The parameters with their values, in the order of their names.
    pub fn to_vec(&self) -> (r: Vec<(String, String)>)
        ensures
            forall|i: int, j: int|
                0 <= i < j < r@.len() ==> text::before(#[trigger] r@[i].0@, #[trigger] r@[j].0@),
            forall|i: int|
                0 <= i < r@.len() ==> self@.contains_key(#[trigger] r@[i].0@) && self@[r@[i].0@]
                    == r@[i].1@,
            forall|name: Seq<char>|
                self@.contains_key(name) ==> exists|i: int| 0 <= i < r@.len() && r@[i].0@ == name,
    {
        proof {
            use_type_invariant(self);
        }
        let out = copy_entries(&self.entries);
        proof {
            assert forall|i: int| 0 <= i < out@.len() implies self@.contains_key(
                #[trigger] out@[i].0@,
            ) && self@[out@[i].0@] == out@[i].1@ by {
                lemma_value_at(self.entries@, i);
            }
            assert forall|name: Seq<char>| self@.contains_key(name) implies exists|i: int|
                0 <= i < out@.len() && out@[i].0@ == name by {
                let i = choose|i: int| stands_at(self.entries@, name, i);
                assert(out@[i].0@ == name);
            }
        }
        out
    }
}

fn copy_entries(entries: &Vec<(String, String)>) -> (r: Vec<(String, String)>)
    ensures
        r@ == entries@,
{
    let mut out: Vec<(String, String)> = Vec::new();
    let mut i: usize = 0;
    while i < entries.len()
        invariant
            i <= entries@.len(),
            out@ == entries@.take(i as int),
        decreases entries@.len() - i,
    {
        let name: String = entries[i].0.clone();
        let value: String = entries[i].1.clone();
        out.push((name, value));
        proof {
            assert(entries@.take(i + 1) =~= entries@.take(i as int).push(entries@[i as int]));
        }
        i = i + 1;
    }
    proof {
        assert(entries@.take(i as int) =~= entries@);
    }
    out
}

impl Clone for EncoderParameters {
    fn clone(&self) -> (r: Self)
        ensures
            r@ == self@,
    {
        proof {
            use_type_invariant(self);
        }
        EncoderParameters { entries: copy_entries(&self.entries) }
    }
}

} // verus!
