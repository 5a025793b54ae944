//! The canonical dictionary entry and its mathematical view.

use vstd::prelude::*;

verus! {

/// One dictionary entry: a written form (possibly empty), a phonetic
/// reading, the English glosses in insertion order, and a frequency rank
/// where lower means more common (999 stands for "unranked").
///
/// Entries are compared by full structural content: two entries are the
/// same exactly when written form, reading, glosses and rank all match.
#[derive(Clone, Debug, PartialEq)]
pub struct Entry {
    pub kanji: String,
    pub reading: String,
    pub meanings: Vec<String>,
    pub frequency: i32,
}

/// The mathematical content of an [`Entry`]: every string replaced by its
/// character sequence. Equality of views is exactly the structural
/// equality that deduplication is built on.
pub struct EntryView {
    pub kanji: Seq<char>,
    pub reading: Seq<char>,
    pub meanings: Seq<Seq<char>>,
    pub frequency: int,
}

impl View for Entry {
    type V = EntryView;

    open spec fn view(&self) -> EntryView {
        EntryView {
            kanji: self.kanji@,
            reading: self.reading@,
            meanings: self.meanings.deep_view(),
            frequency: self.frequency as int,
        }
    }
}

/// The views of a sequence of entries, in order.
pub open spec fn entry_views(s: Seq<Entry>) -> Seq<EntryView> {
    s.map_values(|e: Entry| e@)
}

/// Structural equality of two entries.
pub fn entry_eq(a: &Entry, b: &Entry) -> (r: bool)
    ensures
        r == (a@ == b@),
{
    if a.frequency != b.frequency {
        return false;
    }
    if !(a.kanji == b.kanji) {
        return false;
    }
    if !(a.reading == b.reading) {
        return false;
    }
    if a.meanings.len() != b.meanings.len() {
        assert(a@.meanings.len() != b@.meanings.len());
        return false;
    }
    let n = a.meanings.len();
    let mut i: usize = 0;
    while i < n
        invariant
            n == a.meanings@.len(),
            n == b.meanings@.len(),
            i <= n,
            forall|j: int| 0 <= j < i ==> a@.meanings[j] == b@.meanings[j],
        decreases n - i,
    {
        if !(a.meanings[i] == b.meanings[i]) {
            assert(a@.meanings[i as int] != b@.meanings[i as int]);
            return false;
        }
        i += 1;
    }
    proof {
        assert(a@.meanings =~= b@.meanings);
    }
    true
}

fn clone_strings(v: &Vec<String>) -> (r: Vec<String>)
    ensures
        r@ == v@,
{
    let mut out: Vec<String> = Vec::new();
    let mut i: usize = 0;
    while i < v.len()
        invariant
            i <= v.len(),
            out@ == v@.take(i as int),
        decreases v.len() - i,
    {
        out.push(v[i].clone());
        proof {
            assert(v@.take(i + 1) =~= v@.take(i as int).push(v@[i as int]));
        }
        i += 1;
    }
    proof {
        assert(v@.take(v.len() as int) =~= v@);
    }
    out
}

/// A copy of an entry with the same structural content.
pub fn clone_entry(e: &Entry) -> (r: Entry)
    ensures
        r@ == e@,
{
    Entry {
        kanji: e.kanji.clone(),
        reading: e.reading.clone(),
        meanings: clone_strings(&e.meanings),
        frequency: e.frequency,
    }
}

/// Is some entry of `v` structurally equal to `e`?
pub fn vec_contains_entry(v: &Vec<Entry>, e: &Entry) -> (r: bool)
    ensures
        r == entry_views(v@).contains(e@),
{
    let mut i: usize = 0;
    while i < v.len()
        invariant
            i <= v.len(),
            forall|j: int| 0 <= j < i ==> entry_views(v@)[j] != e@,
        decreases v.len() - i,
    {
        if entry_eq(&v[i], e) {
            assert(entry_views(v@)[i as int] == e@);
            return true;
        }
        i += 1;
    }
    false
}

} // verus!
