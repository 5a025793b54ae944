//! A dictionary index: a mapping from a key string to the entries sharing
//! that key, in insertion order. Keys are unique and the entries under one
//! key hold no structural duplicates; both facts are established by the
//! one mutating operation, `upsert`, and relied on by the query executor.

use crate::entry::{clone_entry, entry_views, vec_contains_entry, Entry, EntryView};
use crate::text::str_eq;
use vstd::prelude::*;

verus! {

/// One key together with the entries stored under it.
pub struct Bucket {
    pub key: String,
    pub entries: Vec<Entry>,
}

/// The mathematical content of a [`Bucket`].
pub struct BucketView {
    pub key: Seq<char>,
    pub entries: Seq<EntryView>,
}

impl View for Bucket {
    type V = BucketView;

    open spec fn view(&self) -> BucketView {
        BucketView { key: self.key@, entries: entry_views(self.entries@) }
    }
}

/// An index under construction or under query: a keyed sequence of buckets.
pub struct Index {
    pub buckets: Vec<Bucket>,
}

impl View for Index {
    type V = Seq<BucketView>;

    open spec fn view(&self) -> Seq<BucketView> {
        self.buckets@.map_values(|b: Bucket| b@)
    }
}

/// The views of a sequence of buckets, in order.
pub open spec fn bucket_views(s: Seq<Bucket>) -> Seq<BucketView> {
    s.map_values(|b: Bucket| b@)
}

/// Does some bucket of the index carry this key?
pub open spec fn has_key(idx: Seq<BucketView>, key: Seq<char>) -> bool {
    exists|i: int| 0 <= i < idx.len() && idx[i].key == key
}

/// The entries stored under `key`; empty when the key is absent.
pub open spec fn entries_for(idx: Seq<BucketView>, key: Seq<char>) -> Seq<EntryView>
    decreases idx.len(),
{
    if idx.len() == 0 {
        Seq::empty()
    } else if idx[0].key == key {
        idx[0].entries
    } else {
        entries_for(idx.drop_first(), key)
    }
}

/// Insert `e` under `key`: a new single-entry bucket when the key is
/// absent, an append when it is present and no structurally equal entry is
/// stored there yet, and no change at all otherwise.
pub open spec fn upsert_spec(idx: Seq<BucketView>, key: Seq<char>, e: EntryView) -> Seq<
    BucketView,
>
    decreases idx.len(),
{
    if idx.len() == 0 {
        seq![BucketView { key: key, entries: seq![e] }]
    } else if idx[0].key == key {
        if idx[0].entries.contains(e) {
            idx
        } else {
            seq![BucketView { key: idx[0].key, entries: idx[0].entries.push(e) }]
                + idx.drop_first()
        }
    } else {
        seq![idx[0]] + upsert_spec(idx.drop_first(), key, e)
    }
}

/// Keys are pairwise distinct, every bucket is non-empty, and no bucket
/// holds two structurally equal entries.
pub open spec fn index_wf(idx: Seq<BucketView>) -> bool {
    &&& forall|i: int, j: int| 0 <= i < j < idx.len() ==> idx[i].key != idx[j].key
    &&& forall|i: int| 0 <= i < idx.len() ==> (#[trigger] idx[i].entries).no_duplicates()
    &&& forall|i: int| 0 <= i < idx.len() ==> (#[trigger] idx[i].entries).len() > 0
}

/// `entries_for` reads the bucket at the first position carrying the key.
pub proof fn lemma_entries_for_at(idx: Seq<BucketView>, key: Seq<char>, i: int)
    requires
        0 <= i < idx.len(),
        idx[i].key == key,
        forall|j: int| 0 <= j < i ==> idx[j].key != key,
    ensures
        entries_for(idx, key) == idx[i].entries,
    decreases i,
{
    if i > 0 {
        lemma_entries_for_at(idx.drop_first(), key, i - 1);
    }
}

/// An absent key answers with the empty entry sequence.
pub proof fn lemma_entries_for_absent(idx: Seq<BucketView>, key: Seq<char>)
    requires
        forall|j: int| 0 <= j < idx.len() ==> idx[j].key != key,
    ensures
        entries_for(idx, key) == Seq::<EntryView>::empty(),
    decreases idx.len(),
{
    if idx.len() > 0 {
        lemma_entries_for_absent(idx.drop_first(), key);
    }
}

/// What `upsert_spec` does at the first position carrying the key.
pub proof fn lemma_upsert_at(idx: Seq<BucketView>, key: Seq<char>, e: EntryView, i: int)
    requires
        0 <= i < idx.len(),
        idx[i].key == key,
        forall|j: int| 0 <= j < i ==> idx[j].key != key,
    ensures
        idx[i].entries.contains(e) ==> upsert_spec(idx, key, e) == idx,
        !idx[i].entries.contains(e) ==> upsert_spec(idx, key, e) == idx.update(
            i,
            BucketView { key: idx[i].key, entries: idx[i].entries.push(e) },
        ),
    decreases i,
{
    if i == 0 {
        if !idx[0].entries.contains(e) {
            assert(upsert_spec(idx, key, e) =~= idx.update(
                0,
                BucketView { key: idx[0].key, entries: idx[0].entries.push(e) },
            ));
        }
    } else {
        lemma_upsert_at(idx.drop_first(), key, e, i - 1);
        if idx[i].entries.contains(e) {
            assert(upsert_spec(idx, key, e) =~= idx);
        } else {
            assert(upsert_spec(idx, key, e) =~= idx.update(
                i,
                BucketView { key: idx[i].key, entries: idx[i].entries.push(e) },
            ));
        }
    }
}

/// Upserting an absent key appends a fresh single-entry bucket at the end.
pub proof fn lemma_upsert_absent(idx: Seq<BucketView>, key: Seq<char>, e: EntryView)
    requires
        forall|j: int| 0 <= j < idx.len() ==> idx[j].key != key,
    ensures
        upsert_spec(idx, key, e) == idx + seq![BucketView { key: key, entries: seq![e] }],
    decreases idx.len(),
{
    if idx.len() == 0 {
        assert(upsert_spec(idx, key, e) =~= idx + seq![
            BucketView { key: key, entries: seq![e] },
        ]);
    } else {
        lemma_upsert_absent(idx.drop_first(), key, e);
        assert(upsert_spec(idx, key, e) =~= idx + seq![
            BucketView { key: key, entries: seq![e] },
        ]);
    }
}

/// How an upsert changes the entries stored under its own key.
pub proof fn lemma_upsert_entries_for(idx: Seq<BucketView>, key: Seq<char>, e: EntryView)
    ensures
        entries_for(upsert_spec(idx, key, e), key) == (if entries_for(idx, key).contains(e) {
            entries_for(idx, key)
        } else {
            entries_for(idx, key).push(e)
        }),
    decreases idx.len(),
{
    if idx.len() == 0 {
        assert(entries_for(upsert_spec(idx, key, e), key) =~= entries_for(idx, key).push(e));
    } else if idx[0].key == key {
        if !idx[0].entries.contains(e) {
            let nb = BucketView { key: idx[0].key, entries: idx[0].entries.push(e) };
            let up = seq![nb] + idx.drop_first();
            assert(up[0] == nb);
        }
    } else {
        lemma_upsert_entries_for(idx.drop_first(), key, e);
        let up = seq![idx[0]] + upsert_spec(idx.drop_first(), key, e);
        assert(up[0] == idx[0]);
        assert(up.drop_first() =~= upsert_spec(idx.drop_first(), key, e));
    }
}

/// An upsert leaves every other key's entries untouched.
pub proof fn lemma_upsert_other_keys(
    idx: Seq<BucketView>,
    key: Seq<char>,
    e: EntryView,
    other: Seq<char>,
)
    requires
        other != key,
    ensures
        entries_for(upsert_spec(idx, key, e), other) == entries_for(idx, other),
    decreases idx.len(),
{
    if idx.len() == 0 {
        let up = upsert_spec(idx, key, e);
        assert(up[0].key == key);
        assert(up.drop_first() =~= Seq::<BucketView>::empty());
        assert(entries_for(up, other) == entries_for(Seq::<BucketView>::empty(), other));
        assert(entries_for(Seq::<BucketView>::empty(), other) == Seq::<EntryView>::empty());
    } else if idx[0].key == key {
        if !idx[0].entries.contains(e) {
            let nb = BucketView { key: idx[0].key, entries: idx[0].entries.push(e) };
            let up = seq![nb] + idx.drop_first();
            assert(upsert_spec(idx, key, e) == up);
            assert(up[0] == nb);
            assert(up.drop_first() =~= idx.drop_first());
            assert(entries_for(up, other) == entries_for(idx.drop_first(), other));
            assert(entries_for(idx, other) == entries_for(idx.drop_first(), other));
        }
    } else {
        lemma_upsert_other_keys(idx.drop_first(), key, e, other);
        let up = seq![idx[0]] + upsert_spec(idx.drop_first(), key, e);
        assert(upsert_spec(idx, key, e) == up);
        assert(up[0] == idx[0]);
        assert(up.drop_first() =~= upsert_spec(idx.drop_first(), key, e));
        if idx[0].key == other {
            assert(entries_for(up, other) == up[0].entries);
            assert(entries_for(idx, other) == idx[0].entries);
        } else {
            assert(entries_for(up, other) == entries_for(up.drop_first(), other));
            assert(entries_for(idx, other) == entries_for(idx.drop_first(), other));
        }
    }
}

/// The keys after an upsert are the old keys plus the upserted one.
pub proof fn lemma_upsert_has_key(
    idx: Seq<BucketView>,
    key: Seq<char>,
    e: EntryView,
    k2: Seq<char>,
)
    ensures
        has_key(upsert_spec(idx, key, e), k2) <==> (has_key(idx, k2) || k2 == key),
    decreases idx.len(),
{
    let up = upsert_spec(idx, key, e);
    if idx.len() == 0 {
        assert(up[0].key == key);
        if has_key(up, k2) {
            let i = choose|i: int| 0 <= i < up.len() && up[i].key == k2;
            assert(i == 0);
        }
    } else if idx[0].key == key {
        if idx[0].entries.contains(e) {
        } else {
            let nb = BucketView { key: idx[0].key, entries: idx[0].entries.push(e) };
            assert(up =~= idx.update(0, nb));
            assert(forall|i: int| 0 <= i < idx.len() ==> up[i].key == idx[i].key);
            if has_key(idx, k2) {
                let i = choose|i: int| 0 <= i < idx.len() && idx[i].key == k2;
                assert(up[i].key == k2);
            }
            if has_key(up, k2) {
                let i = choose|i: int| 0 <= i < up.len() && up[i].key == k2;
                assert(idx[i].key == k2);
            }
        }
    } else {
        lemma_upsert_has_key(idx.drop_first(), key, e, k2);
        assert(up[0] == idx[0]);
        assert(up.drop_first() =~= upsert_spec(idx.drop_first(), key, e));
        if has_key(idx, k2) {
            let i = choose|i: int| 0 <= i < idx.len() && idx[i].key == k2;
            if i == 0 {
                assert(up[0].key == k2);
            } else {
                assert(idx.drop_first()[i - 1].key == k2);
                assert(has_key(idx.drop_first(), k2));
                let w = choose|w: int|
                    0 <= w < up.drop_first().len() && up.drop_first()[w].key == k2;
                assert(up[w + 1].key == k2);
            }
        }
        if k2 == key {
            let w = choose|w: int| 0 <= w < up.drop_first().len() && up.drop_first()[w].key == k2;
            assert(up[w + 1].key == k2);
        }
        if has_key(up, k2) {
            let i = choose|i: int| 0 <= i < up.len() && up[i].key == k2;
            if i == 0 {
                assert(idx[0].key == k2);
            } else {
                assert(up.drop_first()[i - 1].key == k2);
                assert(has_key(up.drop_first(), k2));
                if !has_key(idx.drop_first(), k2) && k2 != key {
                    assert(false);
                } else if k2 != key {
                    let w = choose|w: int|
                        0 <= w < idx.drop_first().len() && idx.drop_first()[w].key == k2;
                    assert(idx[w + 1].key == k2);
                }
            }
        }
    }
}

/// An upsert preserves well-formedness.
pub proof fn lemma_upsert_wf(idx: Seq<BucketView>, key: Seq<char>, e: EntryView)
    requires
        index_wf(idx),
    ensures
        index_wf(upsert_spec(idx, key, e)),
    decreases idx.len(),
{
    let up = upsert_spec(idx, key, e);
    if idx.len() == 0 {
        assert(up =~= seq![BucketView { key: key, entries: seq![e] }]);
        assert(up[0].entries =~= seq![e]);
        assert(up[0].entries.len() == 1);
        assert(up[0].entries.no_duplicates());
    } else if idx[0].key == key {
        if idx[0].entries.contains(e) {
        } else {
            let nb = BucketView { key: idx[0].key, entries: idx[0].entries.push(e) };
            assert(up =~= idx.update(0, nb));
            assert(nb.entries.no_duplicates()) by {
                assert(forall|j: int|
                    0 <= j < idx[0].entries.len() ==> idx[0].entries[j] != e);
            }
        }
    } else {
        assert(index_wf(idx.drop_first())) by {
            assert(forall|i: int, j: int|
                0 <= i < j < idx.drop_first().len() ==> idx.drop_first()[i].key
                    != idx.drop_first()[j].key);
        }
        lemma_upsert_wf(idx.drop_first(), key, e);
        let rest = upsert_spec(idx.drop_first(), key, e);
        assert(up =~= seq![idx[0]] + rest);
        assert(!has_key(idx.drop_first(), idx[0].key)) by {
            assert(forall|j: int|
                0 <= j < idx.drop_first().len() ==> idx.drop_first()[j].key != idx[0].key);
        }
        lemma_upsert_has_key(idx.drop_first(), key, e, idx[0].key);
        assert(!has_key(rest, idx[0].key));
        assert(forall|j: int| 0 <= j < rest.len() ==> (#[trigger] rest[j]).key != idx[0].key)
            by {
            if exists|j: int| 0 <= j < rest.len() && (#[trigger] rest[j]).key == idx[0].key {
                let j = choose|j: int| 0 <= j < rest.len() && (#[trigger] rest[j]).key == idx[0].key;
                assert(has_key(rest, idx[0].key));
            }
        }
        assert(forall|i: int, j: int| 0 <= i < j < up.len() ==> up[i].key != up[j].key) by {
            assert(forall|j: int| 1 <= j < up.len() ==> up[j] == rest[j - 1]);
        }
        assert(forall|i: int| 0 <= i < up.len() ==> (#[trigger] up[i].entries).no_duplicates());
        assert(forall|i: int| 0 <= i < up.len() ==> (#[trigger] up[i].entries).len() > 0);
    }
}

/// Upsert every entry of `es` under `key`, in order.
pub open spec fn upsert_entries(
    idx: Seq<BucketView>,
    key: Seq<char>,
    es: Seq<EntryView>,
) -> Seq<BucketView>
    decreases es.len(),
{
    if es.len() == 0 {
        idx
    } else {
        upsert_entries(upsert_spec(idx, key, es.first()), key, es.drop_first())
    }
}

/// Fold stored buckets back in, one upsert per stored entry.
pub open spec fn apply_parts(idx: Seq<BucketView>, parts: Seq<BucketView>) -> Seq<BucketView>
    decreases parts.len(),
{
    if parts.len() == 0 {
        idx
    } else {
        apply_parts(
            upsert_entries(idx, parts.first().key, parts.first().entries),
            parts.drop_first(),
        )
    }
}

pub proof fn lemma_upsert_entries_concat(
    idx: Seq<BucketView>,
    key: Seq<char>,
    a: Seq<EntryView>,
    b: Seq<EntryView>,
)
    ensures
        upsert_entries(idx, key, a + b) == upsert_entries(upsert_entries(idx, key, a), key, b),
    decreases a.len(),
{
    if a.len() == 0 {
        assert(a + b =~= b);
    } else {
        assert((a + b).first() == a.first());
        assert((a + b).drop_first() =~= a.drop_first() + b);
        lemma_upsert_entries_concat(upsert_spec(idx, key, a.first()), key, a.drop_first(), b);
    }
}

pub proof fn lemma_apply_parts_concat(
    idx: Seq<BucketView>,
    a: Seq<BucketView>,
    b: Seq<BucketView>,
)
    ensures
        apply_parts(idx, a + b) == apply_parts(apply_parts(idx, a), b),
    decreases a.len(),
{
    if a.len() == 0 {
        assert(a + b =~= b);
    } else {
        assert((a + b).first() == a.first());
        assert((a + b).drop_first() =~= a.drop_first() + b);
        lemma_apply_parts_concat(
            upsert_entries(idx, a.first().key, a.first().entries),
            a.drop_first(),
            b,
        );
    }
}

impl Index {
    /// The empty index.
    pub fn new() -> (r: Index)
        ensures
            r@ == Seq::<BucketView>::empty(),
    {
        let r = Index { buckets: Vec::new() };
        proof {
            assert(r@ =~= Seq::<BucketView>::empty());
        }
        r
    }

    pub open spec fn wf(&self) -> bool {
        index_wf(self@)
    }

    /// The position of the first bucket carrying `key`, if any.
    fn find_key(&self, key: &str) -> (r: Option<usize>)
        ensures
            match r {
                Some(i) => i < self@.len() && self@[i as int].key == key@ && forall|j: int|
                    0 <= j < i ==> self@[j].key != key@,
                None => forall|j: int| 0 <= j < self@.len() ==> self@[j].key != key@,
            },
    {
        let n = self.buckets.len();
        let mut i: usize = 0;
        while i < n
            invariant
                n == self.buckets@.len(),
                i <= n,
                forall|j: int| 0 <= j < i ==> self@[j].key != key@,
            decreases n - i,
        {
            if str_eq(self.buckets[i].key.as_str(), key) {
                assert(self@[i as int].key == key@);
                return Some(i);
            }
            assert(self@[i as int].key != key@);
            i += 1;
        }
        None
    }

    /// Insert `entry` under `key` unless a structurally equal entry already
    /// stands there; create the key when it is absent.
    pub fn upsert(&mut self, key: &str, entry: &Entry)
        ensures
            final(self)@ == upsert_spec(old(self)@, key@, entry@),
    {
        let found = self.find_key(key);
        match found {
            Some(i) => {
                proof {
                    lemma_upsert_at(self@, key@, entry@, i as int);
                }
                if vec_contains_entry(&self.buckets[i].entries, entry) {
                    assert(self@[i as int].entries.contains(entry@));
                } else {
                    assert(!self@[i as int].entries.contains(entry@));
                    let ghost old_view = self@;
                    let mut b = self.buckets.remove(i);
                    b.entries.push(clone_entry(entry));
                    self.buckets.insert(i, b);
                    proof {
                        let nb = BucketView {
                            key: old_view[i as int].key,
                            entries: old_view[i as int].entries.push(entry@),
                        };
                        assert(entry_views(b.entries@) =~= old_view[i as int].entries.push(
                            entry@,
                        ));
                        assert(b@ == nb);
                        assert(self@ =~= old_view.update(i as int, nb));
                    }
                }
            },
            None => {
                let ghost old_view = self@;
                let mut es: Vec<Entry> = Vec::new();
                es.push(clone_entry(entry));
                self.buckets.push(Bucket { key: String::from_str(key), entries: es });
                proof {
                    lemma_upsert_absent(old_view, key@, entry@);
                    let nb = BucketView { key: key@, entries: seq![entry@] };
                    assert(entry_views(es@) =~= seq![entry@]);
                    assert(self@ =~= old_view + seq![nb]);
                }
            },
        }
    }

    /// Rebuild an index from stored buckets, as the index store hands
    /// them back, re-establishing key uniqueness and per-key
    /// deduplication by one upsert per stored entry.
    pub fn rebuild(parts: &Vec<Bucket>) -> (r: Index)
        ensures
            r@ == apply_parts(Seq::empty(), bucket_views(parts@)),
            index_wf(r@),
    {
        let mut r = Index::new();
        proof {
            assert(bucket_views(parts@).take(0) =~= Seq::<BucketView>::empty());
        }
        let n = parts.len();
        let mut i: usize = 0;
        while i < n
            invariant
                n == parts@.len(),
                i <= n,
                r@ == apply_parts(Seq::empty(), bucket_views(parts@).take(i as int)),
                index_wf(r@),
            decreases n - i,
        {
            let ghost before = r@;
            let ghost pv = bucket_views(parts@)[i as int];
            let b = &parts[i];
            let m = b.entries.len();
            let mut k: usize = 0;
            while k < m
                invariant
                    i < n,
                    n == parts@.len(),
                    pv == bucket_views(parts@)[i as int],
                    b@ == pv,
                    m == b.entries@.len(),
                    m == pv.entries.len(),
                    k <= m,
                    r@ == upsert_entries(before, pv.key, pv.entries.take(k as int)),
                    index_wf(r@),
                decreases m - k,
            {
                let ghost cur = r@;
                let ghost ev = pv.entries[k as int];
                r.upsert(b.key.as_str(), &b.entries[k]);
                proof {
                    assert(b.entries@[k as int]@ == ev);
                    lemma_upsert_wf(cur, pv.key, ev);
                    lemma_upsert_entries_concat(
                        before,
                        pv.key,
                        pv.entries.take(k as int),
                        seq![ev],
                    );
                    assert(pv.entries.take(k + 1) =~= pv.entries.take(k as int) + seq![ev]);
                    assert(seq![ev].drop_first() =~= Seq::<EntryView>::empty());
                    let step = upsert_spec(cur, pv.key, ev);
                    assert(seq![ev].first() == ev);
                    assert(upsert_entries(step, pv.key, seq![ev].drop_first()) == step);
                    assert(upsert_entries(cur, pv.key, seq![ev]) == step);
                }
                k += 1;
            }
            proof {
                assert(pv.entries.take(m as int) =~= pv.entries);
                lemma_apply_parts_concat(
                    Seq::<BucketView>::empty(),
                    bucket_views(parts@).take(i as int),
                    seq![pv],
                );
                assert(bucket_views(parts@).take(i + 1) =~= bucket_views(parts@).take(i as int)
                    + seq![pv]);
                assert(seq![pv].drop_first() =~= Seq::<BucketView>::empty());
                let step = upsert_entries(before, pv.key, pv.entries);
                assert(seq![pv].first() == pv);
                assert(apply_parts(step, seq![pv].drop_first()) == step);
                assert(apply_parts(before, seq![pv]) == step);
            }
            i += 1;
        }
        proof {
            assert(bucket_views(parts@).take(n as int) =~= bucket_views(parts@));
        }
        r
    }

    /// The entries stored under `key`, if the key is present.
    pub fn get<'a>(&'a self, key: &str) -> (r: Option<&'a Vec<Entry>>)
        ensures
            match r {
                Some(es) => has_key(self@, key@) && entry_views(es@) == entries_for(
                    self@,
                    key@,
                ),
                None => !has_key(self@, key@) && entries_for(self@, key@) == Seq::<
                    EntryView,
                >::empty(),
            },
    {
        let found = self.find_key(key);
        match found {
            Some(i) => {
                proof {
                    lemma_entries_for_at(self@, key@, i as int);
                }
                Some(&self.buckets[i].entries)
            },
            None => {
                proof {
                    lemma_entries_for_absent(self@, key@);
                    if has_key(self@, key@) {
                        let w = choose|w: int| 0 <= w < self@.len() && self@[w].key == key@;
                        assert(false);
                    }
                }
                None
            },
        }
    }
}

} // verus!
