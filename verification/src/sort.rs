//! Frequency ordering: a stable insertion sort, ascending by rank, so that
//! entries of equal rank keep the order in which they were collected.

use crate::entry::{clone_entry, entry_views, Entry, EntryView};
use vstd::multiset::Multiset;
use vstd::prelude::*;

verus! {

/// Ascending by frequency rank (lower rank means more common).
pub open spec fn sorted_by_freq(s: Seq<EntryView>) -> bool {
    forall|i: int, j: int| 0 <= i < j < s.len() ==> s[i].frequency <= s[j].frequency
}

/// The stable insertion step: `e` goes behind every entry whose rank is
/// not greater than its own.
pub open spec fn insert_by_freq(s: Seq<EntryView>, e: EntryView) -> Seq<EntryView>
    decreases s.len(),
{
    if s.len() == 0 {
        seq![e]
    } else if s.first().frequency <= e.frequency {
        seq![s.first()] + insert_by_freq(s.drop_first(), e)
    } else {
        seq![e] + s
    }
}

/// Stable insertion sort ascending by frequency.
pub open spec fn sort_by_freq(s: Seq<EntryView>) -> Seq<EntryView>
    decreases s.len(),
{
    if s.len() == 0 {
        Seq::empty()
    } else {
        insert_by_freq(sort_by_freq(s.drop_last()), s.last())
    }
}

pub proof fn lemma_insert_by_freq_len(s: Seq<EntryView>, e: EntryView)
    ensures
        insert_by_freq(s, e).len() == s.len() + 1,
    decreases s.len(),
{
    if s.len() > 0 && s.first().frequency <= e.frequency {
        lemma_insert_by_freq_len(s.drop_first(), e);
    }
}

/// Sorting changes no length.
pub proof fn lemma_sort_by_freq_len(s: Seq<EntryView>)
    ensures
        sort_by_freq(s).len() == s.len(),
    decreases s.len(),
{
    if s.len() > 0 {
        lemma_sort_by_freq_len(s.drop_last());
        lemma_insert_by_freq_len(sort_by_freq(s.drop_last()), s.last());
    }
}

pub proof fn lemma_insert_by_freq_multiset(s: Seq<EntryView>, e: EntryView)
    ensures
        insert_by_freq(s, e).to_multiset() == s.to_multiset().insert(e),
    decreases s.len(),
{
    broadcast use vstd::seq_lib::group_to_multiset_ensures;
    broadcast use vstd::multiset::group_multiset_axioms;

    if s.len() == 0 {
        assert(insert_by_freq(s, e) =~= s.push(e));
    } else if s.first().frequency <= e.frequency {
        lemma_insert_by_freq_multiset(s.drop_first(), e);
        let rest = insert_by_freq(s.drop_first(), e);
        vstd::seq_lib::lemma_multiset_commutative(seq![s.first()], rest);
        vstd::seq_lib::lemma_multiset_commutative(seq![s.first()], s.drop_first());
        assert(seq![s.first()] + s.drop_first() =~= s);
        assert(seq![s.first()].to_multiset() =~= Multiset::<EntryView>::empty().insert(
            s.first(),
        )) by {
            assert(seq![s.first()] =~= Seq::<EntryView>::empty().push(s.first()));
        }
        assert((seq![s.first()] + rest).to_multiset() =~= s.to_multiset().insert(e));
    } else {
        vstd::seq_lib::lemma_multiset_commutative(seq![e], s);
        assert(seq![e].to_multiset() =~= Multiset::<EntryView>::empty().insert(e)) by {
            assert(seq![e] =~= Seq::<EntryView>::empty().push(e));
        }
        assert((seq![e] + s).to_multiset() =~= s.to_multiset().insert(e));
    }
}

/// Sorting keeps exactly the collected entries, multiplicities included.
pub proof fn lemma_sort_by_freq_multiset(s: Seq<EntryView>)
    ensures
        sort_by_freq(s).to_multiset() == s.to_multiset(),
    decreases s.len(),
{
    broadcast use vstd::seq_lib::group_to_multiset_ensures;
    broadcast use vstd::multiset::group_multiset_axioms;

    if s.len() > 0 {
        lemma_sort_by_freq_multiset(s.drop_last());
        lemma_insert_by_freq_multiset(sort_by_freq(s.drop_last()), s.last());
        assert(s.drop_last().push(s.last()) =~= s);
        assert(s.drop_last().to_multiset().insert(s.last()) =~= s.to_multiset());
    }
}

pub proof fn lemma_insert_by_freq_sorted(s: Seq<EntryView>, e: EntryView)
    requires
        sorted_by_freq(s),
    ensures
        sorted_by_freq(insert_by_freq(s, e)),
    decreases s.len(),
{
    broadcast use vstd::seq_lib::group_to_multiset_ensures;
    broadcast use vstd::multiset::group_multiset_axioms;

    let r = insert_by_freq(s, e);
    if s.len() == 0 {
    } else if s.first().frequency <= e.frequency {
        assert(sorted_by_freq(s.drop_first()));
        lemma_insert_by_freq_sorted(s.drop_first(), e);
        lemma_insert_by_freq_multiset(s.drop_first(), e);
        let rest = insert_by_freq(s.drop_first(), e);
        assert forall|k: int| 0 <= k < rest.len() implies s.first().frequency
            <= rest[k].frequency by {
            assert(rest.contains(rest[k]));
            assert(rest.to_multiset().count(rest[k]) > 0);
            if rest[k] != e {
                assert(s.drop_first().to_multiset().count(rest[k]) > 0);
                assert(s.drop_first().contains(rest[k]));
                let w = choose|w: int|
                    0 <= w < s.drop_first().len() && s.drop_first()[w] == rest[k];
                assert(s[w + 1] == rest[k]);
            }
        }
        assert forall|i: int, j: int| 0 <= i < j < r.len() implies r[i].frequency
            <= r[j].frequency by {
            if i > 0 {
                assert(r[i] == rest[i - 1]);
                assert(r[j] == rest[j - 1]);
            } else {
                assert(r[0] == s.first());
                assert(r[j] == rest[j - 1]);
            }
        }
    } else {
        assert forall|i: int, j: int| 0 <= i < j < r.len() implies r[i].frequency
            <= r[j].frequency by {
            if i > 0 {
                assert(r[i] == s[i - 1]);
                assert(r[j] == s[j - 1]);
            } else {
                assert(r[0] == e);
                assert(r[j] == s[j - 1]);
                if j - 1 > 0 {
                    assert(s[0].frequency <= s[j - 1].frequency);
                }
            }
        }
    }
}

/// The sorted sequence is ascending by frequency.
pub proof fn lemma_sort_by_freq_sorted(s: Seq<EntryView>)
    ensures
        sorted_by_freq(sort_by_freq(s)),
    decreases s.len(),
{
    if s.len() > 0 {
        lemma_sort_by_freq_sorted(s.drop_last());
        lemma_insert_by_freq_sorted(sort_by_freq(s.drop_last()), s.last());
    }
}

/// Sorting a duplicate-free collection yields a duplicate-free result.
pub proof fn lemma_sort_by_freq_no_duplicates(s: Seq<EntryView>)
    requires
        s.no_duplicates(),
    ensures
        sort_by_freq(s).no_duplicates(),
{
    lemma_sort_by_freq_multiset(s);
    s.lemma_multiset_has_no_duplicates();
    sort_by_freq(s).lemma_multiset_has_no_duplicates_conv();
}

/// Where the stable insertion step lands: directly before the first entry
/// of strictly greater rank.
pub proof fn lemma_insert_by_freq_at(s: Seq<EntryView>, e: EntryView, p: int)
    requires
        0 <= p <= s.len(),
        forall|q: int| 0 <= q < p ==> s[q].frequency <= e.frequency,
        p < s.len() ==> s[p].frequency > e.frequency,
    ensures
        insert_by_freq(s, e) == s.take(p) + seq![e] + s.skip(p),
    decreases p,
{
    if p == 0 {
        if s.len() == 0 {
            assert(insert_by_freq(s, e) =~= s.take(0) + seq![e] + s.skip(0));
        } else {
            assert(s.first().frequency > e.frequency);
            assert(insert_by_freq(s, e) =~= s.take(0) + seq![e] + s.skip(0));
        }
    } else {
        assert(s[0].frequency <= e.frequency);
        assert(forall|q: int| 0 <= q < p - 1 ==> s.drop_first()[q].frequency <= e.frequency);
        assert(p - 1 < s.drop_first().len() ==> s.drop_first()[p - 1].frequency > e.frequency);
        lemma_insert_by_freq_at(s.drop_first(), e, p - 1);
        assert(insert_by_freq(s, e) =~= s.take(p) + seq![e] + s.skip(p));
    }
}

/// Sort the collected entries ascending by frequency, stably.
pub fn sort_entries(v: &Vec<Entry>) -> (r: Vec<Entry>)
    ensures
        entry_views(r@) == sort_by_freq(entry_views(v@)),
{
    let mut out: Vec<Entry> = Vec::new();
    let n = v.len();
    let mut i: usize = 0;
    proof {
        assert(entry_views(v@).take(0) =~= Seq::<EntryView>::empty());
    }
    while i < n
        invariant
            n == v@.len(),
            i <= n,
            entry_views(out@) == sort_by_freq(entry_views(v@).take(i as int)),
        decreases n - i,
    {
        let e = clone_entry(&v[i]);
        let ghost prev = entry_views(out@);
        let mut p: usize = 0;
        while p < out.len() && out[p].frequency <= e.frequency
            invariant
                p <= out.len(),
                entry_views(out@) == prev,
                e@.frequency == e.frequency as int,
                forall|q: int| 0 <= q < p ==> prev[q].frequency <= e@.frequency,
            decreases out.len() - p,
        {
            assert(prev[p as int].frequency == out@[p as int]@.frequency);
            p += 1;
        }
        proof {
            if (p as int) < prev.len() {
                assert(prev[p as int] == out@[p as int]@);
            }
            lemma_insert_by_freq_at(prev, e@, p as int);
        }
        let ghost out_before = out@;
        out.insert(p, e);
        proof {
            assert(out@ =~= out_before.take(p as int) + seq![e] + out_before.skip(p as int));
            assert(entry_views(out@) =~= prev.take(p as int) + seq![e@] + prev.skip(p as int));
            assert(entry_views(v@).take(i + 1).drop_last() =~= entry_views(v@).take(i as int));
            assert(entry_views(v@).take(i + 1).last() == v@[i as int]@);
            assert(entry_views(out@) == sort_by_freq(entry_views(v@).take(i + 1)));
        }
        i += 1;
    }
    proof {
        assert(entry_views(v@).take(n as int) =~= entry_views(v@));
    }
    out
}

} // verus!
