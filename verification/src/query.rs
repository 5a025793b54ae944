//! The query executor: exact, prefix and postfix collection over one
//! index, deduplication by structural equality within a tier, and the
//! default cascade that stops at the first non-empty tier.

use crate::entry::{entry_views, vec_contains_entry, Entry, EntryView};
use crate::index::{entries_for, BucketView, Index};
use crate::sort::{lemma_sort_by_freq_len, sort_by_freq, sort_entries};
use crate::text::{ends_with_str, starts_with_str};
use vstd::prelude::*;

verus! {

/// Fold the entries of `es` onto `acc`, keeping first occurrences only.
pub open spec fn dedup_into(acc: Seq<EntryView>, es: Seq<EntryView>) -> Seq<EntryView>
    decreases es.len(),
{
    if es.len() == 0 {
        acc
    } else {
        let acc2 = if acc.contains(es.first()) {
            acc
        } else {
            acc.push(es.first())
        };
        dedup_into(acc2, es.drop_first())
    }
}

/// The prefix tier: the entries of every key that starts with `term`, in
/// key-scan order, first occurrences only.
pub open spec fn collect_prefix(
    idx: Seq<BucketView>,
    term: Seq<char>,
    acc: Seq<EntryView>,
) -> Seq<EntryView>
    decreases idx.len(),
{
    if idx.len() == 0 {
        acc
    } else {
        let acc2 = if term.is_prefix_of(idx.first().key) {
            dedup_into(acc, idx.first().entries)
        } else {
            acc
        };
        collect_prefix(idx.drop_first(), term, acc2)
    }
}

/// The postfix tier: as the prefix tier, but the key must end with `term`.
pub open spec fn collect_postfix(
    idx: Seq<BucketView>,
    term: Seq<char>,
    acc: Seq<EntryView>,
) -> Seq<EntryView>
    decreases idx.len(),
{
    if idx.len() == 0 {
        acc
    } else {
        let acc2 = if term.is_suffix_of(idx.first().key) {
            dedup_into(acc, idx.first().entries)
        } else {
            acc
        };
        collect_postfix(idx.drop_first(), term, acc2)
    }
}

/// The default cascade: exact, else prefix, else postfix. The first
/// non-empty tier wins and tiers are never merged.
pub open spec fn cascade(idx: Seq<BucketView>, term: Seq<char>) -> Seq<EntryView> {
    let exact = entries_for(idx, term);
    if exact.len() > 0 {
        exact
    } else {
        let pre = collect_prefix(idx, term, Seq::empty());
        if pre.len() > 0 {
            pre
        } else {
            collect_postfix(idx, term, Seq::empty())
        }
    }
}

pub proof fn lemma_dedup_into_concat(acc: Seq<EntryView>, a: Seq<EntryView>, b: Seq<EntryView>)
    ensures
        dedup_into(acc, a + b) == dedup_into(dedup_into(acc, a), b),
    decreases a.len(),
{
    if a.len() == 0 {
        assert(a + b =~= b);
    } else {
        let acc2 = if acc.contains(a.first()) {
            acc
        } else {
            acc.push(a.first())
        };
        assert((a + b).first() == a.first());
        assert((a + b).drop_first() =~= a.drop_first() + b);
        lemma_dedup_into_concat(acc2, a.drop_first(), b);
    }
}

pub proof fn lemma_collect_prefix_concat(
    a: Seq<BucketView>,
    b: Seq<BucketView>,
    term: Seq<char>,
    acc: Seq<EntryView>,
)
    ensures
        collect_prefix(a + b, term, acc) == collect_prefix(b, term, collect_prefix(a, term, acc)),
    decreases a.len(),
{
    if a.len() == 0 {
        assert(a + b =~= b);
    } else {
        let acc2 = if term.is_prefix_of(a.first().key) {
            dedup_into(acc, a.first().entries)
        } else {
            acc
        };
        assert((a + b).first() == a.first());
        assert((a + b).drop_first() =~= a.drop_first() + b);
        lemma_collect_prefix_concat(a.drop_first(), b, term, acc2);
    }
}

pub proof fn lemma_collect_postfix_concat(
    a: Seq<BucketView>,
    b: Seq<BucketView>,
    term: Seq<char>,
    acc: Seq<EntryView>,
)
    ensures
        collect_postfix(a + b, term, acc) == collect_postfix(
            b,
            term,
            collect_postfix(a, term, acc),
        ),
    decreases a.len(),
{
    if a.len() == 0 {
        assert(a + b =~= b);
    } else {
        let acc2 = if term.is_suffix_of(a.first().key) {
            dedup_into(acc, a.first().entries)
        } else {
            acc
        };
        assert((a + b).first() == a.first());
        assert((a + b).drop_first() =~= a.drop_first() + b);
        lemma_collect_postfix_concat(a.drop_first(), b, term, acc2);
    }
}

/// Append the entries of one bucket, skipping every entry already present.
fn append_dedup(results: &mut Vec<Entry>, entries: &Vec<Entry>)
    ensures
        entry_views(final(results)@) == dedup_into(
            entry_views(old(results)@),
            entry_views(entries@),
        ),
{
    let n = entries.len();
    let mut k: usize = 0;
    while k < n
        invariant
            n == entries@.len(),
            k <= n,
            entry_views(results@) == dedup_into(
                entry_views(old(results)@),
                entry_views(entries@).take(k as int),
            ),
        decreases n - k,
    {
        let ghost cur = entry_views(results@);
        let ghost ev = entries@[k as int]@;
        proof {
            lemma_dedup_into_concat(
                entry_views(old(results)@),
                entry_views(entries@).take(k as int),
                seq![ev],
            );
            assert(entry_views(entries@).take(k + 1) =~= entry_views(entries@).take(k as int)
                + seq![ev]);
            assert(seq![ev].drop_first() =~= Seq::<EntryView>::empty());
            let acc2 = if cur.contains(ev) {
                cur
            } else {
                cur.push(ev)
            };
            assert(dedup_into(acc2, seq![ev].drop_first()) == acc2);
            assert(dedup_into(cur, seq![ev]) == acc2);
        }
        if !vec_contains_entry(results, &entries[k]) {
            let e = crate::entry::clone_entry(&entries[k]);
            results.push(e);
            proof {
                assert(entry_views(results@) =~= cur.push(ev));
            }
        }
        k += 1;
    }
    proof {
        assert(entry_views(entries@).take(n as int) =~= entry_views(entries@));
    }
}

/// The entries stored under `input` itself, sorted ascending by frequency.
pub fn collect_exact_results(dictionary: &Index, input: &str) -> (r: Vec<Entry>)
    ensures
        entry_views(r@) == sort_by_freq(entries_for(dictionary@, input@)),
{
    match dictionary.get(input) {
        Some(es) => sort_entries(es),
        None => {
            let r: Vec<Entry> = Vec::new();
            proof {
                assert(entry_views(r@) =~= Seq::<EntryView>::empty());
                assert(sort_by_freq(entries_for(dictionary@, input@)) == Seq::<
                    EntryView,
                >::empty());
            }
            r
        },
    }
}

/// The deduplicated entries of every key starting with `input`, sorted
/// ascending by frequency.
pub fn collect_prefix_results(dictionary: &Index, input: &str) -> (r: Vec<Entry>)
    ensures
        entry_views(r@) == sort_by_freq(collect_prefix(dictionary@, input@, Seq::empty())),
{
    let mut results: Vec<Entry> = Vec::new();
    let n = dictionary.buckets.len();
    let mut i: usize = 0;
    proof {
        assert(dictionary@.take(0) =~= Seq::<BucketView>::empty());
        assert(entry_views(results@) =~= Seq::<EntryView>::empty());
    }
    while i < n
        invariant
            n == dictionary.buckets@.len(),
            i <= n,
            entry_views(results@) == collect_prefix(
                dictionary@.take(i as int),
                input@,
                Seq::empty(),
            ),
        decreases n - i,
    {
        let ghost acc_cur = entry_views(results@);
        let ghost bv = dictionary@[i as int];
        proof {
            lemma_collect_prefix_concat(
                dictionary@.take(i as int),
                seq![bv],
                input@,
                Seq::empty(),
            );
            assert(dictionary@.take(i + 1) =~= dictionary@.take(i as int) + seq![bv]);
            assert(seq![bv].drop_first() =~= Seq::<BucketView>::empty());
            let acc2 = if input@.is_prefix_of(bv.key) {
                dedup_into(acc_cur, bv.entries)
            } else {
                acc_cur
            };
            assert(collect_prefix(seq![bv].drop_first(), input@, acc2) == acc2);
            assert(collect_prefix(seq![bv], input@, acc_cur) == acc2);
        }
        let b = &dictionary.buckets[i];
        assert(b@ == bv);
        if starts_with_str(b.key.as_str(), input) {
            append_dedup(&mut results, &b.entries);
        }
        i += 1;
    }
    proof {
        assert(dictionary@.take(n as int) =~= dictionary@);
    }
    sort_entries(&results)
}

/// The deduplicated entries of every key ending with `input`, sorted
/// ascending by frequency.
pub fn collect_postfix_results(dictionary: &Index, input: &str) -> (r: Vec<Entry>)
    ensures
        entry_views(r@) == sort_by_freq(collect_postfix(dictionary@, input@, Seq::empty())),
{
    let mut results: Vec<Entry> = Vec::new();
    let n = dictionary.buckets.len();
    let mut i: usize = 0;
    proof {
        assert(dictionary@.take(0) =~= Seq::<BucketView>::empty());
        assert(entry_views(results@) =~= Seq::<EntryView>::empty());
    }
    while i < n
        invariant
            n == dictionary.buckets@.len(),
            i <= n,
            entry_views(results@) == collect_postfix(
                dictionary@.take(i as int),
                input@,
                Seq::empty(),
            ),
        decreases n - i,
    {
        let ghost acc_cur = entry_views(results@);
        let ghost bv = dictionary@[i as int];
        proof {
            lemma_collect_postfix_concat(
                dictionary@.take(i as int),
                seq![bv],
                input@,
                Seq::empty(),
            );
            assert(dictionary@.take(i + 1) =~= dictionary@.take(i as int) + seq![bv]);
            assert(seq![bv].drop_first() =~= Seq::<BucketView>::empty());
            let acc2 = if input@.is_suffix_of(bv.key) {
                dedup_into(acc_cur, bv.entries)
            } else {
                acc_cur
            };
            assert(collect_postfix(seq![bv].drop_first(), input@, acc2) == acc2);
            assert(collect_postfix(seq![bv], input@, acc_cur) == acc2);
        }
        let b = &dictionary.buckets[i];
        assert(b@ == bv);
        if ends_with_str(b.key.as_str(), input) {
            append_dedup(&mut results, &b.entries);
        }
        i += 1;
    }
    proof {
        assert(dictionary@.take(n as int) =~= dictionary@);
    }
    sort_entries(&results)
}

/// The default cascade over one index: exact, else prefix, else postfix.
pub fn collect_results(dictionary: &Index, input: &str) -> (r: Vec<Entry>)
    ensures
        entry_views(r@) == sort_by_freq(cascade(dictionary@, input@)),
{
    let exact = collect_exact_results(dictionary, input);
    proof {
        lemma_sort_by_freq_len(entries_for(dictionary@, input@));
    }
    if exact.len() > 0 {
        return exact;
    }
    let pre = collect_prefix_results(dictionary, input);
    proof {
        lemma_sort_by_freq_len(collect_prefix(dictionary@, input@, Seq::empty()));
    }
    if pre.len() > 0 {
        return pre;
    }
    collect_postfix_results(dictionary, input)
}

} // verus!
