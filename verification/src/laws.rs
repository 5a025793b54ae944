//! The engine's laws: reachability of built entries, idempotence of the
//! builder's insert, the cascade order, frequency ordering, deduplication,
//! and script routing, each proved over the same specifications that the
//! executable functions are verified against.

use crate::engine::{
    apply_record, build_from, built_jisho, entry_of, lookup_spec, routed_index, JishoView,
    RawRecordView,
};
use crate::entry::EntryView;
use crate::gloss::normalize_seq;
use crate::index::{
    entries_for, has_key, index_wf, lemma_entries_for_absent, lemma_upsert_entries_for,
    lemma_upsert_other_keys, upsert_spec, BucketView,
};
use crate::mode::{cleaned_of, mode_of, MatchMode};
use crate::query::{cascade, collect_postfix, collect_prefix, dedup_into};
use crate::script::{is_kana_char, is_kanji_char};
use crate::sort::{
    lemma_sort_by_freq_no_duplicates, lemma_sort_by_freq_sorted, sort_by_freq, sorted_by_freq,
};
use vstd::prelude::*;

verus! {

/// A member of the entries under a key survives any later upsert.
pub proof fn lemma_upsert_preserves_membership(
    idx: Seq<BucketView>,
    key: Seq<char>,
    e: EntryView,
    key2: Seq<char>,
    e2: EntryView,
)
    requires
        entries_for(idx, key2).contains(e2),
    ensures
        entries_for(upsert_spec(idx, key, e), key2).contains(e2),
{
    if key2 == key {
        lemma_upsert_entries_for(idx, key, e);
        let before = entries_for(idx, key);
        if !before.contains(e) {
            let w = choose|w: int| 0 <= w < before.len() && before[w] == e2;
            assert(before.push(e)[w] == e2);
        }
    } else {
        lemma_upsert_other_keys(idx, key, e, key2);
    }
}

proof fn lemma_upsert_glosses_preserves(
    idx: Seq<BucketView>,
    glosses: Seq<Seq<char>>,
    e: EntryView,
    key2: Seq<char>,
    e2: EntryView,
)
    requires
        entries_for(idx, key2).contains(e2),
    ensures
        entries_for(crate::engine::upsert_glosses(idx, glosses, e), key2).contains(e2),
    decreases glosses.len(),
{
    if glosses.len() > 0 {
        lemma_upsert_preserves_membership(idx, normalize_seq(glosses.first()), e, key2, e2);
        lemma_upsert_glosses_preserves(
            upsert_spec(idx, normalize_seq(glosses.first()), e),
            glosses.drop_first(),
            e,
            key2,
            e2,
        );
    }
}

/// Upserting an entry under every gloss headword makes it reachable under
/// each of those headwords.
proof fn lemma_upsert_glosses_adds(
    idx: Seq<BucketView>,
    glosses: Seq<Seq<char>>,
    e: EntryView,
    g: int,
)
    requires
        0 <= g < glosses.len(),
    ensures
        entries_for(crate::engine::upsert_glosses(idx, glosses, e), normalize_seq(
            glosses[g],
        )).contains(e),
    decreases g,
{
    let key = normalize_seq(glosses.first());
    let stepped = upsert_spec(idx, key, e);
    if g == 0 {
        lemma_upsert_entries_for(idx, key, e);
        let before = entries_for(idx, key);
        if before.contains(e) {
            assert(entries_for(stepped, key).contains(e));
        } else {
            assert(before.push(e)[before.len() as int] == e);
            assert(entries_for(stepped, key).contains(e));
        }
        lemma_upsert_glosses_preserves(stepped, glosses.drop_first(), e, key, e);
    } else {
        assert(glosses.drop_first()[g - 1] == glosses[g]);
        lemma_upsert_glosses_adds(stepped, glosses.drop_first(), e, g - 1);
    }
}

/// Whatever stands in the gloss index stays there as later records fold in.
proof fn lemma_build_from_preserves(
    d: JishoView,
    records: Seq<RawRecordView>,
    key2: Seq<char>,
    e2: EntryView,
)
    requires
        entries_for(d.e2j, key2).contains(e2),
    ensures
        entries_for(build_from(d, records).e2j, key2).contains(e2),
    decreases records.len(),
{
    if records.len() > 0 {
        let r = records.first();
        lemma_upsert_glosses_preserves(d.e2j, r.senses.flatten(), entry_of(r), key2, e2);
        lemma_build_from_preserves(apply_record(d, r), records.drop_first(), key2, e2);
    }
}

proof fn lemma_build_from_reaches(
    d: JishoView,
    records: Seq<RawRecordView>,
    i: int,
    g: int,
)
    requires
        0 <= i < records.len(),
        0 <= g < records[i].senses.flatten().len(),
    ensures
        entries_for(build_from(d, records).e2j, normalize_seq(
            records[i].senses.flatten()[g],
        )).contains(entry_of(records[i])),
    decreases i,
{
    let r = records.first();
    let stepped = apply_record(d, r);
    if i == 0 {
        lemma_upsert_glosses_adds(d.e2j, r.senses.flatten(), entry_of(r), g);
        lemma_build_from_preserves(
            stepped,
            records.drop_first(),
            normalize_seq(r.senses.flatten()[g]),
            entry_of(r),
        );
    } else {
        assert(records.drop_first()[i - 1] == records[i]);
        lemma_build_from_reaches(stepped, records.drop_first(), i - 1, g);
    }
}

/// Every entry handed to the builder is reachable from the gloss index
/// under the normalized headword of each of its glosses.
pub proof fn lemma_built_entry_reachable(
    records: Seq<RawRecordView>,
    version: Seq<char>,
    i: int,
    g: int,
)
    requires
        0 <= i < records.len(),
        0 <= g < records[i].senses.flatten().len(),
    ensures
        entries_for(built_jisho(records, version).e2j, normalize_seq(
            records[i].senses.flatten()[g],
        )).contains(entry_of(records[i])),
{
    lemma_build_from_reaches(crate::engine::empty_jisho(version), records, i, g);
}

/// The position a sense's gloss takes in the flattened gloss list.
proof fn lemma_flatten_index(senses: Seq<Seq<Seq<char>>>, s: int, t: int) -> (g: int)
    requires
        0 <= s < senses.len(),
        0 <= t < senses[s].len(),
    ensures
        0 <= g < senses.flatten().len(),
        senses.flatten()[g] == senses[s][t],
    decreases s,
{
    assert(senses.flatten() == senses.first() + senses.drop_first().flatten());
    if s == 0 {
        t
    } else {
        assert(senses.drop_first()[s - 1] == senses[s]);
        let g0 = lemma_flatten_index(senses.drop_first(), s - 1, t);
        senses.first().len() + g0
    }
}

/// As [`lemma_built_entry_reachable`], stated per sense: the entry of a
/// record is reachable under the normalized headword of the `t`-th gloss
/// of its `s`-th sense.
pub proof fn lemma_built_entry_reachable_by_sense(
    records: Seq<RawRecordView>,
    version: Seq<char>,
    i: int,
    s: int,
    t: int,
)
    requires
        0 <= i < records.len(),
        0 <= s < records[i].senses.len(),
        0 <= t < records[i].senses[s].len(),
    ensures
        entries_for(built_jisho(records, version).e2j, normalize_seq(
            records[i].senses[s][t],
        )).contains(entry_of(records[i])),
{
    let g = lemma_flatten_index(records[i].senses, s, t);
    lemma_built_entry_reachable(records, version, i, g);
}

/// An upsert whose entry already stands under its key changes nothing.
pub proof fn lemma_upsert_noop(idx: Seq<BucketView>, key: Seq<char>, e: EntryView)
    requires
        entries_for(idx, key).contains(e),
    ensures
        upsert_spec(idx, key, e) == idx,
    decreases idx.len(),
{
    if idx.len() == 0 {
        assert(false);
    } else if idx[0].key == key {
    } else {
        lemma_upsert_noop(idx.drop_first(), key, e);
        assert(seq![idx[0]] + idx.drop_first() =~= idx);
    }
}

/// Inserting the same structurally equal entry under the same key twice
/// is the same as inserting it once.
pub proof fn lemma_upsert_idempotent(idx: Seq<BucketView>, key: Seq<char>, e: EntryView)
    ensures
        upsert_spec(upsert_spec(idx, key, e), key, e) == upsert_spec(idx, key, e),
{
    lemma_upsert_entries_for(idx, key, e);
    let before = entries_for(idx, key);
    if !before.contains(e) {
        assert(before.push(e)[before.len() as int] == e);
    }
    assert(entries_for(upsert_spec(idx, key, e), key).contains(e));
    lemma_upsert_noop(upsert_spec(idx, key, e), key, e);
}

/// From an absent key, two identical upserts leave exactly one entry
/// under that key.
pub proof fn lemma_upsert_twice_single(idx: Seq<BucketView>, key: Seq<char>, e: EntryView)
    requires
        !has_key(idx, key),
    ensures
        entries_for(upsert_spec(upsert_spec(idx, key, e), key, e), key) == seq![e],
{
    assert forall|j: int| 0 <= j < idx.len() implies idx[j].key != key by {
        if idx[j].key == key {
            assert(has_key(idx, key));
        }
    }
    lemma_entries_for_absent(idx, key);
    lemma_upsert_entries_for(idx, key, e);
    assert(entries_for(upsert_spec(idx, key, e), key) =~= seq![e]);
    lemma_upsert_idempotent(idx, key, e);
}

/// With no exact match but a non-empty prefix tier, the default cascade
/// answers with exactly the prefix tier.
pub proof fn lemma_cascade_stops_at_prefix(d: JishoView, raw: Seq<char>)
    requires
        mode_of(raw) == MatchMode::Default,
        entries_for(routed_index(d, cleaned_of(raw)), cleaned_of(raw)).len() == 0,
        collect_prefix(routed_index(d, cleaned_of(raw)), cleaned_of(raw), Seq::empty()).len()
            > 0,
    ensures
        lookup_spec(d, raw) == sort_by_freq(
            collect_prefix(routed_index(d, cleaned_of(raw)), cleaned_of(raw), Seq::empty()),
        ),
{
}

/// With no exact and no prefix match but a non-empty postfix tier, the
/// default cascade answers with exactly the postfix tier.
pub proof fn lemma_cascade_falls_to_postfix(d: JishoView, raw: Seq<char>)
    requires
        mode_of(raw) == MatchMode::Default,
        entries_for(routed_index(d, cleaned_of(raw)), cleaned_of(raw)).len() == 0,
        collect_prefix(routed_index(d, cleaned_of(raw)), cleaned_of(raw), Seq::empty()).len()
            == 0,
    ensures
        lookup_spec(d, raw) == sort_by_freq(
            collect_postfix(routed_index(d, cleaned_of(raw)), cleaned_of(raw), Seq::empty()),
        ),
{
}

/// When every tier is empty the default cascade answers with nothing.
pub proof fn lemma_cascade_all_empty(d: JishoView, raw: Seq<char>)
    requires
        mode_of(raw) == MatchMode::Default,
        entries_for(routed_index(d, cleaned_of(raw)), cleaned_of(raw)).len() == 0,
        collect_prefix(routed_index(d, cleaned_of(raw)), cleaned_of(raw), Seq::empty()).len()
            == 0,
        collect_postfix(routed_index(d, cleaned_of(raw)), cleaned_of(raw), Seq::empty()).len()
            == 0,
    ensures
        lookup_spec(d, raw) == Seq::<EntryView>::empty(),
{
    let tier = cascade(routed_index(d, cleaned_of(raw)), cleaned_of(raw));
    assert(tier.len() == 0);
    assert(tier =~= Seq::<EntryView>::empty());
    assert(sort_by_freq(tier) == Seq::<EntryView>::empty());
}

/// For any engine and any input, adjacent results never descend in
/// frequency.
pub proof fn lemma_lookup_sorted(d: JishoView, raw: Seq<char>)
    ensures
        sorted_by_freq(lookup_spec(d, raw)),
{
    let term = cleaned_of(raw);
    let idx = routed_index(d, term);
    lemma_sort_by_freq_sorted(cascade(idx, term));
    lemma_sort_by_freq_sorted(entries_for(idx, term));
    lemma_sort_by_freq_sorted(collect_prefix(idx, term, Seq::empty()));
    lemma_sort_by_freq_sorted(collect_postfix(idx, term, Seq::empty()));
}

/// The entries stored under any key of a well-formed index hold no
/// structural duplicates.
pub proof fn lemma_entries_for_no_duplicates(idx: Seq<BucketView>, key: Seq<char>)
    requires
        index_wf(idx),
    ensures
        entries_for(idx, key).no_duplicates(),
    decreases idx.len(),
{
    if idx.len() == 0 {
    } else if idx[0].key == key {
    } else {
        assert(index_wf(idx.drop_first())) by {
            assert(forall|i: int, j: int|
                0 <= i < j < idx.drop_first().len() ==> idx.drop_first()[i].key
                    != idx.drop_first()[j].key);
            assert(forall|i: int|
                0 <= i < idx.drop_first().len() ==> (#[trigger] idx.drop_first()[i].entries)
                    =~= idx[i + 1].entries);
        }
        lemma_entries_for_no_duplicates(idx.drop_first(), key);
    }
}

proof fn lemma_dedup_into_no_duplicates(acc: Seq<EntryView>, es: Seq<EntryView>)
    requires
        acc.no_duplicates(),
    ensures
        dedup_into(acc, es).no_duplicates(),
    decreases es.len(),
{
    if es.len() > 0 {
        let acc2 = if acc.contains(es.first()) {
            acc
        } else {
            acc.push(es.first())
        };
        assert(acc2.no_duplicates()) by {
            if !acc.contains(es.first()) {
                assert(forall|j: int| 0 <= j < acc.len() ==> acc[j] != es.first());
                assert(forall|j: int| 0 <= j < acc.len() ==> acc.push(es.first())[j] == acc[j]);
            }
        }
        lemma_dedup_into_no_duplicates(acc2, es.drop_first());
    }
}

proof fn lemma_collect_prefix_no_duplicates(
    idx: Seq<BucketView>,
    term: Seq<char>,
    acc: Seq<EntryView>,
)
    requires
        acc.no_duplicates(),
    ensures
        collect_prefix(idx, term, acc).no_duplicates(),
    decreases idx.len(),
{
    if idx.len() > 0 {
        let acc2 = if term.is_prefix_of(idx.first().key) {
            dedup_into(acc, idx.first().entries)
        } else {
            acc
        };
        lemma_dedup_into_no_duplicates(acc, idx.first().entries);
        lemma_collect_prefix_no_duplicates(idx.drop_first(), term, acc2);
    }
}

proof fn lemma_collect_postfix_no_duplicates(
    idx: Seq<BucketView>,
    term: Seq<char>,
    acc: Seq<EntryView>,
)
    requires
        acc.no_duplicates(),
    ensures
        collect_postfix(idx, term, acc).no_duplicates(),
    decreases idx.len(),
{
    if idx.len() > 0 {
        let acc2 = if term.is_suffix_of(idx.first().key) {
            dedup_into(acc, idx.first().entries)
        } else {
            acc
        };
        lemma_dedup_into_no_duplicates(acc, idx.first().entries);
        lemma_collect_postfix_no_duplicates(idx.drop_first(), term, acc2);
    }
}

/// For a well-formed engine, no result sequence holds two structurally
/// equal entries.
pub proof fn lemma_lookup_no_duplicates(d: JishoView, raw: Seq<char>)
    requires
        crate::engine::jisho_wf(d),
    ensures
        lookup_spec(d, raw).no_duplicates(),
{
    let term = cleaned_of(raw);
    let idx = routed_index(d, term);
    lemma_entries_for_no_duplicates(idx, term);
    lemma_collect_prefix_no_duplicates(idx, term, Seq::empty());
    lemma_collect_postfix_no_duplicates(idx, term, Seq::empty());
    lemma_sort_by_freq_no_duplicates(entries_for(idx, term));
    lemma_sort_by_freq_no_duplicates(collect_prefix(idx, term, Seq::empty()));
    lemma_sort_by_freq_no_duplicates(collect_postfix(idx, term, Seq::empty()));
    lemma_sort_by_freq_no_duplicates(cascade(idx, term));
}

/// An engine built from no records answers every query with nothing: the
/// degraded mode when the source cannot be read.
pub proof fn lemma_empty_engine_answers_empty(version: Seq<char>, raw: Seq<char>)
    ensures
        lookup_spec(built_jisho(Seq::empty(), version), raw) == Seq::<EntryView>::empty(),
{
    let d = built_jisho(Seq::empty(), version);
    assert(d == crate::engine::empty_jisho(version));
    let term = cleaned_of(raw);
    let idx = routed_index(d, term);
    assert(idx =~= Seq::<BucketView>::empty());
    assert(entries_for(idx, term) == Seq::<EntryView>::empty());
    assert(collect_prefix(idx, term, Seq::empty()) == Seq::<EntryView>::empty());
    assert(collect_postfix(idx, term, Seq::empty()) == Seq::<EntryView>::empty());
    assert(cascade(idx, term) == Seq::<EntryView>::empty());
    assert(sort_by_freq(Seq::<EntryView>::empty()) == Seq::<EntryView>::empty());
}

/// A term with any kanji character is routed to the written-form index,
/// whatever else it holds; a term of kana characters only is routed to the
/// reading index; every other term is routed to the gloss index.
pub proof fn lemma_script_routing(d: JishoView, term: Seq<char>)
    ensures
        (exists|i: int| 0 <= i < term.len() && #[trigger] is_kanji_char(term[i]))
            ==> routed_index(d, term) == d.j2e,
        ((forall|i: int| 0 <= i < term.len() ==> #[trigger] is_kana_char(term[i])) && !(
        exists|i: int| 0 <= i < term.len() && #[trigger] is_kanji_char(term[i])))
            ==> routed_index(d, term) == d.reading,
        (!(forall|i: int| 0 <= i < term.len() ==> #[trigger] is_kana_char(term[i])) && !(
        exists|i: int| 0 <= i < term.len() && #[trigger] is_kanji_char(term[i])))
            ==> routed_index(d, term) == d.e2j,
{
}

} // verus!
