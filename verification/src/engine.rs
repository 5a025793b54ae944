//! The engine: raw records folded into the three indices at build time,
//! and the single public query entry point at run time.

use crate::entry::{entry_views, Entry, EntryView};
use crate::gloss::{normalize, normalize_seq};
use crate::index::{
    apply_parts, bucket_views, entries_for, index_wf, lemma_upsert_wf, upsert_spec, Bucket,
    BucketView, Index,
};
use crate::mode::{cleaned_of, mode_of, select_mode, MatchMode};
use crate::query::{
    cascade, collect_exact_results, collect_postfix, collect_postfix_results, collect_prefix,
    collect_prefix_results, collect_results,
};
use crate::rank::{freq_of, parse_rank, DEFAULT_RANK};
use crate::script::{classify, classify_seq, Script};
use crate::sort::{sort_by_freq, sorted_by_freq};
use vstd::prelude::*;

verus! {

/// One raw headword group from the dictionary source: every written form,
/// every reading, the senses with their glosses, and an optional
/// frequency-rank marker.
pub struct RawRecord {
    pub writings: Vec<String>,
    pub readings: Vec<String>,
    pub senses: Vec<Vec<String>>,
    pub priority: Option<String>,
}

/// The mathematical content of a [`RawRecord`].
pub struct RawRecordView {
    pub writings: Seq<Seq<char>>,
    pub readings: Seq<Seq<char>>,
    pub senses: Seq<Seq<Seq<char>>>,
    pub priority: Option<Seq<char>>,
}

impl View for RawRecord {
    type V = RawRecordView;

    open spec fn view(&self) -> RawRecordView {
        RawRecordView {
            writings: self.writings.deep_view(),
            readings: self.readings.deep_view(),
            senses: self.senses.deep_view(),
            priority: self.priority.deep_view(),
        }
    }
}

pub open spec fn record_views(s: Seq<RawRecord>) -> Seq<RawRecordView> {
    s.map_values(|r: RawRecord| r@)
}

/// The entry a record builds: its first written form (or empty), its
/// first reading (or empty), every gloss of every sense in order, and the
/// parsed frequency rank.
pub open spec fn entry_of(r: RawRecordView) -> EntryView {
    EntryView {
        kanji: if r.writings.len() > 0 {
            r.writings.first()
        } else {
            Seq::empty()
        },
        reading: if r.readings.len() > 0 {
            r.readings.first()
        } else {
            Seq::empty()
        },
        meanings: r.senses.flatten(),
        frequency: freq_of(r.priority),
    }
}

/// Upsert `e` under every key of `keys`, in order.
pub open spec fn upsert_all(
    idx: Seq<BucketView>,
    keys: Seq<Seq<char>>,
    e: EntryView,
) -> Seq<BucketView>
    decreases keys.len(),
{
    if keys.len() == 0 {
        idx
    } else {
        upsert_all(upsert_spec(idx, keys.first(), e), keys.drop_first(), e)
    }
}

/// Upsert `e` under the normalized headword of every gloss, in order.
pub open spec fn upsert_glosses(
    idx: Seq<BucketView>,
    glosses: Seq<Seq<char>>,
    e: EntryView,
) -> Seq<BucketView>
    decreases glosses.len(),
{
    if glosses.len() == 0 {
        idx
    } else {
        upsert_glosses(upsert_spec(idx, normalize_seq(glosses.first()), e), glosses.drop_first(), e)
    }
}

/// The three indices and the version marker.
pub struct JishoView {
    pub j2e: Seq<BucketView>,
    pub e2j: Seq<BucketView>,
    pub reading: Seq<BucketView>,
    pub version: Seq<char>,
}

/// The dictionary engine: the written-form index, the gloss index, the
/// reading index, and the source version marker. Built once, then queried
/// read-only.
pub struct Jisho {
    pub j2e: Index,
    pub e2j: Index,
    pub reading: Index,
    pub version: String,
}

impl View for Jisho {
    type V = JishoView;

    open spec fn view(&self) -> JishoView {
        JishoView {
            j2e: self.j2e@,
            e2j: self.e2j@,
            reading: self.reading@,
            version: self.version@,
        }
    }
}

pub open spec fn jisho_wf(d: JishoView) -> bool {
    index_wf(d.j2e) && index_wf(d.e2j) && index_wf(d.reading)
}

/// One record folded into the three indices: its entry goes under every
/// written form, under the normalized headword of every gloss, and under
/// every reading.
pub open spec fn apply_record(d: JishoView, r: RawRecordView) -> JishoView {
    JishoView {
        j2e: upsert_all(d.j2e, r.writings, entry_of(r)),
        e2j: upsert_glosses(d.e2j, r.senses.flatten(), entry_of(r)),
        reading: upsert_all(d.reading, r.readings, entry_of(r)),
        version: d.version,
    }
}

/// All records folded in, first to last.
pub open spec fn build_from(d: JishoView, records: Seq<RawRecordView>) -> JishoView
    decreases records.len(),
{
    if records.len() == 0 {
        d
    } else {
        build_from(apply_record(d, records.first()), records.drop_first())
    }
}

pub open spec fn empty_jisho(version: Seq<char>) -> JishoView {
    JishoView {
        j2e: Seq::empty(),
        e2j: Seq::empty(),
        reading: Seq::empty(),
        version: version,
    }
}

/// The engine a record list builds.
pub open spec fn built_jisho(records: Seq<RawRecordView>, version: Seq<char>) -> JishoView {
    build_from(empty_jisho(version), records)
}

pub proof fn lemma_upsert_all_concat(
    idx: Seq<BucketView>,
    a: Seq<Seq<char>>,
    b: Seq<Seq<char>>,
    e: EntryView,
)
    ensures
        upsert_all(idx, a + b, e) == upsert_all(upsert_all(idx, a, e), b, e),
    decreases a.len(),
{
    if a.len() == 0 {
        assert(a + b =~= b);
    } else {
        assert((a + b).first() == a.first());
        assert((a + b).drop_first() =~= a.drop_first() + b);
        lemma_upsert_all_concat(upsert_spec(idx, a.first(), e), a.drop_first(), b, e);
    }
}

pub proof fn lemma_upsert_glosses_concat(
    idx: Seq<BucketView>,
    a: Seq<Seq<char>>,
    b: Seq<Seq<char>>,
    e: EntryView,
)
    ensures
        upsert_glosses(idx, a + b, e) == upsert_glosses(upsert_glosses(idx, a, e), b, e),
    decreases a.len(),
{
    if a.len() == 0 {
        assert(a + b =~= b);
    } else {
        assert((a + b).first() == a.first());
        assert((a + b).drop_first() =~= a.drop_first() + b);
        lemma_upsert_glosses_concat(
            upsert_spec(idx, normalize_seq(a.first()), e),
            a.drop_first(),
            b,
            e,
        );
    }
}

pub proof fn lemma_build_from_concat(
    d: JishoView,
    a: Seq<RawRecordView>,
    b: Seq<RawRecordView>,
)
    ensures
        build_from(d, a + b) == build_from(build_from(d, a), b),
    decreases a.len(),
{
    if a.len() == 0 {
        assert(a + b =~= b);
    } else {
        assert((a + b).first() == a.first());
        assert((a + b).drop_first() =~= a.drop_first() + b);
        lemma_build_from_concat(apply_record(d, a.first()), a.drop_first(), b);
    }
}

pub proof fn lemma_upsert_all_wf(idx: Seq<BucketView>, keys: Seq<Seq<char>>, e: EntryView)
    requires
        index_wf(idx),
    ensures
        index_wf(upsert_all(idx, keys, e)),
    decreases keys.len(),
{
    if keys.len() > 0 {
        lemma_upsert_wf(idx, keys.first(), e);
        lemma_upsert_all_wf(upsert_spec(idx, keys.first(), e), keys.drop_first(), e);
    }
}

pub proof fn lemma_upsert_glosses_wf(idx: Seq<BucketView>, glosses: Seq<Seq<char>>, e: EntryView)
    requires
        index_wf(idx),
    ensures
        index_wf(upsert_glosses(idx, glosses, e)),
    decreases glosses.len(),
{
    if glosses.len() > 0 {
        lemma_upsert_wf(idx, normalize_seq(glosses.first()), e);
        lemma_upsert_glosses_wf(
            upsert_spec(idx, normalize_seq(glosses.first()), e),
            glosses.drop_first(),
            e,
        );
    }
}

pub proof fn lemma_apply_record_wf(d: JishoView, r: RawRecordView)
    requires
        jisho_wf(d),
    ensures
        jisho_wf(apply_record(d, r)),
{
    lemma_upsert_all_wf(d.j2e, r.writings, entry_of(r));
    lemma_upsert_glosses_wf(d.e2j, r.senses.flatten(), entry_of(r));
    lemma_upsert_all_wf(d.reading, r.readings, entry_of(r));
}

/// Every gloss of every sense, in order, as one flat list.
fn flatten_glosses(senses: &Vec<Vec<String>>) -> (r: Vec<String>)
    ensures
        r.deep_view() == senses.deep_view().flatten(),
{
    let mut out: Vec<String> = Vec::new();
    let n = senses.len();
    let mut i: usize = 0;
    proof {
        assert(senses.deep_view().take(0) =~= Seq::<Seq<Seq<char>>>::empty());
        assert(out.deep_view() =~= Seq::<Seq<Seq<char>>>::empty().flatten());
    }
    while i < n
        invariant
            n == senses@.len(),
            i <= n,
            out.deep_view() == senses.deep_view().take(i as int).flatten(),
        decreases n - i,
    {
        let ghost base = out.deep_view();
        let ghost inner = senses.deep_view()[i as int];
        let m = senses[i].len();
        let mut k: usize = 0;
        while k < m
            invariant
                i < n,
                n == senses@.len(),
                m == senses@[i as int]@.len(),
                k <= m,
                inner == senses.deep_view()[i as int],
                out.deep_view() == base + inner.take(k as int),
            decreases m - k,
        {
            out.push(senses[i][k].clone());
            proof {
                assert(senses@[i as int]@[k as int]@ == inner[k as int]);
                assert(base + inner.take(k + 1) =~= (base + inner.take(k as int)).push(
                    inner[k as int],
                ));
            }
            k += 1;
        }
        proof {
            assert(inner.take(m as int) =~= inner);
            Seq::lemma_flatten_push(senses.deep_view().take(i as int), inner);
            assert(senses.deep_view().take(i + 1) =~= senses.deep_view().take(
                i as int,
            ).push(inner));
        }
        i += 1;
    }
    proof {
        assert(senses.deep_view().take(n as int) =~= senses.deep_view());
    }
    out
}

/// Fold one record into the three indices.
fn apply_one(d: &mut Jisho, r: &RawRecord)
    ensures
        final(d)@ == apply_record(old(d)@, r@),
{
    let freq: i32 = match &r.priority {
        Some(m) => parse_rank(m.as_str()),
        None => DEFAULT_RANK,
    };
    let meanings = flatten_glosses(&r.senses);
    let kanji: String = if r.writings.len() > 0 {
        r.writings[0].clone()
    } else {
        String::new()
    };
    let reading_str: String = if r.readings.len() > 0 {
        r.readings[0].clone()
    } else {
        String::new()
    };
    let e = Entry { kanji, reading: reading_str, meanings, frequency: freq };
    proof {
        assert(e@.kanji == entry_of(r@).kanji);
        assert(e@.reading == entry_of(r@).reading);
        assert(e@.meanings == entry_of(r@).meanings);
        assert(e@.frequency == entry_of(r@).frequency);
        assert(e@ == entry_of(r@));
    }
    let nw = r.writings.len();
    let mut k: usize = 0;
    proof {
        assert(r@.writings.take(0) =~= Seq::<Seq<char>>::empty());
    }
    while k < nw
        invariant
            nw == r.writings@.len(),
            k <= nw,
            e@ == entry_of(r@),
            d.j2e@ == upsert_all(old(d).j2e@, r@.writings.take(k as int), e@),
            d.e2j@ == old(d).e2j@,
            d.reading@ == old(d).reading@,
            d.version == old(d).version,
        decreases nw - k,
    {
        let ghost before = d.j2e@;
        let ghost key = r@.writings[k as int];
        d.j2e.upsert(r.writings[k].as_str(), &e);
        proof {
            lemma_upsert_all_concat(old(d).j2e@, r@.writings.take(k as int), seq![key], e@);
            assert(r@.writings.take(k + 1) =~= r@.writings.take(k as int) + seq![key]);
            assert(seq![key].drop_first() =~= Seq::<Seq<char>>::empty());
            let step = upsert_spec(before, key, e@);
            assert(seq![key].first() == key);
            assert(upsert_all(step, seq![key].drop_first(), e@) == step);
            assert(upsert_all(before, seq![key], e@) == step);
        }
        k += 1;
    }
    proof {
        assert(r@.writings.take(nw as int) =~= r@.writings);
    }
    let ng = e.meanings.len();
    let mut g: usize = 0;
    proof {
        assert(e@.meanings.take(0) =~= Seq::<Seq<char>>::empty());
    }
    while g < ng
        invariant
            ng == e.meanings@.len(),
            g <= ng,
            e@ == entry_of(r@),
            d.j2e@ == upsert_all(old(d).j2e@, r@.writings, e@),
            d.e2j@ == upsert_glosses(old(d).e2j@, e@.meanings.take(g as int), e@),
            d.reading@ == old(d).reading@,
            d.version == old(d).version,
        decreases ng - g,
    {
        let ghost before = d.e2j@;
        let ghost gl = e@.meanings[g as int];
        let headword = normalize(e.meanings[g].as_str());
        d.e2j.upsert(headword.as_str(), &e);
        proof {
            lemma_upsert_glosses_concat(old(d).e2j@, e@.meanings.take(g as int), seq![gl], e@);
            assert(e@.meanings.take(g + 1) =~= e@.meanings.take(g as int) + seq![gl]);
            assert(seq![gl].drop_first() =~= Seq::<Seq<char>>::empty());
            let step = upsert_spec(before, normalize_seq(gl), e@);
            assert(seq![gl].first() == gl);
            assert(upsert_glosses(step, seq![gl].drop_first(), e@) == step);
            assert(upsert_glosses(before, seq![gl], e@) == step);
        }
        g += 1;
    }
    proof {
        assert(e@.meanings.take(ng as int) =~= e@.meanings);
    }
    let nr = r.readings.len();
    let mut j: usize = 0;
    proof {
        assert(r@.readings.take(0) =~= Seq::<Seq<char>>::empty());
    }
    while j < nr
        invariant
            nr == r.readings@.len(),
            j <= nr,
            e@ == entry_of(r@),
            d.j2e@ == upsert_all(old(d).j2e@, r@.writings, e@),
            d.e2j@ == upsert_glosses(old(d).e2j@, e@.meanings, e@),
            d.reading@ == upsert_all(old(d).reading@, r@.readings.take(j as int), e@),
            d.version == old(d).version,
        decreases nr - j,
    {
        let ghost before = d.reading@;
        let ghost key = r@.readings[j as int];
        d.reading.upsert(r.readings[j].as_str(), &e);
        proof {
            lemma_upsert_all_concat(old(d).reading@, r@.readings.take(j as int), seq![key], e@);
            assert(r@.readings.take(j + 1) =~= r@.readings.take(j as int) + seq![key]);
            assert(seq![key].drop_first() =~= Seq::<Seq<char>>::empty());
            let step = upsert_spec(before, key, e@);
            assert(seq![key].first() == key);
            assert(upsert_all(step, seq![key].drop_first(), e@) == step);
            assert(upsert_all(before, seq![key], e@) == step);
        }
        j += 1;
    }
    proof {
        assert(r@.readings.take(nr as int) =~= r@.readings);
    }
}

impl Jisho {
    /// Fold the raw records of the source into a fresh engine, in order,
    /// and attach the version marker.
    pub fn build(records: &Vec<RawRecord>, version: String) -> (d: Jisho)
        ensures
            d@ == built_jisho(record_views(records@), version@),
            jisho_wf(d@),
    {
        let ghost ver = version@;
        let mut d = Jisho {
            j2e: Index::new(),
            e2j: Index::new(),
            reading: Index::new(),
            version,
        };
        proof {
            assert(d@ == empty_jisho(ver));
            assert(record_views(records@).take(0) =~= Seq::<RawRecordView>::empty());
        }
        let n = records.len();
        let mut i: usize = 0;
        while i < n
            invariant
                n == records@.len(),
                i <= n,
                d@ == build_from(empty_jisho(ver), record_views(records@).take(i as int)),
                jisho_wf(d@),
            decreases n - i,
        {
            let ghost before = d@;
            let ghost rv = record_views(records@)[i as int];
            apply_one(&mut d, &records[i]);
            proof {
                lemma_build_from_concat(
                    empty_jisho(ver),
                    record_views(records@).take(i as int),
                    seq![rv],
                );
                assert(record_views(records@).take(i + 1) =~= record_views(records@).take(
                    i as int,
                ) + seq![rv]);
                assert(seq![rv].drop_first() =~= Seq::<RawRecordView>::empty());
                let step = apply_record(before, rv);
                assert(seq![rv].first() == rv);
                assert(build_from(step, seq![rv].drop_first()) == step);
                assert(build_from(before, seq![rv]) == step);
                lemma_apply_record_wf(before, rv);
            }
            i += 1;
        }
        proof {
            assert(record_views(records@).take(n as int) =~= record_views(records@));
        }
        d
    }

    /// Rehydrate an engine from stored index parts, as the index store
    /// hands them back, re-establishing every index invariant.
    pub fn from_parts(
        j2e: &Vec<Bucket>,
        e2j: &Vec<Bucket>,
        reading: &Vec<Bucket>,
        version: String,
    ) -> (d: Jisho)
        ensures
            d@.j2e == apply_parts(Seq::empty(), bucket_views(j2e@)),
            d@.e2j == apply_parts(Seq::empty(), bucket_views(e2j@)),
            d@.reading == apply_parts(Seq::empty(), bucket_views(reading@)),
            d@.version == version@,
            jisho_wf(d@),
    {
        Jisho {
            j2e: Index::rebuild(j2e),
            e2j: Index::rebuild(e2j),
            reading: Index::rebuild(reading),
            version,
        }
    }

    /// The version marker of the source dictionary, fixed at build time.
    pub fn dictionary_version(&self) -> (r: &String)
        ensures
            r@ == self@.version,
    {
        &self.version
    }
}

/// The index the script classifier routes a term to.
pub open spec fn routed_index(d: JishoView, term: Seq<char>) -> Seq<BucketView> {
    match classify_seq(term) {
        Script::Kanji => d.j2e,
        Script::Kana => d.reading,
        Script::Other => d.e2j,
    }
}

/// Everything `lookup` returns, as one function of the engine's content
/// and the raw input: the sigils pick the mode, the cleaned term's script
/// picks the index, the mode picks the tier, and the tier's deduplicated
/// entries come back sorted ascending by frequency.
pub open spec fn lookup_spec(d: JishoView, raw: Seq<char>) -> Seq<EntryView> {
    let term = cleaned_of(raw);
    let idx = routed_index(d, term);
    match mode_of(raw) {
        MatchMode::Default => sort_by_freq(cascade(idx, term)),
        MatchMode::Exact => sort_by_freq(entries_for(idx, term)),
        MatchMode::Prefix => sort_by_freq(collect_prefix(idx, term, Seq::empty())),
        MatchMode::Postfix => sort_by_freq(collect_postfix(idx, term, Seq::empty())),
    }
}

/// Answer a single non-empty query term: strip the sigils, classify the
/// script, route to one index, and return the deduplicated entries of the
/// selected tier ascending by frequency.
pub fn lookup(dictionary: &Jisho, input_raw: &str) -> (r: Vec<Entry>)
    requires
        input_raw@.len() > 0,
    ensures
        entry_views(r@) == lookup_spec(dictionary@, input_raw@),
        sorted_by_freq(entry_views(r@)),
        jisho_wf(dictionary@) ==> entry_views(r@).no_duplicates(),
{
    proof {
        crate::laws::lemma_lookup_sorted(dictionary@, input_raw@);
        if jisho_wf(dictionary@) {
            crate::laws::lemma_lookup_no_duplicates(dictionary@, input_raw@);
        }
    }
    let (mode, input) = select_mode(input_raw);
    let script = classify(input);
    let idx: &Index = match script {
        Script::Kanji => &dictionary.j2e,
        Script::Kana => &dictionary.reading,
        Script::Other => &dictionary.e2j,
    };
    proof {
        assert(idx@ == routed_index(dictionary@, cleaned_of(input_raw@)));
    }
    match mode {
        MatchMode::Default => collect_results(idx, input),
        MatchMode::Exact => collect_exact_results(idx, input),
        MatchMode::Prefix => collect_prefix_results(idx, input),
        MatchMode::Postfix => collect_postfix_results(idx, input),
    }
}

} // verus!
