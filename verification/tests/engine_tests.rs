//! End-to-end queries against a small engine built from raw records.

use jisho::engine::{lookup, Jisho, RawRecord};
use jisho::entry::Entry;

fn midori_entry() -> Entry {
    Entry {
        kanji: "緑".to_string(),
        reading: "みどり".to_string(),
        meanings: vec![
            "green".to_string(),
            "greenery".to_string(),
            "verdure".to_string(),
        ],
        frequency: 3,
    }
}

fn midori_record() -> RawRecord {
    RawRecord {
        writings: vec!["緑".to_string()],
        readings: vec!["みどり".to_string()],
        senses: vec![vec![
            "green".to_string(),
            "greenery".to_string(),
            "verdure".to_string(),
        ]],
        priority: Some("nf03".to_string()),
    }
}

fn engine() -> Jisho {
    Jisho::build(&vec![midori_record()], "test".to_string())
}

#[test]
fn kanji_lookup() {
    let results = lookup(&engine(), "緑");
    assert_eq!(results.first().unwrap(), &midori_entry())
}

#[test]
fn reading_lookup() {
    let results = lookup(&engine(), "みどり");
    assert_eq!(results.first().unwrap(), &midori_entry())
}

#[test]
fn meaning_lookup() {
    let mut results = lookup(&engine(), "green");
    assert!(results.contains(&midori_entry()));

    let results_len = results.len();
    results.dedup();
    assert!(results_len == results.len())
}

fn record(
    writings: &[&str],
    readings: &[&str],
    glosses: &[&str],
    priority: Option<&str>,
) -> RawRecord {
    RawRecord {
        writings: writings.iter().map(|s| s.to_string()).collect(),
        readings: readings.iter().map(|s| s.to_string()).collect(),
        senses: vec![glosses.iter().map(|s| s.to_string()).collect()],
        priority: priority.map(|s| s.to_string()),
    }
}

fn garden_engine() -> Jisho {
    // Three written forms starting with 緑, with distinct ranks, and one
    // unrelated word.
    Jisho::build(
        &vec![
            record(&["緑茶"], &["りょくちゃ"], &["green tea"], Some("nf05")),
            record(&["緑地"], &["りょくち"], &["green space"], Some("nf02")),
            record(&["緑"], &["みどり"], &["green", "greenery"], Some("nf03")),
            record(&["山"], &["やま"], &["mountain"], Some("nf01")),
        ],
        "garden".to_string(),
    )
}

#[test]
fn exact_match_wins_over_prefix() {
    // 緑 has an exact written-form match, so the cascade stops there and
    // the prefix matches 緑茶 and 緑地 do not appear.
    let results = lookup(&garden_engine(), "緑");
    assert_eq!(results.len(), 1);
    assert_eq!(results[0].kanji, "緑");
}

#[test]
fn cascade_reaches_prefix_tier() {
    // 緑 has no exact match here, but two keys start with it.
    let d = Jisho::build(
        &vec![
            record(&["緑茶"], &["りょくちゃ"], &["green tea"], Some("nf05")),
            record(&["緑地"], &["りょくち"], &["green space"], Some("nf02")),
        ],
        "t".to_string(),
    );
    let results = lookup(&d, "緑");
    assert_eq!(results.len(), 2);
    assert_eq!(results[0].kanji, "緑地");
    assert_eq!(results[1].kanji, "緑茶");
}

#[test]
fn cascade_reaches_postfix_tier() {
    // 茶 has no exact match and no key starts with it, but 緑茶 ends with it.
    let d = Jisho::build(
        &vec![record(&["緑茶"], &["りょくちゃ"], &["green tea"], Some("nf05"))],
        "t".to_string(),
    );
    let results = lookup(&d, "茶");
    assert_eq!(results.len(), 1);
    assert_eq!(results[0].kanji, "緑茶");
}

#[test]
fn cascade_with_no_match_is_empty() {
    let results = lookup(&garden_engine(), "青");
    assert!(results.is_empty());
}

#[test]
fn exact_mode_returns_empty_despite_prefix_match() {
    // A leading = forces exact matching: with no exact key 緑, the prefix
    // matches 緑茶 and 緑地 must not be consulted.
    let d = Jisho::build(
        &vec![
            record(&["緑茶"], &["りょくちゃ"], &["green tea"], Some("nf05")),
            record(&["緑地"], &["りょくち"], &["green space"], Some("nf02")),
        ],
        "t".to_string(),
    );
    let results = lookup(&d, "=緑");
    assert!(results.is_empty());
}

#[test]
fn prefix_mode_returns_all_matches_sorted() {
    // 緑* returns every entry whose written form starts with 緑,
    // ascending by frequency rank, without duplicates.
    let results = lookup(&garden_engine(), "緑*");
    let kanji: Vec<&str> = results.iter().map(|e| e.kanji.as_str()).collect();
    assert_eq!(kanji, vec!["緑地", "緑", "緑茶"]);
    let frequencies: Vec<i32> = results.iter().map(|e| e.frequency).collect();
    assert_eq!(frequencies, vec![2, 3, 5]);
}

#[test]
fn fullwidth_star_selects_prefix_mode() {
    let results = lookup(&garden_engine(), "緑＊");
    assert_eq!(results.len(), 3);
}

#[test]
fn postfix_mode_with_leading_star() {
    let results = lookup(&garden_engine(), "*茶");
    assert_eq!(results.len(), 1);
    assert_eq!(results[0].kanji, "緑茶");
}

#[test]
fn mixed_kanji_and_kana_routes_to_written_forms() {
    // Any kanji character routes to the written-form index, even mixed
    // with kana, so the reading みどり must not answer here.
    let d = Jisho::build(
        &vec![record(&["緑す"], &["みどりす"], &["greenish"], None)],
        "t".to_string(),
    );
    let results = lookup(&d, "緑す");
    assert_eq!(results.len(), 1);
    let none = lookup(&d, "みどり緑x");
    assert!(none.is_empty());
}

#[test]
fn katakana_routes_to_readings() {
    let d = Jisho::build(
        &vec![record(&["林檎"], &["リンゴ"], &["apple"], None)],
        "t".to_string(),
    );
    let results = lookup(&d, "リンゴ");
    assert_eq!(results.len(), 1);
    assert_eq!(results[0].kanji, "林檎");
}

#[test]
fn every_written_form_is_indexed() {
    // A record with two written forms is reachable under both, and the
    // entry carries the first of them.
    let d = Jisho::build(
        &vec![record(&["緑", "翠"], &["みどり"], &["green"], None)],
        "t".to_string(),
    );
    let via_second = lookup(&d, "翠");
    assert_eq!(via_second.len(), 1);
    assert_eq!(via_second[0].kanji, "緑");
}

#[test]
fn repeated_glosses_insert_once() {
    // The same gloss in two senses points at the same headword; the entry
    // must still appear only once under it.
    let d = Jisho::build(
        &vec![RawRecord {
            writings: vec!["緑".to_string()],
            readings: vec!["みどり".to_string()],
            senses: vec![vec!["green".to_string()], vec!["green".to_string()]],
            priority: None,
        }],
        "t".to_string(),
    );
    let results = lookup(&d, "green");
    assert_eq!(results.len(), 1);
}

#[test]
fn equal_ranks_keep_scan_order() {
    // Entries of equal rank keep the order in which the scan collected
    // them: the sort is stable.
    let d = Jisho::build(
        &vec![
            record(&["緑茶"], &["りょくちゃ"], &["green tea"], Some("nf07")),
            record(&["緑地"], &["りょくち"], &["green space"], Some("nf07")),
        ],
        "t".to_string(),
    );
    let results = lookup(&d, "緑*");
    let kanji: Vec<&str> = results.iter().map(|e| e.kanji.as_str()).collect();
    assert_eq!(kanji, vec!["緑茶", "緑地"]);
}

#[test]
fn empty_term_after_sigil_matches_every_key() {
    // "*" strips to an empty prefix, which matches every key of the
    // routed index; the empty term is all-kana vacuously, so the reading
    // index answers.
    let results = lookup(&garden_engine(), "*");
    assert_eq!(results.len(), 4);
}

#[test]
fn empty_build_answers_empty() {
    let d = Jisho::build(&vec![], "unknown".to_string());
    assert!(lookup(&d, "緑").is_empty());
    assert!(lookup(&d, "green").is_empty());
    assert_eq!(d.dictionary_version().as_str(), "unknown");
}

#[test]
fn version_marker_is_kept() {
    assert_eq!(garden_engine().dictionary_version().as_str(), "garden");
}

#[test]
fn unranked_records_sort_last() {
    let d = Jisho::build(
        &vec![
            record(&["緑茶"], &["りょくちゃ"], &["green tea"], None),
            record(&["緑地"], &["りょくち"], &["green space"], Some("nf02")),
        ],
        "t".to_string(),
    );
    let results = lookup(&d, "緑*");
    assert_eq!(results[0].kanji, "緑地");
    assert_eq!(results[1].kanji, "緑茶");
    assert_eq!(results[1].frequency, 999);
}
