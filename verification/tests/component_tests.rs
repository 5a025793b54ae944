//! Tests of the single components: normalizer, mode selector, classifier,
//! rank parser, string helpers, and the index itself.

use jisho::entry::Entry;
use jisho::gloss::{normalize, trim_str};
use jisho::index::{Bucket, Index};
use jisho::mode::{select_mode, MatchMode};
use jisho::rank::parse_rank;
use jisho::script::{classify, Script};
use jisho::text::{strip_first, strip_last, to_lower_str};

fn entry(kanji: &str, freq: i32) -> Entry {
    Entry {
        kanji: kanji.to_string(),
        reading: "よみ".to_string(),
        meanings: vec!["word".to_string()],
        frequency: freq,
    }
}

#[test]
fn normalize_cuts_trailing_parenthetical() {
    assert_eq!(normalize("to depart (archaic)"), "to depart");
}

#[test]
fn normalize_keeps_leading_parenthetical() {
    // The asymmetry is deliberate: only glosses that end with ')' are cut.
    assert_eq!(normalize("(archaic) to depart"), "(archaic) to depart");
}

#[test]
fn normalize_lowercases() {
    assert_eq!(normalize("Green Tea"), "green tea");
    assert_eq!(normalize("Green Tea (beverage)"), "green tea");
}

#[test]
fn normalize_cuts_before_first_paren() {
    assert_eq!(normalize("cut (here) not (there)"), "cut");
}

#[test]
fn normalize_of_bare_parens_is_empty() {
    assert_eq!(normalize("()"), "");
}

#[test]
fn normalize_ignores_paren_without_close() {
    assert_eq!(normalize("a (b"), "a (b");
}

#[test]
fn trim_strips_surrounding_whitespace() {
    assert_eq!(trim_str("  green \t"), "green");
    assert_eq!(trim_str("   "), "");
    assert_eq!(trim_str("x"), "x");
}

#[test]
fn lowercase_is_ascii_only() {
    assert_eq!(to_lower_str("ABC xyz 緑"), "abc xyz 緑");
}

#[test]
fn select_mode_reads_sigils() {
    assert_eq!(select_mode("=緑"), (MatchMode::Exact, "緑"));
    assert_eq!(select_mode("緑*"), (MatchMode::Prefix, "緑"));
    assert_eq!(select_mode("緑＊"), (MatchMode::Prefix, "緑"));
    assert_eq!(select_mode("*緑"), (MatchMode::Postfix, "緑"));
    assert_eq!(select_mode("＊緑"), (MatchMode::Postfix, "緑"));
    assert_eq!(select_mode("緑"), (MatchMode::Default, "緑"));
}

#[test]
fn select_mode_prefers_exact_then_prefix() {
    // A leading = wins over everything; a trailing star wins over a
    // leading one.
    assert_eq!(select_mode("=緑*"), (MatchMode::Exact, "緑*"));
    assert_eq!(select_mode("*緑*"), (MatchMode::Prefix, "*緑"));
}

#[test]
fn select_mode_of_lone_sigils() {
    assert_eq!(select_mode("="), (MatchMode::Exact, ""));
    assert_eq!(select_mode("*"), (MatchMode::Prefix, ""));
}

#[test]
fn classify_routes_scripts() {
    assert_eq!(classify("緑"), Script::Kanji);
    assert_eq!(classify("緑みどり"), Script::Kanji);
    assert_eq!(classify("みどり"), Script::Kana);
    assert_eq!(classify("ミドリ"), Script::Kana);
    assert_eq!(classify("みどりミドリ"), Script::Kana);
    assert_eq!(classify("green"), Script::Other);
    assert_eq!(classify("みどりx"), Script::Other);
    assert_eq!(classify("犬"), Script::Kanji);
}

#[test]
fn classify_compatibility_ideographs() {
    // U+FA11 sits in the CJK Compatibility Ideographs block.
    assert_eq!(classify("\u{fa11}"), Script::Kanji);
}

#[test]
fn strip_first_and_last_work_by_character() {
    assert_eq!(strip_first("abc"), "bc");
    assert_eq!(strip_last("abc"), "ab");
    assert_eq!(strip_first("緑茶"), "茶");
    assert_eq!(strip_last("緑＊"), "緑");
    assert_eq!(strip_first(""), "");
    assert_eq!(strip_last(""), "");
}

#[test]
fn parse_rank_reads_the_digits_after_the_prefix() {
    assert_eq!(parse_rank("nf03"), 3);
    assert_eq!(parse_rank("nf17"), 17);
    assert_eq!(parse_rank("nf+8"), 8);
    assert_eq!(parse_rank("nf-5"), -5);
}

#[test]
fn parse_rank_defaults_on_bad_markers() {
    assert_eq!(parse_rank(""), 999);
    assert_eq!(parse_rank("nf"), 999);
    assert_eq!(parse_rank("nfxx"), 999);
    assert_eq!(parse_rank("nf1x"), 999);
    assert_eq!(parse_rank("nf-"), 999);
    assert_eq!(parse_rank("nf99999999999999999999"), 999);
}

#[test]
fn upsert_deduplicates_structurally_equal_entries() {
    let mut idx = Index::new();
    idx.upsert("緑", &entry("緑", 3));
    idx.upsert("緑", &entry("緑", 3));
    let stored = idx.get("緑").unwrap();
    assert_eq!(stored.len(), 1);
    assert!(idx.get("青").is_none());
}

#[test]
fn upsert_keeps_distinct_entries_in_order() {
    let mut idx = Index::new();
    idx.upsert("緑", &entry("緑", 3));
    idx.upsert("緑", &entry("翠", 5));
    let stored = idx.get("緑").unwrap();
    assert_eq!(stored.len(), 2);
    assert_eq!(stored[0].kanji, "緑");
    assert_eq!(stored[1].kanji, "翠");
}

#[test]
fn from_parts_restores_a_queryable_engine() {
    let d = jisho::engine::Jisho::from_parts(
        &vec![Bucket { key: "緑".to_string(), entries: vec![entry("緑", 3)] }],
        &vec![Bucket { key: "word".to_string(), entries: vec![entry("緑", 3)] }],
        &vec![Bucket { key: "よみ".to_string(), entries: vec![entry("緑", 3)] }],
        "restored".to_string(),
    );
    assert_eq!(jisho::engine::lookup(&d, "緑").len(), 1);
    assert_eq!(jisho::engine::lookup(&d, "よみ").len(), 1);
    assert_eq!(jisho::engine::lookup(&d, "word").len(), 1);
    assert_eq!(d.dictionary_version().as_str(), "restored");
}

#[test]
fn rebuild_merges_repeated_buckets() {
    // Stored parts with a repeated key and a repeated entry collapse into
    // one bucket with one copy of each entry.
    let parts = vec![
        Bucket { key: "緑".to_string(), entries: vec![entry("緑", 3)] },
        Bucket { key: "緑".to_string(), entries: vec![entry("緑", 3), entry("翠", 5)] },
    ];
    let idx = Index::rebuild(&parts);
    let stored = idx.get("緑").unwrap();
    assert_eq!(stored.len(), 2);
    assert_eq!(stored[0].kanji, "緑");
    assert_eq!(stored[1].kanji, "翠");
}
