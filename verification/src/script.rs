//! Script classification: which of the three indices a term is routed to.

use vstd::prelude::*;

verus! {

/// The script family of a query term. `Kanji` routes to the written-form
/// index, `Kana` to the reading index, `Other` to the gloss index.
#[derive(Clone, Copy, Debug, PartialEq, Eq, Structural)]
pub enum Script {
    Kanji,
    Kana,
    Other,
}

/// CJK Unified Ideographs or CJK Compatibility Ideographs.
pub open spec fn is_kanji_char(c: char) -> bool {
    ('\u{4e00}' <= c && c <= '\u{9fff}') || ('\u{f900}' <= c && c <= '\u{faff}')
}

pub open spec fn is_hiragana_char(c: char) -> bool {
    '\u{3040}' <= c && c <= '\u{309f}'
}

pub open spec fn is_katakana_char(c: char) -> bool {
    '\u{30a0}' <= c && c <= '\u{30ff}'
}

pub open spec fn is_kana_char(c: char) -> bool {
    is_hiragana_char(c) || is_katakana_char(c)
}

/// A term with any kanji character is `Kanji`, even mixed with kana; a term
/// of kana characters only is `Kana`; anything else is `Other`.
pub open spec fn classify_seq(s: Seq<char>) -> Script {
    if exists|i: int| 0 <= i < s.len() && #[trigger] is_kanji_char(s[i]) {
        Script::Kanji
    } else if forall|i: int| 0 <= i < s.len() ==> #[trigger] is_kana_char(s[i]) {
        Script::Kana
    } else {
        Script::Other
    }
}

pub fn is_kanji(c: &char) -> (r: bool)
    ensures
        r == is_kanji_char(*c),
{
    ('\u{4e00}' <= *c && *c <= '\u{9fff}') || ('\u{f900}' <= *c && *c <= '\u{faff}')
}

pub fn is_hiragana(c: &char) -> (r: bool)
    ensures
        r == is_hiragana_char(*c),
{
    '\u{3040}' <= *c && *c <= '\u{309f}'
}

pub fn is_katakana(c: &char) -> (r: bool)
    ensures
        r == is_katakana_char(*c),
{
    '\u{30a0}' <= *c && *c <= '\u{30ff}'
}

/// Scan every character of the term and pick the index family.
pub fn classify(text: &str) -> (r: Script)
    ensures
        r == classify_seq(text@),
{
    let n = text.unicode_len();
    let mut i: usize = 0;
    while i < n
        invariant
            n == text@.len(),
            i <= n,
            forall|j: int| 0 <= j < i ==> !#[trigger] is_kanji_char(text@[j]),
        decreases n - i,
    {
        let c = text.get_char(i);
        if is_kanji(&c) {
            assert(is_kanji_char(text@[i as int]));
            return Script::Kanji;
        }
        i += 1;
    }
    let mut k: usize = 0;
    while k < n
        invariant
            n == text@.len(),
            k <= n,
            forall|j: int| 0 <= j < n ==> !#[trigger] is_kanji_char(text@[j]),
            forall|j: int| 0 <= j < k ==> #[trigger] is_kana_char(text@[j]),
        decreases n - k,
    {
        let c = text.get_char(k);
        if !(is_hiragana(&c) || is_katakana(&c)) {
            assert(!is_kana_char(text@[k as int]));
            return Script::Other;
        }
        k += 1;
    }
    Script::Kana
}

} // verus!
