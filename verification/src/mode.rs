//! Match-mode selection: leading and trailing sigils on the raw input pick
//! exact, prefix or postfix matching, and the sigil is stripped by character.

use crate::text::{strip_first, strip_last};
use vstd::prelude::*;

verus! {

/// How the cleaned term is matched against the keys of an index.
#[derive(Clone, Copy, Debug, PartialEq, Eq, Structural)]
pub enum MatchMode {
    Default,
    Exact,
    Prefix,
    Postfix,
}

/// The two prefix sigils: the ASCII asterisk and its full-width variant.
pub open spec fn is_star_char(c: char) -> bool {
    c == '*' || c == '\u{ff0a}'
}

/// The mode selected by the sigils of the raw input, first rule that fits:
/// a leading `=` means exact, a trailing star means prefix, a leading star
/// means postfix, and anything else is the default cascade.
pub open spec fn mode_of(raw: Seq<char>) -> MatchMode {
    if raw.len() > 0 && raw.first() == '=' {
        MatchMode::Exact
    } else if raw.len() > 0 && is_star_char(raw.last()) {
        MatchMode::Prefix
    } else if raw.len() > 0 && is_star_char(raw.first()) {
        MatchMode::Postfix
    } else {
        MatchMode::Default
    }
}

/// The raw input with its sigil stripped; untouched in default mode.
pub open spec fn cleaned_of(raw: Seq<char>) -> Seq<char> {
    match mode_of(raw) {
        MatchMode::Exact => raw.drop_first(),
        MatchMode::Prefix => raw.drop_last(),
        MatchMode::Postfix => raw.drop_first(),
        MatchMode::Default => raw,
    }
}

/// Read the sigils off the raw input and hand back the mode together with
/// the cleaned term.
pub fn select_mode(raw: &str) -> (r: (MatchMode, &str))
    ensures
        r.0 == mode_of(raw@),
        r.1@ == cleaned_of(raw@),
{
    let n = raw.unicode_len();
    if n > 0 {
        let first_char = raw.get_char(0);
        if first_char == '=' {
            return (MatchMode::Exact, strip_first(raw));
        }
        let last_char = raw.get_char(n - 1);
        if last_char == '*' || last_char == '\u{ff0a}' {
            return (MatchMode::Prefix, strip_last(raw));
        }
        if first_char == '*' || first_char == '\u{ff0a}' {
            return (MatchMode::Postfix, strip_first(raw));
        }
    }
    (MatchMode::Default, raw)
}

} // verus!
