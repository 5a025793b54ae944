//! The gloss normalizer: parenthetical qualifiers are cut off the end of
//! an English gloss and the remainder is trimmed and lowercased, so that
//! glosses like "to depart (archaic)" share the headword "to depart".

use crate::text::{is_space, is_space_char, lower_seq, to_lower_str};
use vstd::prelude::*;

verus! {

/// The position of the first '(' in the gloss, or its length when none.
pub open spec fn first_paren(s: Seq<char>) -> int
    decreases s.len(),
{
    if s.len() == 0 {
        0
    } else if s.first() == '(' {
        0
    } else {
        1 + first_paren(s.drop_first())
    }
}

pub proof fn lemma_first_paren(s: Seq<char>)
    ensures
        0 <= first_paren(s) <= s.len(),
        forall|j: int| 0 <= j < first_paren(s) ==> s[j] != '(',
        first_paren(s) < s.len() ==> s[first_paren(s)] == '(',
    decreases s.len(),
{
    if s.len() > 0 && s.first() != '(' {
        lemma_first_paren(s.drop_first());
        assert forall|j: int| 0 <= j < first_paren(s) implies s[j] != '(' by {
            if j > 0 {
                assert(s.drop_first()[j - 1] == s[j]);
                assert(j - 1 < first_paren(s.drop_first()));
            }
        }
        if first_paren(s) < s.len() {
            assert(s.drop_first()[first_paren(s) - 1] == s[first_paren(s)]);
        }
    }
}

/// `first_paren` is pinned by what stands before it and at it.
pub proof fn lemma_first_paren_at(s: Seq<char>, i: int)
    requires
        0 <= i <= s.len(),
        forall|j: int| 0 <= j < i ==> s[j] != '(',
        i < s.len() ==> s[i] == '(',
    ensures
        first_paren(s) == i,
    decreases i,
{
    if i == 0 {
    } else {
        assert(s.first() != '(');
        assert(forall|j: int| 0 <= j < i - 1 ==> s.drop_first()[j] == s[j + 1]);
        assert(i - 1 < s.drop_first().len() ==> s.drop_first()[i - 1] == s[i]);
        lemma_first_paren_at(s.drop_first(), i - 1);
    }
}

/// Leading ASCII whitespace dropped.
pub open spec fn trim_front_seq(s: Seq<char>) -> Seq<char>
    decreases s.len(),
{
    if s.len() > 0 && is_space_char(s.first()) {
        trim_front_seq(s.drop_first())
    } else {
        s
    }
}

/// Trailing ASCII whitespace dropped.
pub open spec fn trim_back_seq(s: Seq<char>) -> Seq<char>
    decreases s.len(),
{
    if s.len() > 0 && is_space_char(s.last()) {
        trim_back_seq(s.drop_last())
    } else {
        s
    }
}

/// Surrounding ASCII whitespace dropped.
pub open spec fn trim_seq(s: Seq<char>) -> Seq<char> {
    trim_back_seq(trim_front_seq(s))
}

pub open spec fn has_char(s: Seq<char>, c: char) -> bool {
    exists|i: int| 0 <= i < s.len() && s[i] == c
}

/// The normalized headword of a gloss. When the gloss ends with ')' and
/// holds an earlier '(', the text before the first '(' is kept, trimmed of
/// surrounding whitespace and lowercased; otherwise the gloss is lowercased
/// unchanged. A gloss that merely *begins* with a parenthetical qualifier
/// keeps it: the asymmetry is deliberate, only a trailing qualifier is cut.
pub open spec fn normalize_seq(g: Seq<char>) -> Seq<char> {
    if g.len() > 0 && g.last() == ')' && has_char(g, '(') {
        lower_seq(trim_seq(g.take(first_paren(g))))
    } else {
        lower_seq(g)
    }
}

pub proof fn lemma_trim_front_at(s: Seq<char>, a: int)
    requires
        0 <= a <= s.len(),
        forall|j: int| 0 <= j < a ==> is_space_char(s[j]),
        a < s.len() ==> !is_space_char(s[a]),
    ensures
        trim_front_seq(s) == s.skip(a),
    decreases a,
{
    if a == 0 {
        assert(s.skip(0) =~= s);
    } else {
        assert(is_space_char(s.first()));
        assert(forall|j: int| 0 <= j < a - 1 ==> s.drop_first()[j] == s[j + 1]);
        assert(a - 1 < s.drop_first().len() ==> s.drop_first()[a - 1] == s[a]);
        lemma_trim_front_at(s.drop_first(), a - 1);
        assert(s.drop_first().skip(a - 1) =~= s.skip(a));
    }
}

pub proof fn lemma_trim_back_at(s: Seq<char>, b: int)
    requires
        0 <= b <= s.len(),
        forall|j: int| b <= j < s.len() ==> is_space_char(s[j]),
        b > 0 ==> !is_space_char(s[b - 1]),
    ensures
        trim_back_seq(s) == s.take(b),
    decreases s.len() - b,
{
    if b == s.len() {
        if s.len() > 0 {
            assert(!is_space_char(s.last()));
        }
        assert(s.take(b) =~= s);
    } else {
        assert(is_space_char(s.last()));
        assert(forall|j: int| b <= j < s.drop_last().len() ==> s.drop_last()[j] == s[j]);
        lemma_trim_back_at(s.drop_last(), b);
        assert(s.drop_last().take(b) =~= s.take(b));
    }
}

/// The number of leading whitespace characters.
fn leading_spaces(s: &str) -> (a: usize)
    ensures
        a <= s@.len(),
        forall|j: int| 0 <= j < a ==> is_space_char(s@[j]),
        a < s@.len() ==> !is_space_char(s@[a as int]),
{
    let n = s.unicode_len();
    let mut a: usize = 0;
    while a < n
        invariant
            n == s@.len(),
            a <= n,
            forall|j: int| 0 <= j < a ==> is_space_char(s@[j]),
        decreases n - a,
    {
        if !is_space(s.get_char(a)) {
            return a;
        }
        a += 1;
    }
    a
}

/// The end of the text once trailing whitespace is dropped, scanning no
/// further left than `a`.
fn end_before_trailing_spaces(s: &str, a: usize) -> (b: usize)
    requires
        a <= s@.len(),
    ensures
        a <= b <= s@.len(),
        forall|j: int| b <= j < s@.len() ==> is_space_char(s@[j]),
        b > a ==> !is_space_char(s@[b - 1]),
{
    let n = s.unicode_len();
    let mut b: usize = n;
    while b > a
        invariant
            n == s@.len(),
            a <= b <= n,
            forall|j: int| b <= j < n ==> is_space_char(s@[j]),
        decreases b,
    {
        if !is_space(s.get_char(b - 1)) {
            return b;
        }
        b -= 1;
    }
    b
}

/// The slice with surrounding ASCII whitespace removed.
pub fn trim_str<'a>(s: &'a str) -> (r: &'a str)
    ensures
        r@ == trim_seq(s@),
{
    let a = leading_spaces(s);
    let b = end_before_trailing_spaces(s, a);
    let r = s.substring_char(a, b);
    proof {
        lemma_trim_front_at(s@, a as int);
        let rest = s@.skip(a as int);
        assert(forall|j: int| b - a <= j < rest.len() ==> rest[j] == s@[j + a]);
        assert(b - a > 0 ==> rest[b - a - 1] == s@[b - 1]);
        lemma_trim_back_at(rest, b - a);
        assert(rest.take(b - a) =~= s@.subrange(a as int, b as int));
    }
    r
}

/// The position of the first '(' or the length when there is none.
fn find_paren(s: &str) -> (p: usize)
    ensures
        p as int == first_paren(s@),
{
    let n = s.unicode_len();
    let mut i: usize = 0;
    while i < n
        invariant
            n == s@.len(),
            i <= n,
            forall|j: int| 0 <= j < i ==> s@[j] != '(',
        decreases n - i,
    {
        if s.get_char(i) == '(' {
            proof {
                lemma_first_paren_at(s@, i as int);
            }
            return i;
        }
        i += 1;
    }
    proof {
        lemma_first_paren_at(s@, n as int);
    }
    i
}

/// Strip a trailing parenthetical qualifier, trim, and lowercase: the
/// stable lookup headword of an English gloss.
pub fn normalize(gloss: &str) -> (r: String)
    ensures
        r@ == normalize_seq(gloss@),
{
    let n = gloss.unicode_len();
    let p = find_paren(gloss);
    proof {
        lemma_first_paren(gloss@);
    }
    if n > 0 && p < n && gloss.get_char(n - 1) == ')' {
        proof {
            assert(gloss@[first_paren(gloss@)] == '(');
            assert(has_char(gloss@, '('));
        }
        let head = gloss.substring_char(0, p);
        proof {
            assert(head@ =~= gloss@.take(p as int));
        }
        let trimmed = trim_str(head);
        to_lower_str(trimmed)
    } else {
        proof {
            if n > 0 && gloss@.last() == ')' && has_char(gloss@, '(') {
                let w = choose|w: int| 0 <= w < gloss@.len() && gloss@[w] == '(';
                assert(gloss@[w] != '(');
            }
        }
        to_lower_str(gloss)
    }
}

} // verus!
