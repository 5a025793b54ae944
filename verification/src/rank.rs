//! Frequency-rank parsing: the integer after the two-character marker
//! prefix, with 999 standing for "unranked or unparsable".

use vstd::prelude::*;

verus! {

/// The rank given to records without a usable marker: least common.
pub const DEFAULT_RANK: i32 = 999;

pub open spec fn is_digit_char(c: char) -> bool {
    '0' <= c && c <= '9'
}

pub open spec fn digit_val(c: char) -> int {
    c as int - '0' as int
}

/// The value of a run of decimal digits, most significant first.
pub open spec fn digits_value(s: Seq<char>) -> int
    decreases s.len(),
{
    if s.len() == 0 {
        0
    } else {
        digits_value(s.drop_last()) * 10 + digit_val(s.last())
    }
}

pub open spec fn all_digits(s: Seq<char>) -> bool {
    forall|i: int| 0 <= i < s.len() ==> is_digit_char(s[i])
}

/// Decimal parsing as the standard library reads an i32: an optional
/// sign, then at least one digit, and the value must fit the type.
pub open spec fn parsed_i32(s: Seq<char>) -> Option<int> {
    let neg = s.len() > 0 && s.first() == '-';
    let signed = s.len() > 0 && (s.first() == '-' || s.first() == '+');
    let ds = if signed {
        s.drop_first()
    } else {
        s
    };
    if ds.len() > 0 && all_digits(ds) {
        let v = if neg {
            -digits_value(ds)
        } else {
            digits_value(ds)
        };
        if i32::MIN <= v <= i32::MAX {
            Some(v)
        } else {
            None
        }
    } else {
        None
    }
}

/// The rank a marker yields: the integer after its two-character prefix,
/// or the default when the marker is short or unparsable.
pub open spec fn rank_of_marker(m: Seq<char>) -> int {
    if m.len() >= 2 {
        match parsed_i32(m.skip(2)) {
            Some(v) => v,
            None => DEFAULT_RANK as int,
        }
    } else {
        DEFAULT_RANK as int
    }
}

/// The frequency of a record with an optional rank marker.
pub open spec fn freq_of(p: Option<Seq<char>>) -> int {
    match p {
        Some(m) => rank_of_marker(m),
        None => DEFAULT_RANK as int,
    }
}

pub proof fn lemma_digits_value_nonneg(s: Seq<char>)
    requires
        all_digits(s),
    ensures
        digits_value(s) >= 0,
    decreases s.len(),
{
    if s.len() > 0 {
        assert(all_digits(s.drop_last()));
        lemma_digits_value_nonneg(s.drop_last());
        assert(digit_val(s.last()) >= 0);
    }
}

/// Reading more digits never shrinks the value.
pub proof fn lemma_digits_value_take(s: Seq<char>, k: int)
    requires
        all_digits(s),
        0 <= k <= s.len(),
    ensures
        digits_value(s.take(k)) <= digits_value(s),
    decreases s.len(),
{
    if k < s.len() {
        assert(all_digits(s.drop_last()));
        assert(s.drop_last().take(k) =~= s.take(k));
        lemma_digits_value_take(s.drop_last(), k);
        lemma_digits_value_nonneg(s.drop_last());
        assert(digit_val(s.last()) >= 0);
    } else {
        assert(s.take(k) =~= s);
    }
}

/// Read a decimal i32 from the slice, with the default on any failure.
fn parse_i32_default(s: &str) -> (r: i32)
    ensures
        r as int == (match parsed_i32(s@) {
            Some(v) => v,
            None => DEFAULT_RANK as int,
        }),
{
    let ghost spec_neg = s@.len() > 0 && s@.first() == '-';
    let ghost spec_signed = s@.len() > 0 && (s@.first() == '-' || s@.first() == '+');
    let ghost ds = if spec_signed {
        s@.drop_first()
    } else {
        s@
    };
    let n = s.unicode_len();
    let mut idx: usize = 0;
    let mut neg = false;
    if n > 0 {
        let c0 = s.get_char(0);
        if c0 == '-' {
            neg = true;
            idx = 1;
        } else if c0 == '+' {
            idx = 1;
        }
    }
    proof {
        assert(neg == spec_neg);
        assert((idx == 1) == spec_signed);
        assert(ds =~= s@.skip(idx as int));
        assert(ds.take(0) =~= Seq::<char>::empty());
    }
    if idx >= n {
        proof {
            assert(ds.len() == 0);
        }
        return DEFAULT_RANK;
    }
    let mut acc: i64 = 0;
    let mut k: usize = idx;
    while k < n
        invariant
            n == s@.len(),
            idx <= k <= n,
            idx < n,
            neg == spec_neg,
            (idx == 1) == spec_signed,
            spec_neg == (s@.len() > 0 && s@.first() == '-'),
            spec_signed == (s@.len() > 0 && (s@.first() == '-' || s@.first() == '+')),
            ds == s@.skip(idx as int),
            ds == (if spec_signed {
                s@.drop_first()
            } else {
                s@
            }),
            ds.len() == n - idx,
            all_digits(ds.take(k - idx)),
            acc == digits_value(ds.take(k - idx)),
            0 <= acc <= 2_147_483_648,
        decreases n - k,
    {
        let c = s.get_char(k);
        if !(c >= '0' && c <= '9') {
            proof {
                assert(ds[k - idx] == s@[k as int]);
                assert(!is_digit_char(ds[k - idx]));
                assert(!all_digits(ds));
            }
            return DEFAULT_RANK;
        }
        let d: u8 = (c as u8) - 48;
        acc = acc * 10 + (d as i64);
        proof {
            let t = ds.take(k - idx + 1);
            assert(t.drop_last() =~= ds.take(k - idx));
            assert(t.last() == ds[k - idx]);
            assert(ds[k - idx] == s@[k as int]);
            assert(digit_val(t.last()) == d as int);
            assert(digits_value(t) == acc);
            assert(all_digits(t));
        }
        if acc > 2_147_483_648 {
            proof {
                let t = ds.take(k - idx + 1);
                if all_digits(ds) {
                    lemma_digits_value_take(ds, k - idx + 1);
                    assert(digits_value(ds) >= digits_value(t));
                    assert(digits_value(ds) > i32::MAX);
                    assert(-digits_value(ds) < i32::MIN);
                }
                assert(parsed_i32(s@) is None);
            }
            return DEFAULT_RANK;
        }
        k += 1;
    }
    proof {
        assert(ds.take(n - idx) =~= ds);
        assert(all_digits(ds));
        assert(acc == digits_value(ds));
        assert(ds.len() > 0);
    }
    if neg {
        if acc == 2_147_483_648 {
            proof {
                assert(parsed_i32(s@) == Some(-digits_value(ds)));
            }
            i32::MIN
        } else {
            proof {
                assert(parsed_i32(s@) == Some(-digits_value(ds)));
            }
            -(acc as i32)
        }
    } else {
        if acc > 2_147_483_647 {
            proof {
                assert(digits_value(ds) > i32::MAX);
                assert(parsed_i32(s@) is None);
            }
            DEFAULT_RANK
        } else {
            proof {
                assert(parsed_i32(s@) == Some(digits_value(ds)));
            }
            acc as i32
        }
    }
}

/// The rank encoded by a marker: its two-character prefix is skipped and
/// the rest is read as a decimal integer, defaulting on any failure.
pub fn parse_rank(marker: &str) -> (r: i32)
    ensures
        r as int == rank_of_marker(marker@),
{
    let n = marker.unicode_len();
    if n < 2 {
        return DEFAULT_RANK;
    }
    let body = marker.substring_char(2, n);
    proof {
        assert(body@ =~= marker@.skip(2));
    }
    parse_i32_default(body)
}

} // verus!
