//! Parsing of article keys.
//!
//! Articles are referred to by keys of the form `article:<id>`, where
//! `<id>` is the article's numeric identifier written in canonical
//! decimal (no leading zeros, no sign). The store only ever writes
//! canonical keys, so a reference that is not canonical never matches a
//! stored article.

use vstd::prelude::*;

verus! {

/// Whether `c` is an ASCII decimal digit.
pub open spec fn is_digit(c: char) -> bool {
    48 <= c as u32 && c as u32 <= 57
}

/// The numeric value of the ASCII digit `c`.
pub open spec fn digit_val(c: char) -> nat {
    (c as u32 - 48) as nat
}

/// Whether every character of `s` is an ASCII decimal digit.
pub open spec fn all_digits(s: Seq<char>) -> bool {
    forall|i: int| 0 <= i < s.len() ==> is_digit(s[i])
}

/// The number that the digit string `s` denotes, read left to right.
pub open spec fn digits_val(s: Seq<char>) -> nat
    decreases s.len(),
{
    if s.len() == 0 {
        0
    } else {
        digits_val(s.drop_last()) * 10 + digit_val(s.last())
    }
}

/// Whether `s` is the canonical decimal spelling of a number: at least
/// one digit, and no leading zero unless the number is zero itself.
pub open spec fn is_canonical_decimal(s: Seq<char>) -> bool {
    &&& s.len() >= 1
    &&& all_digits(s)
    &&& (s.len() > 1 ==> s[0] != '0')
}

/// The identifier denoted by the article key `s`, or `None` where `s`
/// is not `article:` followed by a canonical decimal number that fits
/// in 64 bits.
pub open spec fn spec_parse_article_key(s: Seq<char>) -> Option<u64> {
    if s.len() > 8 && s.subrange(0, 8) == "article:"@ && is_canonical_decimal(s.skip(8))
        && digits_val(s.skip(8)) <= u64::MAX {
        Some(digits_val(s.skip(8)) as u64)
    } else {
        None
    }
}

/// A longer prefix of a digit string never denotes a smaller number.
proof fn lemma_digits_val_monotone(s: Seq<char>, i: int, j: int)
    requires
        0 <= i <= j <= s.len(),
    ensures
        digits_val(s.subrange(0, i)) <= digits_val(s.subrange(0, j)),
    decreases j - i,
{
    if i < j {
        lemma_digits_val_monotone(s, i, j - 1);
        let pre = s.subrange(0, j);
        assert(pre.drop_last() =~= s.subrange(0, j - 1));
        assert(digits_val(s.subrange(0, j - 1)) * 10 >= digits_val(s.subrange(0, j - 1)))
            by (nonlinear_arith);
    }
}

/// Parses an article key: accepts exactly the strings `article:<id>`
/// with `<id>` a canonical decimal identifier, and returns the
/// identifier.
pub fn parse_article_key(s: &str) -> (r: Option<u64>)
    ensures
        r == spec_parse_article_key(s@),
{
    let n = s.unicode_len();
    if n <= 8 {
        return None;
    }
    let prefix = "article:";
    proof {
        reveal_strlit("article:");
    }
    let mut i: usize = 0;
    while i < 8
        invariant
            0 <= i <= 8,
            n == s@.len(),
            n > 8,
            prefix@ == "article:"@,
            prefix@.len() == 8,
            forall|k: int| 0 <= k < i ==> s@[k] == prefix@[k],
        decreases 8 - i,
    {
        if s.get_char(i) != prefix.get_char(i) {
            proof {
                assert(s@.subrange(0, 8)[i as int] == s@[i as int]);
            }
            return None;
        }
        i = i + 1;
    }
    proof {
        assert(s@.subrange(0, 8) =~= "article:"@);
    }
    let digits_len = n - 8;
    if digits_len > 1 && s.get_char(8) == '0' {
        proof {
            assert(s@.skip(8)[0] == s@[8]);
            assert(s@.skip(8).len() > 1);
        }
        return None;
    }
    let mut value: u64 = 0;
    let mut j: usize = 8;
    while j < n
        invariant
            8 <= j <= n,
            n == s@.len(),
            all_digits(s@.subrange(8, j as int)),
            value == digits_val(s@.subrange(8, j as int)),
        decreases n - j,
    {
        let c = s.get_char(j);
        let u = c as u32;
        if u < 48 || u > 57 {
            proof {
                assert(s@.skip(8)[j - 8] == s@[j as int]);
            }
            return None;
        }
        let d = (u - 48) as u64;
        let next = match value.checked_mul(10) {
            Some(v10) => v10.checked_add(d),
            None => None,
        };
        match next {
            Some(v) => {
                proof {
                    let ghost pre = s@.subrange(8, j + 1);
                    assert(pre.drop_last() =~= s@.subrange(8, j as int));
                    assert(pre.last() == s@[j as int]);
                }
                value = v;
            },
            None => {
                proof {
                    let ghost t = s@.skip(8);
                    let ghost pre = s@.subrange(8, j + 1);
                    assert(pre.drop_last() =~= s@.subrange(8, j as int));
                    assert(pre.last() == s@[j as int]);
                    assert(digits_val(pre) > u64::MAX);
                    assert(t.subrange(0, j + 1 - 8) =~= pre);
                    assert(t.subrange(0, t.len() as int) =~= t);
                    lemma_digits_val_monotone(t, j + 1 - 8, t.len() as int);
                }
                return None;
            },
        }
        j = j + 1;
    }
    proof {
        let ghost t = s@.skip(8);
        assert(s@.subrange(8, n as int) =~= t);
        assert(t.len() > 1 ==> t[0] != '0') by {
            assert(t[0] == s@[8]);
        }
    }
    Some(value)
}

} // verus!
