//! Parsing of the pagination label: a decimal page count, with a
//! default of one page when the label is absent or not a number.
use vstd::prelude::*;

verus! {

/// A decimal digit.
pub open spec fn is_digit_char(c: char) -> bool {
    '0' <= c && c <= '9'
}

/// Numeric value of a digit.
pub open spec fn digit_val(c: char) -> int {
    c as int - '0' as int
}

/// Value of a digit string read left to right.
pub open spec fn digits_val(s: Seq<char>) -> int
    decreases s.len(),
{
    if s.len() == 0 {
        0
    } else {
        digits_val(s.drop_last()) * 10 + digit_val(s[s.len() - 1])
    }
}

/// Every character is a decimal digit.
pub open spec fn all_digits(s: Seq<char>) -> bool {
    forall|i: int| 0 <= i < s.len() ==> is_digit_char(#[trigger] s[i])
}

/// What `str::parse::<usize>` accepts: an optional leading `+`, then one
/// or more digits, valuing at most `usize::MAX`.
pub open spec fn parse_usize_spec(s: Seq<char>) -> Option<int> {
    let digits = if s.len() > 0 && s[0] == '+' {
        s.drop_first()
    } else {
        s
    };
    if digits.len() > 0 && all_digits(digits) && digits_val(digits) <= usize::MAX {
        Some(digits_val(digits))
    } else {
        None
    }
}

/// A digit-string value only grows as digits are appended.
proof fn lemma_digits_val_nonneg(s: Seq<char>)
    requires
        forall|i: int| 0 <= i < s.len() ==> is_digit_char(#[trigger] s[i]),
    ensures
        digits_val(s) >= 0,
    decreases s.len(),
{
    if s.len() > 0 {
        lemma_digits_val_nonneg(s.drop_last());
    }
}

/// The value of a prefix never exceeds the value of the whole digit string.
proof fn lemma_digits_val_prefix(s: Seq<char>, k: int)
    requires
        forall|i: int| 0 <= i < s.len() ==> is_digit_char(#[trigger] s[i]),
        0 <= k <= s.len(),
    ensures
        digits_val(s.take(k)) <= digits_val(s),
    decreases s.len() - k,
{
    if k == s.len() {
        assert(s.take(k) =~= s);
    } else {
        lemma_digits_val_prefix(s, k + 1);
        let t = s.take(k + 1);
        assert(t.drop_last() =~= s.take(k));
        assert(t[t.len() - 1] == s[k]);
        assert(digits_val(s.take(k + 1)) == digits_val(s.take(k)) * 10 + digit_val(s[k]));
        lemma_digits_val_nonneg(s.take(k));
        assert(digits_val(s.take(k)) <= digits_val(s.take(k)) * 10 + digit_val(s[k]));
    }
}

/// Parses `s` as `str::parse::<usize>` does, `None` on anything that is
/// not a plain decimal number that fits.
pub fn parse_usize(s: &str) -> (r: Option<usize>)
    ensures
        match r {
            Some(v) => parse_usize_spec(s@) == Some(v as int),
            None => parse_usize_spec(s@) is None,
        },
{
    let len = s.unicode_len();
    let mut start: usize = 0;
    if len > 0 && s.get_char(0) == '+' {
        start = 1;
    }
    let ghost digits = if s@.len() > 0 && s@[0] == '+' {
        s@.drop_first()
    } else {
        s@
    };
    proof {
        assert(digits =~= s@.skip(start as int));
    }
    if start == len {
        return None;
    }
    let mut val: usize = 0;
    let mut i: usize = start;
    proof {
        assert(digits.take(0) =~= Seq::<char>::empty());
    }
    while i < len
        invariant
            start <= i <= len,
            len == s@.len(),
            start <= 1,
            digits == s@.skip(start as int),
            digits == (if s@.len() > 0 && s@[0] == '+' {
                s@.drop_first()
            } else {
                s@
            }),
            forall|k: int| 0 <= k < i - start ==> is_digit_char(#[trigger] digits[k]),
            val == digits_val(digits.take(i - start)),
        decreases len - i,
    {
        let c = s.get_char(i);
        proof {
            assert(digits[i - start] == s@[i as int]);
        }
        if !('0' <= c && c <= '9') {
            proof {
                let sd = if s@.len() > 0 && s@[0] == '+' {
                    s@.drop_first()
                } else {
                    s@
                };
                assert(!is_digit_char(sd[i - start]));
                assert(!all_digits(sd));
                assert(parse_usize_spec(s@) is None);
            }
            return None;
        }
        let d: usize = (c as u32 as usize) - ('0' as u32 as usize);
        let prod = val.checked_mul(10);
        let step = match prod {
            Some(p) => p.checked_add(d),
            None => None,
        };
        proof {
            let t = digits.take(i - start + 1);
            assert(t.drop_last() =~= digits.take(i - start));
            assert(t[t.len() - 1] == digits[i - start]);
            assert(digits_val(digits.take(i - start + 1)) == val * 10 + d);
        }
        match step {
            Some(v2) => {
                val = v2;
            },
            None => {
                proof {
                    assert(val * 10 + d > usize::MAX);
                    if all_digits(digits) {
                        lemma_digits_val_prefix(digits, i - start + 1);
                        assert(digits_val(digits) > usize::MAX);
                    }
                    assert(parse_usize_spec(s@) is None);
                }
                return None;
            },
        }
        i = i + 1;
    }
    proof {
        assert(digits.take(len - start) =~= digits);
    }
    Some(val)
}

/// The page count read from the last pagination label: the label's value
/// when it parses as a plain decimal, and one page otherwise.
pub open spec fn total_pages_spec(label: Option<String>) -> int {
    match label {
        Some(s) => match parse_usize_spec(s@) {
            Some(v) => v,
            None => 1,
        },
        None => 1,
    }
}

/// Determines how many catalog pages to traverse from the optional text
/// of the last pagination control.
pub fn parse_total_pages(label: Option<String>) -> (r: usize)
    ensures
        r as int == total_pages_spec(label),
{
    match label {
        Some(s) => match parse_usize(s.as_str()) {
            Some(v) => v,
            None => 1,
        },
        None => 1,
    }
}

} // verus!
