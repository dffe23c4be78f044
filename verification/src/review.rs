//! Review-summary parsing: the attribute text `"87% of reviews..."`
//! becomes the string `"0.87"`, the leading segment before the percent
//! sign read as a decimal number and divided by one hundred. An absent
//! or malformed segment yields `"0"`, the zero fraction.
//!
//! The quotient is computed exactly on the decimal digits, so the stored
//! fraction is the shortest plain decimal for the value.
use vstd::prelude::*;
use crate::pages::is_digit_char;
use crate::text::push_char;
use crate::text::copy_range;

verus! {

/// The characters before the first `%`, or all of `s` when it has none,
/// as `split('%').next()` hands them out.
pub open spec fn pct_prefix(s: Seq<char>) -> Seq<char>
    decreases s.len(),
{
    if s.len() == 0 {
        Seq::empty()
    } else if s[0] == '%' {
        Seq::empty()
    } else {
        seq![s[0]] + pct_prefix(s.drop_first())
    }
}

proof fn lemma_pct_prefix_take(s: Seq<char>, p: int)
    requires
        0 <= p <= s.len(),
        forall|k: int| 0 <= k < p ==> s[k] != '%',
        p < s.len() ==> s[p] == '%',
    ensures
        pct_prefix(s) == s.take(p),
    decreases p,
{
    if p == 0 {
        assert(s.take(0) =~= Seq::<char>::empty());
    } else {
        lemma_pct_prefix_take(s.drop_first(), p - 1);
        assert(seq![s[0]] + s.drop_first().take(p - 1) =~= s.take(p));
    }
}

/// Reads fraction digits after the decimal point; `ints` are the integer
/// digits already read, `acc` the fraction digits so far.
pub open spec fn parse_frac_part(s: Seq<char>, ints: Seq<char>, acc: Seq<char>) -> Option<
    (Seq<char>, Seq<char>),
>
    decreases s.len(),
{
    if s.len() == 0 {
        if ints.len() + acc.len() > 0 {
            Some((ints, acc))
        } else {
            None
        }
    } else if is_digit_char(s[0]) {
        parse_frac_part(s.drop_first(), ints, acc.push(s[0]))
    } else {
        None
    }
}

/// Reads integer digits; `acc` holds those read so far. A decimal number
/// is digits with at most one point and at least one digit, the grammar
/// of a plain (unsigned, non-exponent) float literal.
pub open spec fn parse_int_part(s: Seq<char>, acc: Seq<char>) -> Option<(Seq<char>, Seq<char>)>
    decreases s.len(),
{
    if s.len() == 0 {
        if acc.len() > 0 {
            Some((acc, Seq::empty()))
        } else {
            None
        }
    } else if is_digit_char(s[0]) {
        parse_int_part(s.drop_first(), acc.push(s[0]))
    } else if s[0] == '.' {
        parse_frac_part(s.drop_first(), acc, Seq::empty())
    } else {
        None
    }
}

/// The integer and fraction digits of `s` read as a decimal number, or
/// `None` when `s` is not one.
pub open spec fn parse_decimal_spec(s: Seq<char>) -> Option<(Seq<char>, Seq<char>)> {
    parse_int_part(s, Seq::empty())
}

/// `s` without leading zero characters.
pub open spec fn strip_leading_zeros(s: Seq<char>) -> Seq<char>
    decreases s.len(),
{
    if s.len() > 0 && s[0] == '0' {
        strip_leading_zeros(s.drop_first())
    } else {
        s
    }
}

/// `s` without trailing zero characters.
pub open spec fn strip_trailing_zeros(s: Seq<char>) -> Seq<char>
    decreases s.len(),
{
    if s.len() > 0 && s[s.len() - 1] == '0' {
        strip_trailing_zeros(s.drop_last())
    } else {
        s
    }
}

proof fn lemma_strip_leading_skip(s: Seq<char>, j: int)
    requires
        0 <= j <= s.len(),
        forall|k: int| 0 <= k < j ==> s[k] == '0',
        j < s.len() ==> s[j] != '0',
    ensures
        strip_leading_zeros(s) == s.skip(j),
    decreases j,
{
    if j == 0 {
        assert(s.skip(0) =~= s);
    } else {
        lemma_strip_leading_skip(s.drop_first(), j - 1);
        assert(s.drop_first().skip(j - 1) =~= s.skip(j));
    }
}

proof fn lemma_strip_trailing_take(s: Seq<char>, e: int)
    requires
        0 <= e <= s.len(),
        forall|k: int| e <= k < s.len() ==> s[k] == '0',
        e > 0 ==> s[e - 1] != '0',
    ensures
        strip_trailing_zeros(s) == s.take(e),
    decreases s.len(),
{
    if e == s.len() {
        assert(s.take(e) =~= s);
    } else {
        lemma_strip_trailing_take(s.drop_last(), e);
        assert(s.drop_last().take(e) =~= s.take(e));
    }
}

/// The digits in front of the moved point: all but the last two integer
/// digits.
pub open spec fn shift_whole(ints: Seq<char>, fracs: Seq<char>) -> Seq<char> {
    if ints.len() > 2 {
        (ints + fracs).take(ints.len() - 2)
    } else {
        Seq::<char>::empty()
    }
}

/// The digits behind the moved point, zero-padded when fewer than two
/// integer digits were given.
pub open spec fn shift_frac(ints: Seq<char>, fracs: Seq<char>) -> Seq<char> {
    (if ints.len() == 0 {
        seq!['0', '0']
    } else if ints.len() == 1 {
        seq!['0']
    } else {
        Seq::<char>::empty()
    }) + (ints + fracs).skip(
        if ints.len() > 2 {
            ints.len() - 2
        } else {
            0
        },
    )
}

/// The whole part as written: leading zeros dropped, a lone zero kept.
pub open spec fn shift_whole_kept(ints: Seq<char>, fracs: Seq<char>) -> Seq<char> {
    if strip_leading_zeros(shift_whole(ints, fracs)).len() == 0 {
        seq!['0']
    } else {
        strip_leading_zeros(shift_whole(ints, fracs))
    }
}

/// The digits of a decimal number divided by one hundred, written as a
/// plain decimal with no superfluous zeros: the point moves two places
/// left through the digit string `ints ++ fracs`.
pub open spec fn shift_format_spec(ints: Seq<char>, fracs: Seq<char>) -> Seq<char> {
    if strip_trailing_zeros(shift_frac(ints, fracs)).len() == 0 {
        shift_whole_kept(ints, fracs)
    } else {
        shift_whole_kept(ints, fracs) + seq!['.'] + strip_trailing_zeros(shift_frac(ints, fracs))
    }
}

/// The stored review fraction for a review-summary attribute: the value
/// before the percent sign divided by one hundred, or `"0"` when that
/// segment is absent or malformed.
pub open spec fn review_fraction_spec(attr: Seq<char>) -> Seq<char> {
    match parse_decimal_spec(pct_prefix(attr)) {
        Some(p) => shift_format_spec(p.0, p.1),
        None => seq!['0'],
    }
}

/// The position where the leading zeros of `s` end.
fn leading_zeros_end(s: &str) -> (r: usize)
    ensures
        r <= s@.len(),
        strip_leading_zeros(s@) == s@.skip(r as int),
{
    let len = s.unicode_len();
    let mut j: usize = 0;
    while j < len
        invariant
            j <= len,
            len == s@.len(),
            forall|k: int| 0 <= k < j ==> s@[k] == '0',
        decreases len - j,
    {
        if s.get_char(j) != '0' {
            proof {
                lemma_strip_leading_skip(s@, j as int);
            }
            return j;
        }
        j = j + 1;
    }
    proof {
        lemma_strip_leading_skip(s@, len as int);
    }
    len
}

/// The position where the trailing zeros of `s` begin.
fn trailing_zeros_start(s: &str) -> (r: usize)
    ensures
        r <= s@.len(),
        strip_trailing_zeros(s@) == s@.take(r as int),
{
    let len = s.unicode_len();
    let mut e: usize = len;
    while e > 0
        invariant
            e <= len,
            len == s@.len(),
            forall|k: int| e <= k < s@.len() ==> s@[k] == '0',
        decreases e,
    {
        if s.get_char(e - 1) != '0' {
            proof {
                lemma_strip_trailing_take(s@, e as int);
            }
            return e;
        }
        e = e - 1;
    }
    proof {
        lemma_strip_trailing_take(s@, 0);
    }
    0
}

/// The position of the first `%`, or the length when there is none.
fn percent_end(s: &str) -> (r: usize)
    ensures
        r <= s@.len(),
        pct_prefix(s@) == s@.take(r as int),
{
    let len = s.unicode_len();
    let mut p: usize = 0;
    while p < len
        invariant
            p <= len,
            len == s@.len(),
            forall|k: int| 0 <= k < p ==> s@[k] != '%',
        decreases len - p,
    {
        if s.get_char(p) == '%' {
            proof {
                lemma_pct_prefix_take(s@, p as int);
            }
            return p;
        }
        p = p + 1;
    }
    proof {
        lemma_pct_prefix_take(s@, len as int);
    }
    len
}

/// Reads the fraction digits of `s` from `from` on, after the point.
fn parse_frac_digits(s: &str, from: usize, ints: String) -> (r: Option<(String, String)>)
    requires
        from <= s@.len(),
    ensures
        match r {
            Some(p) => parse_frac_part(s@.skip(from as int), ints@, Seq::empty()) == Some(
                (p.0@, p.1@),
            ),
            None => parse_frac_part(s@.skip(from as int), ints@, Seq::empty()) is None,
        },
{
    let ghost iv = ints@;
    let len = s.unicode_len();
    let ints_empty = ints.unicode_len() == 0;
    let mut fracs = String::new();
    let mut i: usize = from;
    while i < len
        invariant
            from <= i <= len,
            len == s@.len(),
            iv == ints@,
            ints_empty == (iv.len() == 0),
            parse_frac_part(s@.skip(from as int), iv, Seq::empty()) == parse_frac_part(
                s@.skip(i as int),
                iv,
                fracs@,
            ),
        decreases len - i,
    {
        let c = s.get_char(i);
        proof {
            assert(s@.skip(i as int)[0] == s@[i as int]);
            assert(s@.skip(i as int).drop_first() =~= s@.skip(i + 1));
        }
        if !('0' <= c && c <= '9') {
            return None;
        }
        push_char(&mut fracs, c);
        i = i + 1;
    }
    proof {
        assert(s@.skip(len as int).len() == 0);
    }
    if ints_empty && fracs.unicode_len() == 0 {
        None
    } else {
        Some((ints, fracs))
    }
}

/// Reads `s` as a decimal number: integer digits, at most one point,
/// fraction digits, at least one digit in all.
fn parse_decimal(s: &str) -> (r: Option<(String, String)>)
    ensures
        match r {
            Some(p) => parse_decimal_spec(s@) == Some((p.0@, p.1@)),
            None => parse_decimal_spec(s@) is None,
        },
{
    let len = s.unicode_len();
    let mut ints = String::new();
    let mut i: usize = 0;
    proof {
        assert(s@.skip(0) =~= s@);
    }
    while i < len
        invariant
            i <= len,
            len == s@.len(),
            parse_decimal_spec(s@) == parse_int_part(s@.skip(i as int), ints@),
        decreases len - i,
    {
        let c = s.get_char(i);
        proof {
            assert(s@.skip(i as int)[0] == s@[i as int]);
            assert(s@.skip(i as int).drop_first() =~= s@.skip(i + 1));
        }
        if '0' <= c && c <= '9' {
            push_char(&mut ints, c);
        } else if c == '.' {
            return parse_frac_digits(s, i + 1, ints);
        } else {
            return None;
        }
        i = i + 1;
    }
    proof {
        assert(s@.skip(len as int).len() == 0);
    }
    if ints.unicode_len() == 0 {
        None
    } else {
        Some((ints, String::new()))
    }
}

/// Writes the digits of a decimal number divided by one hundred.
fn format_shifted(ints: String, fracs: String) -> (r: String)
    ensures
        r@ == shift_format_spec(ints@, fracs@),
{
    let ghost iv = ints@;
    let ghost fv = fracs@;
    let int_len = ints.unicode_len();
    let mut digits = ints;
    digits.append(fracs.as_str());
    let digits_len = digits.unicode_len();
    proof {
        assert(digits@ == iv + fv);
    }

    let whole = if int_len > 2 {
        copy_range(digits.as_str(), 0, int_len - 2)
    } else {
        String::new()
    };
    proof {
        assert(whole@ == shift_whole(iv, fv));
    }

    let mut frac = String::new();
    if int_len == 0 {
        push_char(&mut frac, '0');
        push_char(&mut frac, '0');
        proof {
            assert(frac@ =~= seq!['0', '0']);
        }
    } else if int_len == 1 {
        push_char(&mut frac, '0');
        proof {
            assert(frac@ =~= seq!['0']);
        }
    }
    let ghost pad = frac@;
    let tail_from: usize = if int_len > 2 {
        int_len - 2
    } else {
        0
    };
    let tail = copy_range(digits.as_str(), tail_from, digits_len);
    frac.append(tail.as_str());
    proof {
        assert(tail@ =~= (iv + fv).skip(tail_from as int));
        assert(frac@ == shift_frac(iv, fv));
    }

    let j = leading_zeros_end(whole.as_str());
    let whole_len = whole.unicode_len();
    let whole_kept = copy_range(whole.as_str(), j, whole_len);
    proof {
        assert(whole_kept@ =~= strip_leading_zeros(whole@));
    }

    let e = trailing_zeros_start(frac.as_str());
    let frac_kept = copy_range(frac.as_str(), 0, e);
    proof {
        assert(frac_kept@ =~= strip_trailing_zeros(frac@));
    }

    let mut out = String::new();
    if whole_kept.unicode_len() == 0 {
        push_char(&mut out, '0');
        proof {
            assert(out@ =~= seq!['0']);
        }
    } else {
        out.append(whole_kept.as_str());
        proof {
            assert(out@ =~= whole_kept@);
        }
    }
    proof {
        assert(out@ == shift_whole_kept(iv, fv));
    }
    if frac_kept.unicode_len() > 0 {
        push_char(&mut out, '.');
        out.append(frac_kept.as_str());
        proof {
            assert(out@ =~= shift_whole_kept(iv, fv) + seq!['.'] + strip_trailing_zeros(
                shift_frac(iv, fv),
            ));
        }
    }
    out
}

/// Parses the review-summary attribute into the stored review fraction,
/// written as a decimal string; `"0"` for an absent or malformed value.
pub fn parse_review_fraction(attr: &str) -> (r: String)
    ensures
        r@ == review_fraction_spec(attr@),
{
    let stop = percent_end(attr);
    let pre = copy_range(attr, 0, stop);
    proof {
        assert(pre@ =~= pct_prefix(attr@));
    }
    match parse_decimal(pre.as_str()) {
        Some(parts) => format_shifted(parts.0, parts.1),
        None => {
            let zero = String::from_str("0");
            proof {
                reveal_strlit("0");
                assert(zero@ =~= seq!['0']);
            }
            zero
        },
    }
}

} // verus!
