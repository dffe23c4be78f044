//! Character-level string utilities: lexicographic order on names,
//! whitespace trimming, comma-joining, and default substitution.
use vstd::prelude::*;

verus! {

/// Strict lexicographic order on character sequences, by code point.
/// This agrees with the byte-wise order `str::cmp` uses, because UTF-8
/// encoding preserves code-point order.
pub open spec fn lex_lt(a: Seq<char>, b: Seq<char>) -> bool
    decreases a.len(),
{
    if b.len() == 0 {
        false
    } else if a.len() == 0 {
        true
    } else if a[0] < b[0] {
        true
    } else if b[0] < a[0] {
        false
    } else {
        lex_lt(a.drop_first(), b.drop_first())
    }
}

/// Non-strict lexicographic order.
pub open spec fn lex_le(a: Seq<char>, b: Seq<char>) -> bool {
    !lex_lt(b, a)
}

/// The strict order is asymmetric, so `lex_lt` implies `lex_le`.
pub proof fn lemma_lex_lt_asym(a: Seq<char>, b: Seq<char>)
    requires
        lex_lt(a, b),
    ensures
        lex_le(a, b),
    decreases a.len(),
{
    if b.len() == 0 {
    } else if a.len() == 0 {
    } else if a[0] < b[0] {
    } else if b[0] < a[0] {
    } else {
        lemma_lex_lt_asym(a.drop_first(), b.drop_first());
    }
}

/// The strict order is irreflexive, so `lex_le` is reflexive.
pub proof fn lemma_lex_lt_irrefl(a: Seq<char>)
    ensures
        !lex_lt(a, a),
    decreases a.len(),
{
    if a.len() > 0 {
        lemma_lex_lt_irrefl(a.drop_first());
    }
}

/// The non-strict order is transitive.
pub proof fn lemma_lex_le_trans(a: Seq<char>, b: Seq<char>, c: Seq<char>)
    requires
        lex_le(a, b),
        lex_le(b, c),
    ensures
        lex_le(a, c),
    decreases a.len() + b.len() + c.len(),
{
    if a.len() == 0 {
    } else if c.len() == 0 {
        if b.len() == 0 {
        }
    } else if b.len() == 0 {
    } else {
        if c[0] < a[0] {
            if a[0] == b[0] && b[0] == c[0] {
                lemma_lex_le_trans(a.drop_first(), b.drop_first(), c.drop_first());
            }
        } else if a[0] == c[0] {
            if a[0] == b[0] && b[0] == c[0] {
                lemma_lex_le_trans(a.drop_first(), b.drop_first(), c.drop_first());
            }
        }
    }
}

/// A strict comparison composes with a non-strict one.
pub proof fn lemma_lex_lt_le_trans(a: Seq<char>, b: Seq<char>, c: Seq<char>)
    requires
        lex_lt(a, b),
        lex_le(b, c),
    ensures
        lex_lt(a, c),
    decreases a.len() + b.len() + c.len(),
{
    if b.len() == 0 {
    } else if c.len() == 0 {
    } else if a.len() == 0 {
    } else {
        if a[0] == b[0] && b[0] == c[0] {
            lemma_lex_lt_le_trans(a.drop_first(), b.drop_first(), c.drop_first());
        }
    }
}

/// Strictly ordered sequences differ.
pub proof fn lemma_lex_lt_neq(a: Seq<char>, b: Seq<char>)
    requires
        lex_lt(a, b),
    ensures
        a != b,
{
    if a == b {
        lemma_lex_lt_irrefl(a);
    }
}

/// Decides `lex_lt` on string slices by walking their characters.
pub fn str_lex_lt(a: &str, b: &str) -> (r: bool)
    ensures
        r == lex_lt(a@, b@),
{
    let a_len = a.unicode_len();
    let b_len = b.unicode_len();
    let mut i: usize = 0;
    proof {
        assert(a@.skip(0) =~= a@);
        assert(b@.skip(0) =~= b@);
    }
    loop
        invariant
            i <= a_len,
            i <= b_len,
            a_len == a@.len(),
            b_len == b@.len(),
            lex_lt(a@, b@) == lex_lt(a@.skip(i as int), b@.skip(i as int)),
        decreases a_len - i,
    {
        if i == b_len {
            assert(b@.skip(i as int).len() == 0);
            return false;
        }
        if i == a_len {
            assert(a@.skip(i as int).len() == 0);
            assert(b@.skip(i as int).len() > 0);
            return true;
        }
        let ca = a.get_char(i);
        let cb = b.get_char(i);
        assert(a@.skip(i as int)[0] == a@[i as int]);
        assert(b@.skip(i as int)[0] == b@[i as int]);
        if ca < cb {
            return true;
        }
        if cb < ca {
            return false;
        }
        assert(a@.skip(i as int).drop_first() =~= a@.skip(i + 1));
        assert(b@.skip(i as int).drop_first() =~= b@.skip(i + 1));
        i = i + 1;
    }
}

/// Whether `c` has the Unicode `White_Space` property, the set that
/// `char::is_whitespace` recognises.
pub open spec fn is_space_char(c: char) -> bool {
    c == ' ' || c == '\t' || c == '\n' || c == '\u{b}' || c == '\u{c}' || c == '\r'
        || c == '\u{85}' || c == '\u{a0}' || c == '\u{1680}'
        || ('\u{2000}' <= c && c <= '\u{200a}')
        || c == '\u{2028}' || c == '\u{2029}' || c == '\u{202f}' || c == '\u{205f}'
        || c == '\u{3000}'
}

/// Executable test for [`is_space_char`].
pub fn is_space(c: char) -> (r: bool)
    ensures
        r == is_space_char(c),
{
    c == ' ' || c == '\t' || c == '\n' || c == '\u{b}' || c == '\u{c}' || c == '\r'
        || c == '\u{85}' || c == '\u{a0}' || c == '\u{1680}'
        || ('\u{2000}' <= c && c <= '\u{200a}')
        || c == '\u{2028}' || c == '\u{2029}' || c == '\u{202f}' || c == '\u{205f}'
        || c == '\u{3000}'
}

/// `s` without its leading whitespace.
pub open spec fn drop_leading_spaces(s: Seq<char>) -> Seq<char>
    decreases s.len(),
{
    if s.len() == 0 {
        s
    } else if is_space_char(s[0]) {
        drop_leading_spaces(s.drop_first())
    } else {
        s
    }
}

/// `s` without its trailing whitespace.
pub open spec fn drop_trailing_spaces(s: Seq<char>) -> Seq<char>
    decreases s.len(),
{
    if s.len() == 0 {
        s
    } else if is_space_char(s[s.len() - 1]) {
        drop_trailing_spaces(s.drop_last())
    } else {
        s
    }
}

/// `s` without leading and trailing whitespace, as `str::trim` leaves it.
pub open spec fn trim_spec(s: Seq<char>) -> Seq<char> {
    drop_trailing_spaces(drop_leading_spaces(s))
}

/// Relies on `String::push` of std: appends one character to the string.
#[verifier::external_body]
pub fn push_char(s: &mut String, c: char)
    ensures
        final(s)@ == old(s)@.push(c),
{
    s.push(c);
}

/// Copies the characters of `s` at positions `from..to` into a fresh string.
pub fn copy_range(s: &str, from: usize, to: usize) -> (r: String)
    requires
        from <= to <= s@.len(),
    ensures
        r@ == s@.subrange(from as int, to as int),
{
    let mut r = String::new();
    let mut i: usize = from;
    while i < to
        invariant
            from <= i <= to <= s@.len(),
            r@ =~= s@.subrange(from as int, i as int),
        decreases to - i,
    {
        let c = s.get_char(i);
        push_char(&mut r, c);
        assert(r@ =~= s@.subrange(from as int, i + 1));
        i = i + 1;
    }
    r
}

/// The index of the first non-whitespace character, or the length when
/// every character is whitespace.
fn first_non_space(s: &str) -> (r: usize)
    ensures
        r <= s@.len(),
        s@.skip(r as int) == drop_leading_spaces(s@),
{
    let len = s.unicode_len();
    let mut i: usize = 0;
    proof {
        assert(s@.skip(0) =~= s@);
    }
    while i < len
        invariant
            i <= len,
            len == s@.len(),
            drop_leading_spaces(s@) == drop_leading_spaces(s@.skip(i as int)),
        decreases len - i,
    {
        let c = s.get_char(i);
        proof {
            assert(s@.skip(i as int)[0] == s@[i as int]);
            assert(s@.skip(i as int).drop_first() =~= s@.skip(i + 1));
        }
        if !is_space(c) {
            assert(drop_leading_spaces(s@.skip(i as int)) == s@.skip(i as int));
            return i;
        }
        i = i + 1;
    }
    assert(s@.skip(len as int).len() == 0);
    len
}

/// Removes leading and trailing whitespace, as `str::trim` does.
pub fn trim(s: &str) -> (r: String)
    ensures
        r@ == trim_spec(s@),
{
    let len = s.unicode_len();
    let start = first_non_space(s);
    proof {
        assert(s@.skip(start as int) =~= s@.subrange(start as int, len as int));
    }
    let mut end: usize = len;
    while end > start
        invariant
            start <= end <= len,
            len == s@.len(),
            s@.subrange(start as int, len as int) == drop_leading_spaces(s@),
            drop_trailing_spaces(s@.subrange(start as int, len as int))
                == drop_trailing_spaces(s@.subrange(start as int, end as int)),
        decreases end,
    {
        let c = s.get_char(end - 1);
        proof {
            let cur = s@.subrange(start as int, end as int);
            assert(cur[cur.len() - 1] == s@[end - 1]);
            assert(cur.drop_last() =~= s@.subrange(start as int, end - 1));
        }
        if !is_space(c) {
            proof {
                let cur = s@.subrange(start as int, end as int);
                assert(drop_trailing_spaces(cur) == cur);
            }
            return copy_range(s, start, end);
        }
        end = end - 1;
    }
    proof {
        assert(s@.subrange(start as int, start as int).len() == 0);
    }
    copy_range(s, start, start)
}

/// The strings of `parts` joined by single commas: empty for no parts,
/// otherwise `parts[0] ++ "," ++ parts[1] ++ ...`.
pub open spec fn join_comma_spec(parts: Seq<Seq<char>>) -> Seq<char>
    decreases parts.len(),
{
    if parts.len() == 0 {
        Seq::empty()
    } else if parts.len() == 1 {
        parts[0]
    } else {
        parts[0].push(',') + join_comma_spec(parts.drop_first())
    }
}

/// Joins `parts` with commas, as the genre list of a detail page is joined.
pub fn join_comma(parts: &Vec<String>) -> (r: String)
    ensures
        r@ == join_comma_spec(parts.deep_view()),
{
    let ghost model = parts.deep_view();
    proof {
        assert(model.len() == parts@.len());
        assert(model.skip(0) =~= model);
    }
    let mut r = String::new();
    let mut i: usize = 0;
    while i < parts.len()
        invariant
            i <= parts.len(),
            model == parts.deep_view(),
            model.len() == parts.len(),
            r@ + join_comma_spec(model.skip(i as int)) == join_comma_spec(model),
        decreases parts.len() - i,
    {
        proof {
            assert(model[i as int] == parts[i as int].deep_view());
        }
        r.append(parts[i].as_str());
        proof {
            let rest = model.skip(i as int);
            assert(rest[0] == model[i as int]);
            assert(rest.drop_first() =~= model.skip(i + 1));
        }
        if i + 1 < parts.len() {
            push_char(&mut r, ',');
            proof {
                let rest = model.skip(i as int);
                assert(join_comma_spec(rest) == rest[0].push(',') + join_comma_spec(
                    rest.drop_first(),
                ));
                assert(r@ + join_comma_spec(model.skip(i + 1)) =~= join_comma_spec(model));
            }
        } else {
            proof {
                let rest = model.skip(i as int);
                assert(rest.len() == 1);
                assert(join_comma_spec(rest) == rest[0]);
                assert(model.skip(i + 1).len() == 0);
                assert(r@ + join_comma_spec(model.skip(i + 1)) =~= join_comma_spec(model));
            }
        }
        i = i + 1;
    }
    proof {
        assert(model.skip(i as int).len() == 0);
        assert(r@ + join_comma_spec(model.skip(i as int)) =~= r@);
    }
    r
}

/// The view of the contained string, or the empty sequence when absent.
pub open spec fn or_empty_spec(o: Option<String>) -> Seq<char> {
    match o {
        Some(s) => s@,
        None => Seq::empty(),
    }
}

/// Substitutes the empty string for a missing extraction result.
pub fn or_empty(o: Option<String>) -> (r: String)
    ensures
        r@ == or_empty_spec(o),
{
    match o {
        Some(s) => s,
        None => String::new(),
    }
}

/// The first string of `parts`, or the empty sequence when there is none.
pub open spec fn first_or_empty_spec(parts: Seq<Seq<char>>) -> Seq<char> {
    if parts.len() == 0 {
        Seq::empty()
    } else {
        parts[0]
    }
}

/// Picks the first entry, as the first-listed developer is picked.
pub fn first_or_empty(parts: &Vec<String>) -> (r: String)
    ensures
        r@ == first_or_empty_spec(parts.deep_view()),
{
    if parts.len() == 0 {
        String::new()
    } else {
        parts[0].clone()
    }
}

} // verus!
