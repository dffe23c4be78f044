//! Owned games from the profile feed, and the name sort applied to them.
use vstd::prelude::*;
use vstd::multiset::Multiset;
use crate::text::{lex_le, lex_lt, lemma_lex_lt_asym, lemma_lex_lt_irrefl, lemma_lex_lt_le_trans,
    lemma_lex_lt_neq, lemma_lex_le_trans, str_lex_lt};
use vstd::seq_lib::{to_multiset_build, to_multiset_remove, to_multiset_contains};

verus! {

/// One game of the profile feed. The feed carries every field as text,
/// hours played included, and the library keeps that convention.
#[derive(Debug, PartialEq, Eq)]
pub struct OwnedGame {
    pub name: String,
    pub app_id: String,
    pub hours_on_record: String,
}

/// The games of one name, in their order of appearance.
pub open spec fn with_name(s: Seq<OwnedGame>, n: Seq<char>) -> Seq<OwnedGame> {
    s.filter(|g: OwnedGame| g.name@ == n)
}

proof fn lemma_with_name_empty(s: Seq<OwnedGame>, n: Seq<char>)
    requires
        s.len() == 0,
    ensures
        with_name(s, n) == Seq::<OwnedGame>::empty(),
{
    reveal(Seq::filter);
    assert(s =~= Seq::<OwnedGame>::empty());
}

proof fn lemma_with_name_push(s: Seq<OwnedGame>, g: OwnedGame, n: Seq<char>)
    ensures
        with_name(s.push(g), n) == if g.name@ == n {
            with_name(s, n).push(g)
        } else {
            with_name(s, n)
        },
{
    reveal(Seq::filter);
    assert(s.push(g).drop_last() =~= s);
    assert(s.push(g).last() == g);
}

proof fn lemma_with_name_absent(s: Seq<OwnedGame>, n: Seq<char>)
    requires
        forall|k: int| 0 <= k < s.len() ==> s[k].name@ != n,
    ensures
        with_name(s, n) == Seq::<OwnedGame>::empty(),
    decreases s.len(),
{
    reveal(Seq::filter);
    if s.len() == 0 {
        lemma_with_name_empty(s, n);
    } else {
        lemma_with_name_absent(s.drop_last(), n);
    }
}

proof fn lemma_with_name_add(a: Seq<OwnedGame>, b: Seq<OwnedGame>, n: Seq<char>)
    ensures
        with_name(a + b, n) == with_name(a, n) + with_name(b, n),
    decreases b.len(),
{
    if b.len() == 0 {
        assert(a + b =~= a);
        lemma_with_name_empty(b, n);
        assert(with_name(a, n) + with_name(b, n) =~= with_name(a, n));
    } else {
        lemma_with_name_add(a, b.drop_last(), n);
        lemma_with_name_push(a + b.drop_last(), b.last(), n);
        lemma_with_name_push(b.drop_last(), b.last(), n);
        assert((a + b.drop_last()).push(b.last()) =~= a + b);
        assert(b.drop_last().push(b.last()) =~= b);
        if b.last().name@ == n {
            assert(with_name(a, n) + with_name(b.drop_last(), n).push(b.last()) =~= (with_name(
                a,
                n,
            ) + with_name(b.drop_last(), n)).push(b.last()));
        }
    }
}

/// Moving the first game of its name from `rest` to the end of `out`
/// leaves every name's subsequence, taken across `out` then `rest`,
/// unchanged: the extraction is stable.
proof fn lemma_extract_first_of_name(
    out: Seq<OwnedGame>,
    rest: Seq<OwnedGame>,
    best: int,
    n: Seq<char>,
)
    requires
        0 <= best < rest.len(),
        forall|k: int| 0 <= k < best ==> rest[k].name@ != rest[best].name@,
    ensures
        with_name(out.push(rest[best]), n) + with_name(rest.remove(best), n) == with_name(out, n)
            + with_name(rest, n),
{
    let x = rest[best];
    let a = rest.take(best);
    let b = rest.skip(best + 1);
    assert(rest =~= a + (seq![x] + b));
    assert(rest.remove(best) =~= a + b);
    lemma_with_name_add(a, seq![x] + b, n);
    lemma_with_name_add(seq![x], b, n);
    lemma_with_name_add(a, b, n);
    assert(seq![x] =~= Seq::<OwnedGame>::empty().push(x));
    lemma_with_name_push(Seq::<OwnedGame>::empty(), x, n);
    lemma_with_name_empty(Seq::<OwnedGame>::empty(), n);
    lemma_with_name_push(out, x, n);
    if x.name@ == n {
        lemma_with_name_absent(a, n);
        assert(with_name(seq![x], n) =~= seq![x]);
        assert(with_name(rest, n) =~= seq![x] + with_name(b, n));
        assert(with_name(out.push(x), n) + with_name(rest.remove(best), n) =~= with_name(out, n)
            + with_name(rest, n));
    } else {
        assert(with_name(seq![x], n) =~= Seq::<OwnedGame>::empty());
        assert(with_name(rest, n) =~= with_name(a, n) + with_name(b, n));
        assert(with_name(out.push(x), n) + with_name(rest.remove(best), n) =~= with_name(out, n)
            + with_name(rest, n));
    }
}

/// Names appear in non-decreasing lexicographic order.
pub open spec fn sorted_by_name(s: Seq<OwnedGame>) -> bool {
    forall|i: int, j: int| 0 <= i < j < s.len() ==> lex_le(#[trigger] s[i].name@, #[trigger] s[j].name@)
}

/// Sorts the owned games by name, ascending. The sort is stable: games
/// of equal name keep their original order, stated by the last clause,
/// which holds each name's subsequence fixed.
pub fn sort_owned_games(games: Vec<OwnedGame>) -> (r: Vec<OwnedGame>)
    ensures
        sorted_by_name(r@),
        r@.to_multiset() == games@.to_multiset(),
        r@.len() == games@.len(),
        forall|n: Seq<char>| #[trigger] with_name(r@, n) == with_name(games@, n),
{
    broadcast use vstd::seq_lib::group_to_multiset_ensures;

    let ghost input = games@;
    let mut rest = games;
    let mut out: Vec<OwnedGame> = Vec::new();
    proof {
        assert forall|n: Seq<char>|
            #[trigger] with_name(out@, n) + with_name(rest@, n) == with_name(input, n) by {
            lemma_with_name_empty(out@, n);
            assert(with_name(out@, n) + with_name(rest@, n) =~= with_name(input, n));
        }
    }
    while rest.len() > 0
        invariant
            out@.to_multiset().add(rest@.to_multiset()) =~= input.to_multiset(),
            out@.len() + rest@.len() == input.len(),
            sorted_by_name(out@),
            forall|i: int, j: int|
                0 <= i < out@.len() && 0 <= j < rest@.len() ==> lex_le(
                    #[trigger] out@[i].name@,
                    #[trigger] rest@[j].name@,
                ),
            forall|n: Seq<char>| #[trigger] with_name(out@, n) + with_name(rest@, n) == with_name(
                input,
                n,
            ),
        decreases rest.len(),
    {
        let mut best: usize = 0;
        proof {
            lemma_lex_lt_irrefl(rest@[0].name@);
        }
        let mut k: usize = 1;
        while k < rest.len()
            invariant
                best < k <= rest@.len() || (k <= rest@.len() && best == 0),
                best < rest@.len(),
                forall|m: int| 0 <= m < k ==> lex_le(
                    #[trigger] rest@[best as int].name@,
                    rest@[m].name@,
                ),
                forall|m: int| 0 <= m < best ==> lex_lt(
                    rest@[best as int].name@,
                    #[trigger] rest@[m].name@,
                ),
            decreases rest.len() - k,
        {
            if str_lex_lt(rest[k].name.as_str(), rest[best].name.as_str()) {
                proof {
                    lemma_lex_lt_asym(rest@[k as int].name@, rest@[best as int].name@);
                    assert forall|m: int| 0 <= m < k implies lex_le(
                        rest@[k as int].name@,
                        rest@[m].name@,
                    ) && lex_lt(rest@[k as int].name@, rest@[m].name@) by {
                        lemma_lex_le_trans(
                            rest@[k as int].name@,
                            rest@[best as int].name@,
                            rest@[m].name@,
                        );
                        lemma_lex_lt_le_trans(
                            rest@[k as int].name@,
                            rest@[best as int].name@,
                            rest@[m].name@,
                        );
                    }
                    lemma_lex_lt_irrefl(rest@[k as int].name@);
                }
                best = k;
            }
            k = k + 1;
        }
        let ghost old_out = out@;
        let ghost old_rest = rest@;
        let picked = rest.remove(best);
        out.push(picked);
        proof {
            to_multiset_remove(old_rest, best as int);
            to_multiset_build(old_out, picked);
            to_multiset_contains(old_rest, picked);
            assert(old_rest.contains(picked));
            assert(old_rest.to_multiset().count(picked) > 0);
            assert(out@.to_multiset().add(rest@.to_multiset()) =~= old_out.to_multiset().add(
                old_rest.to_multiset(),
            )) by {
                assert forall|x: OwnedGame|
                    out@.to_multiset().add(rest@.to_multiset()).count(x) == old_out.to_multiset()
                        .add(old_rest.to_multiset()).count(x) by {}
            }
            assert forall|i: int, j: int| 0 <= i < j < out@.len() implies lex_le(
                out@[i].name@,
                out@[j].name@,
            ) by {
                if j == out@.len() - 1 {
                    assert(out@[j] == picked);
                    assert(picked == old_rest[best as int]);
                }
            }
            let ghost best_name = old_rest[best as int].name@;
            assert forall|k2: int| 0 <= k2 < best implies old_rest[k2].name@ != best_name by {
                lemma_lex_lt_neq(best_name, old_rest[k2].name@);
            }
            assert forall|n: Seq<char>|
                #[trigger] with_name(out@, n) + with_name(rest@, n) == with_name(input, n) by {
                lemma_extract_first_of_name(old_out, old_rest, best as int, n);
                assert(with_name(old_out, n) + with_name(old_rest, n) == with_name(input, n));
            }
            assert forall|i: int, j: int|
                0 <= i < out@.len() && 0 <= j < rest@.len() implies lex_le(
                out@[i].name@,
                rest@[j].name@,
            ) by {
                let ghost orig: int = if j < best as int {
                    j
                } else {
                    j + 1
                };
                assert(rest@[j] == old_rest[orig]);
                if i == out@.len() - 1 {
                    assert(out@[i] == old_rest[best as int]);
                } else {
                    assert(out@[i] == old_out[i]);
                }
            }
        }
    }
    proof {
        assert(rest@.to_multiset() =~= Multiset::<OwnedGame>::empty());
        assert(out@.to_multiset() =~= out@.to_multiset().add(rest@.to_multiset()));
        assert forall|n: Seq<char>| #[trigger] with_name(out@, n) == with_name(input, n) by {
            lemma_with_name_empty(rest@, n);
            assert(with_name(out@, n) + with_name(rest@, n) =~= with_name(out@, n));
        }
    }
    out
}

} // verus!
