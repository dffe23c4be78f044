//! The join of storefront listings against the owned-game list: one row
//! per listing, hours attributed by exact name match, a match counter
//! that increments at most once per owned game, and an early exit once
//! every owned game has been matched.
use vstd::prelude::*;
use crate::owned::OwnedGame;
use crate::listing::{Listing, ListingModel, Row, RowModel};
use crate::text::{trim, trim_spec, join_comma, join_comma_spec, first_or_empty,
    first_or_empty_spec};
use crate::review::{parse_review_fraction, review_fraction_spec};

verus! {

/// The index of the first owned game whose name equals `name` exactly,
/// case-sensitively, with no normalization.
pub open spec fn first_match(games: Seq<OwnedGame>, name: Seq<char>) -> Option<int>
    decreases games.len(),
{
    if games.len() == 0 {
        None
    } else if games[0].name@ == name {
        Some(0int)
    } else {
        match first_match(games.drop_first(), name) {
            Some(i) => Some(i + 1),
            None => None,
        }
    }
}

/// What `first_match` returns: the matching index is in range, its name
/// equals `name`, and no earlier name does; `None` means no name equals.
pub proof fn lemma_first_match_props(games: Seq<OwnedGame>, name: Seq<char>)
    ensures
        match first_match(games, name) {
            Some(i) => 0 <= i < games.len() && games[i].name@ == name && (forall|k: int|
                0 <= k < i ==> games[k].name@ != name),
            None => forall|k: int| 0 <= k < games.len() ==> games[k].name@ != name,
        },
    decreases games.len(),
{
    if games.len() > 0 {
        lemma_first_match_props(games.drop_first(), name);
        if games[0].name@ != name {
            match first_match(games.drop_first(), name) {
                Some(i) => {
                    assert forall|k: int| 0 <= k < i + 1 implies games[k].name@ != name by {
                        if k > 0 {
                            assert(games.drop_first()[k - 1] == games[k]);
                        }
                    }
                },
                None => {
                    assert forall|k: int| 0 <= k < games.len() implies games[k].name@ != name by {
                        if k > 0 {
                            assert(games.drop_first()[k - 1] == games[k]);
                        }
                    }
                },
            }
        }
    }
}

/// The number of set flags.
pub open spec fn count_true(s: Seq<bool>) -> int
    decreases s.len(),
{
    if s.len() == 0 {
        0
    } else {
        (if s[0] {
            1int
        } else {
            0int
        }) + count_true(s.drop_first())
    }
}

proof fn lemma_count_true_bounds(s: Seq<bool>)
    ensures
        0 <= count_true(s) <= s.len(),
    decreases s.len(),
{
    if s.len() > 0 {
        lemma_count_true_bounds(s.drop_first());
    }
}

proof fn lemma_count_true_zero(s: Seq<bool>)
    requires
        forall|k: int| 0 <= k < s.len() ==> !s[k],
    ensures
        count_true(s) == 0,
    decreases s.len(),
{
    if s.len() > 0 {
        lemma_count_true_zero(s.drop_first());
    }
}

proof fn lemma_count_true_update(s: Seq<bool>, i: int)
    requires
        0 <= i < s.len(),
        !s[i],
    ensures
        count_true(s.update(i, true)) == count_true(s) + 1,
    decreases s.len(),
{
    if i == 0 {
        assert(s.update(0, true).drop_first() =~= s.drop_first());
    } else {
        assert(s.update(i, true).drop_first() =~= s.drop_first().update(i - 1, true));
        lemma_count_true_update(s.drop_first(), i - 1);
    }
}

/// One storefront listing together with the genre links and developer
/// links of its detail page.
pub struct ListingBundle {
    pub listing: Listing,
    pub genres: Vec<String>,
    pub developers: Vec<String>,
}

/// The mathematical value of a [`ListingBundle`].
pub ghost struct BundleModel {
    pub listing: ListingModel,
    pub genres: Seq<Seq<char>>,
    pub developers: Seq<Seq<char>>,
}

impl View for ListingBundle {
    type V = BundleModel;

    open spec fn view(&self) -> BundleModel {
        BundleModel {
            listing: self.listing@,
            genres: self.genres.deep_view(),
            developers: self.developers.deep_view(),
        }
    }
}

impl DeepView for ListingBundle {
    type V = BundleModel;

    open spec fn deep_view(&self) -> BundleModel {
        self@
    }
}

/// The hours attributed to a listing: those of the first owned game of
/// equal name, or `"0"` when no owned name equals the listing's.
pub open spec fn hours_for(games: Seq<OwnedGame>, name: Seq<char>) -> Seq<char> {
    match first_match(games, name) {
        Some(i) => games[i].hours_on_record@,
        None => seq!['0'],
    }
}

/// The output row for one listing: the listing's own fields with dates
/// and prices trimmed, the parsed review fraction, attributed hours, the
/// comma-joined genres and the first developer.
pub open spec fn row_for(games: Seq<OwnedGame>, b: BundleModel) -> RowModel {
    RowModel {
        name: b.listing.name,
        published_date: trim_spec(b.listing.published_date),
        price: trim_spec(b.listing.discounted_price),
        reviews: review_fraction_spec(b.listing.review_attr),
        hours: hours_for(games, b.listing.name),
        app_id: b.listing.app_id,
        genre: join_comma_spec(b.genres),
        developer: first_or_empty_spec(b.developers),
    }
}

/// The matched flags after one listing: the first owned game of equal
/// name is marked, once; a game already marked is not marked again.
pub open spec fn step_matched(games: Seq<OwnedGame>, matched: Seq<bool>, name: Seq<char>) -> Seq<
    bool,
> {
    match first_match(games, name) {
        Some(i) => if 0 <= i < matched.len() && !matched[i] {
            matched.update(i, true)
        } else {
            matched
        },
        None => matched,
    }
}

/// Whether the traversal halts: every owned game has been matched. An
/// empty owned list never halts the traversal; it runs to exhaustion.
pub open spec fn join_halted(games: Seq<OwnedGame>, matched: Seq<bool>) -> bool {
    games.len() > 0 && count_true(matched) == games.len()
}

/// The rows the join emits for `bundles`, starting from the given
/// matched flags: one row per listing, stopping right after the listing
/// at which the traversal halts.
pub open spec fn run_spec(games: Seq<OwnedGame>, matched: Seq<bool>, bundles: Seq<BundleModel>) -> Seq<
    RowModel,
>
    decreases bundles.len(),
{
    if bundles.len() == 0 {
        Seq::empty()
    } else {
        let row = row_for(games, bundles[0]);
        let m2 = step_matched(games, matched, bundles[0].listing.name);
        if join_halted(games, m2) {
            seq![row]
        } else {
            seq![row] + run_spec(games, m2, bundles.drop_first())
        }
    }
}

/// The matched flags after a whole sequence of listings.
pub open spec fn matched_after(
    games: Seq<OwnedGame>,
    matched: Seq<bool>,
    bundles: Seq<BundleModel>,
) -> Seq<bool>
    decreases bundles.len(),
{
    if bundles.len() == 0 {
        matched
    } else {
        matched_after(
            games,
            step_matched(games, matched, bundles[0].listing.name),
            bundles.drop_first(),
        )
    }
}

/// Finds the first owned game whose name equals `name`.
fn find_match(games: &Vec<OwnedGame>, name: &String) -> (r: Option<usize>)
    ensures
        match r {
            Some(i) => first_match(games@, name@) == Some(i as int),
            None => first_match(games@, name@) is None,
        },
{
    proof {
        lemma_first_match_props(games@, name@);
    }
    let mut k: usize = 0;
    while k < games.len()
        invariant
            k <= games@.len(),
            forall|j: int| 0 <= j < k ==> games@[j].name@ != name@,
        decreases games@.len() - k,
    {
        if games[k].name == *name {
            proof {
                lemma_first_match_props(games@, name@);
            }
            return Some(k);
        }
        k = k + 1;
    }
    proof {
        lemma_first_match_props(games@, name@);
    }
    None
}

/// The joiner's state: the owned-game list, one matched flag per owned
/// game, and the match counter, which always counts the set flags.
pub struct Joiner {
    pub games: Vec<OwnedGame>,
    pub matched: Vec<bool>,
    pub count: usize,
}

impl Joiner {
    /// One flag per owned game; the counter counts the set flags, so it
    /// increments at most once per owned game.
    pub open spec fn wf(&self) -> bool {
        &&& self.matched@.len() == self.games@.len()
        &&& self.count == count_true(self.matched@)
    }

    /// Starts a traversal: nothing matched yet.
    pub fn new(games: Vec<OwnedGame>) -> (r: Joiner)
        ensures
            r.wf(),
            r.games == games,
            r.matched@.len() == games@.len(),
            forall|k: int| 0 <= k < r.matched@.len() ==> !r.matched@[k],
            r.count == 0,
    {
        let n = games.len();
        let mut matched: Vec<bool> = Vec::new();
        let mut i: usize = 0;
        while i < n
            invariant
                i <= n,
                matched@.len() == i,
                forall|k: int| 0 <= k < i ==> !matched@[k],
            decreases n - i,
        {
            matched.push(false);
            i = i + 1;
        }
        proof {
            lemma_count_true_zero(matched@);
        }
        Joiner { games, matched, count: 0 }
    }

    /// Processes one listing: emits its row and reports whether the
    /// traversal halts right after it.
    pub fn step(&mut self, listing: Listing, genres: Vec<String>, developers: Vec<String>) -> (r: (
        Row,
        bool,
    ))
        requires
            old(self).wf(),
        ensures
            final(self).wf(),
            final(self).games == old(self).games,
            final(self).matched@ == step_matched(
                old(self).games@,
                old(self).matched@,
                listing@.name,
            ),
            r.0@ == row_for(
                old(self).games@,
                BundleModel {
                    listing: listing@,
                    genres: genres.deep_view(),
                    developers: developers.deep_view(),
                },
            ),
            r.1 == join_halted(final(self).games@, final(self).matched@),
    {
        let hours: String;
        match find_match(&self.games, &listing.name) {
            Some(i) => {
                proof {
                    lemma_first_match_props(self.games@, listing.name@);
                }
                hours = self.games[i].hours_on_record.clone();
                if !self.matched[i] {
                    let n = self.matched.len();
                    proof {
                        lemma_count_true_update(self.matched@, i as int);
                        lemma_count_true_bounds(self.matched@.update(i as int, true));
                        assert(count_true(self.matched@) + 1 <= n as int);
                    }
                    self.matched.set(i, true);
                    self.count = self.count + 1;
                }
            },
            None => {
                let zero = String::from_str("0");
                proof {
                    reveal_strlit("0");
                    assert(zero@ =~= seq!['0']);
                }
                hours = zero;
            },
        }
        let row = Row {
            name: listing.name,
            published_date: trim(listing.published_date.as_str()),
            price: trim(listing.discounted_price.as_str()),
            reviews: parse_review_fraction(listing.review_attr.as_str()),
            hours,
            app_id: listing.app_id,
            genre: join_comma(&genres),
            developer: first_or_empty(&developers),
        };
        let halt = self.games.len() > 0 && self.count == self.matched.len();
        proof {
            assert(self.matched@.len() == self.games@.len());
        }
        (row, halt)
    }
}

/// Flags for a fresh traversal: none set.
pub open spec fn no_matches(n: nat) -> Seq<bool> {
    Seq::new(n, |k: int| false)
}

/// Clones a vector of strings, keeping every view.
fn clone_strings(v: &Vec<String>) -> (r: Vec<String>)
    ensures
        r.deep_view() == v.deep_view(),
{
    let mut r: Vec<String> = Vec::new();
    let mut i: usize = 0;
    while i < v.len()
        invariant
            i <= v@.len(),
            r@.len() == i,
            forall|k: int| 0 <= k < i ==> r@[k]@ == v@[k]@,
        decreases v@.len() - i,
    {
        r.push(v[i].clone());
        i = i + 1;
    }
    proof {
        assert(r.deep_view() =~= v.deep_view());
    }
    r
}

/// Joins a whole sequence of listings against the owned games, stopping
/// right after the listing at which every owned game has been matched.
pub fn run_join(games: Vec<OwnedGame>, bundles: &Vec<ListingBundle>) -> (rows: Vec<Row>)
    ensures
        rows.deep_view() == run_spec(games@, no_matches(games@.len()), bundles.deep_view()),
{
    let ghost gseq = games@;
    let ghost ball = bundles.deep_view();
    let mut joiner = Joiner::new(games);
    proof {
        assert(joiner.matched@ =~= no_matches(gseq.len()));
        assert(ball.skip(0) =~= ball);
        assert(ball.len() == bundles@.len());
    }
    let mut rows: Vec<Row> = Vec::new();
    let mut i: usize = 0;
    let mut done = false;
    while i < bundles.len() && !done
        invariant
            i <= bundles@.len(),
            ball == bundles.deep_view(),
            ball.len() == bundles@.len(),
            joiner.wf(),
            joiner.games@ == gseq,
            !done ==> rows.deep_view() + run_spec(gseq, joiner.matched@, ball.skip(i as int))
                == run_spec(gseq, no_matches(gseq.len()), ball),
            done ==> rows.deep_view() == run_spec(gseq, no_matches(gseq.len()), ball),
        decreases bundles@.len() - i,
    {
        let b = &bundles[i];
        let listing = Listing {
            name: b.listing.name.clone(),
            published_date: b.listing.published_date.clone(),
            discounted_price: b.listing.discounted_price.clone(),
            review_attr: b.listing.review_attr.clone(),
            app_id: b.listing.app_id.clone(),
        };
        let genres = clone_strings(&b.genres);
        let developers = clone_strings(&b.developers);
        let ghost lv = listing@;
        let ghost gv = genres.deep_view();
        let ghost dv = developers.deep_view();
        let ghost m_old = joiner.matched@;
        let ghost rows_old = rows.deep_view();
        proof {
            assert(ball[i as int] == bundles@[i as int].deep_view());
            assert(lv == ball[i as int].listing);
            assert(gv == ball[i as int].genres);
            assert(dv == ball[i as int].developers);
            assert(BundleModel { listing: lv, genres: gv, developers: dv } == ball[i as int]);
        }
        let (row, halt) = joiner.step(listing, genres, developers);
        rows.push(row);
        proof {
            let bm = ball[i as int];
            let rest = ball.skip(i as int);
            assert(rest[0] == bm);
            assert(rest.drop_first() =~= ball.skip(i + 1));
            assert(row@ == row_for(gseq, bm));
            assert(joiner.matched@ == step_matched(gseq, m_old, bm.listing.name));
            assert(rows.deep_view() =~= rows_old.push(row@));
            assert(run_spec(gseq, m_old, rest) == (if join_halted(gseq, joiner.matched@) {
                seq![row_for(gseq, bm)]
            } else {
                seq![row_for(gseq, bm)] + run_spec(gseq, joiner.matched@, ball.skip(i + 1))
            }));
            if halt {
                assert(rows.deep_view() =~= rows_old + seq![row@]);
                assert(rows.deep_view() == run_spec(gseq, no_matches(gseq.len()), ball));
            } else {
                assert(rows_old.push(row@) + run_spec(gseq, joiner.matched@, ball.skip(i + 1))
                    =~= rows_old + (seq![row@] + run_spec(gseq, joiner.matched@, ball.skip(i + 1))));
            }
        }
        if halt {
            done = true;
        }
        i = i + 1;
    }
    proof {
        if !done {
            assert(ball.skip(i as int).len() == 0);
            assert(rows.deep_view() + run_spec(gseq, joiner.matched@, ball.skip(i as int))
                =~= rows.deep_view());
        }
    }
    rows
}

/// An empty owned list never matches: a listing marks no flag and its
/// row carries hours `"0"`.
pub proof fn lemma_empty_owned_step(matched: Seq<bool>, b: BundleModel)
    ensures
        step_matched(Seq::<OwnedGame>::empty(), matched, b.listing.name) == matched,
        row_for(Seq::<OwnedGame>::empty(), b).hours == seq!['0'],
{
}

/// For an empty owned-game list the joiner never halts and its counter
/// never increments: every listing yields a row, each with hours `"0"`,
/// and the matched flags stay as they began.
pub proof fn lemma_empty_owned_run(matched: Seq<bool>, bundles: Seq<BundleModel>)
    ensures
        run_spec(Seq::<OwnedGame>::empty(), matched, bundles).len() == bundles.len(),
        forall|i: int| 0 <= i < bundles.len() ==> run_spec(
            Seq::<OwnedGame>::empty(),
            matched,
            bundles,
        )[i].hours == seq!['0'],
        matched_after(Seq::<OwnedGame>::empty(), matched, bundles) == matched,
    decreases bundles.len(),
{
    let games = Seq::<OwnedGame>::empty();
    if bundles.len() > 0 {
        lemma_empty_owned_step(matched, bundles[0]);
        lemma_empty_owned_run(matched, bundles.drop_first());
        let rec = run_spec(games, matched, bundles.drop_first());
        let whole = run_spec(games, matched, bundles);
        assert(whole == seq![row_for(games, bundles[0])] + rec);
        assert forall|i: int| 0 <= i < bundles.len() implies whole[i].hours == seq!['0'] by {
            if i == 0 {
                assert(whole[0] == row_for(games, bundles[0]));
            } else {
                assert(whole[i] == rec[i - 1]);
            }
        }
    }
}

/// The traversal halts exactly at the listing where the match counter
/// first reaches the owned-game count: that listing's row is the last,
/// and no listing after it yields a row.
pub proof fn lemma_halts_at_first_full_match(
    games: Seq<OwnedGame>,
    matched: Seq<bool>,
    bundles: Seq<BundleModel>,
    k: int,
)
    requires
        0 <= k < bundles.len(),
        !join_halted(games, matched),
        forall|j: int|
            0 < j <= k ==> !join_halted(
                games,
                matched_after(games, matched, #[trigger] bundles.take(j)),
            ),
        join_halted(games, matched_after(games, matched, bundles.take(k + 1))),
    ensures
        run_spec(games, matched, bundles).len() == k + 1,
    decreases k,
{
    let m2 = step_matched(games, matched, bundles[0].listing.name);
    assert(bundles.take(1)[0] == bundles[0]);
    assert(bundles.take(1).drop_first() =~= Seq::<BundleModel>::empty());
    assert(matched_after(games, m2, bundles.take(1).drop_first()) == m2);
    assert(matched_after(games, matched, bundles.take(1)) == m2);
    if k == 0 {
        assert(join_halted(games, m2));
        assert(run_spec(games, matched, bundles) == seq![row_for(games, bundles[0])]);
    } else {
        assert(!join_halted(games, m2));
        let rest = bundles.drop_first();
        assert forall|j: int| 0 < j <= k - 1 implies !join_halted(
            games,
            matched_after(games, m2, #[trigger] rest.take(j)),
        ) by {
            assert(bundles.take(j + 1)[0] == bundles[0]);
            assert(bundles.take(j + 1).drop_first() =~= rest.take(j));
            assert(matched_after(games, matched, bundles.take(j + 1)) == matched_after(
                games,
                m2,
                rest.take(j),
            ));
        }
        assert(bundles.take(k + 1)[0] == bundles[0]);
        assert(bundles.take(k + 1).drop_first() =~= rest.take(k));
        assert(join_halted(games, matched_after(games, m2, rest.take(k))));
        lemma_halts_at_first_full_match(games, m2, rest, k - 1);
        assert(run_spec(games, matched, bundles) == seq![row_for(games, bundles[0])] + run_spec(
            games,
            m2,
            rest,
        ));
    }
}

/// When the match counter never reaches the owned-game count, the
/// traversal runs to exhaustion: every listing yields a row.
pub proof fn lemma_exhausts_without_full_match(
    games: Seq<OwnedGame>,
    matched: Seq<bool>,
    bundles: Seq<BundleModel>,
)
    requires
        !join_halted(games, matched),
        forall|j: int|
            0 < j <= bundles.len() ==> !join_halted(
                games,
                matched_after(games, matched, #[trigger] bundles.take(j)),
            ),
    ensures
        run_spec(games, matched, bundles).len() == bundles.len(),
    decreases bundles.len(),
{
    if bundles.len() > 0 {
        let m2 = step_matched(games, matched, bundles[0].listing.name);
        assert(bundles.take(1)[0] == bundles[0]);
        assert(bundles.take(1).drop_first() =~= Seq::<BundleModel>::empty());
        assert(matched_after(games, m2, bundles.take(1).drop_first()) == m2);
        assert(matched_after(games, matched, bundles.take(1)) == m2);
        assert(!join_halted(games, m2));
        let rest = bundles.drop_first();
        assert forall|j: int| 0 < j <= rest.len() implies !join_halted(
            games,
            matched_after(games, m2, #[trigger] rest.take(j)),
        ) by {
            assert(bundles.take(j + 1)[0] == bundles[0]);
            assert(bundles.take(j + 1).drop_first() =~= rest.take(j));
            assert(matched_after(games, matched, bundles.take(j + 1)) == matched_after(
                games,
                m2,
                rest.take(j),
            ));
        }
        lemma_exhausts_without_full_match(games, m2, rest);
        assert(run_spec(games, matched, bundles) == seq![row_for(games, bundles[0])] + run_spec(
            games,
            m2,
            rest,
        ));
    }
}

} // verus!
