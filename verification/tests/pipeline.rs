//! End-to-end behaviour of the join pipeline on concrete data.
use catalog_export::joiner::{run_join, Joiner, ListingBundle};
use catalog_export::listing::{render_header, render_row, Listing, Row};
use catalog_export::owned::OwnedGame;

fn game(name: &str, app_id: &str, hours: &str) -> OwnedGame {
    OwnedGame {
        name: name.to_string(),
        app_id: app_id.to_string(),
        hours_on_record: hours.to_string(),
    }
}

fn bundle(name: &str, app_id: &str, review: &str, genres: &[&str], devs: &[&str]) -> ListingBundle {
    ListingBundle {
        listing: Listing {
            name: name.to_string(),
            published_date: "2020".to_string(),
            discounted_price: "$4.99".to_string(),
            review_attr: review.to_string(),
            app_id: app_id.to_string(),
        },
        genres: genres.iter().map(|g| g.to_string()).collect(),
        developers: devs.iter().map(|d| d.to_string()).collect(),
    }
}

#[test]
fn end_to_end_single_match_halts() {
    let games = vec![game("Alpha", "10", "5.2")];
    let bundles = vec![bundle("Alpha", "10", "90% of reviews", &["Action"], &["Acme"])];
    let rows = run_join(games, &bundles);
    assert_eq!(rows.len(), 1);
    let row = &rows[0];
    assert_eq!(row.name, "Alpha");
    assert_eq!(row.published_date, "2020");
    assert_eq!(row.price, "$4.99");
    assert_eq!(row.reviews, "0.9");
    assert_eq!(row.hours, "5.2");
    assert_eq!(row.app_id, "10");
    assert_eq!(row.genre, "Action");
    assert_eq!(row.developer, "Acme");
    let line = render_row(row);
    assert_eq!(line, "Alpha,2020,$4.99,0.9,5.2,10,Action,Acme\n");
}

#[test]
fn halts_exactly_at_full_match_count() {
    let games = vec![game("Alpha", "10", "5.2")];
    let bundles = vec![
        bundle("Beta", "20", "80%", &[], &[]),
        bundle("Alpha", "10", "90%", &[], &[]),
        bundle("Gamma", "30", "70%", &[], &[]),
    ];
    let rows = run_join(games, &bundles);
    assert_eq!(rows.len(), 2);
    assert_eq!(rows[0].name, "Beta");
    assert_eq!(rows[0].hours, "0");
    assert_eq!(rows[1].name, "Alpha");
    assert_eq!(rows[1].hours, "5.2");
}

#[test]
fn empty_owned_list_never_matches_and_exhausts() {
    let games: Vec<OwnedGame> = Vec::new();
    let bundles = vec![
        bundle("Alpha", "10", "90%", &[], &[]),
        bundle("Beta", "20", "80%", &[], &[]),
    ];
    let rows = run_join(games, &bundles);
    assert_eq!(rows.len(), 2);
    assert!(rows.iter().all(|r| r.hours == "0"));
}

#[test]
fn empty_owned_list_counter_never_increments() {
    let mut joiner = Joiner::new(Vec::new());
    let (row, halt) = joiner.step(
        Listing {
            name: "Alpha".to_string(),
            published_date: String::new(),
            discounted_price: String::new(),
            review_attr: String::new(),
            app_id: String::new(),
        },
        Vec::new(),
        Vec::new(),
    );
    assert_eq!(row.hours, "0");
    assert!(!halt);
    assert_eq!(joiner.count, 0);
}

#[test]
fn name_match_is_case_sensitive_and_exact() {
    let games = vec![game("foo bar", "1", "9.9")];
    let bundles = vec![bundle("Foo Bar", "2", "", &[], &[])];
    let rows = run_join(games, &bundles);
    assert_eq!(rows.len(), 1);
    assert_eq!(rows[0].hours, "0");
}

#[test]
fn counter_increments_at_most_once_per_owned_game() {
    let games = vec![game("Alpha", "10", "5.2"), game("Alpha", "11", "7.0")];
    let bundles = vec![
        bundle("Alpha", "10", "", &[], &[]),
        bundle("Alpha", "10", "", &[], &[]),
        bundle("Beta", "20", "", &[], &[]),
    ];
    let mut joiner = Joiner::new(games);
    let mut rows: Vec<Row> = Vec::new();
    for b in &bundles {
        let listing = Listing {
            name: b.listing.name.clone(),
            published_date: b.listing.published_date.clone(),
            discounted_price: b.listing.discounted_price.clone(),
            review_attr: b.listing.review_attr.clone(),
            app_id: b.listing.app_id.clone(),
        };
        let (row, halt) = joiner.step(listing, b.genres.clone(), b.developers.clone());
        rows.push(row);
        assert!(!halt);
    }
    // both listings named Alpha take the first owned entry's hours; the
    // counter counts that entry once and the traversal never halts
    assert_eq!(joiner.count, 1);
    assert_eq!(rows.len(), 3);
    assert_eq!(rows[0].hours, "5.2");
    assert_eq!(rows[1].hours, "5.2");
    assert_eq!(rows[2].hours, "0");
}

#[test]
fn header_row_is_fixed() {
    let line = render_header();
    assert_eq!(line, "Name,Published_Date,Price,Reviews,Hours_on_Record,App_Id,Genre,Developer\n");
}

#[test]
fn csv_encoding_quotes_fields_with_commas() {
    let games = vec![game("Alpha", "10", "5.2")];
    let bundles = vec![bundle("Alpha", "10", "90%", &["Action", "Indie"], &["Acme"])];
    let rows = run_join(games, &bundles);
    assert_eq!(rows[0].genre, "Action,Indie");
    let line = render_row(&rows[0]);
    assert_eq!(line, "Alpha,2020,$4.99,0.9,5.2,10,\"Action,Indie\",Acme\n");
}

#[test]
fn fields_trimmed_and_defaults_applied() {
    let games: Vec<OwnedGame> = Vec::new();
    let listing = Listing::from_parts(
        Some("Alpha".to_string()),
        Some("  May 1, 2020  ".to_string()),
        Some(" $4.99 ".to_string()),
        None,
        None,
    );
    assert_eq!(listing.review_attr, "");
    assert_eq!(listing.app_id, "");
    let mut joiner = Joiner::new(games);
    let (row, _) = joiner.step(listing, Vec::new(), Vec::new());
    assert_eq!(row.published_date, "May 1, 2020");
    assert_eq!(row.price, "$4.99");
    assert_eq!(row.reviews, "0");
    assert_eq!(row.genre, "");
    assert_eq!(row.developer, "");
}
