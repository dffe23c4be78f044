//! Field-level parsing: review percentages, pagination labels, sorting
//! and the small text helpers.
use catalog_export::owned::{sort_owned_games, OwnedGame};
use catalog_export::pages::parse_total_pages;
use catalog_export::review::parse_review_fraction;
use catalog_export::text::{first_or_empty, join_comma, trim};

fn game(name: &str, app_id: &str, hours: &str) -> OwnedGame {
    OwnedGame {
        name: name.to_string(),
        app_id: app_id.to_string(),
        hours_on_record: hours.to_string(),
    }
}

#[test]
fn review_fraction_basic() {
    assert_eq!(parse_review_fraction("87% of reviews for this game are positive"), "0.87");
}

#[test]
fn review_fraction_defaults_to_zero() {
    assert_eq!(parse_review_fraction(""), "0");
    assert_eq!(parse_review_fraction("no number here"), "0");
    assert_eq!(parse_review_fraction("mixed% of reviews"), "0");
    assert_eq!(parse_review_fraction("% of reviews"), "0");
}

#[test]
fn review_fraction_shapes() {
    assert_eq!(parse_review_fraction("90% of reviews"), "0.9");
    assert_eq!(parse_review_fraction("100% of reviews"), "1");
    assert_eq!(parse_review_fraction("87.5% of reviews"), "0.875");
    assert_eq!(parse_review_fraction("5% of reviews"), "0.05");
    assert_eq!(parse_review_fraction("0% of reviews"), "0");
    assert_eq!(parse_review_fraction(".5% of reviews"), "0.005");
    assert_eq!(parse_review_fraction("120% of reviews"), "1.2");
}

#[test]
fn total_pages_parses_label() {
    assert_eq!(parse_total_pages(Some("23".to_string())), 23);
    assert_eq!(parse_total_pages(Some("+7".to_string())), 7);
}

#[test]
fn total_pages_defaults_to_one() {
    assert_eq!(parse_total_pages(None), 1);
    assert_eq!(parse_total_pages(Some("next".to_string())), 1);
    assert_eq!(parse_total_pages(Some("".to_string())), 1);
    assert_eq!(parse_total_pages(Some("12 ".to_string())), 1);
    assert_eq!(parse_total_pages(Some("99999999999999999999999".to_string())), 1);
}

#[test]
fn sort_orders_by_name_ascending() {
    let games = vec![game("Zeta", "1", "1"), game("Alpha", "2", "2"), game("Mid", "3", "3")];
    let sorted = sort_owned_games(games);
    let names: Vec<&str> = sorted.iter().map(|g| g.name.as_str()).collect();
    assert_eq!(names, vec!["Alpha", "Mid", "Zeta"]);
}

#[test]
fn sort_is_stable_for_equal_names() {
    let games = vec![
        game("Same", "first", "1"),
        game("Aaa", "x", "2"),
        game("Same", "second", "3"),
    ];
    let sorted = sort_owned_games(games);
    assert_eq!(sorted.len(), 3);
    assert_eq!(sorted[0].name, "Aaa");
    assert_eq!(sorted[1].app_id, "first");
    assert_eq!(sorted[2].app_id, "second");
}

#[test]
fn sort_of_empty_list_is_empty() {
    let sorted = sort_owned_games(Vec::new());
    assert!(sorted.is_empty());
}

#[test]
fn trim_removes_surrounding_whitespace() {
    assert_eq!(trim("  May 1, 2020 \n"), "May 1, 2020");
    assert_eq!(trim(""), "");
    assert_eq!(trim("   "), "");
    assert_eq!(trim("a"), "a");
}

#[test]
fn join_comma_joins_genres() {
    let genres = vec!["Action".to_string(), "Indie".to_string(), "RPG".to_string()];
    assert_eq!(join_comma(&genres), "Action,Indie,RPG");
    assert_eq!(join_comma(&Vec::new()), "");
    assert_eq!(join_comma(&vec!["Solo".to_string()]), "Solo");
}

#[test]
fn first_developer_or_empty() {
    assert_eq!(first_or_empty(&vec!["Acme".to_string(), "Other".to_string()]), "Acme");
    assert_eq!(first_or_empty(&Vec::new()), "");
}
