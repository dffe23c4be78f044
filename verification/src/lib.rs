//! A verified fetch-parse-join pipeline for a game catalog export.
//!
//! The library sorts a user's owned games by name, parses pagination and
//! review-percentage labels, joins storefront listings against the owned
//! list by exact name match with an early-exit once every owned game has
//! been matched, and renders the resulting rows as CSV records.
pub mod joiner;
pub mod listing;
pub mod owned;
pub mod pages;
pub mod review;
pub mod text;
