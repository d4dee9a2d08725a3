//! Cheapest-route search over a weighted directed graph, together with a
//! handful of small text, date and number utilities.

pub mod case_insensitive_sort;
pub mod check_deadline_reached;
pub mod distance_table;
pub mod find_unique_items;
pub mod frontier;
pub mod graph;
pub mod handle_inconsistent_dates;
pub mod interpret_rgb_hex_colour;
pub mod ordering;
pub mod route;
pub mod run_length_encoding;
pub mod search;
pub mod search_invariant;
pub mod search_model;
pub mod step;
pub mod text;
pub mod validate_isbn;
pub mod vectors;
