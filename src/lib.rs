//! Learns per-attribute weights from accepted product pairings and ranks
//! candidate products by their weighted similarity to a query product.
//!
//! All similarities, weights and scores are exact integers: a similarity is a
//! fraction with a per-attribute denominator, and weights are fixed-point
//! values with `ONE` standing for 1.0.

pub mod models;
pub mod parse;
pub mod simple;
pub mod sort;
pub mod table;

pub use models::{Attribute, CompareType, Fraction, Match, Product, ProductId};
pub use parse::{
    attribute_from_record, compare_type_from_code, encode_values, filter_matches,
    is_plain_list_text, product_from_record, split_values, ParseError,
};
pub use simple::{ModelError, Simple, ONE, SCORE_ONE};
pub use table::{contains_product, has_unique_ids};
