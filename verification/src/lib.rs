//! Fuzzy substring/subsequence search engine.
//!
//! Given a set of candidate strings and a short query, the engine finds the
//! candidates that could plausibly match the query, scores them, and returns
//! the best matches together with the byte spans that justify each match.
//!
//! The crate is organised leaves-first:
//! - [`text`]: byte-level case folding and UTF-8 character lengths;
//! - [`char_bag`]: a compact multiset fingerprint used as a cheap pre-filter;
//! - [`matches`]: candidate and match records, their views and total order;
//! - [`merge`]: stable bounded insertion and the order-preserving merge step;
//! - [`scorer`]: the scoring pass over one shard of candidates;
//! - [`strings`]: the synchronous and sharded entry points;
//! - [`laws`]: proved statements relating the entry points to each other.

pub mod char_bag;
pub mod laws;
pub mod matches;
pub mod merge;
pub mod scorer;
pub mod strings;
pub mod text;
