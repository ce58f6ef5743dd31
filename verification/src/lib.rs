//! Finds the cheapest combination of subscription packages that covers a
//! requested set of watchable items.
//!
//! The catalog assigns every watchable item a dense integer id; the highlight
//! variant of an item lives at `id + HIGHLIGHT_OFFSET`, so one growable
//! bit-vector type represents requirements over both variants.  A request is
//! resolved to a bit-vector of required item ids, candidate packages are
//! narrowed by a dominance filter, and a best-first search over package
//! combinations returns a minimum-price covering selection.

pub mod catalog;
pub mod itemset;
pub mod models;
pub mod report;
pub mod resolver;
pub mod solver;
