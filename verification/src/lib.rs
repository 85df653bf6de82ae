//! Frequent-itemset mining with a level-wise (Apriori-style) enumeration.
//!
//! A dataset is a sequence of transactions, each a set of item identifiers.
//! `frequent_itemsets` returns every itemset whose support count (the number
//! of transactions containing it as a subset) meets a caller-supplied
//! threshold, restricted to the largest enumeration level that still yields
//! at least one surviving itemset.

pub mod combination;
pub mod driver;
pub mod itemset;
pub mod support;

pub use combination::solve_combinations;
pub use driver::frequent_itemsets;
pub use driver::jagged_array_to_itemsetlist;
pub use driver::solve_unique_itemset;
pub use itemset::ItemSet;
pub use itemset::ItemSetList;
pub use support::combination_is_in_itemset;
pub use support::extract_itemsets;
pub use support::prune;
pub use support::solve_supports;
pub use support::Supports;
