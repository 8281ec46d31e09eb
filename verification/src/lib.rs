//! Disk-usage reporting library: aggregates file sizes over a directory
//! tree, deduplicates hard links, selects the globally largest entries by a
//! greedy frontier expansion, and lays the selection out as an indented,
//! size-ranked tree with human-readable size suffixes.

pub mod builder;
pub mod order;
pub mod path;
pub mod render;
pub mod select;
pub mod tree;
pub mod units;

pub use units::human_readable_number;
