//! A read-only catalog of municipal tree records.
//!
//! Records are partitioned into four age categories; each category gets a
//! binary search index over tree height, built once from the batch and then
//! queried for the smallest and largest tree.

pub mod catalog;
pub mod index;
pub mod record;
pub mod sort;
