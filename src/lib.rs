//! Path resolution, wildcard matching, hierarchical listing and size
//! aggregation for a flat, key-based object store addressed by `az://` URIs.
//!
//! - `uri`: resolving addresses into account, container and path.
//! - `glob`: `*`, `?` and `**` patterns, and splitting a path at its first wildcard.
//! - `listing`: planning a listing and selecting or rebuilding the entries it shows.
//! - `sizes`: per-directory size totals.
//! - `units`, `ranges`, `paths`, `azcopy`, `targets`: the smaller pieces of
//!   text handling that the commands need.

pub mod text;
pub mod uri;
pub mod glob;
pub mod listing;
pub mod sizes;
pub mod units;
pub mod paths;
pub mod ranges;
pub mod azcopy;
pub mod targets;
