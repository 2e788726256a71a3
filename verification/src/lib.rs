//! Verified core of a music-collection reorganizer.
//!
//! A collection root holds top-level folders named `<genre>-<year>`. The
//! library walks a snapshot of such a collection, records one work item per
//! tracked entry — every directory, and every song sitting directly under a
//! top folder — resolves a release year for each item, and plans
//! collision-safe moves into `<genre>-<year>` destination folders. All
//! decisions are made here over plain values; the filesystem, the tag reader
//! and the persistent work store are driven by an unverified shell that asks
//! this library what to do at each step.

pub mod bytes;
pub mod item;
pub mod names;
pub mod plan;
pub mod resolve;
pub mod store;
pub mod walk;
