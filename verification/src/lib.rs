//! A small in-memory registry of mock "octopus" records with a
//! capture → tag life cycle, verified with Verus.
//!
//! Captured octopi start out untagged; a tagging pass gives each one a
//! sequentially generated name and moves it, exactly once, into the tagged
//! mapping. The registry guarantees that an identifier is never in both
//! mappings at once and that no record is ever lost.

pub mod entity;
pub mod feature;
pub mod naming;
pub mod registry;
