//! Frecency-ranked directory jumping.
//!
//! The crate keeps a bounded store of directory paths, each with a score that
//! blends how often and how recently the path was visited, persists that store
//! through an atomically renamed snapshot, and resolves fuzzy queries against
//! it with a family of string matchers.  All score arithmetic is carried out
//! in fixed-point integers so that every step of it can be verified.

pub mod matcher;
pub mod importers;
pub mod interactive;
pub mod pazi_result;
pub mod pipe;
pub mod shells;
pub mod edit;
pub mod frecency;
pub mod frecent_paths;
pub mod score;
pub mod snapshot;
pub mod strutil;
