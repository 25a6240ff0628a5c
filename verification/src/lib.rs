//! habitctl: a verified core for a personal habit tracker.
//!
//! The library parses a habit registry and an append-only entry log,
//! derives a per-habit index, computes rolling completion scores, and
//! renders a textual history report. All file and terminal handling
//! lives outside the library.

pub mod backfill;
pub mod date;
pub mod filter;
pub mod index;
pub mod log;
pub mod model;
pub mod registry;
pub mod render;
pub mod score;
pub mod text;
pub mod todo;
