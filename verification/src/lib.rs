//! Core of a live-subtitle transcript viewer.
//!
//! An external media player keeps rewriting a small JSON feed of timestamped
//! text fragments.  This crate reconstructs a clean transcript from that feed:
//! it parses the feed into entries, collapses runs of progressively-typed
//! fragments (each a textual prefix of the next) into their final form, and
//! holds the result in a store that is only ever replaced wholesale, so a
//! reader never sees a half-updated transcript.

pub mod collapse;
pub mod entry;
pub mod feed;
pub mod reload;
pub mod store;
pub mod text;
pub mod timefmt;
