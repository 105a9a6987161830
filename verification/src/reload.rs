//! The reload cycle: one read-parse-collapse-replace pass.
//!
//! The surrounding process watches the feed resource and, on every change
//! signal (and once at startup), reads the resource and hands the outcome of
//! that read to [`reload`].  Everything that can go wrong is absorbed here:
//! a missing or unreadable resource and malformed content all leave the
//! transcript exactly as it was, so a transient failure (the producer caught
//! mid-write) never truncates or clears what is already shown.  Only the
//! presence flag always reflects the latest attempt.

use crate::collapse::{collapse, filter_prefix_subtitles};
use crate::entry::entry_views;
use crate::feed::{parse, parse_feed};
use crate::store::TranscriptStore;
use vstd::prelude::*;

verus! {

/// What one attempt to read the feed resource yielded: the resource does
/// not exist; it exists but could not be read; or its complete raw content.
pub enum ReadOutcome {
    Missing,
    Unreadable,
    Content(String),
}

/// Run one reload cycle against `store`, given the outcome of reading the
/// feed resource.  Never fails outward.  The presence flag records whether
/// the resource existed; the transcript becomes the collapsed form of the
/// parsed content when the read succeeded and the content was well-formed,
/// and stays untouched — identical to its previous value — otherwise.
pub fn reload(store: &mut TranscriptStore, outcome: ReadOutcome)
    ensures
        final(store).present() == !(outcome is Missing),
        match outcome {
            ReadOutcome::Content(c) => match parse_feed(c@) {
                Some(es) => entry_views(final(store).transcript()) == collapse(es),
                None => final(store).transcript() == old(store).transcript(),
            },
            _ => final(store).transcript() == old(store).transcript(),
        },
{
    match &outcome {
        ReadOutcome::Missing => {
            store.set_feed_present(false);
        },
        ReadOutcome::Unreadable => {
            store.set_feed_present(true);
        },
        ReadOutcome::Content(c) => {
            store.set_feed_present(true);
            match parse(c.as_str()) {
                Ok(entries) => {
                    let collapsed = filter_prefix_subtitles(entries);
                    store.replace(collapsed);
                },
                Err(_) => {},
            }
        },
    }
}

} // verus!
