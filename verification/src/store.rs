//! The transcript store: the shared state of the viewer.
//!
//! The store owns the current de-duplicated transcript together with the
//! feed-presence flag.  It only ever exchanges whole values: `replace`
//! installs a complete new transcript, `snapshot` hands out an independent
//! copy of the complete current one, and `clear` installs the empty one.  No
//! operation edits an entry in place, and no operation exposes a reference
//! into the stored sequence, so a value obtained from `snapshot` is a fixed
//! point in time: it can never mix entries of two different reload cycles,
//! and later `replace` calls cannot affect it.

use crate::entry::SubtitleEntry;
use vstd::prelude::*;

verus! {

/// Holds the current transcript and the feed-presence status.  The single
/// reload writer goes through `replace`/`set_feed_present`; any number of
/// display readers go through `snapshot`/`feed_present`.
pub struct TranscriptStore {
    entries: Vec<SubtitleEntry>,
    feed_present: bool,
}

impl TranscriptStore {
    /// The current transcript, as a mathematical sequence.
    pub closed spec fn transcript(&self) -> Seq<SubtitleEntry> {
        self.entries@
    }

    /// The current feed-presence status, as recorded by the last reload.
    pub closed spec fn present(&self) -> bool {
        self.feed_present
    }

    /// A fresh store: empty transcript, feed not seen yet.
    pub fn new() -> (r: TranscriptStore)
        ensures
            r.transcript() == Seq::<SubtitleEntry>::empty(),
            !r.present(),
    {
        TranscriptStore { entries: Vec::new(), feed_present: false }
    }

    /// Install `new_transcript` as the complete current transcript.  The old
    /// transcript is discarded wholesale; the presence flag is untouched.
    pub fn replace(&mut self, new_transcript: Vec<SubtitleEntry>)
        ensures
            final(self).transcript() == new_transcript@,
            final(self).present() == old(self).present(),
    {
        self.entries = new_transcript;
    }

    /// A point-in-time copy of the complete current transcript.  The copy is
    /// independently owned: nothing the store does afterwards can change it.
    pub fn snapshot(&self) -> (r: Vec<SubtitleEntry>)
        ensures
            r@ == self.transcript(),
    {
        let mut copy: Vec<SubtitleEntry> = Vec::new();
        let mut i: usize = 0;
        while i < self.entries.len()
            invariant
                i <= self.entries.len(),
                copy@ == self.entries@.subrange(0, i as int),
            decreases self.entries.len() - i,
        {
            copy.push(self.entries[i].clone());
            proof {
                assert(copy@ =~= self.entries@.subrange(0, i + 1));
            }
            i += 1;
        }
        proof {
            assert(copy@ =~= self.entries@);
        }
        copy
    }

    /// Replace the current transcript with the empty sequence (the external
    /// "Clear" action).  The presence flag is untouched.
    pub fn clear(&mut self)
        ensures
            final(self).transcript() == Seq::<SubtitleEntry>::empty(),
            final(self).present() == old(self).present(),
    {
        self.entries = Vec::new();
    }

    /// Record whether the feed resource currently exists.  The transcript is
    /// untouched.
    pub fn set_feed_present(&mut self, present: bool)
        ensures
            final(self).transcript() == old(self).transcript(),
            final(self).present() == present,
    {
        self.feed_present = present;
    }

    /// Read the recorded feed-presence status.
    pub fn feed_present(&self) -> (r: bool)
        ensures
            r == self.present(),
    {
        self.feed_present
    }

    /// The number of entries in the current transcript.
    pub fn len(&self) -> (r: usize)
        ensures
            r == self.transcript().len(),
    {
        self.entries.len()
    }
}

} // verus!
