//! The subtitle entry: one timestamped fragment of transcript text.

use vstd::prelude::*;

verus! {

/// One fragment of transcript text, as written by the feed's producer.
///
/// Times are kept in integer milliseconds.  `start_time_ms` is the moment the
/// fragment became visible, `end_time_ms` (absent when the producer did not
/// record one) the moment it disappeared.  `timestamp` is a producer-side
/// wall-clock or sequence marker; the core carries it through unchanged.
///
/// Entries are immutable once constructed: the collapsing step only selects
/// or discards whole entries, never edits fields.
pub struct SubtitleEntry {
    pub text: String,
    pub start_time_ms: i64,
    pub end_time_ms: Option<i64>,
    pub timestamp: i64,
}

/// The mathematical value of a [`SubtitleEntry`]: the same four fields over
/// `Seq<char>` and unbounded integers.  All contracts in this crate speak of
/// entries through this view.
#[verifier::ext_equal]
pub ghost struct SubtitleEntryView {
    pub text: Seq<char>,
    pub start_time_ms: int,
    pub end_time_ms: Option<int>,
    pub timestamp: int,
}

impl View for SubtitleEntry {
    type V = SubtitleEntryView;

    open spec fn view(&self) -> SubtitleEntryView {
        SubtitleEntryView {
            text: self.text@,
            start_time_ms: self.start_time_ms as int,
            end_time_ms: match self.end_time_ms {
                Some(t) => Some(t as int),
                None => None,
            },
            timestamp: self.timestamp as int,
        }
    }
}

/// The views of a sequence of entries, element by element.
pub open spec fn entry_views(s: Seq<SubtitleEntry>) -> Seq<SubtitleEntryView> {
    s.map_values(|e: SubtitleEntry| e@)
}

impl Clone for SubtitleEntry {
    fn clone(&self) -> (r: Self)
        ensures
            r == *self,
    {
        SubtitleEntry {
            text: self.text.clone(),
            start_time_ms: self.start_time_ms,
            end_time_ms: self.end_time_ms,
            timestamp: self.timestamp,
        }
    }
}

} // verus!
