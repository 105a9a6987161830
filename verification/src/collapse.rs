//! Prefix collapsing: merging progressively-typed fragments.
//!
//! A live captioning producer emits a growing fragment over and over
//! ("I", "I a", "I am", ..., "I am typing this message").  Collapsing keeps
//! only the final form of each such run: an entry whose text is a literal
//! prefix of its immediate successor's text is dropped, every other entry is
//! retained, and the last entry is always retained.  Comparison is
//! case-sensitive and character-exact; only immediate neighbours are
//! compared, so non-adjacent repeats are left alone.

use crate::entry::{entry_views, SubtitleEntry, SubtitleEntryView};
use vstd::prelude::*;

verus! {

/// Whether the entry at position `i` of `s` is retained: it is the last
/// entry, or its text is not a literal prefix (equality included) of the
/// text of the entry right after it.
pub open spec fn kept(s: Seq<SubtitleEntryView>, i: int) -> bool {
    i + 1 >= s.len() || !s[i].text.is_prefix_of(s[i + 1].text)
}

/// The retained entries among the first `n` of `s`, in their original order.
pub open spec fn collapse_upto(s: Seq<SubtitleEntryView>, n: int) -> Seq<SubtitleEntryView>
    decreases n,
{
    if n <= 0 {
        Seq::empty()
    } else {
        collapse_upto(s, n - 1) + if kept(s, n - 1) {
            seq![s[n - 1]]
        } else {
            Seq::empty()
        }
    }
}

/// The collapsed form of `s`: exactly the retained entries, in order.
pub open spec fn collapse(s: Seq<SubtitleEntryView>) -> Seq<SubtitleEntryView> {
    collapse_upto(s, s.len() as int)
}

/// Whether the character sequence of `a` is a literal prefix of that of `b`.
/// Character-exact and case-sensitive; the empty string and `b` itself both
/// count as prefixes of `b`.
pub fn str_is_prefix_of(a: &str, b: &str) -> (r: bool)
    ensures
        r == a@.is_prefix_of(b@),
{
    let alen = a.unicode_len();
    let blen = b.unicode_len();
    if alen > blen {
        return false;
    }
    let mut i: usize = 0;
    while i < alen
        invariant
            i <= alen,
            alen == a@.len(),
            blen == b@.len(),
            alen <= blen,
            forall|j: int| 0 <= j < i ==> a@[j] == b@[j],
        decreases alen - i,
    {
        if a.get_char(i) != b.get_char(i) {
            proof {
                assert(b@.subrange(0, a@.len() as int)[i as int] == b@[i as int]);
            }
            return false;
        }
        i += 1;
    }
    proof {
        assert(a@ =~= b@.subrange(0, a@.len() as int));
    }
    true
}

/// Collapse a feed snapshot: drop every entry whose text is a literal prefix
/// of its immediate successor's text, retain everything else (the last entry
/// unconditionally).  Total, deterministic, and order-preserving; retained
/// entries are returned unedited.
pub fn filter_prefix_subtitles(subtitles: Vec<SubtitleEntry>) -> (r: Vec<SubtitleEntry>)
    ensures
        entry_views(r@) == collapse(entry_views(subtitles@)),
{
    let ghost sv = entry_views(subtitles@);
    let n = subtitles.len();
    let mut filtered: Vec<SubtitleEntry> = Vec::new();
    let mut i: usize = 0;
    while i < n
        invariant
            n == subtitles.len(),
            sv == entry_views(subtitles@),
            i <= n,
            entry_views(filtered@) == collapse_upto(sv, i as int),
        decreases n - i,
    {
        let keep_it = if i + 1 < n {
            !str_is_prefix_of(subtitles[i].text.as_str(), subtitles[i + 1].text.as_str())
        } else {
            true
        };
        proof {
            assert(keep_it == kept(sv, i as int));
        }
        if keep_it {
            filtered.push(subtitles[i].clone());
        }
        proof {
            assert(entry_views(filtered@) =~= collapse_upto(sv, i + 1));
        }
        i += 1;
    }
    proof {
        assert(entry_views(filtered@) == collapse(sv));
    }
    filtered
}

/// Law: collapsing never lengthens a sequence.
pub proof fn lemma_collapse_len_le(s: Seq<SubtitleEntryView>)
    ensures
        collapse(s).len() <= s.len(),
{
    lemma_collapse_upto_len(s, s.len() as int);
}

proof fn lemma_collapse_upto_len(s: Seq<SubtitleEntryView>, n: int)
    ensures
        n >= 0 ==> collapse_upto(s, n).len() <= n,
    decreases n,
{
    if n > 0 {
        lemma_collapse_upto_len(s, n - 1);
    }
}

/// Law: the empty sequence collapses to itself.
pub proof fn lemma_collapse_empty()
    ensures
        collapse(Seq::<SubtitleEntryView>::empty()) == Seq::<SubtitleEntryView>::empty(),
{
    assert(collapse(Seq::<SubtitleEntryView>::empty()) =~= Seq::<SubtitleEntryView>::empty());
}

/// Law: a single entry collapses to itself, unchanged.
pub proof fn lemma_collapse_singleton(e: SubtitleEntryView)
    ensures
        collapse(seq![e]) == seq![e],
{
    let s = seq![e];
    assert(kept(s, 0));
    assert(collapse_upto(s, 0) =~= Seq::<SubtitleEntryView>::empty());
    assert(collapse_upto(s, 1) =~= seq![e]);
}

/// Law: the last entry of a non-empty sequence is always retained, as the
/// last entry of the collapsed sequence.
pub proof fn lemma_collapse_keeps_last(s: Seq<SubtitleEntryView>)
    requires
        s.len() > 0,
    ensures
        collapse(s).len() > 0,
        collapse(s).last() == s.last(),
{
    assert(kept(s, s.len() - 1));
}

/// The positions of the retained entries among the first `n` of `s`, in
/// increasing order.
pub open spec fn kept_indices_upto(s: Seq<SubtitleEntryView>, n: int) -> Seq<int>
    decreases n,
{
    if n <= 0 {
        Seq::empty()
    } else {
        kept_indices_upto(s, n - 1) + if kept(s, n - 1) {
            seq![n - 1]
        } else {
            Seq::empty()
        }
    }
}

/// The positions of the retained entries of `s`, in increasing order.
pub open spec fn kept_indices(s: Seq<SubtitleEntryView>) -> Seq<int> {
    kept_indices_upto(s, s.len() as int)
}

/// Law: collapsing selects whole entries and preserves their relative
/// order — the collapsed sequence is exactly `s` read at the strictly
/// increasing positions of its retained entries, each entry unedited.
pub proof fn lemma_collapse_order_preserving(s: Seq<SubtitleEntryView>)
    ensures
        collapse(s).len() == kept_indices(s).len(),
        forall|a: int|
            0 <= a < kept_indices(s).len() ==> 0 <= #[trigger] kept_indices(s)[a] < s.len()
                && kept(s, kept_indices(s)[a]) && collapse(s)[a] == s[kept_indices(s)[a]],
        forall|a: int, b: int|
            0 <= a < b < kept_indices(s).len() ==> #[trigger] kept_indices(s)[a]
                < #[trigger] kept_indices(s)[b],
{
    lemma_kept_indices_upto(s, s.len() as int);
}

proof fn lemma_kept_indices_upto(s: Seq<SubtitleEntryView>, n: int)
    requires
        0 <= n <= s.len(),
    ensures
        kept_indices_upto(s, n).len() == collapse_upto(s, n).len(),
        forall|a: int|
            0 <= a < kept_indices_upto(s, n).len() ==> 0 <= #[trigger] kept_indices_upto(s, n)[a]
                < n && kept(s, kept_indices_upto(s, n)[a]) && collapse_upto(s, n)[a] == s[
                kept_indices_upto(s, n)[a]],
        forall|a: int, b: int|
            0 <= a < b < kept_indices_upto(s, n).len() ==> #[trigger] kept_indices_upto(s, n)[a]
                < #[trigger] kept_indices_upto(s, n)[b],
    decreases n,
{
    if n > 0 {
        lemma_kept_indices_upto(s, n - 1);
    }
}

/// Law: a sequence in which no entry's text is a literal prefix of its
/// immediate successor's text collapses to itself — order and content
/// preserved.
pub proof fn lemma_collapse_no_prefix_identity(s: Seq<SubtitleEntryView>)
    requires
        forall|i: int|
            0 <= i && i + 1 < s.len() ==> !(#[trigger] s[i].text).is_prefix_of(s[i + 1].text),
    ensures
        collapse(s) == s,
{
    lemma_collapse_upto_all_kept(s, s.len() as int);
    assert(s.subrange(0, s.len() as int) =~= s);
}

proof fn lemma_collapse_upto_all_kept(s: Seq<SubtitleEntryView>, n: int)
    requires
        0 <= n <= s.len(),
        forall|i: int|
            0 <= i && i + 1 < s.len() ==> !(#[trigger] s[i].text).is_prefix_of(s[i + 1].text),
    ensures
        collapse_upto(s, n) == s.subrange(0, n),
    decreases n,
{
    if n == 0 {
        assert(collapse_upto(s, 0) =~= s.subrange(0, 0));
    } else {
        lemma_collapse_upto_all_kept(s, n - 1);
        assert(kept(s, n - 1));
        assert(collapse_upto(s, n) =~= s.subrange(0, n));
    }
}

/// Law: collapsing is a fixed point on its own output whenever that output
/// contains no adjacent prefix pair — which is the case for every feed that
/// only ever extends its current fragment.  (A feed that first shortens a
/// fragment and later extends it past an earlier retained form can leave an
/// adjacent prefix pair in the output; such sequences are excluded here.)
pub proof fn lemma_collapse_fixed_point(s: Seq<SubtitleEntryView>)
    requires
        forall|i: int|
            0 <= i && i + 1 < collapse(s).len() ==> !(#[trigger] collapse(s)[i].text).is_prefix_of(
                collapse(s)[i + 1].text,
            ),
    ensures
        collapse(collapse(s)) == collapse(s),
{
    lemma_collapse_no_prefix_identity(collapse(s));
}

} // verus!
