//! Configuration options and ranked-item types for the match-sorting
//! algorithm.
//!
//! [`MatchSorterOptions`] controls global behaviour: key extraction,
//! threshold filtering and diacritics handling.  [`RankedItem`] annotates
//! an item with its ranking metadata; it is what the sort phase orders and
//! what custom tiebreakers receive.

use vstd::prelude::*;
use crate::key::Key;
use crate::ranking::Ranking;
use std::borrow::Cow;

verus! {

/// An item annotated with its ranking information.
///
/// Produced during the ranking phase of the match-sorting pipeline and
/// consumed by the sort phase.  `ranked_value` is borrowed from the item
/// itself in no-keys mode and owned in keys mode.
#[derive(Debug, Clone, PartialEq)]
pub struct RankedItem<'a, T> {
    /// Reference to the original item in the input slice.
    pub item: &'a T,
    /// Original position of the item in the input slice, the final
    /// tiebreaker that keeps the sort stable.
    pub index: usize,
    /// How well the item matched the query.
    pub rank: Ranking,
    /// The string value that produced the best match against the query.
    pub ranked_value: Cow<'a, str>,
    /// Position of the winning value in the flattened key-values list;
    /// `0` in no-keys mode.
    pub key_index: usize,
    /// Per-key threshold override from the winning key, or `None` when
    /// the global threshold applies.
    pub key_threshold: Option<Ranking>,
}

/// Global options that control match-sorting behaviour.
///
/// `T` is the item type and `F` the extractor type shared by the keys;
/// with no keys (`keys` empty, no-keys mode) items are ranked directly
/// through [`AsMatchStr`](crate::no_keys::AsMatchStr) and `F` is
/// irrelevant.  Defaults: no keys, the loosest threshold (every fuzzy
/// match admitted), diacritics stripped.
pub struct MatchSorterOptions<T, F> {
    /// Key extractors for pulling matchable string values from items.
    /// When empty, items are ranked directly via their own text.
    pub keys: Vec<Key<T, F>>,
    /// Minimum ranking tier required to include an item in the results.
    /// The default, `Ranking::Matches(usize::MAX)`, is the loosest fuzzy
    /// tier, so every item that matches at all is included.
    pub threshold: Ranking,
    /// When `true`, combining marks are preserved during comparison; when
    /// `false` (the default) they are stripped first.
    pub keep_diacritics: bool,
}

impl<T, F> Default for MatchSorterOptions<T, F> {
    /// No keys, the loosest threshold, diacritics stripped.
    fn default() -> (r: Self)
        ensures
            r.keys@.len() == 0,
            r.threshold == Ranking::Matches(usize::MAX),
            r.keep_diacritics == false,
    {
        MatchSorterOptions { keys: Vec::new(), threshold: Ranking::Matches(usize::MAX), keep_diacritics: false }
    }
}

} // verus!
