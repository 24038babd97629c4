//! No-keys mode for ranking string-like items directly.
//!
//! When the items are themselves strings (or string-like), there is no
//! need for key extractors.  The [`AsMatchStr`] trait exposes each item's
//! matchable text, and [`rank_item`] scores an item directly against a
//! query.

use vstd::prelude::*;
use crate::ranking::{get_match_ranking, match_rank, Ranking};
use std::borrow::Cow;

verus! {

/// Types that can be used directly as match candidates without keys.
///
/// An implementation exposes the item's text through
/// [`as_match_str`](AsMatchStr::as_match_str); `match_view` is the
/// specification-level view of that text, and `as_match_str` must return
/// exactly it.  Implementations are provided for `String`, `str`, `&str`
/// and `Cow<'_, str>`.
pub trait AsMatchStr {
    /// The characters of this item's matchable text.  Implementations
    /// that leave the default in place promise nothing about it; the
    /// implementations in this crate define it as the view of what
    /// `as_match_str` returns.
    open spec fn match_view(&self) -> Seq<char> {
        vstd::pervasive::arbitrary()
    }

    /// Returns the string representation of this item for matching.
    fn as_match_str(&self) -> (r: &str)
        ensures
            r@ == self.match_view(),
    ;
}

impl AsMatchStr for String {
    open spec fn match_view(&self) -> Seq<char> {
        self@
    }

    fn as_match_str(&self) -> (r: &str) {
        self.as_str()
    }
}

impl AsMatchStr for str {
    open spec fn match_view(&self) -> Seq<char> {
        self@
    }

    fn as_match_str(&self) -> (r: &str) {
        self
    }
}

impl AsMatchStr for &str {
    open spec fn match_view(&self) -> Seq<char> {
        (*self)@
    }

    fn as_match_str(&self) -> (r: &str) {
        self
    }
}

impl AsMatchStr for Cow<'_, str> {
    open spec fn match_view(&self) -> Seq<char> {
        self@
    }

    fn as_match_str(&self) -> (r: &str) {
        match self {
            Cow::Borrowed(b) => b,
            Cow::Owned(o) => o.as_str(),
        }
    }
}

/// Rank a string-like item directly against a query (no-keys mode).
///
/// A convenience wrapper around
/// [`get_match_ranking`](crate::ranking::get_match_ranking) for items
/// implementing [`AsMatchStr`].
pub fn rank_item<T: AsMatchStr + ?Sized>(item: &T, query: &str, keep_diacritics: bool) -> (r:
    Ranking)
    ensures
        r == match_rank(item.match_view(), query@, keep_diacritics),
{
    get_match_ranking(item.as_match_str(), query, keep_diacritics)
}

} // verus!
