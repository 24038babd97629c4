//! Key extraction types and builder API.
//!
//! A [`Key<T, F>`] describes how to extract one or more string values
//! from an item of type `T` for ranking: an extractor plus optional
//! per-key ranking attributes (`threshold`, `min_ranking`, `max_ranking`)
//! that refine match evaluation.  [`RankingInfo`] captures the result of
//! evaluating a single item against a query across all of its keys.
//!
//! Because every key in one search shares the extractor type `F`, keys
//! with different behaviour are built from one closure type that
//! captures what distinguishes them (a field selector, an index, and so
//! on), or from a shared helper function.

use vstd::prelude::*;
use crate::options::MatchSorterOptions;
use crate::ranking::{
    clamp_rank, clamp_ranking, get_match_ranking_prepared, match_rank, rank_le, rank_lt,
    PreparedQuery, Ranking,
};

verus! {

/// A single key specification for extracting matchable string values
/// from an item.
///
/// Built with [`Key::new`] (or the `from_fn` / `from_fn_multi`
/// conveniences), then optionally refined with the builder methods
/// `threshold`, `min_ranking` and `max_ranking`.
pub struct Key<T, F> {
    /// Extracts zero or more string values from an item.
    extractor: F,
    /// Per-key threshold override.  When `Some`, matches on this key
    /// must reach this ranking; when `None`, the global threshold
    /// applies.
    pub(crate) threshold: Option<Ranking>,
    /// Ceiling: a rank above this is clamped down to it.  Defaults to
    /// `CaseSensitiveEqual` (no clamping).
    pub(crate) max_ranking: Ranking,
    /// Floor: a rank below this — other than `NoMatch` — is promoted up
    /// to it.  Defaults to `NoMatch` (no promotion).
    pub(crate) min_ranking: Ranking,
    _items: core::marker::PhantomData<T>,
}

impl<T, F> Key<T, F> {
    /// The extractor this key was built with.
    pub closed spec fn spec_extractor(self) -> F {
        self.extractor
    }

    /// The per-key threshold override, if set.
    pub closed spec fn spec_threshold(self) -> Option<Ranking> {
        self.threshold
    }

    /// The ceiling on ranks this key can contribute.
    pub closed spec fn spec_max_ranking(self) -> Ranking {
        self.max_ranking
    }

    /// The floor under non-`NoMatch` ranks this key can contribute.
    pub closed spec fn spec_min_ranking(self) -> Ranking {
        self.min_ranking
    }

    /// Set a per-key threshold override: matches on this key must reach
    /// `ranking` to be considered.
    #[must_use]
    pub fn threshold(self, ranking: Ranking) -> (r: Self)
        ensures
            r.spec_threshold() == Some(ranking),
            r.spec_max_ranking() == self.spec_max_ranking(),
            r.spec_min_ranking() == self.spec_min_ranking(),
            r.spec_extractor() == self.spec_extractor(),
    {
        let mut k = self;
        k.threshold = Some(ranking);
        k
    }

    /// Set the maximum ranking this key can contribute; higher ranks are
    /// clamped down to it.
    #[must_use]
    pub fn max_ranking(self, ranking: Ranking) -> (r: Self)
        ensures
            r.spec_max_ranking() == ranking,
            r.spec_threshold() == self.spec_threshold(),
            r.spec_min_ranking() == self.spec_min_ranking(),
            r.spec_extractor() == self.spec_extractor(),
    {
        let mut k = self;
        k.max_ranking = ranking;
        k
    }

    /// Set the minimum ranking this key can contribute; non-`NoMatch`
    /// ranks below it are promoted up to it.  `NoMatch` is never
    /// promoted.
    #[must_use]
    pub fn min_ranking(self, ranking: Ranking) -> (r: Self)
        ensures
            r.spec_min_ranking() == ranking,
            r.spec_threshold() == self.spec_threshold(),
            r.spec_max_ranking() == self.spec_max_ranking(),
            r.spec_extractor() == self.spec_extractor(),
    {
        let mut k = self;
        k.min_ranking = ranking;
        k
    }

    /// Returns the per-key threshold override, if set.
    pub fn threshold_value(&self) -> (r: Option<&Ranking>)
        ensures
            match r {
                Some(t) => self.spec_threshold() == Some(*t),
                None => self.spec_threshold() is None,
            },
    {
        self.threshold.as_ref()
    }

    /// Returns the maximum ranking this key can contribute.
    pub fn max_ranking_value(&self) -> (r: &Ranking)
        ensures
            *r == self.spec_max_ranking(),
    {
        &self.max_ranking
    }

    /// Returns the minimum ranking this key can contribute.
    pub fn min_ranking_value(&self) -> (r: &Ranking)
        ensures
            *r == self.spec_min_ranking(),
    {
        &self.min_ranking
    }
}

impl<T, F: Fn(&T) -> Vec<String>> Key<T, F> {
    /// Create a key from an extractor that returns zero or more owned
    /// strings, with the default attributes: no threshold override, no
    /// clamping, no promotion.
    pub fn new(extractor: F) -> (r: Self)
        ensures
            r.spec_extractor() == extractor,
            r.spec_threshold() is None,
            r.spec_min_ranking() == Ranking::NoMatch,
            r.spec_max_ranking() == Ranking::CaseSensitiveEqual,
    {
        Key {
            extractor,
            threshold: None,
            min_ranking: Ranking::NoMatch,
            max_ranking: Ranking::CaseSensitiveEqual,
            _items: core::marker::PhantomData,
        }
    }

    /// Extract string values from an item using this key's extractor.
    pub fn extract(&self, item: &T) -> (r: Vec<String>)
        requires
            call_requires(self.spec_extractor(), (item,)),
        ensures
            call_ensures(self.spec_extractor(), (item,), r),
    {
        (self.extractor)(item)
    }
}

impl<T> Key<T, ()> {
    /// Create a key from a function that returns a single borrowed
    /// string slice; the value is copied into an owned `String`.  The
    /// built key's extractor is callable wherever `f` is, and can only
    /// produce a single value carrying the text of something `f` can
    /// return.
    pub fn from_fn<G: Fn(&T) -> &str>(f: G) -> (r: Key<T, impl Fn(&T) -> Vec<String>>)
        ensures
            r.spec_threshold() is None,
            r.spec_min_ranking() == Ranking::NoMatch,
            r.spec_max_ranking() == Ranking::CaseSensitiveEqual,
            forall|item: &T|
                call_requires(f, (item,)) ==> #[trigger] call_requires(
                    r.spec_extractor(),
                    (item,),
                ),
            forall|item: &T, out: Vec<String>|
                #[trigger] call_ensures(r.spec_extractor(), (item,), out) ==> (out@.len() == 1
                    && exists|sr: &str| call_ensures(f, (item,), sr) && out@[0]@ == sr@),
    {
        let extractor = move |item: &T| -> (out: Vec<String>)
            requires
                call_requires(&f, (item,)),
            ensures
                out@.len() == 1,
                exists|sr: &str| call_ensures(&f, (item,), sr) && out@[0]@ == sr@,
            {
                let s = f(item);
                let mut out: Vec<String> = Vec::new();
                out.push(s.to_owned());
                out
            };
        Key {
            extractor,
            threshold: None,
            min_ranking: Ranking::NoMatch,
            max_ranking: Ranking::CaseSensitiveEqual,
            _items: core::marker::PhantomData,
        }
    }

    /// Create a key from a function that returns several borrowed string
    /// slices; each value is copied into an owned `String`.  The built
    /// key's extractor is callable wherever `f` is, and can only produce
    /// the texts of a list `f` can return, in order.
    pub fn from_fn_multi<G: Fn(&T) -> Vec<&str>>(f: G) -> (r: Key<T, impl Fn(&T) -> Vec<String>>)
        ensures
            r.spec_threshold() is None,
            r.spec_min_ranking() == Ranking::NoMatch,
            r.spec_max_ranking() == Ranking::CaseSensitiveEqual,
            forall|item: &T|
                call_requires(f, (item,)) ==> #[trigger] call_requires(
                    r.spec_extractor(),
                    (item,),
                ),
            forall|item: &T, out: Vec<String>|
                #[trigger] call_ensures(r.spec_extractor(), (item,), out) ==> exists|vs: Vec<&str>|
                    call_ensures(f, (item,), vs) && out@.len() == vs@.len() && (forall|j: int|
                        0 <= j < out@.len() ==> (#[trigger] out@[j])@ == vs@[j]@),
    {
        let extractor = move |item: &T| -> (out: Vec<String>)
            requires
                call_requires(&f, (item,)),
            ensures
                exists|vs: Vec<&str>|
                    call_ensures(&f, (item,), vs) && out@.len() == vs@.len() && (forall|j: int|
                        0 <= j < out@.len() ==> (#[trigger] out@[j])@ == vs@[j]@),
            {
                let borrowed = f(item);
                let mut out: Vec<String> = Vec::new();
                let mut i: usize = 0;
                while i < borrowed.len()
                    invariant
                        i <= borrowed@.len(),
                        out@.len() == i,
                        forall|j: int| 0 <= j < i ==> (#[trigger] out@[j])@ == borrowed@[j]@,
                    decreases borrowed.len() - i,
                {
                    out.push(borrowed[i].to_owned());
                    i += 1;
                }
                out
            };
        Key {
            extractor,
            threshold: None,
            min_ranking: Ranking::NoMatch,
            max_ranking: Ranking::CaseSensitiveEqual,
            _items: core::marker::PhantomData,
        }
    }
}

/// Extract all string values from an item for a given key: a
/// free-function form of [`Key::extract`].
pub fn get_item_values<T, F: Fn(&T) -> Vec<String>>(item: &T, key: &Key<T, F>) -> (r: Vec<String>)
    requires
        call_requires(key.spec_extractor(), (item,)),
    ensures
        call_ensures(key.spec_extractor(), (item,), r),
{
    key.extract(item)
}

/// The result of ranking a single item against a query across all keys:
/// which value won, under which flattened key index, at what rank, and
/// with which per-key threshold.
#[derive(Debug, Clone, PartialEq)]
pub struct RankingInfo {
    /// The ranking of the best-matching key value.
    pub rank: Ranking,
    /// The string value that produced the best match.
    pub ranked_value: String,
    /// Position of the winning value in the flattened key-values list.
    pub key_index: usize,
    /// Per-key threshold override from the winning key, or `None` when
    /// the key defers to the global threshold.
    pub key_threshold: Option<Ranking>,
}

/// The number of values extracted by the keys before key `k`.
pub open spec fn vals_before(vals: Seq<Vec<String>>, k: int) -> int
    decreases k,
{
    if k <= 0 {
        0
    } else {
        vals_before(vals, k - 1) + vals[k - 1]@.len()
    }
}

/// `x` held within the range of `usize`.  The flattened key index is
/// reported exactly whenever it fits — in practice always, since each
/// counted value is a separate allocated string.
pub open spec fn sat_usize(x: int) -> int {
    if x > usize::MAX {
        usize::MAX as int
    } else {
        x
    }
}

/// Whether `(k, m)` addresses a value: key `k`, value `m` of that key.
pub open spec fn entry_ok(vals: Seq<Vec<String>>, k: int, m: int) -> bool {
    0 <= k < vals.len() && 0 <= m < vals[k]@.len()
}

/// `(k1, m1)` comes before `(k2, m2)` in the flattened value order.
pub open spec fn pair_before(k1: int, m1: int, k2: int, m2: int) -> bool {
    k1 < k2 || (k1 == k2 && m1 < m2)
}

/// The rank that value `m` of key `k` contributes: its match rank,
/// clamped by the key's ceiling and floor.
pub open spec fn entry_rank<T, F>(
    keys: Seq<Key<T, F>>,
    vals: Seq<Vec<String>>,
    q: Seq<char>,
    keep_diacritics: bool,
    k: int,
    m: int,
) -> Ranking {
    clamp_rank(
        match_rank(vals[k]@[m]@, q, keep_diacritics),
        keys[k].spec_min_ranking(),
        keys[k].spec_max_ranking(),
    )
}

/// What the best-ranking selection returns, given the values `vals` the
/// extractors produced: every value's clamped rank is at most `r.rank`;
/// when something matched, `r` carries the first value attaining that
/// rank — its text, its flattened index and its key's threshold — and
/// every earlier value ranks strictly lower; when nothing matched, `r`
/// is the empty `NoMatch` result.
pub open spec fn highest_ok<T, F>(
    keys: Seq<Key<T, F>>,
    vals: Seq<Vec<String>>,
    q: Seq<char>,
    keep_diacritics: bool,
    r: RankingInfo,
) -> bool {
    &&& (forall|k: int, m: int|
        entry_ok(vals, k, m) ==> rank_le(
            #[trigger] entry_rank(keys, vals, q, keep_diacritics, k, m),
            r.rank,
        ))
    &&& if r.rank == Ranking::NoMatch {
        &&& r.ranked_value@ == Seq::<char>::empty()
        &&& r.key_index == 0
        &&& r.key_threshold is None
    } else {
        exists|k: int, m: int|
            #[trigger] entry_ok(vals, k, m) && winner_at(keys, vals, q, keep_diacritics, r, k, m)
    }
}

/// `(k, m)` is the winning entry behind `r`: it attains `r.rank`,
/// supplies the ranked value, flattened index and threshold, and every
/// entry before it ranks strictly lower.
pub open spec fn winner_at<T, F>(
    keys: Seq<Key<T, F>>,
    vals: Seq<Vec<String>>,
    q: Seq<char>,
    keep_diacritics: bool,
    r: RankingInfo,
    k: int,
    m: int,
) -> bool {
    &&& entry_ok(vals, k, m)
    &&& entry_rank(keys, vals, q, keep_diacritics, k, m) == r.rank
    &&& vals[k]@[m]@ == r.ranked_value@
    &&& keys[k].spec_threshold() == r.key_threshold
    &&& r.key_index == sat_usize(vals_before(vals, k) + m)
    &&& (forall|k2: int, m2: int|
        entry_ok(vals, k2, m2) && pair_before(k2, m2, k, m) ==> rank_lt(
            #[trigger] entry_rank(keys, vals, q, keep_diacritics, k2, m2),
            r.rank,
        ))
}

/// The extractors of `keys`, called on `item`, can produce exactly the
/// value lists `vals`.
pub open spec fn vals_ok<T, F: Fn(&T) -> Vec<String>>(
    keys: Seq<Key<T, F>>,
    vals: Seq<Vec<String>>,
    item: &T,
) -> bool {
    &&& vals.len() == keys.len()
    &&& (forall|k: int|
        0 <= k < keys.len() ==> call_ensures(
            #[trigger] keys[k].spec_extractor(),
            (item,),
            vals[k],
        ))
}

/// Two runs of value lists of the same shape count the same positions.
pub proof fn lemma_vals_before_same_shape(v1: Seq<Vec<String>>, v2: Seq<Vec<String>>, k: int)
    requires
        v1.len() == v2.len(),
        forall|j: int| 0 <= j < v1.len() ==> (#[trigger] v1[j])@.len() == v2[j]@.len(),
        k <= v1.len(),
    ensures
        vals_before(v1, k) == vals_before(v2, k),
    decreases k,
{
    if k > 0 {
        lemma_vals_before_same_shape(v1, v2, k - 1);
    }
}

/// Prefixes of the value lists are unaffected by later keys' values.
proof fn lemma_vals_before_push(vals: Seq<Vec<String>>, v: Vec<String>, k: int)
    requires
        0 <= k <= vals.len(),
    ensures
        vals_before(vals.push(v), k) == vals_before(vals, k),
    decreases k,
{
    if k > 0 {
        lemma_vals_before_push(vals, v, k - 1);
    }
}

/// Evaluate all keys for a single item against a prepared query and
/// return the best ranking.
pub(crate) fn get_highest_ranking_prepared<T, F: Fn(&T) -> Vec<String>>(
    item: &T,
    keys: &Vec<Key<T, F>>,
    pq: &PreparedQuery,
    keep_diacritics: bool,
    candidate_buf: &mut Vec<char>,
) -> (r: RankingInfo)
    requires
        pq.wf(),
        pq.keep_diacritics() == keep_diacritics,
        forall|k: int|
            0 <= k < keys@.len() ==> call_requires(#[trigger] keys@[k].spec_extractor(), (item,)),
    ensures
        exists|vals: Seq<Vec<String>>|
            #[trigger] vals_ok(keys@, vals, item) && highest_ok(
                keys@,
                vals,
                pq.query(),
                keep_diacritics,
                r,
            ),
{
    let ghost q = pq.query();
    let mut best = RankingInfo {
        rank: Ranking::NoMatch,
        ranked_value: String::new(),
        key_index: 0,
        key_threshold: None,
    };
    let ghost mut gvals: Seq<Vec<String>> = Seq::empty();
    let mut flat: usize = 0;
    let mut ki: usize = 0;
    while ki < keys.len()
        invariant
            pq.wf(),
            pq.keep_diacritics() == keep_diacritics,
            q == pq.query(),
            forall|k: int|
                0 <= k < keys@.len() ==> call_requires(#[trigger] keys@[k].spec_extractor(), (item,)),
            ki <= keys@.len(),
            gvals.len() == ki,
            forall|k: int|
                0 <= k < ki ==> call_ensures(#[trigger] keys@[k].spec_extractor(), (item,), gvals[k]),
            flat == sat_usize(vals_before(gvals, ki as int)),
            forall|k: int, m: int|
                entry_ok(gvals, k, m) ==> rank_le(
                    #[trigger] entry_rank(keys@, gvals, q, keep_diacritics, k, m),
                    best.rank,
                ),
            best.rank != Ranking::NoMatch ==> exists|k: int, m: int|
                #[trigger] entry_ok(gvals, k, m) && winner_at(
                    keys@,
                    gvals,
                    q,
                    keep_diacritics,
                    best,
                    k,
                    m,
                ),
            best.rank == Ranking::NoMatch ==> best.ranked_value@ == Seq::<char>::empty()
                && best.key_index == 0 && best.key_threshold is None,
        decreases keys@.len() - ki,
    {
        let key = &keys[ki];
        let values = key.extract(item);
        let ghost old_gvals = gvals;
        proof {
            gvals = gvals.push(values);
            assert forall|k: int| 0 <= k <= ki as int implies vals_before(gvals, k) == vals_before(
                old_gvals,
                k,
            ) by {
                lemma_vals_before_push(old_gvals, values, k);
            }
            assert forall|k: int, m2: int|
                entry_ok(gvals, k, m2) && pair_before(k, m2, ki as int, 0) implies rank_le(
                #[trigger] entry_rank(keys@, gvals, q, keep_diacritics, k, m2),
                best.rank,
            ) by {
                assert(entry_ok(old_gvals, k, m2));
                assert(gvals[k] == old_gvals[k]);
                assert(rank_le(entry_rank(keys@, old_gvals, q, keep_diacritics, k, m2), best.rank));
            }
            if best.rank != Ranking::NoMatch {
                let (k0, m0) = choose|k0: int, m0: int|
                    #[trigger] entry_ok(old_gvals, k0, m0) && winner_at(
                        keys@,
                        old_gvals,
                        q,
                        keep_diacritics,
                        best,
                        k0,
                        m0,
                    );
                assert(entry_ok(gvals, k0, m0));
                assert(winner_at(keys@, gvals, q, keep_diacritics, best, k0, m0)) by {
                    assert(vals_before(gvals, k0) == vals_before(old_gvals, k0));
                    assert forall|k2: int, m2: int|
                        entry_ok(gvals, k2, m2) && pair_before(k2, m2, k0, m0) implies rank_lt(
                        #[trigger] entry_rank(keys@, gvals, q, keep_diacritics, k2, m2),
                        best.rank,
                    ) by {
                        assert(entry_ok(old_gvals, k2, m2));
                        assert(gvals[k2] == old_gvals[k2]);
                        assert(rank_lt(entry_rank(keys@, old_gvals, q, keep_diacritics, k2, m2), best.rank));
                    }
                }
                assert(pair_before(k0, m0, ki as int, 0));
            }
        }
        let mut m: usize = 0;
        while m < values.len()
            invariant
                pq.wf(),
                pq.keep_diacritics() == keep_diacritics,
                q == pq.query(),
                ki < keys@.len(),
                *key == keys@[ki as int],
                gvals.len() == ki + 1,
                gvals[ki as int] == values,
                forall|k: int|
                    0 <= k < gvals.len() ==> call_ensures(
                        #[trigger] keys@[k].spec_extractor(),
                        (item,),
                        gvals[k],
                    ),
                m <= values@.len(),
                flat == sat_usize(vals_before(gvals, ki as int) + m),
                forall|k: int, m2: int|
                    entry_ok(gvals, k, m2) && pair_before(k, m2, ki as int, m as int) ==> rank_le(
                        #[trigger] entry_rank(keys@, gvals, q, keep_diacritics, k, m2),
                        best.rank,
                    ),
                best.rank != Ranking::NoMatch ==> exists|k: int, m2: int|
                    (#[trigger] entry_ok(gvals, k, m2)) && pair_before(k, m2, ki as int, m as int)
                        && winner_at(keys@, gvals, q, keep_diacritics, best, k, m2),
                best.rank == Ranking::NoMatch ==> best.ranked_value@ == Seq::<char>::empty()
                    && best.key_index == 0 && best.key_threshold is None,
            decreases values@.len() - m,
        {
            let raw = get_match_ranking_prepared(values[m].as_str(), pq, keep_diacritics, candidate_buf);
            let clamped = clamp_ranking(raw, &key.min_ranking, &key.max_ranking);
            proof {
                assert(gvals[ki as int] == values);
                assert(gvals[ki as int]@[m as int]@ == values@[m as int]@);
                assert(keys@[ki as int].spec_min_ranking() == key.min_ranking);
                assert(keys@[ki as int].spec_max_ranking() == key.max_ranking);
                assert(entry_rank(keys@, gvals, q, keep_diacritics, ki as int, m as int)
                    == clamped);
            }
            let better = matches!(clamped.cmp_rank(&best.rank), core::cmp::Ordering::Greater);
            if better {
                proof {
                    let ghost old_best = best;
                    assert forall|k2: int, m2: int|
                        entry_ok(gvals, k2, m2) && pair_before(k2, m2, ki as int, m as int)
                        implies rank_lt(
                        #[trigger] entry_rank(keys@, gvals, q, keep_diacritics, k2, m2),
                        clamped,
                    ) by {
                        crate::ranking::lemma_rank_order_strict_total(
                            entry_rank(keys@, gvals, q, keep_diacritics, k2, m2),
                            old_best.rank,
                            clamped,
                        );
                    }
                }
                best = RankingInfo {
                    rank: clamped,
                    ranked_value: values[m].clone(),
                    key_index: flat,
                    key_threshold: key.threshold,
                };
                proof {
                    assert(entry_ok(gvals, ki as int, m as int));
                    assert(winner_at(keys@, gvals, q, keep_diacritics, best, ki as int, m as int));
                }
            }
            if flat < usize::MAX {
                flat = flat + 1;
            }
            m += 1;
        }
        ki += 1;
    }
    proof {
        assert(vals_ok(keys@, gvals, item));
        assert(highest_ok(keys@, gvals, q, keep_diacritics, best));
    }
    best
}

/// Evaluate all keys for a single item and return the best ranking.
///
/// All keys' extracted values are treated as one flattened sequence,
/// key declaration order first, per-key value order within it.  Each
/// value is scored against the query, clamped down to the owning key's
/// `max_ranking`, and — unless it is `NoMatch` — promoted up to the
/// owning key's `min_ranking`.  The first value attaining the best rank
/// wins; ties keep the earlier value.  When there are no keys, no values,
/// or nothing matches, the result carries `NoMatch` with an empty value.
pub fn get_highest_ranking<T, F: Fn(&T) -> Vec<String>>(
    item: &T,
    keys: &Vec<Key<T, F>>,
    query: &str,
    options: &MatchSorterOptions<T, F>,
) -> (r: RankingInfo)
    requires
        forall|k: int|
            0 <= k < keys@.len() ==> call_requires(#[trigger] keys@[k].spec_extractor(), (item,)),
    ensures
        exists|vals: Seq<Vec<String>>|
            #[trigger] vals_ok(keys@, vals, item) && highest_ok(
                keys@,
                vals,
                query@,
                options.keep_diacritics,
                r,
            ),
{
    let pq = PreparedQuery::new(query, options.keep_diacritics);
    let mut candidate_buf: Vec<char> = Vec::new();
    get_highest_ranking_prepared(item, keys, &pq, options.keep_diacritics, &mut candidate_buf)
}

} // verus!
