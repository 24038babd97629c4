//! Fuzzy string matching and sorting.
//!
//! Candidate strings are ranked against a search query on an eight-tier
//! scale — from exact case-sensitive equality down to a greedy fuzzy
//! character match — optionally filtered by a minimum tier, and returned
//! sorted from best to worst match.  Items can be ranked directly by
//! their own text (no-keys mode) or through key extractors that pull one
//! or more values out of each item, with per-key clamping, promotion and
//! threshold overrides.

mod text;
pub mod ranking;
pub mod no_keys;
pub mod key;
pub mod options;
pub mod sort;
pub mod samples;

pub use key::{get_highest_ranking, get_item_values, Key, RankingInfo};
pub use no_keys::{rank_item, AsMatchStr};
pub use options::{MatchSorterOptions, RankedItem};
pub use ranking::{
    get_acronym, get_closeness_ranking, get_match_ranking, is_acronym_delimiter, lowercase_into,
    prepare_value_for_comparison, PreparedQuery, Ranking,
};
pub use sort::{default_base_sort, sort_ranked_values};
pub use text::chars_of;

use vstd::prelude::*;
use crate::key::{highest_ok, vals_ok};
use crate::no_keys::AsMatchStr as AsMatchStrTrait;
use crate::ranking::{match_rank, rank_le, rank_lt};
use crate::sort::{
    entry_matches, idx_before, idxs_of, info_key_index, info_rank, info_threshold, info_value,
    sort_by_rank, ItemInfo,
};
use std::borrow::Cow;

verus! {

/// The threshold that applies to an item: the winning key's override if
/// it set one, else the global threshold.
pub open spec fn eff_threshold(info: ItemInfo, global: Ranking) -> Ranking {
    match info_threshold(info) {
        Some(t) => t,
        None => global,
    }
}

/// Whether an item with ranking data `info` clears its effective
/// threshold and is kept.
pub open spec fn included(info: ItemInfo, global: Ranking) -> bool {
    rank_le(eff_threshold(info, global), info_rank(info))
}

/// The input positions, in input order, of the first `n` items that
/// clear their effective threshold.
pub open spec fn filter_idx(per: Seq<ItemInfo>, global: Ranking, n: int) -> Seq<int>
    decreases n,
{
    if n <= 0 {
        Seq::<int>::empty()
    } else if included(per[n - 1], global) {
        filter_idx(per, global, n - 1).push(n - 1)
    } else {
        filter_idx(per, global, n - 1)
    }
}

/// The filtered positions do not depend on later items' data.
proof fn lemma_filter_idx_push(per: Seq<ItemInfo>, x: ItemInfo, global: Ranking, n: int)
    requires
        0 <= n <= per.len(),
    ensures
        filter_idx(per.push(x), global, n) == filter_idx(per, global, n),
    decreases n,
{
    if n > 0 {
        lemma_filter_idx_push(per, x, global, n - 1);
    }
}

/// The filtered positions are in range and strictly ascending.
pub proof fn lemma_filter_idx_range(per: Seq<ItemInfo>, global: Ranking, n: int)
    requires
        0 <= n,
    ensures
        forall|j: int|
            0 <= j < filter_idx(per, global, n).len() ==> 0 <= #[trigger] filter_idx(
                per,
                global,
                n,
            )[j] < n,
        forall|j1: int, j2: int|
            0 <= j1 < j2 < filter_idx(per, global, n).len() ==> #[trigger] filter_idx(
                per,
                global,
                n,
            )[j1] < #[trigger] filter_idx(per, global, n)[j2],
    decreases n,
{
    if n > 0 {
        lemma_filter_idx_range(per, global, n - 1);
        let prev = filter_idx(per, global, n - 1);
        let cur = filter_idx(per, global, n);
        if included(per[n - 1], global) {
            assert(cur == prev.push(n - 1));
            assert forall|j: int| 0 <= j < cur.len() implies 0 <= #[trigger] cur[j] < n by {
                if j < prev.len() {
                    assert(cur[j] == prev[j]);
                }
            }
            assert forall|j1: int, j2: int| 0 <= j1 < j2 < cur.len() implies #[trigger] cur[j1]
                < #[trigger] cur[j2] by {
                if j2 < prev.len() {
                    assert(cur[j1] == prev[j1] && cur[j2] == prev[j2]);
                } else {
                    assert(cur[j1] == prev[j1] && cur[j2] == n - 1);
                }
            }
        }
    }
}

/// What `per[i]` may record for item `i`.  With no keys, it is pinned
/// exactly: the item's own text, ranked against the query, under key
/// index 0 with no threshold override.  With keys, it is what the
/// best-ranking selection produces for some values the extractors can
/// return for this item.
pub open spec fn info_valid<T: AsMatchStrTrait, F: Fn(&T) -> Vec<String>>(
    keys: Seq<Key<T, F>>,
    q: Seq<char>,
    keep_diacritics: bool,
    item: T,
    info: ItemInfo,
) -> bool {
    if keys.len() == 0 {
        &&& info_rank(info) == match_rank(item.match_view(), q, keep_diacritics)
        &&& info_value(info) == item.match_view()
        &&& info_key_index(info) == 0
        &&& info_threshold(info) is None
    } else {
        exists|itr: &T, vals: Seq<Vec<String>>, ri: RankingInfo|
            #![trigger vals_ok(keys, vals, itr), highest_ok(keys, vals, q, keep_diacritics, ri)]
            {
                &&& *itr == item
                &&& vals_ok(keys, vals, itr)
                &&& highest_ok(keys, vals, q, keep_diacritics, ri)
                &&& info_rank(info) == ri.rank
                &&& info_value(info) == ri.ranked_value@
                &&& info_key_index(info) == ri.key_index
                &&& info_threshold(info) == ri.key_threshold
            }
    }
}

/// What `match_sorter` returns: for some ranking data `per` that is
/// valid for every input item, the output holds references to exactly
/// the items at the filtered positions `sel` — those that clear their
/// effective threshold — ordered by rank descending, key index
/// ascending, ranked value ascending, and input position last, so that
/// full ties keep their input order.
pub open spec fn match_sorter_post<T: AsMatchStrTrait, F: Fn(&T) -> Vec<String>>(
    items: Seq<T>,
    q: Seq<char>,
    keys: Seq<Key<T, F>>,
    global: Ranking,
    keep_diacritics: bool,
    per: Seq<ItemInfo>,
    sel: Seq<int>,
    out: Seq<&T>,
) -> bool {
    &&& match_sorter_selection(items, q, keys, global, keep_diacritics, per, sel, out)
    &&& (forall|j1: int, j2: int|
        0 <= j1 < j2 < sel.len() ==> idx_before(per, #[trigger] sel[j1], #[trigger] sel[j2]))
}

/// The selection part of the pipeline's contract, common to every entry
/// point: for some ranking data `per` valid for every input item, the
/// output holds references to exactly the items at the positions `sel`
/// that clear their effective threshold — in some order.
pub open spec fn match_sorter_selection<T: AsMatchStrTrait, F: Fn(&T) -> Vec<String>>(
    items: Seq<T>,
    q: Seq<char>,
    keys: Seq<Key<T, F>>,
    global: Ranking,
    keep_diacritics: bool,
    per: Seq<ItemInfo>,
    sel: Seq<int>,
    out: Seq<&T>,
) -> bool {
    &&& per.len() == items.len()
    &&& (forall|i: int|
        0 <= i < items.len() ==> info_valid(keys, q, keep_diacritics, #[trigger] items[i], per[i]))
    &&& sel.to_multiset() == filter_idx(per, global, items.len() as int).to_multiset()
    &&& out.len() == sel.len()
    &&& (forall|j: int|
        0 <= j < sel.len() ==> 0 <= sel[j] < items.len() && *(#[trigger] out[j]) == items[sel[j]])
}

/// Two runs over the same position data that are both ordered by
/// `idx_before` and hold the same positions hold them in the same
/// order: the order is strictly total, so the sorted run is unique.
proof fn lemma_sorted_positions_unique(per: Seq<sort::ItemInfo>, s1: Seq<int>, s2: Seq<int>)
    requires
        s1.to_multiset() == s2.to_multiset(),
        forall|j1: int, j2: int|
            0 <= j1 < j2 < s1.len() ==> idx_before(per, #[trigger] s1[j1], #[trigger] s1[j2]),
        forall|j1: int, j2: int|
            0 <= j1 < j2 < s2.len() ==> idx_before(per, #[trigger] s2[j1], #[trigger] s2[j2]),
        forall|j: int| 0 <= j < s1.len() ==> 0 <= #[trigger] s1[j] < per.len(),
        forall|j: int| 0 <= j < s2.len() ==> 0 <= #[trigger] s2[j] < per.len(),
    ensures
        s1 =~= s2,
    decreases s1.len(),
{
    broadcast use vstd::seq_lib::group_to_multiset_ensures;

    s1.to_multiset_ensures();
    s2.to_multiset_ensures();
    if s1.len() == 0 {
        assert(s2.len() == 0);
        assert(s1 =~= s2);
    } else {
        assert(s2.len() == s1.len());
        assert(s1.contains(s1[0]));
        assert(s2.to_multiset().count(s1[0]) > 0);
        assert(s2.contains(s1[0]));
        let k = choose|k: int| 0 <= k < s2.len() && s2[k] == s1[0];
        assert(s2.contains(s2[0]));
        assert(s1.to_multiset().count(s2[0]) > 0);
        assert(s1.contains(s2[0]));
        let k2 = choose|k2: int| 0 <= k2 < s1.len() && s1[k2] == s2[0];
        if s2[0] != s1[0] {
            assert(k > 0);
            assert(k2 > 0);
            assert(idx_before(per, s2[0], s1[0]));
            assert(idx_before(per, s1[0], s2[0]));
            sort::lemma_idx_before_strict_total(per, s1[0], s2[0], s2[0]);
            assert(false);
        }
        let t1 = s1.drop_first();
        let t2 = s2.drop_first();
        assert(t1 =~= s1.remove(0));
        assert(t2 =~= s2.remove(0));
        s1.to_multiset_ensures();
        s2.to_multiset_ensures();
        assert(t1.to_multiset() =~= s1.to_multiset().remove(s1[0]));
        assert(t2.to_multiset() =~= s2.to_multiset().remove(s2[0]));
        lemma_sorted_positions_unique(per, t1, t2);
        assert forall|j: int| 0 <= j < s1.len() implies s1[j] == s2[j] by {
            if j > 0 {
                assert(s1[j] == t1[j - 1]);
                assert(s2[j] == t2[j - 1]);
            }
        }
    }
}

/// Two lists of strings hold the same texts, position for position.
pub open spec fn same_string_values(o1: Vec<String>, o2: Vec<String>) -> bool {
    o1@.len() == o2@.len() && (forall|j: int|
        0 <= j < o1@.len() ==> (#[trigger] o1@[j])@ == o2@[j]@)
}

/// An extractor is deterministic when two calls on items holding the
/// same value can only produce the same texts.
pub open spec fn extractor_deterministic<T, F: Fn(&T) -> Vec<String>>(f: F) -> bool {
    forall|i1: &T, i2: &T, o1: Vec<String>, o2: Vec<String>|
        *i1 == *i2 && #[trigger] call_ensures(f, (i1,), o1) && #[trigger] call_ensures(
            f,
            (i2,),
            o2,
        ) ==> same_string_values(o1, o2)
}

/// With deterministic extractors — vacuously, with no keys at all — the
/// ranking data the contract admits for one item is unique.
proof fn lemma_info_valid_unique<T: AsMatchStrTrait, F: Fn(&T) -> Vec<String>>(
    keys: Seq<Key<T, F>>,
    q: Seq<char>,
    keep_diacritics: bool,
    item: T,
    i1: ItemInfo,
    i2: ItemInfo,
)
    requires
        forall|k: int|
            0 <= k < keys.len() ==> extractor_deterministic(#[trigger] keys[k].spec_extractor()),
        info_valid(keys, q, keep_diacritics, item, i1),
        info_valid(keys, q, keep_diacritics, item, i2),
    ensures
        i1 == i2,
{
    if keys.len() == 0 {
        assert(i1 == i2);
    } else {
        let (itr1, vals1, ri1) = choose|itr: &T, vals: Seq<Vec<String>>, ri: RankingInfo|
            #![trigger vals_ok(keys, vals, itr), highest_ok(keys, vals, q, keep_diacritics, ri)]
            {
                &&& *itr == item
                &&& vals_ok(keys, vals, itr)
                &&& highest_ok(keys, vals, q, keep_diacritics, ri)
                &&& info_rank(i1) == ri.rank
                &&& info_value(i1) == ri.ranked_value@
                &&& info_key_index(i1) == ri.key_index
                &&& info_threshold(i1) == ri.key_threshold
            };
        let (itr2, vals2, ri2) = choose|itr: &T, vals: Seq<Vec<String>>, ri: RankingInfo|
            #![trigger vals_ok(keys, vals, itr), highest_ok(keys, vals, q, keep_diacritics, ri)]
            {
                &&& *itr == item
                &&& vals_ok(keys, vals, itr)
                &&& highest_ok(keys, vals, q, keep_diacritics, ri)
                &&& info_rank(i2) == ri.rank
                &&& info_value(i2) == ri.ranked_value@
                &&& info_key_index(i2) == ri.key_index
                &&& info_threshold(i2) == ri.key_threshold
            };
        // The two runs' value lists agree text for text.
        assert forall|k: int| 0 <= k < keys.len() implies same_string_values(
            vals1[k],
            vals2[k],
        ) by {
            assert(call_ensures(keys[k].spec_extractor(), (itr1,), vals1[k]));
            assert(call_ensures(keys[k].spec_extractor(), (itr2,), vals2[k]));
        }
        // So every entry exists in both and contributes the same rank.
        assert forall|k: int, m: int| key::entry_ok(vals1, k, m) implies key::entry_ok(
            vals2,
            k,
            m,
        ) && #[trigger] key::entry_rank(keys, vals2, q, keep_diacritics, k, m) == key::entry_rank(
            keys,
            vals1,
            q,
            keep_diacritics,
            k,
            m,
        ) by {
            assert(same_string_values(vals1[k], vals2[k]));
            assert(vals1[k]@[m]@ == vals2[k]@[m]@);
        }
        assert forall|k: int, m: int| key::entry_ok(vals2, k, m) implies key::entry_ok(
            vals1,
            k,
            m,
        ) && #[trigger] key::entry_rank(keys, vals1, q, keep_diacritics, k, m) == key::entry_rank(
            keys,
            vals2,
            q,
            keep_diacritics,
            k,
            m,
        ) by {
            assert(same_string_values(vals1[k], vals2[k]));
            assert(vals1[k]@[m]@ == vals2[k]@[m]@);
        }
        // The best rank is therefore the same in both runs.
        if ri1.rank != Ranking::NoMatch {
            let (k1, m1) = choose|k: int, m: int|
                #[trigger] key::entry_ok(vals1, k, m) && key::winner_at(
                    keys,
                    vals1,
                    q,
                    keep_diacritics,
                    ri1,
                    k,
                    m,
                );
            assert(rank_le(key::entry_rank(keys, vals2, q, keep_diacritics, k1, m1), ri2.rank));
            crate::ranking::lemma_rank_order_strict_total(ri1.rank, ri2.rank, ri1.rank);
            assert(ri2.rank != Ranking::NoMatch);
        }
        if ri2.rank != Ranking::NoMatch {
            let (k2, m2) = choose|k: int, m: int|
                #[trigger] key::entry_ok(vals2, k, m) && key::winner_at(
                    keys,
                    vals2,
                    q,
                    keep_diacritics,
                    ri2,
                    k,
                    m,
                );
            assert(rank_le(key::entry_rank(keys, vals1, q, keep_diacritics, k2, m2), ri1.rank));
            crate::ranking::lemma_rank_order_strict_total(ri2.rank, ri1.rank, ri2.rank);
            assert(ri1.rank != Ranking::NoMatch);
        }
        crate::ranking::lemma_rank_order_strict_total(ri1.rank, ri2.rank, ri1.rank);
        assert(ri1.rank == ri2.rank);
        if ri1.rank == Ranking::NoMatch {
            assert(i1 == i2);
        } else {
            // Both winners stand at the same flattened position: were one
            // earlier, the later run would rank it strictly below the
            // shared best rank, contradicting that it attains it.
            let (k1, m1) = choose|k: int, m: int|
                #[trigger] key::entry_ok(vals1, k, m) && key::winner_at(
                    keys,
                    vals1,
                    q,
                    keep_diacritics,
                    ri1,
                    k,
                    m,
                );
            let (k2, m2) = choose|k: int, m: int|
                #[trigger] key::entry_ok(vals2, k, m) && key::winner_at(
                    keys,
                    vals2,
                    q,
                    keep_diacritics,
                    ri2,
                    k,
                    m,
                );
            if key::pair_before(k1, m1, k2, m2) {
                assert(key::entry_ok(vals2, k1, m1));
                assert(rank_lt(key::entry_rank(keys, vals2, q, keep_diacritics, k1, m1), ri2.rank));
                crate::ranking::lemma_rank_order_strict_total(ri1.rank, ri2.rank, ri1.rank);
                assert(false);
            }
            if key::pair_before(k2, m2, k1, m1) {
                assert(key::entry_ok(vals1, k2, m2));
                assert(rank_lt(key::entry_rank(keys, vals1, q, keep_diacritics, k2, m2), ri1.rank));
                crate::ranking::lemma_rank_order_strict_total(ri2.rank, ri1.rank, ri2.rank);
                assert(false);
            }
            assert(k1 == k2 && m1 == m2);
            assert(info_value(i1) == info_value(i2)) by {
                assert(vals1[k1]@[m1 as int]@ == vals2[k1]@[m1 as int]@);
            }
            assert(info_key_index(i1) == info_key_index(i2)) by {
                key::lemma_vals_before_same_shape(vals1, vals2, k1);
            }
            assert(info_threshold(i1) == info_threshold(i2));
            assert(i1 == i2);
        }
    }
}

/// Determinism: with deterministic key extractors — and vacuously in
/// no-keys mode, where the ranking data is an exact function of the
/// inputs — any two results that the contract of `match_sorter` admits
/// for the same inputs hold the same items in the same order.
pub proof fn lemma_match_sorter_deterministic<T: AsMatchStrTrait, F: Fn(&T) -> Vec<String>>(
    items: Seq<T>,
    q: Seq<char>,
    keys: Seq<Key<T, F>>,
    global: Ranking,
    keep_diacritics: bool,
    per1: Seq<sort::ItemInfo>,
    sel1: Seq<int>,
    out1: Seq<&T>,
    per2: Seq<sort::ItemInfo>,
    sel2: Seq<int>,
    out2: Seq<&T>,
)
    requires
        forall|k: int|
            0 <= k < keys.len() ==> extractor_deterministic(#[trigger] keys[k].spec_extractor()),
        match_sorter_post(items, q, keys, global, keep_diacritics, per1, sel1, out1),
        match_sorter_post(items, q, keys, global, keep_diacritics, per2, sel2, out2),
    ensures
        out1.len() == out2.len(),
        forall|j: int| 0 <= j < out1.len() ==> *(#[trigger] out1[j]) == *out2[j],
{
    assert(per1 =~= per2) by {
        assert forall|i: int| 0 <= i < per1.len() implies per1[i] == per2[i] by {
            assert(info_valid(keys, q, keep_diacritics, items[i], per1[i]));
            assert(info_valid(keys, q, keep_diacritics, items[i], per2[i]));
            lemma_info_valid_unique(keys, q, keep_diacritics, items[i], per1[i], per2[i]);
        }
    }
    assert(sel1.to_multiset() == sel2.to_multiset());
    assert forall|j: int| 0 <= j < sel1.len() implies 0 <= #[trigger] sel1[j] < per1.len() by {
        assert(*out1[j] == items[sel1[j]]);
    }
    assert forall|j: int| 0 <= j < sel2.len() implies 0 <= #[trigger] sel2[j] < per1.len() by {
        assert(*out2[j] == items[sel2[j]]);
    }
    lemma_sorted_positions_unique(per1, sel1, sel2);
    assert forall|j: int| 0 <= j < out1.len() implies *(#[trigger] out1[j]) == *out2[j] by {
        assert(sel1[j] == sel2[j]);
        assert(*out1[j] == items[sel1[j]]);
        assert(*out2[j] == items[sel2[j]]);
    }
}

/// Stability: two returned items whose ranking data tie on rank, key
/// index and ranked value stand in input order — the earlier input
/// position comes out first.
pub proof fn lemma_match_sorter_stable<T: AsMatchStrTrait, F: Fn(&T) -> Vec<String>>(
    items: Seq<T>,
    q: Seq<char>,
    keys: Seq<Key<T, F>>,
    global: Ranking,
    keep_diacritics: bool,
    per: Seq<sort::ItemInfo>,
    sel: Seq<int>,
    out: Seq<&T>,
    j1: int,
    j2: int,
)
    requires
        match_sorter_post(items, q, keys, global, keep_diacritics, per, sel, out),
        0 <= j1 < j2 < sel.len(),
        info_rank(per[sel[j1]]) == info_rank(per[sel[j2]]),
        info_key_index(per[sel[j1]]) == info_key_index(per[sel[j2]]),
        info_value(per[sel[j1]]) == info_value(per[sel[j2]]),
    ensures
        sel[j1] < sel[j2],
{
    assert(idx_before(per, sel[j1], sel[j2]));
    crate::text::lemma_lex_lt_irreflexive(info_value(per[sel[j1]]));
}

/// Filter and sort items by how well they match a search query.
///
/// The pipeline has three steps.  First each item is ranked: directly by
/// its own text when `options.keys` is empty, else by the best value any
/// key extracts from it; items whose rank falls below the effective
/// threshold — the winning key's override if set, else
/// `options.threshold` — are dropped.  The survivors are then stable-
/// sorted by rank descending, flattened key index ascending, and ranked
/// value ascending, full ties keeping their input order.  Finally the
/// sorted items are returned as references into `items`.
pub fn match_sorter<'a, T: AsMatchStrTrait, F: Fn(&T) -> Vec<String>>(
    items: &'a [T],
    value: &str,
    options: MatchSorterOptions<T, F>,
) -> (r: Vec<&'a T>)
    requires
        forall|k: int, it: &T|
            0 <= k < options.keys@.len() ==> #[trigger] call_requires(
                options.keys@[k].spec_extractor(),
                (it,),
            ),
    ensures
        exists|per: Seq<ItemInfo>, sel: Seq<int>|
            #[trigger] match_sorter_post(
                items@,
                value@,
                options.keys@,
                options.threshold,
                options.keep_diacritics,
                per,
                sel,
                r@,
            ),
{
    let (ranked, gper) = rank_and_filter(items, value, &options);
    let ghost per = gper@;
    let ghost pre_sort = ranked@;
    let sorted = sort_by_rank(ranked, Ghost(per));
    let mut out: Vec<&'a T> = Vec::new();
    let mut j: usize = 0;
    while j < sorted.len()
        invariant
            j <= sorted@.len(),
            out@.len() == j,
            forall|j2: int| 0 <= j2 < j ==> out@[j2] == (#[trigger] sorted@[j2]).item,
        decreases sorted@.len() - j,
    {
        out.push(sorted[j].item);
        j += 1;
    }
    proof {
        broadcast use vstd::seq_lib::group_to_multiset_ensures;

        let ghost sel = idxs_of(sorted@);
        assert forall|k: int| 0 <= k < sorted@.len() implies *(#[trigger] sorted@[k]).item
            == items@[sorted@[k].index as int] && sorted@[k].index < items@.len() by {
            assert(pre_sort.contains(sorted@[k]));
            let k0 = choose|k0: int| 0 <= k0 < pre_sort.len() && pre_sort[k0] == sorted@[k];
        }
        lemma_filter_idx_range(per, options.threshold, items@.len() as int);
        assert(match_sorter_post(
            items@,
            value@,
            options.keys@,
            options.threshold,
            options.keep_diacritics,
            per,
            sel,
            out@,
        ));
    }
    out
}

/// Filter and sort items, breaking ties with a caller-supplied
/// comparison instead of the default alphabetical one.
///
/// The ranking and filtering steps are those of [`match_sorter`]; the
/// sort compares rank descending and key index ascending first, and
/// hands full ties to `base_sort`.  The contract pins the selection —
/// which items are returned — and the two fixed comparison levels:
/// whatever the tiebreaker answers, no returned item stands before one
/// with a better rank, or with an equal rank and a lower key index.
/// The order within those ties is the tiebreaker's affair.
pub fn match_sorter_with_base_sort<
    'a,
    T: AsMatchStrTrait,
    F: Fn(&T) -> Vec<String>,
    B: Fn(&RankedItem<'a, T>, &RankedItem<'a, T>) -> core::cmp::Ordering,
>(
    items: &'a [T],
    value: &str,
    options: MatchSorterOptions<T, F>,
    base_sort: &B,
) -> (r: Vec<&'a T>)
    requires
        forall|k: int, it: &T|
            0 <= k < options.keys@.len() ==> #[trigger] call_requires(
                options.keys@[k].spec_extractor(),
                (it,),
            ),
        forall|x: &RankedItem<'a, T>, y: &RankedItem<'a, T>| #[trigger] call_requires(
            *base_sort,
            (x, y),
        ),
    ensures
        exists|per: Seq<ItemInfo>, sel: Seq<int>|
            #[trigger] match_sorter_selection(
                items@,
                value@,
                options.keys@,
                options.threshold,
                options.keep_diacritics,
                per,
                sel,
                r@,
            ) && (forall|j1: int, j2: int|
                0 <= j1 < j2 < sel.len() ==> !sort::idx_before2(per, #[trigger] sel[j2], #[trigger] sel[j1])),
{
    let (ranked, gper) = rank_and_filter(items, value, &options);
    let ghost per = gper@;
    let ghost pre_sort = ranked@;
    let sorted = sort::sort_with_tiebreak(ranked, base_sort);
    let mut out: Vec<&'a T> = Vec::new();
    let mut j: usize = 0;
    while j < sorted.len()
        invariant
            j <= sorted@.len(),
            out@.len() == j,
            forall|j2: int| 0 <= j2 < j ==> out@[j2] == (#[trigger] sorted@[j2]).item,
        decreases sorted@.len() - j,
    {
        out.push(sorted[j].item);
        j += 1;
    }
    proof {
        broadcast use vstd::seq_lib::group_to_multiset_ensures;

        let ghost sel = idxs_of(sorted@);
        assert forall|k: int| 0 <= k < sorted@.len() implies *(#[trigger] sorted@[k]).item
            == items@[sorted@[k].index as int] && sorted@[k].index < items@.len() && entry_matches(
            per,
            sorted@[k],
        ) by {
            assert(pre_sort.contains(sorted@[k]));
            let k0 = choose|k0: int| 0 <= k0 < pre_sort.len() && pre_sort[k0] == sorted@[k];
            assert(entry_matches(per, pre_sort[k0]));
        }
        assert(match_sorter_selection(
            items@,
            value@,
            options.keys@,
            options.threshold,
            options.keep_diacritics,
            per,
            sel,
            out@,
        ));
        assert forall|j1: int, j2: int| 0 <= j1 < j2 < sel.len() implies !sort::idx_before2(
            per,
            #[trigger] sel[j2],
            #[trigger] sel[j1],
        ) by {
            assert(!sort::item_lt2(sorted@[j2], sorted@[j1]));
        }
    }
    out
}

/// Filter items as [`match_sorter`] does, then let a caller-supplied
/// function order the filtered entries itself, using its result
/// verbatim.
///
/// The contract pins the ranking and filtering exactly; what comes out
/// is whatever order — indeed whatever entries — the override returned
/// for the filtered vector it was given.
pub fn match_sorter_with_sorter<
    'a,
    T: AsMatchStrTrait,
    F: Fn(&T) -> Vec<String>,
    S: FnOnce(Vec<RankedItem<'a, T>>) -> Vec<RankedItem<'a, T>>,
>(
    items: &'a [T],
    value: &str,
    options: MatchSorterOptions<T, F>,
    sorter: S,
) -> (r: Vec<&'a T>)
    requires
        forall|k: int, it: &T|
            0 <= k < options.keys@.len() ==> #[trigger] call_requires(
                options.keys@[k].spec_extractor(),
                (it,),
            ),
        forall|fv: Vec<RankedItem<'a, T>>| #[trigger] call_requires(sorter, (fv,)),
    ensures
        exists|per: Seq<ItemInfo>, fv: Vec<RankedItem<'a, T>>, sv: Vec<RankedItem<'a, T>>|
            #![trigger call_ensures(sorter, (fv,), sv), filter_idx(per, options.threshold, items@.len() as int)]
            {
                &&& per.len() == items@.len()
                &&& (forall|i: int|
                    0 <= i < items@.len() ==> info_valid(
                        options.keys@,
                        value@,
                        options.keep_diacritics,
                        #[trigger] items@[i],
                        per[i],
                    ))
                &&& idxs_of(fv@) == filter_idx(per, options.threshold, items@.len() as int)
                &&& (forall|k: int|
                    0 <= k < fv@.len() ==> entry_matches(per, #[trigger] fv@[k]) && *fv@[k].item
                        == items@[fv@[k].index as int])
                &&& call_ensures(sorter, (fv,), sv)
                &&& r@.len() == sv@.len()
                &&& (forall|j: int| 0 <= j < sv@.len() ==> r@[j] == (#[trigger] sv@[j]).item)
            },
{
    let (ranked, gper) = rank_and_filter(items, value, &options);
    let ghost per = gper@;
    let ghost fv = ranked;
    let sorted = sorter(ranked);
    let mut out: Vec<&'a T> = Vec::new();
    let mut j: usize = 0;
    while j < sorted.len()
        invariant
            j <= sorted@.len(),
            out@.len() == j,
            forall|j2: int| 0 <= j2 < j ==> out@[j2] == (#[trigger] sorted@[j2]).item,
        decreases sorted@.len() - j,
    {
        out.push(sorted[j].item);
        j += 1;
    }
    out
}

/// The rank-and-filter step shared by the pipeline entry points: rank
/// every item, drop those below their effective threshold, and return
/// the survivors in input order together with the ranking data of every
/// input item.
fn rank_and_filter<'a, T: AsMatchStrTrait, F: Fn(&T) -> Vec<String>>(
    items: &'a [T],
    value: &str,
    options: &MatchSorterOptions<T, F>,
) -> (res: (Vec<RankedItem<'a, T>>, Ghost<Seq<ItemInfo>>))
    requires
        forall|k: int, it: &T|
            0 <= k < options.keys@.len() ==> #[trigger] call_requires(
                options.keys@[k].spec_extractor(),
                (it,),
            ),
    ensures
        ({
            let ranked = res.0;
            let per = res.1@;
            &&& per.len() == items@.len()
            &&& (forall|i: int|
                0 <= i < items@.len() ==> info_valid(
                    options.keys@,
                    value@,
                    options.keep_diacritics,
                    #[trigger] items@[i],
                    per[i],
                ))
            &&& idxs_of(ranked@) == filter_idx(per, options.threshold, items@.len() as int)
            &&& (forall|k: int| 0 <= k < ranked@.len() ==> entry_matches(per, #[trigger] ranked@[k]))
            &&& (forall|k: int|
                0 <= k < ranked@.len() ==> *(#[trigger] ranked@[k]).item == items@[ranked@[
                    k
                ].index as int])
            &&& (forall|k1: int, k2: int|
                0 <= k1 < k2 < ranked@.len() ==> ranked@[k1].index < ranked@[k2].index)
        }),
{
    let keep = options.keep_diacritics;
    let pq = ranking::PreparedQuery::new(value, keep);
    let mut candidate_buf: Vec<char> = Vec::new();
    let mut ranked: Vec<RankedItem<'a, T>> = Vec::new();
    let ghost mut per: Seq<ItemInfo> = Seq::empty();
    let no_keys = options.keys.len() == 0;
    let mut index: usize = 0;
    while index < items.len()
        invariant
            pq.wf(),
            pq.keep_diacritics() == keep,
            pq.query() == value@,
            keep == options.keep_diacritics,
            no_keys == (options.keys@.len() == 0),
            forall|k: int, it: &T|
                0 <= k < options.keys@.len() ==> #[trigger] call_requires(
                    options.keys@[k].spec_extractor(),
                    (it,),
                ),
            index <= items@.len(),
            per.len() == index,
            forall|i: int|
                0 <= i < index ==> info_valid(
                    options.keys@,
                    value@,
                    keep,
                    #[trigger] items@[i],
                    per[i],
                ),
            idxs_of(ranked@) == filter_idx(per, options.threshold, index as int),
            forall|k: int| 0 <= k < ranked@.len() ==> entry_matches(per, #[trigger] ranked@[k]),
            forall|k: int|
                0 <= k < ranked@.len() ==> *(#[trigger] ranked@[k]).item == items@[ranked@[
                    k
                ].index as int],
            forall|k1: int, k2: int|
                0 <= k1 < k2 < ranked@.len() ==> ranked@[k1].index < ranked@[k2].index,
            forall|k: int| 0 <= k < ranked@.len() ==> (#[trigger] ranked@[k]).index < index,
        decreases items@.len() - index,
    {
        let item = &items[index];
        let ghost old_per = per;
        let (rank, ranked_value, key_index, key_threshold): (
            Ranking,
            Cow<'a, str>,
            usize,
            Option<Ranking>,
        ) = if no_keys {
            let s = item.as_match_str();
            let rank = ranking::get_match_ranking_prepared(s, &pq, keep, &mut candidate_buf);
            proof {
                per = per.push((rank, s@, 0usize, None::<Ranking>));
            }
            (rank, Cow::Borrowed(s), 0usize, None)
        } else {
            let info = key::get_highest_ranking_prepared(
                item,
                &options.keys,
                &pq,
                keep,
                &mut candidate_buf,
            );
            let RankingInfo { rank, ranked_value, key_index, key_threshold } = info;
            proof {
                per = per.push((rank, ranked_value@, key_index, key_threshold));
            }
            (rank, Cow::Owned(ranked_value), key_index, key_threshold)
        };
        proof {
            assert(info_valid(options.keys@, value@, keep, items@[index as int], per[index as int]));
            assert forall|i: int| 0 <= i < index implies info_valid(
                options.keys@,
                value@,
                keep,
                #[trigger] items@[i],
                per[i],
            ) by {
                assert(per[i] == old_per[i]);
            }
            lemma_filter_idx_push(
                old_per,
                per[index as int],
                options.threshold,
                index as int,
            );
            assert forall|k: int| 0 <= k < ranked@.len() implies entry_matches(
                per,
                #[trigger] ranked@[k],
            ) by {
                assert(per[ranked@[k].index as int] == old_per[ranked@[k].index as int]);
            }
        }
        let eff = match &key_threshold {
            Some(t) => *t,
            None => options.threshold,
        };
        if rank.at_least(&eff) {
            let entry = RankedItem {
                item,
                index,
                rank,
                ranked_value,
                key_index,
                key_threshold,
            };
            ranked.push(entry);
            proof {
                assert(included(per[index as int], options.threshold));
                assert(idxs_of(ranked@) =~= filter_idx(per, options.threshold, index + 1 as int));
            }
        } else {
            proof {
                assert(!included(per[index as int], options.threshold));
                assert(idxs_of(ranked@) =~= filter_idx(per, options.threshold, index + 1 as int));
            }
        }
        index += 1;
    }
    (ranked, Ghost(per))
}

} // verus!
