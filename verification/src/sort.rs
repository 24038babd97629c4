//! Sorting logic for ordering matched candidates.
//!
//! The pipeline orders its ranked items by a three-level comparison —
//! rank descending, flattened key index ascending, then a tiebreaker
//! (by default, lexicographic comparison of the ranked values) — and the
//! sort is stable: items that tie on all three levels keep their input
//! order.  The specification captures that order over the per-item
//! ranking data as [`idx_before`], a strict total order on input
//! positions.

use vstd::prelude::*;
use vstd::multiset::Multiset;
use crate::options::RankedItem;
use crate::ranking::{lemma_rank_order_strict_total, rank_lt, Ranking};
use crate::text::{
    chars_of, lemma_lex_lt_connected, lemma_lex_lt_irreflexive, lemma_lex_lt_transitive,
    lex_cmp_chars, lex_lt,
};
use std::borrow::Cow;

verus! {

broadcast use vstd::seq_lib::group_seq_properties;

/// The ranking data of one input item, as the sort sees it: its rank,
/// its winning value, its flattened key index and its per-key threshold.
pub type ItemInfo = (Ranking, Seq<char>, usize, Option<Ranking>);

/// The rank of an item's info.
pub open spec fn info_rank(p: ItemInfo) -> Ranking {
    p.0
}

/// The winning value of an item's info.
pub open spec fn info_value(p: ItemInfo) -> Seq<char> {
    p.1
}

/// The flattened key index of an item's info.
pub open spec fn info_key_index(p: ItemInfo) -> usize {
    p.2
}

/// The per-key threshold of an item's info.
pub open spec fn info_threshold(p: ItemInfo) -> Option<Ranking> {
    p.3
}

/// The order the pipeline produces, over input positions `i` and `j`
/// with ranking data `per`: better rank first; then lower key index;
/// then lexicographically smaller ranked value; and finally — for items
/// that tie on all three — the smaller input position, which is what
/// makes the sort stable.  A strict total order whenever `i != j`.
pub open spec fn idx_before(per: Seq<ItemInfo>, i: int, j: int) -> bool {
    ||| rank_lt(info_rank(per[j]), info_rank(per[i]))
    ||| (info_rank(per[i]) == info_rank(per[j]) && (info_key_index(per[i]) < info_key_index(
        per[j],
    ) || (info_key_index(per[i]) == info_key_index(per[j]) && (lex_lt(
        info_value(per[i]),
        info_value(per[j]),
    ) || (info_value(per[i]) == info_value(per[j]) && i < j)))))
}

/// `idx_before` is irreflexive and transitive, and orders any two
/// distinct positions exactly one way.
pub proof fn lemma_idx_before_strict_total(per: Seq<ItemInfo>, i: int, j: int, k: int)
    requires
        0 <= i < per.len(),
        0 <= j < per.len(),
        0 <= k < per.len(),
    ensures
        !idx_before(per, i, i),
        i != j ==> (idx_before(per, i, j) <==> !idx_before(per, j, i)),
        idx_before(per, i, j) && idx_before(per, j, k) ==> idx_before(per, i, k),
{
    lemma_rank_order_strict_total(info_rank(per[i]), info_rank(per[j]), info_rank(per[k]));
    lemma_lex_lt_irreflexive(info_value(per[i]));
    if info_value(per[i]) != info_value(per[j]) {
        lemma_lex_lt_connected(info_value(per[i]), info_value(per[j]));
    }
    if idx_before(per, i, j) && idx_before(per, j, k) {
        lemma_rank_order_strict_total(info_rank(per[j]), info_rank(per[k]), info_rank(per[i]));
        if lex_lt(info_value(per[i]), info_value(per[j])) && lex_lt(
            info_value(per[j]),
            info_value(per[k]),
        ) {
            lemma_lex_lt_transitive(info_value(per[i]), info_value(per[j]), info_value(per[k]));
        }
    }
}

/// The ranked item `e` carries exactly the ranking data that `per`
/// records for its input position.
pub open spec fn entry_matches<T>(per: Seq<ItemInfo>, e: RankedItem<'_, T>) -> bool {
    &&& e.index < per.len()
    &&& e.rank == info_rank(per[e.index as int])
    &&& e.key_index == info_key_index(per[e.index as int])
    &&& e.ranked_value@ == info_value(per[e.index as int])
    &&& e.key_threshold == info_threshold(per[e.index as int])
}

/// `a` sorts strictly before `b` on the three compared levels: better
/// rank, else lower key index, else lexicographically smaller value.
pub open spec fn item_lt3<T>(a: RankedItem<'_, T>, b: RankedItem<'_, T>) -> bool {
    ||| rank_lt(b.rank, a.rank)
    ||| (a.rank == b.rank && (a.key_index < b.key_index || (a.key_index == b.key_index && lex_lt(
        a.ranked_value@,
        b.ranked_value@,
    ))))
}

/// `a` and `b` tie on all three compared levels.
pub open spec fn item_eq3<T>(a: RankedItem<'_, T>, b: RankedItem<'_, T>) -> bool {
    a.rank == b.rank && a.key_index == b.key_index && a.ranked_value@ == b.ranked_value@
}

/// `a` sorts strictly before `b` on the two fixed levels alone: better
/// rank, else lower key index.  These two levels hold whatever the
/// tiebreaker does.
pub open spec fn item_lt2<T>(a: RankedItem<'_, T>, b: RankedItem<'_, T>) -> bool {
    rank_lt(b.rank, a.rank) || (a.rank == b.rank && a.key_index < b.key_index)
}

/// The two fixed levels of [`idx_before`], over input positions with
/// ranking data `per`: position `i` strictly precedes `j` by rank
/// descending, else key index ascending.
pub open spec fn idx_before2(per: Seq<ItemInfo>, i: int, j: int) -> bool {
    rank_lt(info_rank(per[j]), info_rank(per[i])) || (info_rank(per[i]) == info_rank(per[j])
        && info_key_index(per[i]) < info_key_index(per[j]))
}

/// Being not-after is transitive on the two fixed levels.
proof fn lemma_item_le2_trans<T>(a: RankedItem<'_, T>, b: RankedItem<'_, T>, c: RankedItem<'_, T>)
    requires
        !item_lt2(b, a),
        !item_lt2(c, b),
    ensures
        !item_lt2(c, a),
{
    lemma_rank_order_strict_total(a.rank, b.rank, c.rank);
    lemma_rank_order_strict_total(c.rank, b.rank, a.rank);
    lemma_rank_order_strict_total(b.rank, a.rank, c.rank);
    lemma_rank_order_strict_total(b.rank, c.rank, a.rank);
    lemma_rank_order_strict_total(a.rank, c.rank, b.rank);
    lemma_rank_order_strict_total(c.rank, a.rank, b.rank);
}

/// Alphabetical tiebreaker: compares two ranked items by their
/// `ranked_value`, lexicographically by Unicode scalar value — the same
/// order as byte-wise comparison of the UTF-8 encodings.
pub fn default_base_sort<T>(a: &RankedItem<'_, T>, b: &RankedItem<'_, T>) -> (r:
    core::cmp::Ordering)
    ensures
        r is Less <==> lex_lt(a.ranked_value@, b.ranked_value@),
        r is Equal <==> a.ranked_value@ == b.ranked_value@,
        r is Greater <==> lex_lt(b.ranked_value@, a.ranked_value@),
{
    let va = match &a.ranked_value {
        Cow::Borrowed(s) => chars_of(s),
        Cow::Owned(s) => chars_of(s.as_str()),
    };
    let vb = match &b.ranked_value {
        Cow::Borrowed(s) => chars_of(s),
        Cow::Owned(s) => chars_of(s.as_str()),
    };
    lex_cmp_chars(&va, &vb)
}

/// Three-level comparator for ranked items: rank descending, key index
/// ascending, then the supplied tiebreaker.  The tiebreaker is called
/// only when rank and key index both tie.
pub fn sort_ranked_values<'a, T, F: Fn(&RankedItem<'a, T>, &RankedItem<'a, T>) -> core::cmp::Ordering>(
    a: &RankedItem<'a, T>,
    b: &RankedItem<'a, T>,
    base_sort: &F,
) -> (r: core::cmp::Ordering)
    requires
        call_requires(*base_sort, (a, b)),
    ensures
        rank_lt(b.rank, a.rank) ==> r is Less,
        rank_lt(a.rank, b.rank) ==> r is Greater,
        a.rank == b.rank && a.key_index < b.key_index ==> r is Less,
        a.rank == b.rank && a.key_index > b.key_index ==> r is Greater,
        a.rank == b.rank && a.key_index == b.key_index ==> call_ensures(*base_sort, (a, b), r),
{
    match b.rank.cmp_rank(&a.rank) {
        core::cmp::Ordering::Less => core::cmp::Ordering::Less,
        core::cmp::Ordering::Greater => core::cmp::Ordering::Greater,
        core::cmp::Ordering::Equal => {
            if a.key_index < b.key_index {
                core::cmp::Ordering::Less
            } else if a.key_index > b.key_index {
                core::cmp::Ordering::Greater
            } else {
                base_sort(a, b)
            }
        },
    }
}

/// The default three-level comparison of two ranked items.
fn cmp_entries<T>(a: &RankedItem<'_, T>, b: &RankedItem<'_, T>) -> (r: core::cmp::Ordering)
    ensures
        r is Less <==> item_lt3(*a, *b),
        r is Equal <==> item_eq3(*a, *b),
        r is Greater <==> item_lt3(*b, *a),
{
    match b.rank.cmp_rank(&a.rank) {
        core::cmp::Ordering::Less => core::cmp::Ordering::Less,
        core::cmp::Ordering::Greater => core::cmp::Ordering::Greater,
        core::cmp::Ordering::Equal => {
            if a.key_index < b.key_index {
                core::cmp::Ordering::Less
            } else if a.key_index > b.key_index {
                core::cmp::Ordering::Greater
            } else {
                default_base_sort(a, b)
            }
        },
    }
}

/// The input positions of a run of ranked items, in order.
pub open spec fn idxs_of<T>(s: Seq<RankedItem<'_, T>>) -> Seq<int> {
    Seq::new(s.len(), |j: int| s[j].index as int)
}

/// Inserting into a sequence adds the element to its multiset.
proof fn lemma_insert_to_multiset<A>(s: Seq<A>, p: int, e: A)
    requires
        0 <= p <= s.len(),
    ensures
        s.insert(p, e).to_multiset() =~= s.to_multiset().insert(e),
{
    let t = s.insert(p, e);
    t.to_multiset_ensures();
    s.to_multiset_ensures();
    assert(t.remove(p) =~= s);
    assert(t[p] == e);
    assert(s.to_multiset() =~= t.to_multiset().remove(e));
    assert(t.to_multiset().contains(e)) by {
        assert(t.contains(e)) by {
            assert(t[p] == e);
        }
    }
    assert forall|x: A| t.to_multiset().count(x) == s.to_multiset().insert(e).count(x) by {
        if x == e {
            assert(s.to_multiset().count(e) == t.to_multiset().count(e) - 1);
        } else {
            assert(s.to_multiset().count(x) == t.to_multiset().count(x));
        }
    }
}

/// The position where `e` belongs in the sorted run `out`: after every
/// item not strictly after it, before the first that is.
fn find_insert_pos<'a, T>(out: &Vec<RankedItem<'a, T>>, e: &RankedItem<'a, T>) -> (p: usize)
    ensures
        p <= out@.len(),
        forall|k: int| 0 <= k < p ==> !item_lt3(*e, #[trigger] out@[k]),
        p < out@.len() ==> item_lt3(*e, out@[p as int]),
{
    let mut p: usize = 0;
    while p < out.len()
        invariant
            p <= out@.len(),
            forall|k: int| 0 <= k < p ==> !item_lt3(*e, #[trigger] out@[k]),
        decreases out@.len() - p,
    {
        if matches!(cmp_entries(&out[p], e), core::cmp::Ordering::Greater) {
            return p;
        }
        p += 1;
    }
    p
}

/// Stable three-level sort of ranked items.
///
/// `per` is the ranking data of the input items by input position; the
/// entries of `v` must carry exactly that data, and arrive in input
/// order (ascending `index`).  The result holds the same entries,
/// ordered by [`idx_before`]: rank descending, key index ascending,
/// value ascending, input position ascending last — which is exactly
/// stability, since items that tie on the compared levels keep their
/// input order.
pub(crate) fn sort_by_rank<'a, T>(
    v: Vec<RankedItem<'a, T>>,
    Ghost(per): Ghost<Seq<ItemInfo>>,
) -> (out: Vec<RankedItem<'a, T>>)
    requires
        forall|k: int| 0 <= k < v@.len() ==> entry_matches(per, #[trigger] v@[k]),
        forall|k1: int, k2: int| 0 <= k1 < k2 < v@.len() ==> v@[k1].index < v@[k2].index,
    ensures
        out@.len() == v@.len(),
        out@.to_multiset() == v@.to_multiset(),
        idxs_of(out@).to_multiset() == idxs_of(v@).to_multiset(),
        forall|k: int| 0 <= k < out@.len() ==> v@.contains(#[trigger] out@[k]),
        forall|j1: int, j2: int|
            0 <= j1 < j2 < out@.len() ==> idx_before(
                per,
                out@[j1].index as int,
                out@[j2].index as int,
            ),
{
    broadcast use vstd::seq_lib::group_to_multiset_ensures;

    let ghost orig = v@;
    let mut rest = v;
    let mut out: Vec<RankedItem<'a, T>> = Vec::new();
    while rest.len() > 0
        invariant
            forall|k: int| 0 <= k < rest@.len() ==> entry_matches(per, #[trigger] rest@[k]),
            forall|k: int| 0 <= k < out@.len() ==> entry_matches(per, #[trigger] out@[k]),
            forall|k1: int, k2: int|
                0 <= k1 < k2 < rest@.len() ==> rest@[k1].index < rest@[k2].index,
            forall|k1: int, k2: int|
                0 <= k1 < out@.len() && 0 <= k2 < rest@.len() ==> out@[k1].index < rest@[k2].index,
            out@.len() + rest@.len() == orig.len(),
            out@.to_multiset().add(rest@.to_multiset()) =~= orig.to_multiset(),
            idxs_of(out@).to_multiset().add(idxs_of(rest@).to_multiset()) =~= idxs_of(
                orig,
            ).to_multiset(),
            forall|k: int| 0 <= k < out@.len() ==> orig.contains(#[trigger] out@[k]),
            forall|k: int| 0 <= k < rest@.len() ==> orig.contains(#[trigger] rest@[k]),
            forall|j1: int, j2: int|
                0 <= j1 < j2 < out@.len() ==> idx_before(
                    per,
                    out@[j1].index as int,
                    out@[j2].index as int,
                ),
        decreases rest@.len(),
    {
        let ghost old_rest = rest@;
        let ghost old_out = out@;
        let e = rest.remove(0);
        proof {
            assert(old_rest[0] == e);
            assert(rest@ =~= old_rest.remove(0));
            old_rest.to_multiset_ensures();
            assert(rest@.to_multiset() =~= old_rest.to_multiset().remove(e));
            assert(idxs_of(rest@) =~= idxs_of(old_rest).remove(0));
            idxs_of(old_rest).to_multiset_ensures();
            assert(idxs_of(rest@).to_multiset() =~= idxs_of(old_rest).to_multiset().remove(
                e.index as int,
            ));
        }
        let p = find_insert_pos(&out, &e);
        proof {
            // Everything already placed has a smaller input position.
            assert forall|k: int| 0 <= k < p implies idx_before(
                per,
                old_out[k].index as int,
                e.index as int,
            ) by {
                assert(!item_lt3(e, old_out[k]));
                lemma_idx_before_strict_total(
                    per,
                    old_out[k].index as int,
                    e.index as int,
                    e.index as int,
                );
                if !item_lt3(old_out[k], e) {
                    // Full tie on the compared levels: input order decides.
                    if old_out[k].ranked_value@ != e.ranked_value@ {
                        lemma_lex_lt_connected(old_out[k].ranked_value@, e.ranked_value@);
                    }
                    lemma_rank_order_strict_total(old_out[k].rank, e.rank, e.rank);
                }
            }
            assert forall|k: int| p <= k < old_out.len() implies idx_before(
                per,
                e.index as int,
                old_out[k].index as int,
            ) by {
                assert(item_lt3(e, old_out[p as int]));
                assert(idx_before(per, e.index as int, old_out[p as int].index as int));
                if k > p {
                    assert(idx_before(
                        per,
                        old_out[p as int].index as int,
                        old_out[k].index as int,
                    ));
                    lemma_idx_before_strict_total(
                        per,
                        e.index as int,
                        old_out[p as int].index as int,
                        old_out[k].index as int,
                    );
                }
            }
        }
        out.insert(p, e);
        proof {
            assert(out@ =~= old_out.insert(p as int, e));
            lemma_insert_to_multiset(old_out, p as int, e);
            assert(idxs_of(out@) =~= idxs_of(old_out).insert(p as int, e.index as int));
            lemma_insert_to_multiset(idxs_of(old_out), p as int, e.index as int);
            assert forall|j1: int, j2: int| 0 <= j1 < j2 < out@.len() implies idx_before(
                per,
                out@[j1].index as int,
                out@[j2].index as int,
            ) by {
                if j1 < p && j2 < p {
                } else if j1 > p && j2 > p {
                    assert(out@[j1] == old_out[j1 - 1]);
                    assert(out@[j2] == old_out[j2 - 1]);
                } else if j2 == p {
                    assert(out@[j1] == old_out[j1]);
                } else if j1 == p {
                    assert(out@[j2] == old_out[j2 - 1]);
                } else {
                    // j1 < p < j2
                    assert(out@[j1] == old_out[j1]);
                    assert(out@[j2] == old_out[j2 - 1]);
                }
            }
        }
    }
    proof {
        assert(rest@.to_multiset() =~= Multiset::<RankedItem<'a, T>>::empty()) by {
            rest@.to_multiset_ensures();
        }
        assert(idxs_of(rest@) =~= Seq::<int>::empty());
        assert(idxs_of(rest@).to_multiset() =~= Multiset::<int>::empty()) by {
            idxs_of(rest@).to_multiset_ensures();
        }
        assert(out@.to_multiset() =~= orig.to_multiset());
        assert(idxs_of(out@).to_multiset() =~= idxs_of(orig).to_multiset());
    }
    out
}

/// The position where `e` belongs under a caller-supplied tiebreaker:
/// after every item the comparator does not place strictly after `e`,
/// before the first that it does.  Whatever the tiebreaker answers, the
/// two fixed comparison levels bound the position.
fn find_insert_pos_with<'a, T, B: Fn(&RankedItem<'a, T>, &RankedItem<'a, T>) -> core::cmp::Ordering>(
    out: &Vec<RankedItem<'a, T>>,
    e: &RankedItem<'a, T>,
    base_sort: &B,
) -> (p: usize)
    requires
        forall|x: &RankedItem<'a, T>, y: &RankedItem<'a, T>| #[trigger] call_requires(
            *base_sort,
            (x, y),
        ),
    ensures
        p <= out@.len(),
        forall|k: int| 0 <= k < p ==> !item_lt2(*e, #[trigger] out@[k]),
        p < out@.len() ==> !item_lt2(out@[p as int], *e),
{
    let mut p: usize = 0;
    while p < out.len()
        invariant
            forall|x: &RankedItem<'a, T>, y: &RankedItem<'a, T>| #[trigger] call_requires(
                *base_sort,
                (x, y),
            ),
            p <= out@.len(),
            forall|k: int| 0 <= k < p ==> !item_lt2(*e, #[trigger] out@[k]),
        decreases out@.len() - p,
    {
        if matches!(
            sort_ranked_values(&out[p], e, base_sort),
            core::cmp::Ordering::Greater
        ) {
            return p;
        }
        p += 1;
    }
    p
}

/// Sort ranked items with a caller-supplied tiebreaker: the three-level
/// comparison of [`sort_ranked_values`] with `base_sort` at the last
/// level, inserted stably.  The result holds exactly the input entries,
/// and the two fixed comparison levels always hold of it: no entry with
/// a worse rank — or an equal rank and a higher key index — ever stands
/// before a better one.  What happens within those ties is the
/// tiebreaker's affair.
pub(crate) fn sort_with_tiebreak<'a, T, B: Fn(&RankedItem<'a, T>, &RankedItem<'a, T>) -> core::cmp::Ordering>(
    v: Vec<RankedItem<'a, T>>,
    base_sort: &B,
) -> (out: Vec<RankedItem<'a, T>>)
    requires
        forall|x: &RankedItem<'a, T>, y: &RankedItem<'a, T>| #[trigger] call_requires(
            *base_sort,
            (x, y),
        ),
    ensures
        out@.len() == v@.len(),
        out@.to_multiset() == v@.to_multiset(),
        idxs_of(out@).to_multiset() == idxs_of(v@).to_multiset(),
        forall|k: int| 0 <= k < out@.len() ==> v@.contains(#[trigger] out@[k]),
        forall|j1: int, j2: int|
            0 <= j1 < j2 < out@.len() ==> !item_lt2(#[trigger] out@[j2], #[trigger] out@[j1]),
{
    broadcast use vstd::seq_lib::group_to_multiset_ensures;

    let ghost orig = v@;
    let mut rest = v;
    let mut out: Vec<RankedItem<'a, T>> = Vec::new();
    while rest.len() > 0
        invariant
            forall|x: &RankedItem<'a, T>, y: &RankedItem<'a, T>| #[trigger] call_requires(
                *base_sort,
                (x, y),
            ),
            out@.len() + rest@.len() == orig.len(),
            out@.to_multiset().add(rest@.to_multiset()) =~= orig.to_multiset(),
            idxs_of(out@).to_multiset().add(idxs_of(rest@).to_multiset()) =~= idxs_of(
                orig,
            ).to_multiset(),
            forall|k: int| 0 <= k < out@.len() ==> orig.contains(#[trigger] out@[k]),
            forall|k: int| 0 <= k < rest@.len() ==> orig.contains(#[trigger] rest@[k]),
            forall|j1: int, j2: int|
                0 <= j1 < j2 < out@.len() ==> !item_lt2(#[trigger] out@[j2], #[trigger] out@[j1]),
        decreases rest@.len(),
    {
        let ghost old_rest = rest@;
        let ghost old_out = out@;
        let e = rest.remove(0);
        proof {
            assert(old_rest[0] == e);
            assert(rest@ =~= old_rest.remove(0));
            old_rest.to_multiset_ensures();
            assert(rest@.to_multiset() =~= old_rest.to_multiset().remove(e));
            assert(idxs_of(rest@) =~= idxs_of(old_rest).remove(0));
            idxs_of(old_rest).to_multiset_ensures();
            assert(idxs_of(rest@).to_multiset() =~= idxs_of(old_rest).to_multiset().remove(
                e.index as int,
            ));
        }
        let p = find_insert_pos_with(&out, &e, base_sort);
        proof {
            assert forall|k: int| p <= k < old_out.len() implies !item_lt2(old_out[k], e) by {
                if k > p {
                    lemma_item_le2_trans(e, old_out[p as int], old_out[k]);
                }
            }
        }
        out.insert(p, e);
        proof {
            assert(out@ =~= old_out.insert(p as int, e));
            lemma_insert_to_multiset(old_out, p as int, e);
            assert(idxs_of(out@) =~= idxs_of(old_out).insert(p as int, e.index as int));
            lemma_insert_to_multiset(idxs_of(old_out), p as int, e.index as int);
            assert forall|j1: int, j2: int| 0 <= j1 < j2 < out@.len() implies !item_lt2(
                #[trigger] out@[j2],
                #[trigger] out@[j1],
            ) by {
                if j1 < p && j2 < p {
                } else if j1 > p && j2 > p {
                    assert(out@[j1] == old_out[j1 - 1]);
                    assert(out@[j2] == old_out[j2 - 1]);
                } else if j2 == p {
                    assert(out@[j1] == old_out[j1]);
                } else if j1 == p {
                    assert(out@[j2] == old_out[j2 - 1]);
                } else {
                    assert(out@[j1] == old_out[j1]);
                    assert(out@[j2] == old_out[j2 - 1]);
                }
            }
        }
    }
    proof {
        assert(rest@.to_multiset() =~= Multiset::<RankedItem<'a, T>>::empty()) by {
            rest@.to_multiset_ensures();
        }
        assert(idxs_of(rest@) =~= Seq::<int>::empty());
        assert(idxs_of(rest@).to_multiset() =~= Multiset::<int>::empty()) by {
            idxs_of(rest@).to_multiset_ensures();
        }
        assert(out@.to_multiset() =~= orig.to_multiset());
        assert(idxs_of(out@).to_multiset() =~= idxs_of(orig).to_multiset());
    }
    out
}

} // verus!
