//! Ranking tiers and scoring logic for string matching.
//!
//! This module implements the eight-tier ranking system that determines how
//! well a candidate string matches a search query, from exact case-sensitive
//! equality down to a greedy fuzzy character-by-character match.

use vstd::prelude::*;
use crate::text::{
    char_lower, chars_eq, chars_of, chars_to_string, contains_seq, find_first,
    find_word_boundary, lex_lt, lower1, lower_seq, lower_string, match_at, occurs_at,
    str_lower, strip_diacritics, strip_marks, word_boundary_match,
};
use std::borrow::Cow;

verus! {

broadcast use vstd::string::group_string_axioms;

/// How well a candidate string matches a query.
///
/// The eight tiers, from best to worst:
///
/// | Tier                 | Value | Description                                   |
/// |----------------------|-------|-----------------------------------------------|
/// | `CaseSensitiveEqual` | 7     | Exact match, character for character          |
/// | `Equal`              | 6     | Case-insensitive full match                   |
/// | `StartsWith`         | 5     | Candidate starts with query (case-insensitive)|
/// | `WordStartsWith`     | 4     | A word in the candidate starts with query     |
/// | `Contains`           | 3     | Candidate contains query as substring         |
/// | `Acronym`            | 2     | Query matches the candidate's acronym         |
/// | `Matches(d)`         | 1..2  | Greedy in-order fuzzy match                   |
/// | `NoMatch`            | 0     | No match found                                |
///
/// # The `Matches` payload
///
/// A fuzzy match's quality is its sub-score `1.0 + 1.0 / d`, where `d`
/// is the *spread* — the distance, in character positions, between the
/// first and last matched query characters — except that a spread of
/// zero (a single-character or empty query) yields the maximal
/// sub-score `2.0`, the same score as a spread of one.  `Matches(d)`
/// carries the denominator `d` directly: the scorer emits the spread,
/// with zero replaced by one, so that `Matches(a)` and `Matches(b)` are
/// equal exactly when their sub-scores are, `Matches(a)` outranks
/// `Matches(b)` exactly when `a < b`, every comparison is total, and
/// even the tightest fuzzy match (`Matches(1)`, sub-score `2.0`) never
/// outranks `Acronym`.
#[derive(Clone, Copy, Debug, PartialEq, Eq, Hash, Structural)]
pub enum Ranking {
    /// Exact match, character for character (tier 7).
    CaseSensitiveEqual,
    /// Case-insensitive full match (tier 6).
    Equal,
    /// Candidate starts with the query, case-insensitively (tier 5).
    StartsWith,
    /// A word boundary within the candidate starts with the query (tier 4).
    WordStartsWith,
    /// Candidate contains the query as a substring (tier 3).
    Contains,
    /// Query matches the candidate's acronym (tier 2).
    Acronym,
    /// Greedy in-order fuzzy character match with sub-score
    /// `1.0 + 1.0 / d` for the carried denominator `d`; smaller `d` is
    /// better (tier 1..2).
    Matches(usize),
    /// No match found (tier 0).
    NoMatch,
}

/// The integer tier of a ranking.  A fuzzy `Matches` value has base tier 1
/// whatever its spread, so every fixed tier above it outranks it.
pub open spec fn tier(r: Ranking) -> int {
    match r {
        Ranking::CaseSensitiveEqual => 7,
        Ranking::Equal => 6,
        Ranking::StartsWith => 5,
        Ranking::WordStartsWith => 4,
        Ranking::Contains => 3,
        Ranking::Acronym => 2,
        Ranking::Matches(_) => 1,
        Ranking::NoMatch => 0,
    }
}

/// Strict order on rankings: `a` is a strictly worse match than `b`.
/// Two fuzzy matches compare by their denominators — the larger one
/// (the lower sub-score) loses; any other pair compares by tier.
pub open spec fn rank_lt(a: Ranking, b: Ranking) -> bool {
    match (a, b) {
        (Ranking::Matches(sa), Ranking::Matches(sb)) => sb < sa,
        _ => tier(a) < tier(b),
    }
}

/// `a` is at most as good a match as `b`.
pub open spec fn rank_le(a: Ranking, b: Ranking) -> bool {
    rank_lt(a, b) || a == b
}

impl Ranking {
    /// The integer tier of this ranking; `Matches` has base tier 1.
    fn tier_value(&self) -> (r: u8)
        ensures
            r as int == tier(*self),
    {
        match self {
            Ranking::CaseSensitiveEqual => 7,
            Ranking::Equal => 6,
            Ranking::StartsWith => 5,
            Ranking::WordStartsWith => 4,
            Ranking::Contains => 3,
            Ranking::Acronym => 2,
            Ranking::Matches(_) => 1,
            Ranking::NoMatch => 0,
        }
    }

    /// Three-way comparison in match quality: `Less` means `self` is the
    /// worse match.
    pub fn cmp_rank(&self, other: &Ranking) -> (r: core::cmp::Ordering)
        ensures
            r is Less <==> rank_lt(*self, *other),
            r is Equal <==> *self == *other,
            r is Greater <==> rank_lt(*other, *self),
    {
        match (self, other) {
            (Ranking::Matches(sa), Ranking::Matches(sb)) => {
                if *sa == *sb {
                    core::cmp::Ordering::Equal
                } else if *sb < *sa {
                    core::cmp::Ordering::Less
                } else {
                    core::cmp::Ordering::Greater
                }
            },
            _ => {
                let ta = self.tier_value();
                let tb = other.tier_value();
                if ta == tb {
                    proof {
                        lemma_same_tier_not_matches_eq(*self, *other);
                    }
                    core::cmp::Ordering::Equal
                } else if ta < tb {
                    core::cmp::Ordering::Less
                } else {
                    core::cmp::Ordering::Greater
                }
            },
        }
    }

    /// Whether `self` is at least as good a match as `other`.
    pub fn at_least(&self, other: &Ranking) -> (r: bool)
        ensures
            r == rank_le(*other, *self),
    {
        match self.cmp_rank(other) {
            core::cmp::Ordering::Less => false,
            _ => true,
        }
    }
}

/// Two rankings of the same tier are equal unless both are fuzzy matches.
proof fn lemma_same_tier_not_matches_eq(a: Ranking, b: Ranking)
    requires
        tier(a) == tier(b),
        !(a is Matches && b is Matches),
    ensures
        a == b,
{
}

impl PartialOrd for Ranking {
    fn partial_cmp(&self, other: &Self) -> (r: Option<core::cmp::Ordering>) {
        Some(self.cmp_rank(other))
    }
}

impl vstd::std_specs::cmp::PartialOrdSpecImpl for Ranking {
    open spec fn obeys_partial_cmp_spec() -> bool {
        true
    }

    open spec fn partial_cmp_spec(&self, other: &Self) -> Option<core::cmp::Ordering> {
        if *self == *other {
            Some(core::cmp::Ordering::Equal)
        } else if rank_lt(*self, *other) {
            Some(core::cmp::Ordering::Less)
        } else {
            Some(core::cmp::Ordering::Greater)
        }
    }
}

/// The ranking order is a strict total order: irreflexive, transitive,
/// and any two distinct rankings are ordered exactly one way.
pub proof fn lemma_rank_order_strict_total(a: Ranking, b: Ranking, c: Ranking)
    ensures
        !rank_lt(a, a),
        a != b ==> (rank_lt(a, b) <==> !rank_lt(b, a)),
        rank_lt(a, b) && rank_lt(b, c) ==> rank_lt(a, c),
        rank_le(a, b) && rank_le(b, a) ==> a == b,
        rank_le(a, b) && rank_le(b, c) ==> rank_le(a, c),
{
}

/// The tiers stand in strictly descending order of match quality, with
/// the tightest fuzzy match (`Matches(1)`, sub-score `2.0`) below
/// `Acronym`, a looser fuzzy match below a tighter one, and every fuzzy
/// match above `NoMatch`.
pub proof fn lemma_rank_tier_chain(tight: usize, loose: usize)
    requires
        tight < loose,
    ensures
        rank_lt(Ranking::Equal, Ranking::CaseSensitiveEqual),
        rank_lt(Ranking::StartsWith, Ranking::Equal),
        rank_lt(Ranking::WordStartsWith, Ranking::StartsWith),
        rank_lt(Ranking::Contains, Ranking::WordStartsWith),
        rank_lt(Ranking::Acronym, Ranking::Contains),
        rank_lt(Ranking::Matches(1), Ranking::Acronym),
        rank_lt(Ranking::Matches(loose), Ranking::Matches(tight)),
        rank_lt(Ranking::NoMatch, Ranking::Matches(loose)),
{
}

/// Whether `c` separates words when an acronym is formed: only the space
/// and the hyphen count.
pub open spec fn is_delim(c: char) -> bool {
    c == ' ' || c == '-'
}

/// Returns whether `c` is an acronym word-boundary delimiter.
///
/// Only space (`' '`) and hyphen (`'-'`) are recognized as delimiters;
/// underscores and other punctuation are not.
pub fn is_acronym_delimiter(c: char) -> (r: bool)
    ensures
        r == is_delim(c),
{
    c == ' ' || c == '-'
}

/// The word-initial characters of `s` from position `i` on: every
/// character that follows a delimiter and is not itself a delimiter.
pub open spec fn acronym_rest(s: Seq<char>, i: int) -> Seq<char>
    decreases s.len() - i,
{
    if i < 1 || i >= s.len() {
        Seq::<char>::empty()
    } else if is_delim(s[i - 1]) && !is_delim(s[i]) {
        seq![s[i]] + acronym_rest(s, i + 1)
    } else {
        acronym_rest(s, i + 1)
    }
}

/// The acronym of `s`: its first character, then every character that
/// immediately follows a run of delimiters.
pub open spec fn acronym_seq(s: Seq<char>) -> Seq<char> {
    if s.len() == 0 {
        Seq::<char>::empty()
    } else {
        seq![s[0]] + acronym_rest(s, 1)
    }
}

/// Collect the acronym characters of `s`.
fn acronym_chars(s: &Vec<char>) -> (r: Vec<char>)
    ensures
        r@ == acronym_seq(s@),
{
    let mut r: Vec<char> = Vec::new();
    if s.len() == 0 {
        proof {
            assert(r@ =~= acronym_seq(s@));
        }
        return r;
    }
    r.push(s[0]);
    let mut i: usize = 1;
    while i < s.len()
        invariant
            1 <= i,
            s@.len() > 0,
            acronym_seq(s@) == r@ + acronym_rest(s@, i as int),
        decreases s.len() - i,
    {
        if is_acronym_delimiter(s[i - 1]) && !is_acronym_delimiter(s[i]) {
            r.push(s[i]);
            proof {
                assert(acronym_seq(s@) =~= r@ + acronym_rest(s@, i + 1 as int));
            }
        } else {
            proof {
                assert(acronym_seq(s@) =~= r@ + acronym_rest(s@, i + 1 as int));
            }
        }
        i += 1;
    }
    proof {
        assert(acronym_rest(s@, i as int) =~= Seq::<char>::empty());
        assert(r@ =~= acronym_seq(s@));
    }
    r
}

/// Extract the acronym from a string by collecting word-initial characters.
///
/// Word boundaries are space (`' '`) and hyphen (`'-'`) only.  The first
/// character is always included; a later character is included when the
/// previous character was a delimiter and the character itself is not.
/// Consecutive delimiters collapse, and an empty input yields an empty
/// acronym.  The caller is responsible for lowercasing the input first if
/// a case-insensitive acronym is wanted.
pub fn get_acronym(s: &str) -> (r: String)
    ensures
        r@ == acronym_seq(s@),
{
    let cs = chars_of(s);
    let acr = acronym_chars(&cs);
    chars_to_string(&acr)
}

/// The first position at or after `from` where `c` occurs in `s`, if any.
pub open spec fn find_from(s: Seq<char>, from: int, c: char) -> Option<int>
    decreases s.len() - from,
{
    if from < 0 || from >= s.len() {
        None
    } else if s[from] == c {
        Some(from)
    } else {
        find_from(s, from + 1, c)
    }
}

/// The greedy fuzzy scan, as described for the closeness scorer: the
/// remaining query characters are looked up in order, each search starting
/// just past the previous match.  `from` is the next search position,
/// `first` the position of the first match so far (if any), `last` the
/// position of the latest match.  When the query is exhausted the result
/// is `Matches(d)` with `d` the distance between the first and last
/// matched positions — or `1` when that distance is zero, since both
/// carry the maximal sub-score `2.0`; a character that cannot be found
/// yields `NoMatch`.
pub open spec fn closeness_scan(
    cand: Seq<char>,
    q: Seq<char>,
    from: int,
    first: Option<int>,
    last: int,
) -> Ranking
    decreases q.len(),
{
    if q.len() == 0 {
        let f = match first {
            Some(x) => x,
            None => 0,
        };
        if last - f <= 1 {
            Ranking::Matches(1)
        } else {
            Ranking::Matches((last - f) as usize)
        }
    } else {
        match find_from(cand, from, q[0]) {
            None => Ranking::NoMatch,
            Some(p) => closeness_scan(
                cand,
                q.drop_first(),
                p + 1,
                Some(match first {
                    Some(x) => x,
                    None => p,
                }),
                p,
            ),
        }
    }
}

/// The closeness ranking of `q` against `cand`: the greedy scan started
/// from the beginning with no match recorded yet.
pub open spec fn closeness_rank(cand: Seq<char>, q: Seq<char>) -> Ranking {
    closeness_scan(cand, q, 0, None::<int>, 0)
}

/// Find the first position at or after `from` where `c` occurs in `s`.
fn scan_char_from(s: &Vec<char>, from: usize, c: char) -> (r: Option<usize>)
    requires
        from <= s@.len(),
    ensures
        match r {
            Some(p) => find_from(s@, from as int, c) == Some(p as int) && from <= p < s@.len(),
            None => find_from(s@, from as int, c) is None,
        },
{
    let mut j: usize = from;
    while j < s.len()
        invariant
            from <= j <= s.len(),
            find_from(s@, from as int, c) == find_from(s@, j as int, c),
        decreases s.len() - j,
    {
        if s[j] == c {
            return Some(j);
        }
        j += 1;
    }
    None
}

/// Compute the fuzzy closeness ranking of `q` against `cand` by the
/// greedy forward scan.
fn closeness_chars(cand: &Vec<char>, q: &Vec<char>) -> (r: Ranking)
    ensures
        r == closeness_rank(cand@, q@),
        r is Matches || r is NoMatch,
{
    let ghost whole: Seq<char> = q@;
    let mut qi: usize = 0;
    let mut from: usize = 0;
    let mut first: Option<usize> = None;
    let mut last: usize = 0;
    proof {
        assert(q@.subrange(0, q@.len() as int) =~= q@);
    }
    while qi < q.len()
        invariant
            qi <= q.len(),
            from <= cand.len(),
            match first {
                Some(x) => x <= last < cand.len() && last < from,
                None => last == 0 && from == 0,
            },
            closeness_rank(cand@, q@) == closeness_scan(
                cand@,
                q@.subrange(qi as int, q@.len() as int),
                from as int,
                match first {
                    Some(x) => Some(x as int),
                    None => None::<int>,
                },
                last as int,
            ),
        decreases q.len() - qi,
    {
        let qc = q[qi];
        proof {
            assert(q@.subrange(qi as int, q@.len() as int)[0] == qc);
            assert(q@.subrange(qi as int, q@.len() as int).drop_first() =~= q@.subrange(
                qi + 1 as int,
                q@.len() as int,
            ));
        }
        match scan_char_from(cand, from, qc) {
            None => {
                return Ranking::NoMatch;
            },
            Some(p) => {
                if first.is_none() {
                    first = Some(p);
                }
                last = p;
                from = p + 1;
                qi += 1;
            },
        }
    }
    proof {
        assert(q@.subrange(qi as int, q@.len() as int) =~= Seq::<char>::empty());
    }
    let f = match first {
        Some(x) => x,
        None => 0,
    };
    if last - f <= 1 {
        Ranking::Matches(1)
    } else {
        Ranking::Matches(last - f)
    }
}

/// Compute a fuzzy closeness ranking via greedy forward character matching.
///
/// For each character of `query`, scans forward through `candidate` to
/// find it, each search starting just after the previous match.  If every
/// query character is found in order, the ranking is `Matches(d)` where
/// `d` is the character-position distance between the first and last
/// matches — the spread — with a spread of zero (a single-character or
/// empty query) reported as `Matches(1)`, the same maximal sub-score
/// `2.0` that a spread of one earns.  If any character cannot be found,
/// the ranking is `NoMatch`.  Matching is case-sensitive: lowercase both
/// inputs first for a case-insensitive fuzzy match.
pub fn get_closeness_ranking(candidate: &str, query: &str) -> (r: Ranking)
    ensures
        r == closeness_rank(candidate@, query@),
        r is Matches || r is NoMatch,
{
    let cs = chars_of(candidate);
    let qs = chars_of(query);
    closeness_chars(&cs, &qs)
}

/// The comparison form of `s`: unchanged when diacritics are kept,
/// otherwise the diacritics-stripped form.
pub open spec fn prepared(s: Seq<char>, keep_diacritics: bool) -> Seq<char> {
    if keep_diacritics {
        s
    } else {
        strip_marks(s)
    }
}

/// Prepare a string for comparison by optionally stripping diacritics.
///
/// When `keep_diacritics` is `false`, applies canonical (NFD)
/// decomposition and removes all combining marks, so that for instance a
/// precomposed e-acute and a plain `e` followed by a combining acute both
/// become `e`.  When `keep_diacritics` is `true` the input is returned
/// unchanged.  The result is borrowed whenever no characters were
/// removed; a new string is allocated only when stripping changed
/// something.
pub fn prepare_value_for_comparison<'a>(s: &'a str, keep_diacritics: bool) -> (r: Cow<'a, str>)
    ensures
        r@ == prepared(s@, keep_diacritics),
        (r is Borrowed) == (keep_diacritics || strip_marks(s@) == s@),
{
    if keep_diacritics {
        return Cow::Borrowed(s);
    }
    let stripped = strip_diacritics(s);
    let sc = chars_of(s);
    let tc = chars_of(stripped.as_str());
    if chars_eq(&sc, &tc) {
        Cow::Borrowed(s)
    } else {
        Cow::Owned(stripped)
    }
}

/// Replace the contents of `buf` with the lowercase mapping of `src`.
fn lowercase_chars_into(src: &Vec<char>, buf: &mut Vec<char>)
    ensures
        final(buf)@ == lower_seq(src@),
{
    buf.clear();
    let mut i: usize = 0;
    while i < src.len()
        invariant
            i <= src.len(),
            buf@ == lower_seq(src@.subrange(0, i as int)),
        decreases src.len() - i,
    {
        let mut cl = char_lower(src[i]);
        buf.append(&mut cl);
        proof {
            assert(src@.subrange(0, i + 1 as int).drop_last() =~= src@.subrange(0, i as int));
            assert(src@.subrange(0, i + 1 as int).last() == src@[i as int]);
        }
        i += 1;
    }
    proof {
        assert(src@.subrange(0, src@.len() as int) =~= src@);
    }
}

/// Lowercase `s` into `buf`, reusing the buffer's allocation.
///
/// Each character is replaced by its `char::to_lowercase` expansion, in
/// order; whatever `buf` held before is discarded.
pub fn lowercase_into(s: &str, buf: &mut String)
    ensures
        final(buf)@ == lower_seq(s@),
{
    let cs = chars_of(s);
    let mut out: Vec<char> = Vec::new();
    lowercase_chars_into(&cs, &mut out);
    *buf = chars_to_string(&out);
}

/// Pre-computed query data for amortizing repeated per-item ranking calls.
///
/// Holds the prepared (diacritics-stripped) query, its lowercase mapping,
/// and the prepared character count, so that ranking many candidates
/// against one query prepares the query only once.
pub struct PreparedQuery {
    /// The query after optional diacritics stripping.
    prepared: Vec<char>,
    /// Lowercase mapping of the prepared query.
    lower: Vec<char>,
    /// Character count of the prepared query.
    char_count: usize,
    /// The query this was built from.
    query: Ghost<Seq<char>>,
    /// Whether diacritics were kept.
    keep: Ghost<bool>,
}

impl PreparedQuery {
    /// The query this value was built from.
    pub closed spec fn query(self) -> Seq<char> {
        self.query@
    }

    /// Whether diacritics were kept when this value was built.
    pub closed spec fn keep_diacritics(self) -> bool {
        self.keep@
    }

    /// The fields hold the prepared query, its whole-string lowercase
    /// mapping, and its character count.
    pub closed spec fn wf(self) -> bool {
        &&& self.prepared@ == prepared(self.query@, self.keep@)
        &&& self.lower@ == lower_string(self.prepared@)
        &&& self.char_count == self.prepared@.len()
    }

    /// Prepare and lowercase the query once, before the ranking loop.
    pub fn new(query: &str, keep_diacritics: bool) -> (pq: Self)
        ensures
            pq.wf(),
            pq.query() == query@,
            pq.keep_diacritics() == keep_diacritics,
    {
        let prepared_cow = prepare_value_for_comparison(query, keep_diacritics);
        let lowered = match &prepared_cow {
            Cow::Borrowed(p) => str_lower(p),
            Cow::Owned(p) => str_lower(p.as_str()),
        };
        let lower = chars_of(lowered.as_str());
        let prepared_chars = match &prepared_cow {
            Cow::Borrowed(p) => chars_of(p),
            Cow::Owned(p) => chars_of(p.as_str()),
        };
        let char_count = prepared_chars.len();
        PreparedQuery {
            prepared: prepared_chars,
            lower,
            char_count,
            query: Ghost(query@),
            keep: Ghost(keep_diacritics),
        }
    }
}

/// The eleven-step match classification of `q` against `cand`, checked in
/// descending order of specificity:
///
/// 1. both sides are prepared (diacritics optionally stripped);
/// 2. a query with more characters than the candidate cannot match;
/// 3. identical prepared strings are a case-sensitive exact match;
/// 4. both sides are lowercased — the candidate character by character,
///    the query as a whole string;
/// 5. the lowercased query is searched for in the lowercased candidate;
/// 6. found at position 0 with equal lengths: a case-insensitive match;
/// 7. found at position 0 otherwise: the candidate starts with the query;
/// 8. found only later: a word start if some occurrence follows a space,
///    else a plain substring match;
/// 9. a single-character query that is not a substring never matches;
/// 10. a query contained in the candidate's acronym is an acronym match;
/// 11. anything else falls through to the fuzzy closeness scan.
pub open spec fn match_rank(cand: Seq<char>, q: Seq<char>, keep_diacritics: bool) -> Ranking {
    let c0 = prepared(cand, keep_diacritics);
    let q0 = prepared(q, keep_diacritics);
    if q0.len() > c0.len() {
        Ranking::NoMatch
    } else if c0 == q0 {
        Ranking::CaseSensitiveEqual
    } else {
        let cl = lower_seq(c0);
        let ql = lower_string(q0);
        if contains_seq(cl, ql) {
            if occurs_at(cl, ql, 0) {
                if cl.len() == ql.len() {
                    Ranking::Equal
                } else {
                    Ranking::StartsWith
                }
            } else if word_boundary_match(cl, ql) {
                Ranking::WordStartsWith
            } else {
                Ranking::Contains
            }
        } else if q0.len() == 1 {
            Ranking::NoMatch
        } else if contains_seq(acronym_seq(cl), ql) {
            Ranking::Acronym
        } else {
            closeness_rank(cl, ql)
        }
    }
}

/// Inner hot-path ranking function using pre-prepared query data and a
/// reusable candidate buffer, so that ranking many candidates against the
/// same query neither re-prepares the query nor allocates per candidate.
pub(crate) fn get_match_ranking_prepared(
    test_string: &str,
    pq: &PreparedQuery,
    keep_diacritics: bool,
    candidate_buf: &mut Vec<char>,
) -> (r: Ranking)
    requires
        pq.wf(),
        pq.keep_diacritics() == keep_diacritics,
    ensures
        r == match_rank(test_string@, pq.query(), keep_diacritics),
{
    let candidate = prepare_value_for_comparison(test_string, keep_diacritics);
    let cand_chars = match &candidate {
        Cow::Borrowed(p) => chars_of(p),
        Cow::Owned(p) => chars_of(p.as_str()),
    };
    if pq.char_count > cand_chars.len() {
        return Ranking::NoMatch;
    }
    if chars_eq(&cand_chars, &pq.prepared) {
        return Ranking::CaseSensitiveEqual;
    }
    lowercase_chars_into(&cand_chars, candidate_buf);
    match find_first(candidate_buf, &pq.lower) {
        Some(i) => {
            if i == 0 {
                if candidate_buf.len() == pq.lower.len() {
                    return Ranking::Equal;
                }
                return Ranking::StartsWith;
            }
            proof {
                assert(pq.lower@.len() > 0) by {
                    if pq.lower@.len() == 0 {
                        assert(candidate_buf@.subrange(0, 0) =~= pq.lower@);
                        assert(occurs_at(candidate_buf@, pq.lower@, 0));
                    }
                }
            }
            if find_word_boundary(candidate_buf, &pq.lower) {
                return Ranking::WordStartsWith;
            }
            return Ranking::Contains;
        },
        None => {
            if pq.char_count == 1 {
                return Ranking::NoMatch;
            }
            let acr = acronym_chars(candidate_buf);
            if find_first(&acr, &pq.lower).is_some() {
                return Ranking::Acronym;
            }
            closeness_chars(candidate_buf, &pq.lower)
        },
    }
}

/// Determine how well a candidate string matches a search query.
///
/// Both inputs are first prepared (diacritics optionally stripped), then
/// classified by the eleven-step procedure of [`match_rank`]: exact
/// match, case-insensitive match, prefix, word start, substring, acronym,
/// and finally the greedy fuzzy scan.  The first tier that applies is
/// returned.
pub fn get_match_ranking(test_string: &str, string_to_rank: &str, keep_diacritics: bool) -> (r:
    Ranking)
    ensures
        r == match_rank(test_string@, string_to_rank@, keep_diacritics),
{
    let pq = PreparedQuery::new(string_to_rank, keep_diacritics);
    let mut candidate_buf: Vec<char> = Vec::new();
    get_match_ranking_prepared(test_string, &pq, keep_diacritics, &mut candidate_buf)
}

/// The rank a key contributes for a raw match rank `r`: clamped down to
/// the key's ceiling `max`, then — unless the result is `NoMatch` —
/// promoted up to the key's floor `min`.  `NoMatch` is never promoted.
pub open spec fn clamp_rank(r: Ranking, min: Ranking, max: Ranking) -> Ranking {
    let capped = if rank_lt(max, r) {
        max
    } else {
        r
    };
    if rank_lt(capped, min) && capped != Ranking::NoMatch {
        min
    } else {
        capped
    }
}

/// Clamp `r` down to `max`, then promote a non-`NoMatch` result up to
/// `min`.
pub fn clamp_ranking(r: Ranking, min: &Ranking, max: &Ranking) -> (out: Ranking)
    ensures
        out == clamp_rank(r, *min, *max),
{
    let capped = match max.cmp_rank(&r) {
        core::cmp::Ordering::Less => *max,
        _ => r,
    };
    let low = matches!(capped.cmp_rank(min), core::cmp::Ordering::Less);
    if low && !matches!(capped, Ranking::NoMatch) {
        *min
    } else {
        capped
    }
}

/// The lowercase mapping never shortens a string: every character expands
/// to at least one character.
pub proof fn lemma_lower_seq_len(s: Seq<char>)
    ensures
        lower_seq(s).len() >= s.len(),
    decreases s.len(),
{
    if s.len() > 0 {
        lemma_lower_seq_len(s.drop_last());
    }
}

/// A string matched against itself is always a case-sensitive exact
/// match, whether or not diacritics are kept.
pub proof fn lemma_self_match(s: Seq<char>, keep_diacritics: bool)
    ensures
        match_rank(s, s, keep_diacritics) == Ranking::CaseSensitiveEqual,
{
}

/// An empty query matches every candidate: a non-empty prepared candidate
/// starts with it, and an empty one equals it exactly.
pub proof fn lemma_empty_query(cand: Seq<char>, q: Seq<char>, keep_diacritics: bool)
    requires
        q.len() == 0,
    ensures
        prepared(cand, keep_diacritics).len() > 0 ==> match_rank(cand, q, keep_diacritics)
            == Ranking::StartsWith,
        prepared(cand, keep_diacritics).len() == 0 ==> match_rank(cand, q, keep_diacritics)
            == Ranking::CaseSensitiveEqual,
{
    let c0 = prepared(cand, keep_diacritics);
    let q0 = prepared(q, keep_diacritics);
    assert(q0.len() == 0);
    if c0.len() == 0 {
        assert(c0 =~= q0);
    } else {
        assert(c0 != q0) by {
            assert(c0.len() != q0.len());
        }
        let cl = lower_seq(c0);
        let ql = lower_string(q0);
        assert(ql =~= Seq::<char>::empty());
        assert(occurs_at(cl, ql, 0)) by {
            assert(cl.subrange(0, 0) =~= ql);
        }
        assert(contains_seq(cl, ql));
        lemma_lower_seq_len(c0);
        assert(cl.len() != ql.len());
    }
}

/// A query whose prepared form has more characters than the prepared
/// candidate never matches.
pub proof fn lemma_longer_query_no_match(cand: Seq<char>, q: Seq<char>, keep_diacritics: bool)
    requires
        prepared(q, keep_diacritics).len() > prepared(cand, keep_diacritics).len(),
    ensures
        match_rank(cand, q, keep_diacritics) == Ranking::NoMatch,
{
}

/// With diacritics kept, a query with more characters than the candidate
/// never matches.  (With stripping, the comparison is made on the
/// stripped forms instead, so a raw length gap alone decides nothing.)
pub proof fn lemma_longer_query_no_match_kept(cand: Seq<char>, q: Seq<char>)
    requires
        q.len() > cand.len(),
    ensures
        match_rank(cand, q, true) == Ranking::NoMatch,
{
}

} // verus!
