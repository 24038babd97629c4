//! Character-level text utilities shared by the ranking engine.
//!
//! All reasoning in this crate is done over sequences of Unicode scalar
//! values (`Seq<char>`).  This module provides the bridge between `str` /
//! `String` and `Vec<char>`, the lexicographic comparison used by the
//! default tiebreaker, substring search, and the Unicode operations the
//! engine takes from outside code: canonical decomposition with
//! combining marks removed, per-character lowercasing, and whole-string
//! lowercasing.

use vstd::prelude::*;
use vstd::std_specs::iter::IteratorSpec;
use unicode_normalization::UnicodeNormalization;
use unicode_normalization::char::is_combining_mark;

verus! {

broadcast use vstd::string::group_string_axioms;

/// What `unicode_normalization`'s canonical decomposition followed by
/// removal of combining marks yields for a given character sequence.
/// The tables behind it depend on the input characters alone.
pub uninterp spec fn stripped_marks(s: Seq<char>) -> Seq<char>;

/// The diacritics-stripped form of `s`: canonical (NFD) decomposition with
/// every combining mark removed.  The empty string trivially stays empty;
/// folding that case into the definition keeps it available to proofs.
pub open spec fn strip_marks(s: Seq<char>) -> Seq<char> {
    if s.len() == 0 {
        Seq::<char>::empty()
    } else {
        stripped_marks(s)
    }
}

/// What `char::to_lowercase` yields for a given character.
pub uninterp spec fn char_lowercase(c: char) -> Seq<char>;

/// The lowercase mapping of one character.  `char::to_lowercase` is
/// documented to yield one or more characters, so the guard below never
/// fires at run time; it only makes the lower bound on the length
/// available to proofs.
pub open spec fn lower1(c: char) -> Seq<char> {
    if char_lowercase(c).len() == 0 {
        seq![c]
    } else {
        char_lowercase(c)
    }
}

/// The lowercase mapping of a character sequence: each character replaced
/// by its `lower1` expansion, in order.
pub open spec fn lower_seq(s: Seq<char>) -> Seq<char>
    decreases s.len(),
{
    if s.len() == 0 {
        Seq::<char>::empty()
    } else {
        lower_seq(s.drop_last()) + lower1(s.last())
    }
}

/// Relies on `unicode_normalization`: `nfd` performs canonical (NFD)
/// decomposition and `is_combining_mark` recognises characters with
/// `General_Category = Mark`; both are table lookups that depend on the
/// input characters alone, and an empty input decomposes to nothing.
#[verifier::external_body]
pub(crate) fn strip_diacritics(s: &str) -> (r: String)
    ensures
        r@ == strip_marks(s@),
        s@.len() > 0 ==> r@ == stripped_marks(s@),
{
    s.nfd().filter(|c| !is_combining_mark(*c)).collect()
}

/// Relies on `char::to_lowercase`, whose result depends on the character
/// alone and is documented to yield one or more characters.
#[verifier::external_body]
pub(crate) fn char_lower(c: char) -> (r: Vec<char>)
    ensures
        r@ == lower1(c),
        r@ == char_lowercase(c),
{
    c.to_lowercase().collect()
}

/// What `str::to_lowercase` yields for a given character sequence.
pub uninterp spec fn string_lowercased(s: Seq<char>) -> Seq<char>;

/// The lowercase mapping of a whole string, as `str::to_lowercase`
/// performs it: like the per-character mapping, except that it knows
/// word ends (a Greek capital sigma at the end of a word lowers to its
/// final form).  The empty string trivially stays empty; folding that
/// case into the definition keeps it available to proofs.
pub open spec fn lower_string(s: Seq<char>) -> Seq<char> {
    if s.len() == 0 {
        Seq::<char>::empty()
    } else {
        string_lowercased(s)
    }
}

/// Relies on `str::to_lowercase`, whose result depends on the input
/// characters alone; an empty string lowercases to itself.
#[verifier::external_body]
pub(crate) fn str_lower(s: &str) -> (r: String)
    ensures
        r@ == lower_string(s@),
        s@.len() > 0 ==> r@ == string_lowercased(s@),
{
    s.to_lowercase()
}

/// Relies on `String`'s `FromIterator<char>` implementation: collecting
/// characters yields the string with exactly those characters in order.
#[verifier::external_body]
pub(crate) fn chars_to_string(v: &Vec<char>) -> (r: String)
    ensures
        r@ == v@,
{
    v.iter().collect()
}

/// Relies on `Cow::clone`, which clones the borrowed or owned content;
/// nothing is assumed of the result.
pub assume_specification<'a, B>[ <std::borrow::Cow<'a, B> as Clone>::clone ](
    c: &std::borrow::Cow<'a, B>,
) -> std::borrow::Cow<'a, B>
    where
        B: std::marker::MetaSized + std::borrow::ToOwned + ?Sized,
;

/// Collect the characters of `s` into a vector, in order.
pub fn chars_of(s: &str) -> (r: Vec<char>)
    ensures
        r@ == s@,
{
    let mut r: Vec<char> = Vec::new();
    for c in it: s.chars()
        invariant
            it.seq() == s@,
            r@ == s@.subrange(0, it.index() as int),
    {
        r.push(c);
        proof {
            assert(r@ =~= s@.subrange(0, it.index() + 1 as int));
        }
    }
    proof {
        assert(r@ =~= s@);
    }
    r
}

/// Whether the two character vectors hold the same characters.
pub fn chars_eq(a: &Vec<char>, b: &Vec<char>) -> (r: bool)
    ensures
        r == (a@ == b@),
{
    if a.len() != b.len() {
        return false;
    }
    let mut i: usize = 0;
    while i < a.len()
        invariant
            a.len() == b.len(),
            i <= a.len(),
            forall|j: int| 0 <= j < i ==> a@[j] == b@[j],
        decreases a.len() - i,
    {
        if a[i] != b[i] {
            return false;
        }
        i += 1;
    }
    proof {
        assert(a@ =~= b@);
    }
    true
}

/// Strict lexicographic order on character sequences, by Unicode scalar
/// value.  Because UTF-8 preserves scalar-value order byte for byte, this
/// is the same order as byte-wise comparison of the encoded strings.
pub open spec fn lex_lt(a: Seq<char>, b: Seq<char>) -> bool
    decreases a.len(),
{
    if b.len() == 0 {
        false
    } else if a.len() == 0 {
        true
    } else if a[0] != b[0] {
        a[0] < b[0]
    } else {
        lex_lt(a.drop_first(), b.drop_first())
    }
}

/// `lex_lt` restricted to the suffixes of `a` and `b` from `i` on, given
/// equal prefixes, matches the whole comparison.
proof fn lemma_lex_lt_suffix(a: Seq<char>, b: Seq<char>, i: int)
    requires
        0 <= i <= a.len(),
        i <= b.len(),
        a.subrange(0, i) == b.subrange(0, i),
    ensures
        lex_lt(a, b) == lex_lt(a.subrange(i, a.len() as int), b.subrange(i, b.len() as int)),
    decreases i,
{
    if i == 0 {
        assert(a.subrange(0, a.len() as int) =~= a);
        assert(b.subrange(0, b.len() as int) =~= b);
    } else {
        assert(a.subrange(0, i)[0] == a[0]);
        assert(b.subrange(0, i)[0] == b[0]);
        assert(a[0] == b[0]);
        assert(a.len() > 0 && b.len() > 0);
        assert(a.drop_first().subrange(0, i - 1) =~= a.subrange(0, i).drop_first());
        assert(b.drop_first().subrange(0, i - 1) =~= b.subrange(0, i).drop_first());
        lemma_lex_lt_suffix(a.drop_first(), b.drop_first(), i - 1);
        assert(a.drop_first().subrange(i - 1, a.drop_first().len() as int) =~= a.subrange(
            i,
            a.len() as int,
        ));
        assert(b.drop_first().subrange(i - 1, b.drop_first().len() as int) =~= b.subrange(
            i,
            b.len() as int,
        ));
    }
}

/// The lexicographic order is irreflexive.
pub proof fn lemma_lex_lt_irreflexive(a: Seq<char>)
    ensures
        !lex_lt(a, a),
    decreases a.len(),
{
    if a.len() > 0 {
        lemma_lex_lt_irreflexive(a.drop_first());
    }
}

/// Any two distinct sequences are ordered exactly one way.
pub proof fn lemma_lex_lt_connected(a: Seq<char>, b: Seq<char>)
    requires
        a != b,
    ensures
        lex_lt(a, b) <==> !lex_lt(b, a),
    decreases a.len(),
{
    if a.len() == 0 && b.len() == 0 {
        assert(a =~= b);
    } else if a.len() == 0 || b.len() == 0 {
    } else if a[0] != b[0] {
    } else {
        assert(a.drop_first() != b.drop_first()) by {
            if a.drop_first() == b.drop_first() {
                assert(a =~= seq![a[0]] + a.drop_first());
                assert(b =~= seq![b[0]] + b.drop_first());
            }
        }
        lemma_lex_lt_connected(a.drop_first(), b.drop_first());
    }
}

/// The lexicographic order is transitive.
pub proof fn lemma_lex_lt_transitive(a: Seq<char>, b: Seq<char>, c: Seq<char>)
    requires
        lex_lt(a, b),
        lex_lt(b, c),
    ensures
        lex_lt(a, c),
    decreases a.len(),
{
    if a.len() == 0 || b.len() == 0 || c.len() == 0 {
    } else if a[0] == b[0] && b[0] == c[0] {
        lemma_lex_lt_transitive(a.drop_first(), b.drop_first(), c.drop_first());
    }
}

/// The lexicographic order is a strict total order: irreflexive,
/// transitive, and any two distinct sequences are ordered exactly one way.
pub proof fn lemma_lex_lt_strict_total(a: Seq<char>, b: Seq<char>, c: Seq<char>)
    ensures
        !lex_lt(a, a),
        a != b ==> (lex_lt(a, b) <==> !lex_lt(b, a)),
        lex_lt(a, b) && lex_lt(b, c) ==> lex_lt(a, c),
{
    lemma_lex_lt_irreflexive(a);
    if a != b {
        lemma_lex_lt_connected(a, b);
    }
    if lex_lt(a, b) && lex_lt(b, c) {
        lemma_lex_lt_transitive(a, b, c);
    }
}

/// Three-way lexicographic comparison of two character vectors.
pub fn lex_cmp_chars(a: &Vec<char>, b: &Vec<char>) -> (r: core::cmp::Ordering)
    ensures
        r is Less <==> lex_lt(a@, b@),
        r is Equal <==> a@ == b@,
        r is Greater <==> lex_lt(b@, a@),
{
    proof {
        lemma_lex_lt_strict_total(a@, b@, b@);
        lemma_lex_lt_strict_total(b@, a@, a@);
    }
    let mut i: usize = 0;
    loop
        invariant
            i <= a.len(),
            i <= b.len(),
            a@.subrange(0, i as int) == b@.subrange(0, i as int),
        decreases a.len() - i,
    {
        if i < a.len() && i < b.len() {
            let ca = a[i];
            let cb = b[i];
            if ca != cb {
                proof {
                    lemma_lex_lt_suffix(a@, b@, i as int);
                    lemma_lex_lt_suffix(b@, a@, i as int);
                    assert(b@.subrange(0, i as int) =~= a@.subrange(0, i as int));
                    assert(a@ != b@) by {
                        assert(a@[i as int] != b@[i as int]);
                    }
                }
                if ca < cb {
                    return core::cmp::Ordering::Less;
                } else {
                    return core::cmp::Ordering::Greater;
                }
            }
            proof {
                assert(a@.subrange(0, i + 1 as int) =~= b@.subrange(0, i + 1 as int));
            }
            i += 1;
        } else {
            proof {
                lemma_lex_lt_suffix(a@, b@, i as int);
                lemma_lex_lt_suffix(b@, a@, i as int);
            }
            if a.len() == b.len() {
                proof {
                    assert(a@ =~= a@.subrange(0, i as int));
                    assert(b@ =~= b@.subrange(0, i as int));
                }
                return core::cmp::Ordering::Equal;
            } else if a.len() < b.len() {
                proof {
                    assert(a@ != b@) by {
                        assert(a@.len() != b@.len());
                    }
                }
                return core::cmp::Ordering::Less;
            } else {
                proof {
                    assert(a@ != b@) by {
                        assert(a@.len() != b@.len());
                    }
                }
                return core::cmp::Ordering::Greater;
            }
        }
    }
}

/// Whether `needle` occurs in `hay` starting at position `i`.
pub open spec fn occurs_at(hay: Seq<char>, needle: Seq<char>, i: int) -> bool {
    0 <= i && i + needle.len() <= hay.len() && hay.subrange(i, i + needle.len()) == needle
}

/// Whether `needle` occurs anywhere in `hay`.
pub open spec fn contains_seq(hay: Seq<char>, needle: Seq<char>) -> bool {
    exists|i: int| occurs_at(hay, needle, i)
}

/// Whether `needle` occurs somewhere in `hay` immediately after a space.
pub open spec fn word_boundary_match(hay: Seq<char>, needle: Seq<char>) -> bool {
    exists|i: int| occurs_at(hay, needle, i) && i > 0 && hay[i - 1] == ' '
}

/// Whether `needle` occurs in `hay` at position `i`.
pub fn match_at(hay: &Vec<char>, needle: &Vec<char>, i: usize) -> (r: bool)
    requires
        i + needle@.len() <= hay@.len(),
    ensures
        r == occurs_at(hay@, needle@, i as int),
{
    let mut j: usize = 0;
    while j < needle.len()
        invariant
            i + needle.len() <= hay.len(),
            j <= needle.len(),
            forall|k: int| 0 <= k < j ==> hay@[i + k] == needle@[k],
        decreases needle.len() - j,
    {
        if hay[i + j] != needle[j] {
            proof {
                assert(!occurs_at(hay@, needle@, i as int)) by {
                    if occurs_at(hay@, needle@, i as int) {
                        assert(hay@.subrange(i as int, i + needle@.len())[j as int] == needle@[j as int]);
                    }
                }
            }
            return false;
        }
        j += 1;
    }
    proof {
        assert(hay@.subrange(i as int, i + needle@.len()) =~= needle@);
    }
    true
}

/// Find the first position at which `needle` occurs in `hay`, if any.
/// An empty needle occurs at position 0 of any haystack.
pub fn find_first(hay: &Vec<char>, needle: &Vec<char>) -> (r: Option<usize>)
    ensures
        match r {
            Some(i) => occurs_at(hay@, needle@, i as int) && forall|j: int|
                0 <= j < i ==> !occurs_at(hay@, needle@, j),
            None => !contains_seq(hay@, needle@),
        },
{
    if needle.len() > hay.len() {
        proof {
            assert(!contains_seq(hay@, needle@)) by {
                if contains_seq(hay@, needle@) {
                    let i = choose|i: int| occurs_at(hay@, needle@, i);
                }
            }
        }
        return None;
    }
    if needle.len() == 0 {
        proof {
            assert(hay@.subrange(0, 0) =~= needle@);
        }
        return Some(0);
    }
    let end: usize = hay.len() - needle.len();
    let mut i: usize = 0;
    while i <= end
        invariant
            1 <= needle.len() <= hay.len(),
            end == hay.len() - needle.len(),
            i <= end + 1,
            forall|j: int| 0 <= j < i ==> !occurs_at(hay@, needle@, j),
        decreases end + 1 - i,
    {
        if match_at(hay, needle, i) {
            return Some(i);
        }
        i += 1;
    }
    proof {
        assert(!contains_seq(hay@, needle@)) by {
            if contains_seq(hay@, needle@) {
                let j = choose|j: int| occurs_at(hay@, needle@, j);
                assert(j + needle@.len() <= hay@.len());
                assert(j < i);
            }
        }
    }
    None
}

/// Whether some occurrence of `needle` in `hay` is immediately preceded
/// by a space character.
pub fn find_word_boundary(hay: &Vec<char>, needle: &Vec<char>) -> (r: bool)
    requires
        needle@.len() > 0,
    ensures
        r == word_boundary_match(hay@, needle@),
{
    if needle.len() > hay.len() {
        return false;
    }
    let end: usize = hay.len() - needle.len();
    let mut i: usize = 1;
    while i <= end
        invariant
            1 <= needle.len() <= hay.len(),
            end == hay.len() - needle.len(),
            1 <= i <= end + 1,
            forall|j: int|
                0 < j < i ==> !(occurs_at(hay@, needle@, j) && hay@[j - 1] == ' '),
        decreases end + 1 - i,
    {
        if hay[i - 1] == ' ' && match_at(hay, needle, i) {
            return true;
        }
        i += 1;
    }
    proof {
        assert(!word_boundary_match(hay@, needle@)) by {
            if word_boundary_match(hay@, needle@) {
                let j = choose|j: int| occurs_at(hay@, needle@, j) && j > 0 && hay@[j - 1] == ' ';
                assert(j + needle@.len() <= hay@.len());
                assert(j < i);
            }
        }
    }
    false
}

} // verus!
