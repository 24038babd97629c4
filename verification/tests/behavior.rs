//! Further behaviour tests: scenario checks over the pipeline, the text
//! helpers, and the sample generators.

use matchsorter::samples::{generate_diacritics_items, generate_items};
use matchsorter::{
    chars_of, get_closeness_ranking, get_match_ranking, is_acronym_delimiter, lowercase_into,
    match_sorter, Key, MatchSorterOptions, Ranking,
};

/// Default options for no-keys searches over items of type `T`.
fn dopts<T>() -> MatchSorterOptions<T, fn(&T) -> Vec<String>> {
    MatchSorterOptions::default()
}

// --- Scenario checks ---

/// A prefix match ranks above a substring match, and nothing else
/// survives: exactly ["apple", "grape"], in that order.
#[test]
fn scenario_prefix_beats_substring() {
    let items = ["apple", "banana", "grape"];
    let results = match_sorter(&items, "ap", dopts());
    assert_eq!(results, vec![&"apple", &"grape"]);
}

/// A string always matches itself exactly, whatever the diacritics
/// setting.
#[test]
fn self_match_is_case_sensitive_equal() {
    for s in ["", "a", "Green", "caf\u{00e9}", "North-West Airlines", "\u{4e16}\u{754c}"] {
        assert_eq!(get_match_ranking(s, s, false), Ranking::CaseSensitiveEqual);
        assert_eq!(get_match_ranking(s, s, true), Ranking::CaseSensitiveEqual);
    }
}

/// The empty query: a prefix of everything non-empty, an exact match of
/// the empty candidate.
#[test]
fn empty_query_tiers() {
    for s in ["x", "hello world", "caf\u{00e9}"] {
        assert_eq!(get_match_ranking(s, "", false), Ranking::StartsWith);
    }
    assert_eq!(get_match_ranking("", "", false), Ranking::CaseSensitiveEqual);
}

/// A candidate of bare combining marks strips to nothing: with an empty
/// query it is then an exact match, not a prefix match.
#[test]
fn combining_marks_only_candidate() {
    assert_eq!(get_match_ranking("\u{0301}", "", false), Ranking::CaseSensitiveEqual);
    assert_eq!(get_match_ranking("\u{0301}", "", true), Ranking::StartsWith);
}

/// A query with more characters than the candidate never matches.
#[test]
fn longer_query_never_matches() {
    let cases = [("a", "ab"), ("abc", "abcd"), ("", "x"), ("\u{4e16}", "ab")];
    for (cand, q) in cases {
        assert_eq!(get_match_ranking(cand, q, true), Ranking::NoMatch);
        assert_eq!(get_match_ranking(cand, q, false), Ranking::NoMatch);
    }
}

/// Running the same search twice gives the same answer.
#[test]
fn pipeline_is_deterministic() {
    let items = ["apple", "Apple", "pineapple", "crab apple", "grape", "banana"];
    let first = match_sorter(&items, "ap", dopts());
    let second = match_sorter(&items, "ap", dopts());
    assert_eq!(first, second);
}

/// Running the same keys-mode search twice, with deterministic
/// extractors, gives the same answer.
#[test]
fn pipeline_is_deterministic_with_keys() {
    let items = vec!["apple".to_owned(), "crab apple".to_owned(), "grape".to_owned()];
    let run = || {
        let opts = MatchSorterOptions {
            keys: vec![Key::new(|s: &String| vec![s.clone()])],
            threshold: Ranking::Matches(usize::MAX),
            keep_diacritics: false,
        };
        match_sorter(&items, "ap", opts)
    };
    assert_eq!(run(), run());
}

/// Full ties keep their input order, whatever that order is.
#[test]
fn stable_for_equal_strings() {
    let a1 = "same".to_owned();
    let a2 = "same".to_owned();
    let a3 = "same".to_owned();
    let items = [a1, a2, a3];
    let results = match_sorter(&items, "same", dopts());
    assert_eq!(results.len(), 3);
    assert!(std::ptr::eq(results[0], &items[0]));
    assert!(std::ptr::eq(results[1], &items[1]));
    assert!(std::ptr::eq(results[2], &items[2]));
}

/// The closeness scorer on concrete spreads.
#[test]
fn closeness_spread_values() {
    // "ace" in "abcde": positions 0, 2, 4, spread 4.
    assert_eq!(get_closeness_ranking("abcde", "ace"), Ranking::Matches(4));
    // "ab" adjacent: spread 1, the maximal sub-score.
    assert_eq!(get_closeness_ranking("ab", "ab"), Ranking::Matches(1));
}

/// The query is lowercased as a whole string, so a Greek capital sigma
/// at the end of the query lowers to its final form; candidates are
/// lowercased character by character, where sigma always lowers to the
/// medial form.
#[test]
fn query_lowercased_as_whole_string() {
    // Query "\u{0391}\u{03a3}" lowers to "\u{03b1}\u{03c2}" (final
    // sigma), which matches a candidate already holding the final form
    // but not one holding the medial form.
    assert_eq!(
        get_match_ranking("\u{03b1}\u{03c2}", "\u{0391}\u{03a3}", true),
        Ranking::Equal
    );
    assert_eq!(
        get_match_ranking("\u{03b1}\u{03c3}", "\u{0391}\u{03a3}", true),
        Ranking::NoMatch
    );
}

// --- Text helpers ---

#[test]
fn lowercase_into_maps_each_character() {
    let mut buf = String::new();
    lowercase_into("ABC dEf-GH", &mut buf);
    assert_eq!(buf, "abc def-gh");
}

#[test]
fn lowercase_into_replaces_previous_contents() {
    let mut buf = String::from("leftover");
    lowercase_into("XY", &mut buf);
    assert_eq!(buf, "xy");
}

#[test]
fn lowercase_into_handles_unicode() {
    let mut buf = String::new();
    lowercase_into("\u{0041}\u{00c9}\u{041b}", &mut buf);
    assert_eq!(buf, "\u{0061}\u{00e9}\u{043b}");
}

#[test]
fn chars_of_collects_scalar_values() {
    assert_eq!(chars_of("ab\u{00e9}"), vec!['a', 'b', '\u{00e9}']);
    assert_eq!(chars_of(""), Vec::<char>::new());
}

#[test]
fn acronym_delimiters_are_space_and_hyphen() {
    assert!(is_acronym_delimiter(' '));
    assert!(is_acronym_delimiter('-'));
    assert!(!is_acronym_delimiter('_'));
    assert!(!is_acronym_delimiter('a'));
    assert!(!is_acronym_delimiter('.'));
}

// --- Sample generators ---

#[test]
fn generate_items_labels() {
    let items = generate_items(12);
    assert_eq!(items.len(), 12);
    assert_eq!(items[0], "item_0");
    assert_eq!(items[7], "item_7");
    assert_eq!(items[10], "item_10");
    assert_eq!(items[11], "item_11");
}

#[test]
fn generate_diacritics_items_alternate() {
    let items = generate_diacritics_items(4);
    assert_eq!(items.len(), 4);
    assert_eq!(items[0], "caf\u{e9}_0");
    assert_eq!(items[1], "cafe_1");
    assert_eq!(items[2], "caf\u{e9}_2");
    assert_eq!(items[3], "cafe_3");
}

#[test]
fn generated_items_feed_the_pipeline() {
    let items = generate_items(30);
    let results = match_sorter(&items, "item_2", dopts());
    assert!(!results.is_empty());
    assert_eq!(results[0].as_str(), "item_2");

    let accented = generate_diacritics_items(6);
    let strip = match_sorter(&accented, "cafe", dopts());
    assert_eq!(strip.len(), 6, "stripping admits every entry");
    let keep = match_sorter(
        &accented,
        "cafe",
        MatchSorterOptions { keep_diacritics: true, ..dopts() },
    );
    assert_eq!(keep.len(), 3, "keeping admits only the unaccented half");
}
