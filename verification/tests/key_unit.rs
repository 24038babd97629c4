//! Tests of the key extraction types, the builder methods, and the
//! best-ranking selection across keys.

use matchsorter::{get_highest_ranking, get_item_values, Key, MatchSorterOptions, Ranking, RankingInfo};

struct User {
    name: String,
    email: String,
    tags: Vec<String>,
}

fn sample_user() -> User {
    User {
        name: "Alice".to_owned(),
        email: "alice@example.com".to_owned(),
        tags: vec!["admin".to_owned(), "staff".to_owned()],
    }
}

/// Default options tied to the key type of `keys`.
fn opts_for<T, F: Fn(&T) -> Vec<String>>(_keys: &Vec<Key<T, F>>) -> MatchSorterOptions<T, F> {
    MatchSorterOptions::default()
}

/// A shared extractor shape so that several keys with different
/// behaviour can live in one vector: `0` extracts the name, `1` the
/// email, `2` the tags.
fn user_field(which: usize) -> impl Fn(&User) -> Vec<String> {
    move |u: &User| {
        match which {
            0 => vec![u.name.clone()],
            1 => vec![u.email.clone()],
            _ => u.tags.clone(),
        }
    }
}

// --- Key::new tests ---

#[test]
fn new_accepts_closure_returning_vec_string() {
    let key = Key::new(|u: &User| vec![u.name.clone()]);
    let values = key.extract(&sample_user());
    assert_eq!(values, vec!["Alice"]);
}

#[test]
fn new_default_threshold_is_none() {
    let key = Key::new(|_: &User| vec![]);
    assert_eq!(key.threshold_value(), None);
}

#[test]
fn new_default_min_ranking_is_no_match() {
    let key = Key::new(|_: &User| vec![]);
    assert_eq!(*key.min_ranking_value(), Ranking::NoMatch);
}

#[test]
fn new_default_max_ranking_is_case_sensitive_equal() {
    let key = Key::new(|_: &User| vec![]);
    assert_eq!(*key.max_ranking_value(), Ranking::CaseSensitiveEqual);
}

// --- Key::from_fn tests ---

#[test]
fn from_fn_single_value_extraction() {
    let key = Key::<User, _>::from_fn(|u: &User| u.name.as_str());
    let values = key.extract(&sample_user());
    assert_eq!(values, vec!["Alice"]);
}

#[test]
fn from_fn_equivalent_to_new_with_vec() {
    let user = sample_user();
    let key_new = Key::new(|u: &User| vec![u.name.clone()]);
    let key_fn = Key::<User, _>::from_fn(|u: &User| u.name.as_str());

    let values_new = key_new.extract(&user);
    let values_fn = key_fn.extract(&user);
    assert_eq!(values_new, values_fn);
}

#[test]
fn from_fn_default_attributes() {
    let key = Key::<User, _>::from_fn(|u: &User| u.name.as_str());
    assert_eq!(key.threshold_value(), None);
    assert_eq!(*key.min_ranking_value(), Ranking::NoMatch);
    assert_eq!(*key.max_ranking_value(), Ranking::CaseSensitiveEqual);
}

// --- Key::from_fn_multi tests ---

#[test]
fn from_fn_multi_extracts_multiple_values() {
    let key = Key::<User, _>::from_fn_multi(|u: &User| u.tags.iter().map(|t| t.as_str()).collect());
    let values = key.extract(&sample_user());
    assert_eq!(values, vec!["admin", "staff"]);
}

#[test]
fn from_fn_multi_default_attributes() {
    let key = Key::<User, _>::from_fn_multi(|u: &User| u.tags.iter().map(|t| t.as_str()).collect());
    assert_eq!(key.threshold_value(), None);
    assert_eq!(*key.min_ranking_value(), Ranking::NoMatch);
    assert_eq!(*key.max_ranking_value(), Ranking::CaseSensitiveEqual);
}

#[test]
fn from_fn_multi_empty_vec() {
    let key = Key::<User, _>::from_fn_multi(|_: &User| vec![]);
    let values = key.extract(&sample_user());
    assert!(values.is_empty());
}

// --- Builder method tests ---

#[test]
fn threshold_sets_value() {
    let key = Key::new(|_: &User| vec![]).threshold(Ranking::StartsWith);
    assert_eq!(key.threshold_value(), Some(&Ranking::StartsWith));
}

#[test]
fn max_ranking_sets_value() {
    let key = Key::new(|_: &User| vec![]).max_ranking(Ranking::Contains);
    assert_eq!(*key.max_ranking_value(), Ranking::Contains);
}

#[test]
fn min_ranking_sets_value() {
    let key = Key::new(|_: &User| vec![]).min_ranking(Ranking::Contains);
    assert_eq!(*key.min_ranking_value(), Ranking::Contains);
}

#[test]
fn builder_chain_all_three() {
    let key = Key::new(|u: &User| vec![u.email.clone()])
        .threshold(Ranking::Acronym)
        .max_ranking(Ranking::Equal)
        .min_ranking(Ranking::Contains);

    assert_eq!(key.threshold_value(), Some(&Ranking::Acronym));
    assert_eq!(*key.max_ranking_value(), Ranking::Equal);
    assert_eq!(*key.min_ranking_value(), Ranking::Contains);
}

#[test]
fn builder_chain_preserves_extractor() {
    let key = Key::new(|u: &User| vec![u.name.clone()])
        .threshold(Ranking::StartsWith)
        .max_ranking(Ranking::Contains)
        .min_ranking(Ranking::Acronym);

    let values = key.extract(&sample_user());
    assert_eq!(values, vec!["Alice"]);
}

#[test]
fn builder_from_fn_with_chain() {
    let key = Key::<User, _>::from_fn(|u: &User| u.email.as_str())
        .threshold(Ranking::WordStartsWith)
        .max_ranking(Ranking::StartsWith);

    assert_eq!(key.threshold_value(), Some(&Ranking::WordStartsWith));
    assert_eq!(*key.max_ranking_value(), Ranking::StartsWith);
    assert_eq!(*key.min_ranking_value(), Ranking::NoMatch);

    let values = key.extract(&sample_user());
    assert_eq!(values, vec!["alice@example.com"]);
}

#[test]
fn builder_from_fn_multi_with_chain() {
    let key = Key::<User, _>::from_fn_multi(|u: &User| u.tags.iter().map(|t| t.as_str()).collect())
        .min_ranking(Ranking::Contains);

    assert_eq!(*key.min_ranking_value(), Ranking::Contains);
    assert_eq!(key.threshold_value(), None);
    assert_eq!(*key.max_ranking_value(), Ranking::CaseSensitiveEqual);

    let values = key.extract(&sample_user());
    assert_eq!(values, vec!["admin", "staff"]);
}

#[test]
fn builder_last_call_wins_for_same_method() {
    let key = Key::new(|_: &User| vec![]).threshold(Ranking::Contains).threshold(
        Ranking::StartsWith,
    );
    assert_eq!(key.threshold_value(), Some(&Ranking::StartsWith));
}

#[test]
fn builder_matches_variant_in_threshold() {
    // The fuzzy variant works in builder methods.
    let key = Key::new(|_: &User| vec![])
        .threshold(Ranking::Matches(2))
        .min_ranking(Ranking::Matches(5))
        .max_ranking(Ranking::Matches(1));

    assert_eq!(key.threshold_value(), Some(&Ranking::Matches(2)));
    assert_eq!(*key.min_ranking_value(), Ranking::Matches(5));
    assert_eq!(*key.max_ranking_value(), Ranking::Matches(1));
}

// --- RankingInfo tests ---

#[test]
fn ranking_info_construction() {
    let info = RankingInfo {
        rank: Ranking::Contains,
        ranked_value: "hello".to_owned(),
        key_index: 2,
        key_threshold: Some(Ranking::StartsWith),
    };

    assert_eq!(info.rank, Ranking::Contains);
    assert_eq!(info.ranked_value, "hello");
    assert_eq!(info.key_index, 2);
    assert_eq!(info.key_threshold, Some(Ranking::StartsWith));
}

#[test]
fn ranking_info_with_no_threshold() {
    let info = RankingInfo {
        rank: Ranking::Equal,
        ranked_value: "world".to_owned(),
        key_index: 0,
        key_threshold: None,
    };

    assert_eq!(info.key_threshold, None);
}

#[test]
fn ranking_info_debug_formatting() {
    let info = RankingInfo {
        rank: Ranking::Acronym,
        ranked_value: "test".to_owned(),
        key_index: 1,
        key_threshold: None,
    };
    let debug_str = format!("{info:?}");
    assert!(debug_str.contains("Acronym"));
    assert!(debug_str.contains("test"));
}

#[test]
fn ranking_info_clone() {
    let info = RankingInfo {
        rank: Ranking::StartsWith,
        ranked_value: "cloned".to_owned(),
        key_index: 3,
        key_threshold: Some(Ranking::Contains),
    };
    let cloned = info.clone();
    assert_eq!(info, cloned);
}

#[test]
fn ranking_info_partial_eq() {
    let a = RankingInfo {
        rank: Ranking::Contains,
        ranked_value: "val".to_owned(),
        key_index: 0,
        key_threshold: None,
    };
    let b = RankingInfo {
        rank: Ranking::Contains,
        ranked_value: "val".to_owned(),
        key_index: 0,
        key_threshold: None,
    };
    assert_eq!(a, b);
}

#[test]
fn ranking_info_partial_eq_different_rank() {
    let a = RankingInfo {
        rank: Ranking::Contains,
        ranked_value: "val".to_owned(),
        key_index: 0,
        key_threshold: None,
    };
    let b = RankingInfo {
        rank: Ranking::Equal,
        ranked_value: "val".to_owned(),
        key_index: 0,
        key_threshold: None,
    };
    assert_ne!(a, b);
}

// --- Key with primitive types ---

#[test]
fn key_with_string_type() {
    let key = Key::new(|s: &String| vec![s.clone()]);
    let values = key.extract(&"hello world".to_owned());
    assert_eq!(values, vec!["hello world"]);
}

#[test]
fn from_fn_with_string_type() {
    let key = Key::<String, _>::from_fn(|s: &String| s.as_str());
    let values = key.extract(&"test".to_owned());
    assert_eq!(values, vec!["test"]);
}

// --- get_item_values tests ---

#[test]
fn get_item_values_single_value() {
    let key = Key::<User, _>::from_fn(|u: &User| u.name.as_str());
    let values = get_item_values(&sample_user(), &key);
    assert_eq!(values, vec!["Alice"]);
}

#[test]
fn get_item_values_multi_value() {
    let key = Key::<User, _>::from_fn_multi(|u: &User| u.tags.iter().map(|t| t.as_str()).collect());
    let values = get_item_values(&sample_user(), &key);
    assert_eq!(values, vec!["admin", "staff"]);
}

#[test]
fn get_item_values_empty() {
    let key = Key::new(|_: &User| vec![]);
    let values = get_item_values(&sample_user(), &key);
    assert!(values.is_empty());
}

// --- get_highest_ranking tests ---

#[test]
fn highest_ranking_single_key_exact_match() {
    let keys = vec![Key::new(|u: &User| vec![u.name.clone()])];
    let info = get_highest_ranking(&sample_user(), &keys, "Alice", &opts_for(&keys));
    assert_eq!(info.rank, Ranking::CaseSensitiveEqual);
    assert_eq!(info.ranked_value, "Alice");
    assert_eq!(info.key_index, 0);
    assert_eq!(info.key_threshold, None);
}

#[test]
fn highest_ranking_picks_best_across_multiple_keys() {
    // Key 0 extracts the email, key 1 the name; the name matches best.
    let keys = vec![Key::new(user_field(1)), Key::new(user_field(0))];
    let info = get_highest_ranking(&sample_user(), &keys, "Alice", &opts_for(&keys));
    assert_eq!(info.rank, Ranking::CaseSensitiveEqual);
    assert_eq!(info.ranked_value, "Alice");
    assert_eq!(info.key_index, 1);
}

#[test]
fn highest_ranking_max_ranking_clamps_down() {
    let keys = vec![Key::new(|u: &User| vec![u.name.clone()]).max_ranking(Ranking::Contains)];
    let info = get_highest_ranking(&sample_user(), &keys, "Alice", &opts_for(&keys));
    assert_eq!(info.rank, Ranking::Contains);
}

#[test]
fn highest_ranking_max_ranking_clamps_starts_with_to_contains() {
    let keys = vec![Key::new(|u: &User| vec![u.name.clone()]).max_ranking(Ranking::Contains)];
    let info = get_highest_ranking(&sample_user(), &keys, "ali", &opts_for(&keys));
    assert_eq!(info.rank, Ranking::Contains);
}

#[test]
fn highest_ranking_min_ranking_promotes_matches_to_contains() {
    let item = "playground".to_owned();
    let keys = vec![Key::new(|s: &String| vec![s.clone()]).min_ranking(Ranking::Contains)];
    let info = get_highest_ranking(&item, &keys, "plgnd", &opts_for(&keys));
    assert_eq!(info.rank, Ranking::Contains);
}

#[test]
fn highest_ranking_min_ranking_does_not_promote_no_match() {
    let item = "abc".to_owned();
    let keys = vec![Key::new(|s: &String| vec![s.clone()]).min_ranking(Ranking::Contains)];
    let info = get_highest_ranking(&item, &keys, "xyz", &opts_for(&keys));
    assert_eq!(info.rank, Ranking::NoMatch);
}

#[test]
fn highest_ranking_tie_break_lower_key_index_wins() {
    let keys = vec![Key::new(user_field(0)), Key::new(user_field(0))];
    let info = get_highest_ranking(&sample_user(), &keys, "Alice", &opts_for(&keys));
    assert_eq!(info.rank, Ranking::CaseSensitiveEqual);
    assert_eq!(info.key_index, 0);
}

#[test]
fn highest_ranking_tie_break_with_clamping() {
    let keys = vec![
        Key::new(user_field(0)).max_ranking(Ranking::Contains),
        Key::new(user_field(1)).max_ranking(Ranking::Contains),
    ];
    let info = get_highest_ranking(&sample_user(), &keys, "alice", &opts_for(&keys));
    assert_eq!(info.rank, Ranking::Contains);
    assert_eq!(info.key_index, 0);
    assert_eq!(info.ranked_value, "Alice");
}

#[test]
fn highest_ranking_key_threshold_reflected() {
    let keys = vec![Key::new(|u: &User| vec![u.name.clone()]).threshold(Ranking::StartsWith)];
    let info = get_highest_ranking(&sample_user(), &keys, "Alice", &opts_for(&keys));
    assert_eq!(info.key_threshold, Some(Ranking::StartsWith));
}

#[test]
fn highest_ranking_key_threshold_none_when_not_set() {
    let keys = vec![Key::new(|u: &User| vec![u.name.clone()])];
    let info = get_highest_ranking(&sample_user(), &keys, "Alice", &opts_for(&keys));
    assert_eq!(info.key_threshold, None);
}

#[test]
fn highest_ranking_multi_value_key_best_value_wins() {
    let keys = vec![Key::new(|u: &User| u.tags.clone())];
    let info = get_highest_ranking(&sample_user(), &keys, "admin", &opts_for(&keys));
    assert_eq!(info.rank, Ranking::CaseSensitiveEqual);
    assert_eq!(info.ranked_value, "admin");
    assert_eq!(info.key_index, 0);
}

#[test]
fn highest_ranking_flattened_index_across_keys() {
    // Key 0 extracts the tags (indices 0 and 1), key 1 the name (index 2).
    let keys = vec![Key::new(user_field(2)), Key::new(user_field(0))];
    let info = get_highest_ranking(&sample_user(), &keys, "Alice", &opts_for(&keys));
    assert_eq!(info.rank, Ranking::CaseSensitiveEqual);
    assert_eq!(info.key_index, 2);
}

#[test]
fn highest_ranking_no_keys_returns_no_match() {
    let keys: Vec<Key<User, fn(&User) -> Vec<String>>> = vec![];
    let info = get_highest_ranking(&sample_user(), &keys, "Alice", &opts_for(&keys));
    assert_eq!(info.rank, Ranking::NoMatch);
}

#[test]
fn highest_ranking_empty_extractor_returns_no_match() {
    let keys = vec![Key::new(|_: &User| vec![])];
    let info = get_highest_ranking(&sample_user(), &keys, "Alice", &opts_for(&keys));
    assert_eq!(info.rank, Ranking::NoMatch);
}

#[test]
fn highest_ranking_max_ranking_does_not_affect_lower_ranks() {
    let item = "xxadminxx".to_owned();
    let keys = vec![Key::new(|s: &String| vec![s.clone()]).max_ranking(Ranking::StartsWith)];
    let info = get_highest_ranking(&item, &keys, "admin", &opts_for(&keys));
    assert_eq!(info.rank, Ranking::Contains);
}

#[test]
fn highest_ranking_min_ranking_does_not_affect_higher_ranks() {
    let keys = vec![Key::new(|u: &User| vec![u.name.clone()]).min_ranking(Ranking::Contains)];
    let info = get_highest_ranking(&sample_user(), &keys, "ali", &opts_for(&keys));
    assert_eq!(info.rank, Ranking::StartsWith);
}

#[test]
fn highest_ranking_both_clamps_applied() {
    let keys = vec![
        Key::new(|u: &User| vec![u.name.clone()]).min_ranking(Ranking::Contains).max_ranking(
            Ranking::Contains,
        ),
    ];
    let info = get_highest_ranking(&sample_user(), &keys, "Alice", &opts_for(&keys));
    assert_eq!(info.rank, Ranking::Contains);
}

#[test]
fn highest_ranking_winning_key_threshold_from_correct_key() {
    let keys = vec![
        Key::new(user_field(1)).threshold(Ranking::StartsWith),
        Key::new(user_field(0)).threshold(Ranking::Acronym),
    ];
    let info = get_highest_ranking(&sample_user(), &keys, "Alice", &opts_for(&keys));
    assert_eq!(info.rank, Ranking::CaseSensitiveEqual);
    assert_eq!(info.key_threshold, Some(Ranking::Acronym));
}

#[test]
fn highest_ranking_keep_diacritics_option_passed() {
    let item = "caf\u{e9}".to_owned();
    let keys = vec![Key::new(|s: &String| vec![s.clone()])];

    let mut opts_strip = opts_for(&keys);
    opts_strip.keep_diacritics = false;
    let info_strip = get_highest_ranking(&item, &keys, "cafe", &opts_strip);
    assert_eq!(info_strip.rank, Ranking::CaseSensitiveEqual);

    let mut opts_keep = opts_for(&keys);
    opts_keep.keep_diacritics = true;
    let info_keep = get_highest_ranking(&item, &keys, "cafe", &opts_keep);
    assert_eq!(info_keep.rank, Ranking::NoMatch);
}
