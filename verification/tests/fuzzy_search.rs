use fuzzy_index::entry::Entry;
use fuzzy_index::fuzzy::fuzzy_score;
use fuzzy_index::fuzzy::rank_entries;
use fuzzy_index::fuzzy::LEN_WEIGHT;

fn entry(path: &str) -> Entry {
    Entry {
        path: path.to_string(),
        name: path.rsplit('/').next().unwrap_or("").to_string(),
        modified_millis: 0,
        size: 0,
    }
}

#[test]
fn match_requires_subsequence() {
    assert!(fuzzy_score("main", "src/main").is_some());
    assert!(fuzzy_score("srcmain", "src/main").is_some());
    assert!(fuzzy_score("sm", "src/main").is_some());
    // "main" is not an in-order subsequence of this path.
    assert!(fuzzy_score("main", "somexrunningxabc").is_none());
    assert!(fuzzy_score("zzz", "src/main").is_none());
    assert!(fuzzy_score("mainx", "src/main").is_none());
}

#[test]
fn match_is_case_insensitive() {
    assert!(fuzzy_score("MAIN", "src/main").is_some());
    assert!(fuzzy_score("main", "SRC/MAIN").is_some());
    assert!(fuzzy_score("Main", "src/mAin").is_some());
}

#[test]
fn empty_query_matches_everything_with_constant_score() {
    assert_eq!(fuzzy_score("", "src/main"), Some(0));
    assert_eq!(fuzzy_score("", ""), Some(0));
    assert_eq!(fuzzy_score("", "a-very-long-path/deep/inside"), Some(0));
}

#[test]
fn single_character_score_is_exact() {
    // One matched character at the start of the path: base bonus 1 plus the
    // boundary bonus 4, weighted, less the one-character length penalty.
    assert_eq!(fuzzy_score("a", "a"), Some(5 * LEN_WEIGHT - 1));
    // Mid-word match: base bonus only.
    assert_eq!(fuzzy_score("a", "xa"), Some(1 * LEN_WEIGHT - 2));
}

#[test]
fn contiguous_boundary_match_outranks_scattered() {
    let boundary = fuzzy_score("main", "src/main").unwrap();
    let scattered = fuzzy_score("main", "zmzazizn").unwrap();
    assert!(boundary > scattered);

    let index = vec![entry("zmzazizn"), entry("src/main"), entry("somexrunningxabc")];
    let ranked = rank_entries("main", &index);
    assert_eq!(ranked.len(), 2);
    assert_eq!(ranked[0].path, "src/main");
    assert_eq!(ranked[1].path, "zmzazizn");
}

#[test]
fn shorter_path_wins_among_equal_matches() {
    let short = fuzzy_score("ab", "ab").unwrap();
    let long = fuzzy_score("ab", "abxx").unwrap();
    assert!(short > long);
}

#[test]
fn empty_query_returns_all_in_insertion_order() {
    let index = vec![entry("b/second"), entry("a/first"), entry("c/third")];
    let ranked = rank_entries("", &index);
    assert_eq!(ranked.len(), 3);
    assert_eq!(ranked[0].path, "b/second");
    assert_eq!(ranked[1].path, "a/first");
    assert_eq!(ranked[2].path, "c/third");
}

#[test]
fn equal_scores_keep_insertion_order() {
    // Both paths match "a" mid-word with the same bonus and length.
    let index = vec![entry("xa"), entry("ya")];
    let ranked = rank_entries("a", &index);
    assert_eq!(ranked.len(), 2);
    assert_eq!(ranked[0].path, "xa");
    assert_eq!(ranked[1].path, "ya");
}

#[test]
fn non_matching_entries_are_excluded_not_scored() {
    let index = vec![entry("alpha"), entry("beta"), entry("gamma")];
    let ranked = rank_entries("ga", &index);
    assert_eq!(ranked.len(), 1);
    assert_eq!(ranked[0].path, "gamma");
}

#[test]
fn ranking_copies_whole_entries() {
    let e = Entry {
        path: "docs/notes.txt".to_string(),
        name: "notes.txt".to_string(),
        modified_millis: 123456,
        size: 42,
    };
    let ranked = rank_entries("notes", &vec![e]);
    assert_eq!(ranked.len(), 1);
    assert_eq!(ranked[0].path, "docs/notes.txt");
    assert_eq!(ranked[0].name, "notes.txt");
    assert_eq!(ranked[0].modified_millis, 123456);
    assert_eq!(ranked[0].size, 42);
}
