use gpui_commands::fuzzy::{fuzzy_match, is_separator, lower_char};

#[test]
fn empty_query_matches_everything() {
    assert_eq!(fuzzy_match("", "Toggle Sidebar"), Some(0));
}

#[test]
fn matches_subsequence_case_insensitively() {
    assert!(fuzzy_match("tgsb", "Toggle Sidebar").is_some());
    assert!(fuzzy_match("TGSB", "Toggle Sidebar").is_some());
}

#[test]
fn rejects_out_of_order_and_absent_chars() {
    assert!(fuzzy_match("bts", "Toggle Sidebar").is_none());
    assert!(fuzzy_match("zzz", "Toggle Sidebar").is_none());
}

#[test]
fn prefix_scores_higher_than_scattered() {
    let prefix = fuzzy_match("toggle", "Toggle Sidebar").unwrap();
    let scattered = fuzzy_match("tgsb", "Toggle Sidebar").unwrap();
    assert!(prefix > scattered);
}

#[test]
fn word_boundary_scores_higher_than_middle_of_word() {
    let word_start = fuzzy_match("sb", "Toggle Sidebar").unwrap();
    let middle = fuzzy_match("gb", "Toggle Sidebar").unwrap();
    assert!(word_start > middle);
}

#[test]
fn consecutive_run_scores_higher_than_gapped() {
    let consecutive = fuzzy_match("side", "Toggle Sidebar").unwrap();
    let gapped = fuzzy_match("sbr", "Toggle Sidebar").unwrap();
    assert!(consecutive > gapped);
}

// Exact scores, worked out by hand from the scoring rules.

#[test]
fn exact_score_of_prefix() {
    // t: 2+3 (start), o: 2+2 (run), g: 4, g: 4, l: 4, e: 4
    assert_eq!(fuzzy_match("toggle", "Toggle Sidebar"), Some(25));
}

#[test]
fn exact_score_of_scattered() {
    // t: 5; g at 2 (gap 1): 2-1 = 1; s at 7 after ' ' (gap 4): 2+3-2 = 3;
    // b at 11 (gap 3): 2-2 = 0
    assert_eq!(fuzzy_match("tgsb", "Toggle Sidebar"), Some(9));
}

#[test]
fn exact_score_of_word_boundary_and_middle() {
    // s at 7 after ' ': 5; b at 11 (gap 3): 0
    assert_eq!(fuzzy_match("sb", "Toggle Sidebar"), Some(5));
    // g at 2: 2; b at 11 (gap 8): 0
    assert_eq!(fuzzy_match("gb", "Toggle Sidebar"), Some(2));
}

#[test]
fn single_gap_costs_one() {
    // a: 5; c at 2 (gap 1): 2-1 = 1
    assert_eq!(fuzzy_match("ac", "abc"), Some(6));
}

#[test]
fn leftmost_placement_is_scored() {
    // 'a' matches at 0, not at the word start at 2
    assert_eq!(fuzzy_match("a", "xa a"), Some(2));
    assert_eq!(fuzzy_match("a", "a"), Some(5));
}

#[test]
fn query_longer_than_target_does_not_match() {
    assert_eq!(fuzzy_match("abc", "ab"), None);
    assert_eq!(fuzzy_match("a", ""), None);
}

#[test]
fn empty_query_matches_empty_target() {
    assert_eq!(fuzzy_match("", ""), Some(0));
}

#[test]
fn case_of_target_is_ignored() {
    assert_eq!(fuzzy_match("side", "SIDE"), fuzzy_match("side", "side"));
    // s: 5 (start), i, d, e: 4 each (run)
    assert_eq!(fuzzy_match("SIDE", "side"), Some(17));
}

#[test]
fn lower_char_maps_to_lowercase() {
    assert_eq!(lower_char('A'), 'a');
    assert_eq!(lower_char('a'), 'a');
    assert_eq!(lower_char('Σ'), 'σ');
    assert_eq!(lower_char('1'), '1');
}

#[test]
fn separators_are_non_alphanumeric() {
    assert!(is_separator(' '));
    assert!(is_separator('-'));
    assert!(is_separator('_'));
    assert!(!is_separator('a'));
    assert!(!is_separator('7'));
    assert!(!is_separator('é'));
}

#[test]
fn appended_text_keeps_match_and_score() {
    let base = fuzzy_match("tgsb", "Toggle Sidebar");
    assert_eq!(fuzzy_match("tgsb", "Toggle Sidebar and more"), base);
    assert_eq!(fuzzy_match("zz", "Toggle"), None);
}

#[test]
fn target_case_keeps_score() {
    assert_eq!(
        fuzzy_match("tgsb", "TOGGLE SIDEBAR"),
        fuzzy_match("tgsb", "Toggle Sidebar")
    );
    assert_eq!(fuzzy_match("side", "tOGGLE sIDEBAR"), Some(17));
}
