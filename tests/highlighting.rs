use part_search::highlighting::{
    eq_ignore_ascii_case, highlight_search_query_in_mpn, is_separator, is_start_of_highlight,
    Fragment, HighlightError,
};

#[test]
fn test_highlight_simple() {
    let search_query = "abc";
    let mpn = "a-bcde";
    let expected_fragments = vec![
        Fragment::Highlighted('a'),
        Fragment::Normal('-'),
        Fragment::Highlighted('b'),
        Fragment::Highlighted('c'),
        Fragment::Normal('d'),
        Fragment::Normal('e'),
    ];
    assert_eq!(
        highlight_search_query_in_mpn(search_query, mpn),
        Ok(expected_fragments)
    );
}

#[test]
fn test_highlight_partial_repetition() {
    let search_query = "abc";
    let mpn = "abababcde";
    let expected_fragments = vec![
        Fragment::Normal('a'),
        Fragment::Normal('b'),
        Fragment::Normal('a'),
        Fragment::Normal('b'),
        Fragment::Highlighted('a'),
        Fragment::Highlighted('b'),
        Fragment::Highlighted('c'),
        Fragment::Normal('d'),
        Fragment::Normal('e'),
    ];
    assert_eq!(
        highlight_search_query_in_mpn(search_query, mpn),
        Ok(expected_fragments)
    );
}

#[test]
fn test_highlight_same_letter_repetition() {
    let search_query = "aabc";
    let mpn = "aaab-cd";
    let expected_fragments = vec![
        Fragment::Normal('a'),
        Fragment::Highlighted('a'),
        Fragment::Highlighted('a'),
        Fragment::Highlighted('b'),
        Fragment::Normal('-'),
        Fragment::Highlighted('c'),
        Fragment::Normal('d'),
    ];
    assert_eq!(
        highlight_search_query_in_mpn(search_query, mpn),
        Ok(expected_fragments)
    );
}

#[test]
fn multiple_highlights() {
    let search_query = "ab";
    let mpn = "abcab";
    let expected_fragments = vec![
        Fragment::Highlighted('a'),
        Fragment::Highlighted('b'),
        Fragment::Normal('c'),
        Fragment::Highlighted('a'),
        Fragment::Highlighted('b'),
    ];
    assert_eq!(
        highlight_search_query_in_mpn(search_query, mpn),
        Ok(expected_fragments)
    );
}

#[test]
fn single_character() {
    let search_query = "-";
    let mpn = "-";
    let expected_fragments = vec![Fragment::Highlighted('-')];
    assert_eq!(
        highlight_search_query_in_mpn(search_query, mpn),
        Ok(expected_fragments)
    );
}

fn text(fragments: &[Fragment]) -> String {
    fragments
        .iter()
        .map(|f| match f {
            Fragment::Highlighted(c) => *c,
            Fragment::Normal(c) => *c,
        })
        .collect()
}

#[test]
fn fragments_spell_the_target() {
    for (query, mpn) in [
        ("ab", "x-a/b.c,ab"),
        ("AbC", "zzABc-abc"),
        ("q", ""),
        ("long-query", "short"),
        ("é", "Éé-é"),
    ] {
        let fragments = highlight_search_query_in_mpn(query, mpn).unwrap();
        assert_eq!(fragments.len(), mpn.chars().count());
        assert_eq!(text(&fragments), mpn);
    }
}

#[test]
fn absent_first_character_leaves_everything_normal() {
    let fragments = highlight_search_query_in_mpn("x", "abc-def").unwrap();
    assert!(fragments.iter().all(|f| matches!(f, Fragment::Normal(_))));
}

#[test]
fn failing_probes_leave_everything_normal() {
    let fragments = highlight_search_query_in_mpn("abd", "ab-abcab_d").unwrap();
    assert!(fragments.iter().all(|f| matches!(f, Fragment::Normal(_))));
    assert_eq!(text(&fragments), "ab-abcab_d");
}

#[test]
fn matching_ignores_ascii_case() {
    assert_eq!(
        highlight_search_query_in_mpn("aB", "xAb"),
        Ok(vec![
            Fragment::Normal('x'),
            Fragment::Highlighted('A'),
            Fragment::Highlighted('b'),
        ])
    );
}

#[test]
fn non_ascii_letters_are_compared_exactly() {
    assert_eq!(
        highlight_search_query_in_mpn("é", "Éé"),
        Ok(vec![Fragment::Normal('É'), Fragment::Highlighted('é')])
    );
}

#[test]
fn separators_before_and_after_a_match_stay_outside_it() {
    assert_eq!(
        highlight_search_query_in_mpn("ab", "-a,b/"),
        Ok(vec![
            Fragment::Normal('-'),
            Fragment::Highlighted('a'),
            Fragment::Normal(','),
            Fragment::Highlighted('b'),
            Fragment::Normal('/'),
        ])
    );
}

#[test]
fn greedy_match_takes_the_first_start() {
    assert_eq!(
        highlight_search_query_in_mpn("aaa", "aaaaa"),
        Ok(vec![
            Fragment::Highlighted('a'),
            Fragment::Highlighted('a'),
            Fragment::Highlighted('a'),
            Fragment::Normal('a'),
            Fragment::Normal('a'),
        ])
    );
}

#[test]
fn query_longer_than_the_rest_of_the_target_does_not_match() {
    assert_eq!(
        highlight_search_query_in_mpn("abc", "xab"),
        Ok(vec![
            Fragment::Normal('x'),
            Fragment::Normal('a'),
            Fragment::Normal('b'),
        ])
    );
    assert_eq!(
        highlight_search_query_in_mpn("ab", "a--"),
        Ok(vec![
            Fragment::Normal('a'),
            Fragment::Normal('-'),
            Fragment::Normal('-'),
        ])
    );
}

#[test]
fn repeated_calls_agree() {
    let first = highlight_search_query_in_mpn("ab", "ab-ab.cab");
    let second = highlight_search_query_in_mpn("ab", "ab-ab.cab");
    assert_eq!(first, second);
}

#[test]
fn empty_query_is_invalid() {
    assert_eq!(
        highlight_search_query_in_mpn("", "abc"),
        Err(HighlightError::InvalidQuery)
    );
    assert_eq!(
        highlight_search_query_in_mpn("", "-"),
        Err(HighlightError::InvalidQuery)
    );
    assert_eq!(
        highlight_search_query_in_mpn("", ""),
        Err(HighlightError::InvalidQuery)
    );
}

#[test]
fn empty_target_gives_no_fragments() {
    assert_eq!(highlight_search_query_in_mpn("a", ""), Ok(vec![]));
}

#[test]
fn probe_skips_separators() {
    assert!(is_start_of_highlight("ab", "x-a.b", 1));
    assert!(is_start_of_highlight("ab", "x-a.b", 2));
    assert!(!is_start_of_highlight("ab", "x-a.b", 0));
}

#[test]
fn probe_fails_when_the_target_runs_out() {
    assert!(!is_start_of_highlight("abc", "ab", 0));
    assert!(!is_start_of_highlight("ab", "xa-", 1));
    assert!(!is_start_of_highlight("a", "abc", 3));
    assert!(!is_start_of_highlight("a", "abc", 10));
}

#[test]
fn probe_fails_on_other_characters() {
    assert!(!is_start_of_highlight("ab", "a_b", 0));
    assert!(is_start_of_highlight("AB", "xab", 1));
}

#[test]
fn separator_set() {
    for c in ['-', '/', '.', ','] {
        assert!(is_separator(c));
    }
    for c in ['_', ' ', 'a', '0', ';'] {
        assert!(!is_separator(c));
    }
}

#[test]
fn ascii_case_folding() {
    assert!(eq_ignore_ascii_case('a', 'A'));
    assert!(eq_ignore_ascii_case('Z', 'z'));
    assert!(eq_ignore_ascii_case('-', '-'));
    assert!(!eq_ignore_ascii_case('a', 'b'));
    assert!(!eq_ignore_ascii_case('@', '`'));
    assert!(!eq_ignore_ascii_case('[', '{'));
    assert!(!eq_ignore_ascii_case('é', 'É'));
}
