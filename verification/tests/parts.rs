//! The steps of the alignment, each on values written out by hand.

use tokenizations::{
    get_alignment, get_alignments, get_char2token, get_original_spans, get_span_indices, join,
    resolve_span, resolve_spans,
};

#[test]
fn join_writes_tokens_one_after_another() {
    assert_eq!(join(&["a", "", "bc"]), "abc");
    assert_eq!(join(&["fあo", "①が"]), "fあo①が");
    assert_eq!(join(&[]), "");
}

#[test]
fn char2token_counts_characters_not_bytes() {
    assert_eq!(get_char2token(&["あい", "う"]), vec![0, 0, 1]);
}

#[test]
fn char2token_skips_empty_tokens() {
    assert_eq!(get_char2token(&["", "ab", "", "c"]), vec![1, 1, 3]);
    assert_eq!(get_char2token(&["", ""]), Vec::<usize>::new());
    assert_eq!(get_char2token(&[]), Vec::<usize>::new());
}

#[test]
fn span_indices_are_cumulative() {
    assert_eq!(
        get_span_indices(&["ab", "", "c", "あい"]),
        vec![(0, 2), (2, 2), (2, 3), (3, 5)]
    );
    assert_eq!(get_span_indices(&[]), vec![]);
}

#[test]
fn alignment_collapses_only_adjacent_repeats() {
    // One source token whose characters meet target tokens 0, 0, 1, 0.
    let a2b = [Some(0), Some(1), Some(2), Some(3)];
    let at2bt = get_alignment(1, &a2b, &[0, 0, 0, 0], &[0, 0, 1, 0]);
    assert_eq!(at2bt, vec![vec![0, 1, 0]]);
}

#[test]
fn alignment_skips_unaligned_characters() {
    let a2b = [None, Some(0), None, Some(1), None];
    let at2bt = get_alignment(3, &a2b, &[0, 0, 1, 1, 1], &[0, 1]);
    assert_eq!(at2bt, vec![vec![0], vec![1], vec![]]);
}

#[test]
fn alignment_scans_what_both_maps_cover() {
    let at2bt = get_alignment(2, &[Some(0), Some(1)], &[0, 1, 1], &[4, 5]);
    assert_eq!(at2bt, vec![vec![4], vec![5]]);
    let at2bt = get_alignment(2, &[Some(0), Some(1), Some(1)], &[0], &[4, 5]);
    assert_eq!(at2bt, vec![vec![4], vec![]]);
}

#[test]
fn alignment_of_no_tokens_is_empty() {
    assert_eq!(get_alignment(0, &[], &[], &[]), Vec::<Vec<usize>>::new());
    assert_eq!(
        get_alignments(&[], &[]),
        (Vec::<Vec<usize>>::new(), Vec::<Vec<usize>>::new())
    );
}

#[test]
fn alignments_of_empty_tokens_are_empty_lists() {
    assert_eq!(
        get_alignments(&[""], &["", ""]),
        (vec![vec![]], vec![vec![], vec![]])
    );
}

#[test]
fn alignments_follow_tokens_that_alternate() {
    assert_eq!(
        get_alignments(&["abab"], &["a", "b", "a", "b"]),
        (vec![vec![0, 1, 2, 3]], vec![vec![0], vec![0], vec![0], vec![0]])
    );
}

#[test]
fn span_reaches_from_first_to_last_aligned_character() {
    let a2b = [None, Some(3), None, Some(5), None];
    assert_eq!(resolve_span(&a2b, 7, 0, 5), Some((3, 6)));
    assert_eq!(resolve_span(&a2b, 7, 1, 2), Some((3, 4)));
    assert_eq!(resolve_span(&a2b, 7, 2, 4), Some((5, 6)));
}

#[test]
fn span_of_unaligned_characters_is_none() {
    let a2b = [None, Some(3), None, Some(5), None];
    assert_eq!(resolve_span(&a2b, 7, 0, 1), None);
    assert_eq!(resolve_span(&a2b, 7, 4, 5), None);
}

#[test]
fn span_of_an_empty_token_is_a_point() {
    let a2b = [None, Some(3), None, Some(5), None];
    assert_eq!(resolve_span(&a2b, 7, 1, 1), Some((3, 3)));
    assert_eq!(resolve_span(&a2b, 7, 2, 2), None);
    assert_eq!(resolve_span(&a2b, 7, 5, 5), Some((7, 7)));
    assert_eq!(resolve_span(&[], 0, 0, 0), Some((0, 0)));
}

#[test]
fn spans_are_resolved_one_by_one() {
    let a2b = [Some(0), None, Some(4)];
    assert_eq!(
        resolve_spans(&[(0, 1), (1, 2), (2, 2), (2, 3), (3, 3)], &a2b, 5),
        vec![Some((0, 1)), None, Some((4, 4)), Some((4, 5)), Some((5, 5))]
    );
    assert_eq!(resolve_spans(&[], &a2b, 5), vec![]);
}

#[test]
fn original_spans_of_no_tokens() {
    assert_eq!(get_original_spans(&[], "text"), vec![]);
}

#[test]
fn original_span_is_none_where_nothing_matches() {
    assert_eq!(get_original_spans(&["x", "a"], "a"), vec![None, Some((0, 1))]);
    assert_eq!(get_original_spans(&["x"], ""), vec![None]);
}

#[test]
fn original_spans_skip_text_between_tokens() {
    assert_eq!(
        get_original_spans(&["Hello", "world"], "hello, WORLD!"),
        vec![Some((0, 5)), Some((7, 12))]
    );
}
