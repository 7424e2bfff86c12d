use chunker::structs::ChunkUnit;
use chunker::utils::{
    can_fit_all_units, chunk_by_character, chunk_by_greedy_sliding_window, get_length, get_units,
};

type Measure = fn(&str) -> usize;

fn unit(text: &str, start: usize, end: usize) -> ChunkUnit {
    ChunkUnit { unit: text.to_string(), start, end }
}

fn doubled(text: &str) -> usize {
    2 * text.chars().count()
}

#[test]
fn length_is_the_number_of_characters_by_default() {
    assert_eq!(get_length("héllo", &None::<Measure>), 5);
    assert_eq!(get_length("", &None::<Measure>), 0);
}

#[test]
fn length_is_what_the_measure_returns() {
    assert_eq!(get_length("abc", &Some(doubled as Measure)), 6);
    assert_eq!(get_length("abc", &Some(|_: &str| 42usize)), 42);
}

#[test]
fn units_are_split_at_runs_of_two_or_more_newlines() {
    let units = get_units("para one.\n\npara two is longer and alone.");
    assert_eq!(
        units,
        vec![unit("para one.", 0, 9), unit("para two is longer and alone.", 11, 40)]
    );
}

#[test]
fn units_keep_the_span_before_trimming() {
    let units = get_units("  a \n\n\n b\nc  \n\n");
    assert_eq!(units, vec![unit("a", 0, 4), unit("b\nc", 7, 13)]);
}

#[test]
fn units_of_blank_text_are_none() {
    assert_eq!(get_units(""), Vec::<ChunkUnit>::new());
    assert_eq!(get_units(" \n\n \n\n\n"), Vec::<ChunkUnit>::new());
}

#[test]
fn units_without_a_break_are_one() {
    assert_eq!(get_units(" one\ntwo "), vec![unit("one\ntwo", 0, 9)]);
}

#[test]
fn units_count_characters_not_bytes() {
    assert_eq!(get_units("é\n\nü ö"), vec![unit("é", 0, 1), unit("ü ö", 3, 6)]);
}

#[test]
fn fit_needs_each_unit_and_the_joined_whole_to_fit() {
    let units = vec![unit("abc", 0, 3), unit("de", 5, 7)];
    assert!(can_fit_all_units(&units, &None::<Measure>, 7, 2));
    assert!(!can_fit_all_units(&units, &None::<Measure>, 6, 2));
    assert!(can_fit_all_units(&units, &None::<Measure>, 5, 0));
    assert!(!can_fit_all_units(&units, &None::<Measure>, 2, 0));
    assert!(can_fit_all_units(&[], &None::<Measure>, 0, 2));
    assert!(!can_fit_all_units(&units, &Some(doubled as Measure), 11, 2));
    assert!(can_fit_all_units(&units, &Some(doubled as Measure), 12, 2));
}

#[test]
fn windows_of_three_characters() {
    let chunks = chunk_by_character("abcdefgh", 3, &None::<Measure>, 0, 0);
    assert_eq!(chunks, vec![unit("abc", 0, 3), unit("def", 3, 6), unit("gh", 6, 8)]);
}

#[test]
fn windows_overlap_and_count_from_the_offset() {
    let chunks = chunk_by_character("abcdefgh", 4, &None::<Measure>, 1, 10);
    assert_eq!(chunks, vec![unit("abcd", 10, 14), unit("defg", 13, 17), unit("gh", 16, 18)]);
}

#[test]
fn windows_hold_one_character_where_nothing_fits() {
    let chunks = chunk_by_character("abc", 0, &None::<Measure>, 0, 0);
    assert_eq!(chunks, vec![unit("a", 0, 1), unit("b", 1, 2), unit("c", 2, 3)]);
    let chunks = chunk_by_character("abc", 1, &Some(doubled as Measure), 0, 0);
    assert_eq!(chunks, vec![unit("a", 0, 1), unit("b", 1, 2), unit("c", 2, 3)]);
}

#[test]
fn windows_move_on_where_the_overlap_is_too_large() {
    let chunks = chunk_by_character("abcd", 2, &None::<Measure>, 5, 0);
    assert_eq!(chunks, vec![unit("ab", 0, 2), unit("bc", 1, 3), unit("cd", 2, 4)]);
}

#[test]
fn windows_follow_the_measure() {
    let chunks = chunk_by_character("abcdef", 4, &Some(doubled as Measure), 0, 0);
    assert_eq!(chunks, vec![unit("ab", 0, 2), unit("cd", 2, 4), unit("ef", 4, 6)]);
}

#[test]
fn windows_of_empty_text_are_none() {
    assert_eq!(chunk_by_character("", 3, &None::<Measure>, 0, 0), Vec::<ChunkUnit>::new());
}

#[test]
fn packing_takes_units_while_they_fit() {
    let units = vec![unit("aa", 0, 2), unit("bb", 4, 6), unit("cc", 8, 10), unit("dd", 12, 14)];
    let chunks = chunk_by_greedy_sliding_window(&units, &None::<Measure>, 2, 6, "\n\n", 0);
    assert_eq!(chunks, vec![unit("aa\n\nbb", 0, 6), unit("cc\n\ndd", 8, 14)]);
}

#[test]
fn packing_overlaps_by_units() {
    let units = vec![unit("aa", 0, 2), unit("bb", 4, 6), unit("cc", 8, 10), unit("dd", 12, 14)];
    let chunks = chunk_by_greedy_sliding_window(&units, &None::<Measure>, 1, 8, "-", 1);
    assert_eq!(
        chunks,
        vec![unit("aa-bb-cc", 0, 10), unit("cc-dd", 8, 14), unit("dd", 12, 14)]
    );
}

#[test]
fn packing_takes_an_oversized_unit_alone() {
    let units = vec![unit("aaaaaaaa", 0, 8), unit("b", 10, 11), unit("c", 13, 14)];
    let chunks = chunk_by_greedy_sliding_window(&units, &None::<Measure>, 2, 4, "\n\n", 0);
    assert_eq!(chunks, vec![unit("aaaaaaaa", 0, 8), unit("b\n\nc", 10, 14)]);
}

#[test]
fn packing_of_no_units_is_empty() {
    let chunks = chunk_by_greedy_sliding_window(&[], &None::<Measure>, 2, 4, "\n\n", 0);
    assert_eq!(chunks, Vec::<ChunkUnit>::new());
}

#[test]
fn packing_joins_paragraphs_that_fit_together() {
    let units = get_units("para one.\n\npara two is longer and alone.");
    let chunks = chunk_by_greedy_sliding_window(&units, &None::<Measure>, 2, 100, "\n\n", 0);
    assert_eq!(chunks, vec![unit("para one.\n\npara two is longer and alone.", 0, 40)]);
}

#[test]
fn packing_follows_the_measure() {
    let units = vec![unit("aa", 0, 2), unit("bb", 4, 6), unit("cc", 8, 10)];
    let chunks = chunk_by_greedy_sliding_window(&units, &Some(doubled as Measure), 1, 9, "+", 0);
    assert_eq!(chunks, vec![unit("aa+bb", 0, 6), unit("cc", 8, 10)]);
}

#[test]
fn packing_moves_on_where_the_overlap_is_too_large() {
    let units = vec![unit("a", 0, 1), unit("b", 3, 4), unit("c", 6, 7)];
    let chunks = chunk_by_greedy_sliding_window(&units, &None::<Measure>, 1, 3, "-", 9);
    assert_eq!(chunks, vec![unit("a-b", 0, 4), unit("b-c", 3, 7), unit("c", 6, 7)]);
}
