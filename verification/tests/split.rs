use chunker::structs::{ChunkIterator, ChunkResult, ChunkStrategy, SplitOptions};
use chunker::{get_chunk, iterate_chunks, offsets_fit, split};

type Measure = fn(&str) -> usize;

fn strings(items: &[&str]) -> Vec<String> {
    items.iter().map(|s| s.to_string()).collect()
}

fn chunk(text: &str, start: u32, end: u32) -> ChunkResult {
    ChunkResult { text: vec![text.to_string()], start, end }
}

fn windows(size: u32, overlap: u32) -> Option<SplitOptions<Measure>> {
    Some(SplitOptions {
        chunk_size: Some(size),
        chunk_overlap: Some(overlap),
        length_function: None,
        chunk_strategy: None,
    })
}

fn paragraphs(size: u32, overlap: u32) -> Option<SplitOptions<Measure>> {
    Some(SplitOptions {
        chunk_size: Some(size),
        chunk_overlap: Some(overlap),
        length_function: None,
        chunk_strategy: Some(ChunkStrategy::Paragraph),
    })
}

fn doubled(text: &str) -> usize {
    2 * text.chars().count()
}

#[test]
fn default_options_are_spelled_out() {
    let options = SplitOptions::<Measure>::default();
    assert_eq!(options.chunk_size, Some(512));
    assert_eq!(options.chunk_overlap, Some(0));
    assert!(options.length_function.is_none());
    assert!(options.chunk_strategy.is_none());
}

#[test]
fn split_into_windows_of_three() {
    assert_eq!(
        split(strings(&["abcdefgh"]), windows(3, 0)),
        vec![chunk("abc", 0, 3), chunk("def", 3, 6), chunk("gh", 6, 8)]
    );
}

#[test]
fn split_of_one_empty_segment_is_one_empty_chunk() {
    assert_eq!(split::<Measure>(strings(&[""]), None), vec![chunk("", 0, 0)]);
    assert_eq!(
        split(strings(&[""]), Some(SplitOptions::<Measure>::default())),
        vec![chunk("", 0, 0)]
    );
}

#[test]
fn split_of_no_segments_is_empty() {
    assert_eq!(split::<Measure>(Vec::new(), None), Vec::<ChunkResult>::new());
}

#[test]
fn split_without_options_takes_512_characters() {
    let long = "x".repeat(600);
    let chunks = split::<Measure>(vec![long.clone(), String::from("tail")], None);
    assert_eq!(
        chunks,
        vec![chunk(&long[..512], 0, 512), chunk(&long[512..], 512, 600), chunk("tail", 600, 604)]
    );
}

#[test]
fn split_unset_fields_take_their_defaults() {
    let options = SplitOptions::<Measure> {
        chunk_size: None,
        chunk_overlap: None,
        length_function: None,
        chunk_strategy: Some(ChunkStrategy::CharacterWindow),
    };
    let long = "y".repeat(513);
    assert_eq!(
        split(vec![long.clone()], Some(options)),
        vec![chunk(&long[..512], 0, 512), chunk("y", 512, 513)]
    );
}

#[test]
fn split_keeps_the_place_of_an_empty_segment() {
    assert_eq!(
        split(strings(&["abcd", "", "ef"]), windows(3, 0)),
        vec![chunk("abc", 0, 3), chunk("d", 3, 4), chunk("", 4, 4), chunk("ef", 4, 6)]
    );
}

#[test]
fn split_windows_overlap_within_a_segment_only() {
    assert_eq!(
        split(strings(&["abcde", "fgh"]), windows(3, 1)),
        vec![
            chunk("abc", 0, 3),
            chunk("cde", 2, 5),
            chunk("fgh", 5, 8),
        ]
    );
}

#[test]
fn split_with_a_measure_of_the_caller() {
    let options = SplitOptions {
        chunk_size: Some(4),
        chunk_overlap: Some(0),
        length_function: Some(doubled as Measure),
        chunk_strategy: None,
    };
    assert_eq!(
        split(strings(&["abcde"]), Some(options)),
        vec![chunk("ab", 0, 2), chunk("cd", 2, 4), chunk("e", 4, 5)]
    );
}

#[test]
fn paragraphs_that_fit_come_out_one_by_one() {
    let text = "para one.\n\npara two is longer and alone.";
    assert_eq!(
        split(strings(&[text]), paragraphs(100, 0)),
        vec![chunk("para one.", 0, 9), chunk("para two is longer and alone.", 11, 40)]
    );
}

#[test]
fn paragraphs_that_do_not_fit_together_are_packed() {
    let text = "para one.\n\npara two is longer and alone.";
    assert_eq!(
        split(strings(&[text]), paragraphs(30, 0)),
        vec![chunk("para one.", 0, 9), chunk("para two is longer and alone.", 11, 40)]
    );
}

#[test]
fn paragraphs_are_joined_where_packing_has_room() {
    let text = "aa\n\nbb\n\ncc\n\ndd";
    assert_eq!(
        split(strings(&[text]), paragraphs(6, 0)),
        vec![chunk("aa\n\nbb", 0, 6), chunk("cc\n\ndd", 8, 14)]
    );
}

#[test]
fn paragraph_spans_are_moved_to_the_segment() {
    assert_eq!(
        split(strings(&["abc", "one\n\ntwo"]), paragraphs(100, 0)),
        vec![chunk("abc", 0, 3), chunk("one", 3, 6), chunk("two", 8, 11)]
    );
}

#[test]
fn paragraph_segment_of_white_space_has_no_chunks() {
    assert_eq!(
        split(strings(&["one", " \n\n ", "", "two"]), paragraphs(100, 0)),
        vec![chunk("one", 0, 3), chunk("", 7, 7), chunk("two", 7, 10)]
    );
    assert_eq!(split(strings(&["\n\n\n"]), paragraphs(100, 0)), Vec::<ChunkResult>::new());
}

#[test]
fn producer_hands_out_one_chunk_per_pull() {
    let mut producer: ChunkIterator<Measure> =
        iterate_chunks(strings(&["abcd", "e"]), windows(3, 0));
    assert_eq!(producer.next(), Some(chunk("abc", 0, 3)));
    assert_eq!(producer.next(), Some(chunk("d", 3, 4)));
    assert_eq!(producer.next(), Some(chunk("e", 4, 5)));
    assert_eq!(producer.next(), None);
    assert_eq!(producer.next(), None);
}

#[test]
fn producer_made_directly() {
    let mut producer = ChunkIterator::<Measure>::new(strings(&["ab"]), None);
    assert_eq!(producer.next(), Some(chunk("ab", 0, 2)));
    assert_eq!(producer.next(), None);
}

#[test]
fn range_of_each_window_gives_its_text_back() {
    let segments = strings(&["abcde", "", "fgh", "ij"]);
    for size in 1..5u32 {
        for overlap in 0..size {
            for result in split(segments.clone(), windows(size, overlap)) {
                let pieces = get_chunk(segments.clone(), Some(result.start), Some(result.end));
                assert_eq!(pieces.concat(), result.text.concat());
            }
        }
    }
}

#[test]
fn windows_cover_the_input_without_gaps() {
    let segments = strings(&["abcdefghij", "klm"]);
    let results = split(segments.clone(), windows(4, 0));
    let mut at = 0;
    let mut text = String::new();
    for result in &results {
        assert_eq!(result.start, at);
        at = result.end;
        text.push_str(&result.text.concat());
    }
    assert_eq!(at, 13);
    assert_eq!(text, segments.concat());
}

#[test]
fn windows_always_move_on() {
    let results = split(strings(&["abcdefghij"]), windows(3, 7));
    for pair in results.windows(2) {
        assert!(pair[0].start < pair[1].start);
    }
    assert_eq!(results.last().map(|r| r.end), Some(10));
}

#[test]
fn paragraphs_overlap_by_units() {
    let text = "aa\n\nbb\n\ncc\n\ndd";
    assert_eq!(
        split(strings(&[text]), paragraphs(6, 1)),
        vec![
            chunk("aa\n\nbb", 0, 6),
            chunk("bb\n\ncc", 4, 10),
            chunk("cc\n\ndd", 8, 14),
            chunk("dd", 12, 14)
        ]
    );
}

#[test]
fn paragraphs_with_a_measure_of_the_caller() {
    let options = SplitOptions {
        chunk_size: Some(12),
        chunk_overlap: Some(0),
        length_function: Some(doubled as Measure),
        chunk_strategy: Some(ChunkStrategy::Paragraph),
    };
    assert_eq!(
        split(strings(&["aa\n\nbb\n\ncc"]), Some(options)),
        vec![chunk("aa\n\nbb", 0, 6), chunk("cc", 8, 10)]
    );
}

#[test]
fn paragraph_longer_than_the_bound_comes_out_whole() {
    assert_eq!(
        split(strings(&["abcdefgh\n\ni"]), paragraphs(4, 0)),
        vec![chunk("abcdefgh", 0, 8), chunk("i", 10, 11)]
    );
}

#[test]
fn empty_segments_each_have_their_chunk() {
    assert_eq!(
        split(strings(&["", "ab", "", ""]), windows(5, 0)),
        vec![chunk("", 0, 0), chunk("ab", 0, 2), chunk("", 2, 2), chunk("", 2, 2)]
    );
    assert_eq!(
        split(strings(&["", "ab"]), paragraphs(5, 0)),
        vec![chunk("", 0, 0), chunk("ab", 0, 2)]
    );
}

#[test]
fn chunks_count_characters_not_bytes() {
    assert_eq!(
        split(strings(&["héllo", "wörld"]), windows(3, 0)),
        vec![chunk("hél", 0, 3), chunk("lo", 3, 5), chunk("wör", 5, 8), chunk("ld", 8, 10)]
    );
}

#[test]
fn offsets_of_an_ordinary_input_fit() {
    assert!(offsets_fit(&strings(&["abc", "", "héllo"])));
    assert!(offsets_fit(&Vec::new()));
}
