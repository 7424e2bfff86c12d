use chunker::get_chunk;

fn strings(items: &[&str]) -> Vec<String> {
    items.iter().map(|s| s.to_string()).collect()
}

#[test]
fn test_should_return_the_full_string_if_no_start_end_provided() {
    assert_eq!(
        get_chunk(vec![String::from("abcdefgh")], Option::None, Option::None),
        vec![String::from("abcdefgh")]
    );
    assert_eq!(
        get_chunk(
            vec![String::from("abc"), String::from("def"), String::from("gh")],
            Option::None,
            Option::None
        ),
        vec![String::from("abc"), String::from("def"), String::from("gh")]
    )
}

#[test]
fn test_should_return_substring_for_start_only() {
    assert_eq!(
        get_chunk(vec![String::from("abcdefgh")], Some(2), Option::None),
        vec![String::from("cdefgh")]
    );
    assert_eq!(
        get_chunk(
            vec![String::from("abc"), String::from("def"), String::from("gh")],
            Some(3),
            Option::None
        ),
        vec![String::from("def"), String::from("gh")]
    );
}

#[test]
fn range_within_one_segment() {
    assert_eq!(get_chunk(strings(&["abcdefgh"]), Some(2), Some(5)), strings(&["cde"]));
    assert_eq!(get_chunk(strings(&["abc", "def", "gh"]), Some(4), Some(5)), strings(&["e"]));
}

#[test]
fn range_over_several_segments() {
    assert_eq!(
        get_chunk(strings(&["abc", "def", "gh"]), Some(1), Some(7)),
        strings(&["bc", "def", "g"])
    );
    assert_eq!(get_chunk(strings(&["abc", "def", "gh"]), Some(2), Some(4)), strings(&["c", "d"]));
    assert_eq!(
        get_chunk(strings(&["abc", "", "def"]), Some(0), Option::None),
        strings(&["abc", "def"])
    );
}

#[test]
fn range_that_starts_beyond_the_input_is_empty() {
    assert_eq!(get_chunk(strings(&["abc", "def"]), Some(7), Option::None), Vec::<String>::new());
    assert_eq!(get_chunk(Vec::new(), Option::None, Option::None), Vec::<String>::new());
}

#[test]
fn range_at_the_very_end_is_one_empty_piece() {
    assert_eq!(get_chunk(strings(&["abc"]), Some(3), Option::None), strings(&[""]));
}

#[test]
fn range_that_ends_before_it_starts_is_empty() {
    assert_eq!(get_chunk(strings(&["abc", "def"]), Some(5), Some(1)), Vec::<String>::new());
    assert_eq!(get_chunk(strings(&["abcdef"]), Some(4), Some(2)), Vec::<String>::new());
}

#[test]
fn range_end_beyond_the_input_is_clamped() {
    assert_eq!(get_chunk(strings(&["abc", "def"]), Some(4), Some(100)), strings(&["ef"]));
}

#[test]
fn range_counts_characters_not_bytes() {
    assert_eq!(
        get_chunk(strings(&["héllo", "wörld"]), Some(1), Some(7)),
        strings(&["éllo", "wö"])
    );
}
