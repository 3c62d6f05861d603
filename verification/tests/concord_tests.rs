use jp_word_segment::concord::line_matches;
use jp_word_segment::token::TokenInfo;

fn toks(surfaces: &[&str]) -> Vec<TokenInfo> {
    surfaces
        .iter()
        .map(|s| TokenInfo { text: s.to_string(), pos: "名詞".to_string() })
        .collect()
}

#[test]
fn wide_window_clamps_to_line_boundaries() {
    // Tokens A B C D E, keyword C at index 2, window 10: the window runs
    // to both ends of the line.
    let tokens = toks(&["A", "B", "C", "D", "E"]);
    let results = line_matches(&tokens, "C", 10, 1);
    assert_eq!(results.len(), 1);
    assert_eq!(results[0].keyword, "C");
    assert_eq!(results[0].left_context, "AB");
    assert_eq!(results[0].right_context, "DE");
    assert_eq!(results[0].line_number, 1);
}

#[test]
fn window_one_takes_one_neighbour_each_side() {
    // The window bounds how many neighbouring tokens are included on each
    // side: with a window of one, one token to the left and one to the
    // right.
    let tokens = toks(&["A", "B", "C", "D", "E"]);
    let results = line_matches(&tokens, "C", 1, 1);
    assert_eq!(results.len(), 1);
    assert_eq!(results[0].left_context, "B");
    assert_eq!(results[0].right_context, "D");
}

#[test]
fn window_two_takes_two_neighbours_each_side() {
    let tokens = toks(&["A", "B", "C", "D", "E"]);
    let results = line_matches(&tokens, "C", 2, 1);
    assert_eq!(results.len(), 1);
    assert_eq!(results[0].left_context, "AB");
    assert_eq!(results[0].right_context, "DE");
}

#[test]
fn match_at_line_start_has_no_left_context() {
    let tokens = toks(&["A", "B", "C"]);
    let results = line_matches(&tokens, "A", 3, 7);
    assert_eq!(results.len(), 1);
    assert_eq!(results[0].left_context, "");
    assert_eq!(results[0].right_context, "BC");
    assert_eq!(results[0].line_number, 7);
}

#[test]
fn match_at_line_end_runs_to_the_end() {
    let tokens = toks(&["A", "B", "C"]);
    let results = line_matches(&tokens, "C", 2, 1);
    assert_eq!(results.len(), 1);
    assert_eq!(results[0].left_context, "AB");
    assert_eq!(results[0].right_context, "");
}

#[test]
fn repeated_keyword_yields_one_record_per_occurrence_in_order() {
    let tokens = toks(&["犬", "が", "犬", "を", "犬"]);
    let results = line_matches(&tokens, "犬", 1, 3);
    assert_eq!(results.len(), 3);
    assert_eq!(results[0].left_context, "");
    assert_eq!(results[0].right_context, "が");
    assert_eq!(results[1].left_context, "が");
    assert_eq!(results[1].right_context, "を");
    assert_eq!(results[2].left_context, "を");
    assert_eq!(results[2].right_context, "");
    for r in &results {
        assert_eq!(r.keyword, "犬");
        assert_eq!(r.line_number, 3);
    }
}

#[test]
fn empty_keyword_matches_no_token() {
    let tokens = toks(&["A", "B", "C"]);
    let results = line_matches(&tokens, "", 2, 1);
    assert_eq!(results.len(), 0);
}

#[test]
fn matching_is_exact_not_substring() {
    let tokens = toks(&["ABC", "AB"]);
    assert_eq!(line_matches(&tokens, "AB", 1, 1).len(), 1);
    assert_eq!(line_matches(&tokens, "B", 1, 1).len(), 0);
    assert_eq!(line_matches(&tokens, "ABCD", 1, 1).len(), 0);
}

#[test]
fn no_match_yields_an_empty_list() {
    let tokens = toks(&["A", "B"]);
    assert_eq!(line_matches(&tokens, "Z", 4, 1).len(), 0);
}
