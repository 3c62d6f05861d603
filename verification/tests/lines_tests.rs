use jp_word_segment::lines::split_lines;

#[test]
fn splits_at_newlines() {
    assert_eq!(split_lines("a\nb"), vec!["a".to_string(), "b".to_string()]);
}

#[test]
fn drops_the_final_line_terminator() {
    assert_eq!(split_lines("a\nb\n"), vec!["a".to_string(), "b".to_string()]);
}

#[test]
fn empty_text_has_no_lines() {
    assert_eq!(split_lines(""), Vec::<String>::new());
}

#[test]
fn a_lone_newline_is_one_empty_line() {
    assert_eq!(split_lines("\n"), vec!["".to_string()]);
}

#[test]
fn preserves_empty_lines_between_others() {
    assert_eq!(
        split_lines("a\n\nb"),
        vec!["a".to_string(), "".to_string(), "b".to_string()]
    );
}

#[test]
fn strips_carriage_return_before_newline() {
    assert_eq!(split_lines("a\r\nb\r\n"), vec!["a".to_string(), "b".to_string()]);
}

#[test]
fn keeps_carriage_return_elsewhere() {
    assert_eq!(split_lines("a\rb"), vec!["a\rb".to_string()]);
    assert_eq!(split_lines("a\r"), vec!["a\r".to_string()]);
}

#[test]
fn handles_multibyte_text() {
    assert_eq!(
        split_lines("吾輩は猫である\n名前はまだ無い"),
        vec!["吾輩は猫である".to_string(), "名前はまだ無い".to_string()]
    );
}
