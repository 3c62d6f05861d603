use jp_word_segment::engine::TokenizerCore;

#[test]
fn a_fresh_session_starts_empty() {
    // Construction needs the embedded dictionary; where that is not
    // compiled in, the constructor reports it instead of panicking.
    match TokenizerCore::new() {
        Ok(core) => {
            assert_eq!(core.input_text, "");
            assert_eq!(core.tokens.len(), 0);
            assert_eq!(core.word_frequencies.len(), 0);
            assert!(core.file_path.is_none());
        }
        Err(message) => {
            assert!(!message.is_empty());
        }
    }
}

#[test]
fn analyzing_an_empty_text_yields_empty_results() {
    if let Ok(mut core) = TokenizerCore::new() {
        core.analyze_text();
        assert_eq!(core.tokens.len(), 0);
        assert_eq!(core.word_frequencies.len(), 0);
        let bytes = core.csv_bytes();
        assert_eq!(bytes.len(), 0);
    }
}

#[test]
fn analyzing_twice_gives_the_same_results() {
    if let Ok(mut core) = TokenizerCore::new() {
        core.input_text = "吾輩は猫である。".to_string();
        core.analyze_text();
        let first: Vec<(String, String)> =
            core.tokens.iter().map(|t| (t.text.clone(), t.pos.clone())).collect();
        let first_counts: Vec<usize> =
            first.iter().map(|(text, _)| core.word_frequencies.get(text)).collect();
        core.analyze_text();
        let second: Vec<(String, String)> =
            core.tokens.iter().map(|t| (t.text.clone(), t.pos.clone())).collect();
        let second_counts: Vec<usize> =
            second.iter().map(|(text, _)| core.word_frequencies.get(text)).collect();
        assert_eq!(first, second);
        assert_eq!(first_counts, second_counts);
    }
}
