use jp_word_segment::csv::export_csv;
use jp_word_segment::freq::aggregate;
use jp_word_segment::token::TokenInfo;

fn tok(text: &str, pos: &str) -> TokenInfo {
    TokenInfo { text: text.to_string(), pos: pos.to_string() }
}

#[test]
fn empty_token_list_exports_no_bytes() {
    let tokens: Vec<TokenInfo> = Vec::new();
    let freqs = aggregate(&tokens);
    let bytes = export_csv(&tokens, &freqs);
    assert_eq!(bytes.len(), 0);
}

#[test]
fn export_is_bom_header_and_one_row_per_token() {
    let tokens = vec![tok("犬", "名詞"), tok("が", "助詞"), tok("犬", "名詞")];
    let freqs = aggregate(&tokens);
    let bytes = export_csv(&tokens, &freqs);
    let mut want: Vec<u8> = vec![0xEF, 0xBB, 0xBF];
    want.extend_from_slice("単語,品詞,出現頻度\n犬,名詞,2\nが,助詞,1\n犬,名詞,2\n".as_bytes());
    assert_eq!(bytes, want);
}

#[test]
fn export_renders_counts_in_decimal() {
    let mut tokens = Vec::new();
    for _ in 0..12 {
        tokens.push(tok("多", "形容詞"));
    }
    let freqs = aggregate(&tokens);
    let bytes = export_csv(&tokens, &freqs);
    let text = String::from_utf8(bytes[3..].to_vec()).unwrap();
    for line in text.lines().skip(1) {
        assert_eq!(line, "多,形容詞,12");
    }
}

#[test]
fn parsing_the_export_recovers_the_table() {
    let tokens = vec![tok("吾輩", "名詞"), tok("は", "助詞"), tok("猫", "名詞"), tok("は", "助詞")];
    let freqs = aggregate(&tokens);
    let bytes = export_csv(&tokens, &freqs);
    assert_eq!(&bytes[..3], &[0xEF, 0xBB, 0xBF]);
    let text = String::from_utf8(bytes[3..].to_vec()).unwrap();
    let rows: Vec<&str> = text.lines().collect();
    assert_eq!(rows.len(), tokens.len() + 1);
    assert_eq!(rows[0], "単語,品詞,出現頻度");
    for (i, row) in rows.iter().enumerate().skip(1) {
        let fields: Vec<&str> = row.split(',').collect();
        assert_eq!(fields.len(), 3);
        assert_eq!(fields[0], tokens[i - 1].text);
        assert_eq!(fields[1], tokens[i - 1].pos);
        assert_eq!(fields[2], freqs.get(fields[0]).to_string());
    }
}
