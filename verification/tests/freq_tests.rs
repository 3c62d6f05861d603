use jp_word_segment::freq::{aggregate, FreqMap};
use jp_word_segment::token::TokenInfo;

fn tok(text: &str, pos: &str) -> TokenInfo {
    TokenInfo { text: text.to_string(), pos: pos.to_string() }
}

#[test]
fn aggregate_counts_each_surface_form() {
    let tokens = vec![tok("犬", "名詞"), tok("が", "助詞"), tok("犬", "名詞")];
    let freqs = aggregate(&tokens);
    assert_eq!(freqs.get("犬"), 2);
    assert_eq!(freqs.get("が"), 1);
    assert_eq!(freqs.get("猫"), 0);
    assert_eq!(freqs.len(), 2);
}

#[test]
fn aggregate_counts_sum_to_token_count() {
    let tokens = vec![tok("a", "x"), tok("b", "y"), tok("a", "x"), tok("c", "z"), tok("a", "x")];
    let freqs = aggregate(&tokens);
    let total = freqs.get("a") + freqs.get("b") + freqs.get("c");
    assert_eq!(total, tokens.len());
}

#[test]
fn aggregate_of_nothing_is_empty() {
    let tokens: Vec<TokenInfo> = Vec::new();
    let freqs = aggregate(&tokens);
    assert_eq!(freqs.len(), 0);
    assert_eq!(freqs.get(""), 0);
    assert_eq!(freqs.get("犬"), 0);
}

#[test]
fn aggregate_shares_count_across_tags() {
    // One surface form under two different tags: the tags stay with each
    // occurrence in the token list, the table keeps one shared count.
    let tokens = vec![tok("行く", "動詞"), tok("行く", "名詞")];
    let freqs = aggregate(&tokens);
    assert_eq!(freqs.get("行く"), 2);
    assert_eq!(freqs.len(), 1);
    assert_eq!(tokens[0].pos, "動詞");
    assert_eq!(tokens[1].pos, "名詞");
}

#[test]
fn increment_starts_at_one_and_counts_up() {
    let mut freqs = FreqMap::new();
    assert_eq!(freqs.len(), 0);
    let word = "語".to_string();
    freqs.increment(&word);
    assert_eq!(freqs.get("語"), 1);
    freqs.increment(&word);
    assert_eq!(freqs.get("語"), 2);
    let other = "文".to_string();
    freqs.increment(&other);
    assert_eq!(freqs.get("文"), 1);
    assert_eq!(freqs.get("語"), 2);
    assert_eq!(freqs.len(), 2);
}
