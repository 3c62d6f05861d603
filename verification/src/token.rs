//! The data model: tokens produced by the morphological analyzer and
//! records returned by the concordance search.

use vstd::prelude::*;

verus! {

/// One lexical token: its surface form and its part-of-speech tag.
#[derive(Debug, Clone)]
pub struct TokenInfo {
    pub text: String,
    pub pos: String,
}

/// Mathematical view of a token: both fields as character sequences.
pub ghost struct TokenView {
    pub text: Seq<char>,
    pub pos: Seq<char>,
}

impl View for TokenInfo {
    type V = TokenView;

    open spec fn view(&self) -> TokenView {
        TokenView { text: self.text@, pos: self.pos@ }
    }
}

impl DeepView for TokenInfo {
    type V = TokenView;

    open spec fn deep_view(&self) -> TokenView {
        self@
    }
}

/// One occurrence of a keyword found by the concordance search, with the
/// concatenated surface forms of its neighbours and its 1-based line number.
#[derive(Debug, Clone)]
pub struct ConcordanceResult {
    pub keyword: String,
    pub left_context: String,
    pub right_context: String,
    pub line_number: usize,
}

/// Mathematical view of a concordance record.
pub ghost struct ConcordanceView {
    pub keyword: Seq<char>,
    pub left_context: Seq<char>,
    pub right_context: Seq<char>,
    pub line_number: int,
}

impl View for ConcordanceResult {
    type V = ConcordanceView;

    open spec fn view(&self) -> ConcordanceView {
        ConcordanceView {
            keyword: self.keyword@,
            left_context: self.left_context@,
            right_context: self.right_context@,
            line_number: self.line_number as int,
        }
    }
}

impl DeepView for ConcordanceResult {
    type V = ConcordanceView;

    open spec fn deep_view(&self) -> ConcordanceView {
        self@
    }
}

/// How many tokens of `ts` have `s` as their surface form.
pub open spec fn count_matching(ts: Seq<TokenView>, s: Seq<char>) -> nat
    decreases ts.len(),
{
    if ts.len() == 0 {
        0
    } else {
        count_matching(ts.drop_last(), s) + (if ts.last().text == s {
            1nat
        } else {
            0nat
        })
    }
}

pub proof fn lemma_count_matching_le_len(ts: Seq<TokenView>, s: Seq<char>)
    ensures
        count_matching(ts, s) <= ts.len(),
    decreases ts.len(),
{
    if ts.len() > 0 {
        lemma_count_matching_le_len(ts.drop_last(), s);
    }
}

pub proof fn lemma_count_matching_push(ts: Seq<TokenView>, t: TokenView, s: Seq<char>)
    ensures
        count_matching(ts.push(t), s) == count_matching(ts, s) + (if t.text == s {
            1nat
        } else {
            0nat
        }),
{
    assert(ts.push(t).drop_last() =~= ts);
    assert(ts.push(t).last() == t);
}

} // verus!
