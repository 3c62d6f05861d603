//! The analysis session: one fixed segmenter, the current document text,
//! and the token list and frequency table of the last analysis. Both are
//! replaced wholesale on every analysis, so no partial state is ever
//! observable.

use vstd::prelude::*;

use crate::adapter::{load_ipadic, new_segmenter, segment_text, tokens_or_empty, SegmenterHandle};
use crate::concord::{search_document, search_spec};
use crate::csv::{csv_bytes_spec, export_csv};
use crate::freq::{aggregate, counts_positive, distinct_keys, spec_get, sum_counts, FreqMap};
use crate::token::{count_matching, ConcordanceResult, TokenInfo};

verus! {

/// The in-memory analysis pipeline.
pub struct TokenizerCore {
    pub segmenter: SegmenterHandle,
    pub input_text: String,
    pub tokens: Vec<TokenInfo>,
    pub word_frequencies: FreqMap,
    pub file_path: Option<String>,
}

impl TokenizerCore {
    /// Build a session around the fixed dictionary and mode. Fails only
    /// where the dictionary cannot be loaded, with a diagnostic message.
    pub fn new() -> (r: Result<TokenizerCore, String>)
        ensures
            r matches Ok(c) ==> {
                &&& c.input_text@ == Seq::<char>::empty()
                &&& c.tokens@.len() == 0
                &&& c.word_frequencies@ == Seq::<(Seq<char>, usize)>::empty()
                &&& distinct_keys(c.word_frequencies@)
                &&& counts_positive(c.word_frequencies@)
                &&& c.file_path is None
            },
    {
        let dictionary = match load_ipadic() {
            Ok(d) => d,
            Err(e) => {
                return Err(e);
            },
        };
        let segmenter = new_segmenter(dictionary);
        Ok(
            TokenizerCore {
                segmenter,
                input_text: String::new(),
                tokens: Vec::new(),
                word_frequencies: FreqMap::new(),
                file_path: None,
            },
        )
    }

    /// Analyze the current text: segment it once as a whole, keep the
    /// tokens in reading order, and rebuild the frequency table so that
    /// every surface form is mapped to its number of occurrences. A text
    /// that cannot be segmented yields empty results rather than an error,
    /// and an empty text yields empty results.
    pub fn analyze_text(&mut self)
        ensures
            final(self).segmenter == old(self).segmenter,
            final(self).input_text == old(self).input_text,
            final(self).file_path == old(self).file_path,
            final(self).tokens.deep_view() == tokens_or_empty(old(self).input_text@),
            distinct_keys(final(self).word_frequencies@),
            counts_positive(final(self).word_frequencies@),
            forall|s: Seq<char>|
                spec_get(final(self).word_frequencies@, s) == count_matching(
                    final(self).tokens.deep_view(),
                    s,
                ),
            sum_counts(final(self).word_frequencies@) == final(self).tokens@.len(),
            old(self).input_text@.len() == 0 ==> final(self).tokens@.len() == 0,
            final(self).tokens@.len() == 0 ==> final(self).word_frequencies@ == Seq::<
                (Seq<char>, usize),
            >::empty(),
    {
        let toks = match segment_text(&self.segmenter, self.input_text.as_str()) {
            Some(v) => v,
            None => Vec::new(),
        };
        proof {
            assert(toks.deep_view().len() == toks@.len());
        }
        self.word_frequencies = aggregate(&toks);
        self.tokens = toks;
    }

    /// Search the current text for exact occurrences of `keyword`,
    /// segmenting each line on its own so that line numbers are exact.
    /// Results come in line order and, within a line, in token order.
    pub fn search_concordance(&self, keyword: &str, context_size: usize) -> (r: Vec<
        ConcordanceResult,
    >)
        requires
            context_size >= 1,
        ensures
            r.deep_view() == search_spec(self.input_text@, keyword@, context_size as int),
    {
        search_document(&self.segmenter, self.input_text.as_str(), keyword, context_size)
    }

    /// The CSV export of the last analysis: no bytes at all while no
    /// tokens are held, else the byte-order mark, the header line, and one
    /// line per token.
    pub fn csv_bytes(&self) -> (r: Vec<u8>)
        ensures
            r@ == csv_bytes_spec(self.tokens.deep_view(), self.word_frequencies@),
            self.tokens@.len() == 0 ==> r@ == Seq::<u8>::empty(),
    {
        export_csv(&self.tokens, &self.word_frequencies)
    }
}

/// Analysis is a function of the document text alone: the contract of
/// [`TokenizerCore::analyze_text`] determines the token view and every
/// frequency from the text, so two analyses of the same text — in
/// particular one repeated twice — agree in both.
pub proof fn lemma_analysis_deterministic(
    text: Seq<char>,
    ts1: Seq<crate::token::TokenView>,
    ts2: Seq<crate::token::TokenView>,
)
    requires
        ts1 == tokens_or_empty(text),
        ts2 == tokens_or_empty(text),
    ensures
        ts1 == ts2,
        forall|s: Seq<char>| count_matching(ts1, s) == count_matching(ts2, s),
{
}

} // verus!
