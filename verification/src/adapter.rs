//! Trusted interface to code outside the verified library: the morphological
//! analyzer (lindera) and the few pieces of std that vstd gives no
//! specification.
//!
//! The analyzer is used with one fixed configuration — the embedded IPADIC
//! dictionary in normal segmentation mode — so its output is a function of
//! the input text alone. That function is given the name [`segmentation`];
//! nothing else is assumed about it beyond what lindera's source shows.

use vstd::prelude::*;

use crate::token::{TokenInfo, TokenView};

verus! {

/// Relies on str's `PartialEq`: two string slices are equal exactly when
/// their character sequences are.
pub assume_specification[ <str as PartialEq>::eq ](a: &str, b: &str) -> (r: bool)
    ensures
        r == (a@ == b@),
;

#[verifier::external_type_specification]
#[verifier::external_body]
pub struct ExDictionary(lindera::dictionary::Dictionary);

#[verifier::external_type_specification]
#[verifier::external_body]
pub struct ExSegmenter(lindera::segmenter::Segmenter);

/// A segmenter over the fixed configuration. The field is private and the
/// only constructor is [`new_segmenter`], so every value of this type
/// carries the embedded IPADIC dictionary in normal mode — which is what
/// entitles [`segment_text`] to describe its result as a function of the
/// text alone.
pub struct SegmenterHandle {
    inner: lindera::segmenter::Segmenter,
}

/// What the analyzer returns for a text, as surface/part-of-speech pairs:
/// `None` where segmentation fails, the token sequence in reading order
/// otherwise. The dictionary and mode are fixed, so the result depends on
/// the text alone.
pub uninterp spec fn segmentation(text: Seq<char>) -> Option<Seq<TokenView>>;

/// The token sequence of a text under the fail-soft policy: a text that
/// cannot be segmented yields no tokens.
pub open spec fn tokens_or_empty(text: Seq<char>) -> Seq<TokenView> {
    match segmentation(text) {
        Some(ts) => ts,
        None => Seq::empty(),
    }
}

/// Relies on lindera's `load_dictionary`: loads the embedded IPADIC
/// dictionary, or reports why it cannot. Whether loading succeeds is a
/// constant of the linked lindera build — it needs the feature that embeds
/// the dictionary — so no success is promised here.
#[verifier::external_body]
pub(crate) fn load_ipadic() -> (r: Result<lindera::dictionary::Dictionary, String>)
{
    match lindera::dictionary::load_dictionary("embedded://ipadic") {
        Ok(d) => Ok(d),
        Err(e) => Err(format!("{e}")),
    }
}

/// Relies on lindera's `Segmenter::new`: builds a segmenter over the given
/// dictionary in normal mode, with no user dictionary.
#[verifier::external_body]
pub(crate) fn new_segmenter(dictionary: lindera::dictionary::Dictionary) -> (r: SegmenterHandle)
{
    SegmenterHandle {
        inner: lindera::segmenter::Segmenter::new(lindera::mode::Mode::Normal, dictionary, None),
    }
}

/// Relies on lindera's `Segmenter::segment`: segments the text into tokens
/// in reading order, each carrying a surface form and detail fields whose
/// first entry is the part-of-speech tag. The handle guarantees the fixed
/// dictionary and mode, under which the outcome is deterministic, and an
/// empty text segments into no tokens.
#[verifier::external_body]
pub(crate) fn segment_text(seg: &SegmenterHandle, text: &str) -> (r: Option<
    Vec<TokenInfo>,
>)
    ensures
        r.deep_view() == segmentation(text@),
        text@.len() == 0 ==> r.deep_view() == Some(Seq::<TokenView>::empty()),
{
    match seg.inner.segment(std::borrow::Cow::Borrowed(text)) {
        Ok(toks) => {
            let mut out = Vec::with_capacity(toks.len());
            for mut t in toks {
                let pos = match t.get_detail(0) {
                    Some(d) => d.to_string(),
                    None => String::new(),
                };
                out.push(TokenInfo { text: t.surface.to_string(), pos });
            }
            Some(out)
        },
        Err(_) => None,
    }
}

} // verus!
