//! The concordance engine: every line of the document is segmented on its
//! own, each exact occurrence of the keyword is located, and a bounded
//! window of neighbouring surface forms is concatenated on each side.

use vstd::prelude::*;
use vstd::string::{StrSliceExecFns, StringExecFns};

use crate::adapter::{segment_text, tokens_or_empty, SegmenterHandle};
use crate::lines::{spec_lines, split_lines};
use crate::token::{ConcordanceResult, ConcordanceView, TokenInfo, TokenView};

verus! {

/// Concatenation, without separators, of the surface forms of
/// `ts[from..to]`.
pub open spec fn concat_texts(ts: Seq<TokenView>, from: int, to: int) -> Seq<char>
    decreases to - from,
{
    if to <= from {
        Seq::empty()
    } else {
        concat_texts(ts, from, to - 1) + ts[to - 1].text
    }
}

/// First index of the left context window for a match at `i`.
pub open spec fn window_start(i: int, w: int) -> int {
    if i > w {
        i - w
    } else {
        0
    }
}

/// Index one past the right context window for a match at `i`: up to `w`
/// tokens after the match, clamped at the end of the line.
pub open spec fn window_end(ts: Seq<TokenView>, i: int, w: int) -> int {
    if i + w + 1 < ts.len() {
        i + w + 1
    } else {
        ts.len() as int
    }
}

/// The record emitted for a match of `kw` at token position `i` of a line.
pub open spec fn result_at(ts: Seq<TokenView>, kw: Seq<char>, w: int, ln: int, i: int)
    -> ConcordanceView {
    ConcordanceView {
        keyword: kw,
        left_context: concat_texts(ts, window_start(i, w), i),
        right_context: concat_texts(ts, i + 1, window_end(ts, i, w)),
        line_number: ln,
    }
}

/// The matches of `kw` among the first `n` tokens, in token order.
pub open spec fn line_results_upto(
    ts: Seq<TokenView>,
    kw: Seq<char>,
    w: int,
    ln: int,
    n: int,
) -> Seq<ConcordanceView>
    decreases n,
{
    if n <= 0 {
        Seq::empty()
    } else {
        line_results_upto(ts, kw, w, ln, n - 1) + (if ts[n - 1].text == kw {
            seq![result_at(ts, kw, w, ln, n - 1)]
        } else {
            Seq::empty()
        })
    }
}

/// All matches of `kw` in one line's token sequence, in token order.
pub open spec fn line_results(ts: Seq<TokenView>, kw: Seq<char>, w: int, ln: int)
    -> Seq<ConcordanceView> {
    line_results_upto(ts, kw, w, ln, ts.len() as int)
}

/// The matches of `kw` over a sequence of lines, the first line numbered
/// `base`, in line order and token order within a line.
pub open spec fn search_lines(lines: Seq<Seq<char>>, kw: Seq<char>, w: int, base: int)
    -> Seq<ConcordanceView>
    decreases lines.len(),
{
    if lines.len() == 0 {
        Seq::empty()
    } else {
        line_results(tokens_or_empty(lines.first()), kw, w, base) + search_lines(
            lines.drop_first(),
            kw,
            w,
            base + 1,
        )
    }
}

/// The full concordance of a document: its lines in order, numbered from 1.
pub open spec fn search_spec(text: Seq<char>, kw: Seq<char>, w: int) -> Seq<ConcordanceView> {
    search_lines(spec_lines(text), kw, w, 1)
}

/// Find every occurrence of `keyword` in one line's token sequence and
/// extract its context window.
pub fn line_matches(
    tokens: &Vec<TokenInfo>,
    keyword: &str,
    window: usize,
    line_number: usize,
) -> (r: Vec<ConcordanceResult>)
    requires
        window >= 1,
    ensures
        r.deep_view() == line_results(
            tokens.deep_view(),
            keyword@,
            window as int,
            line_number as int,
        ),
{
    let ghost ts = tokens.deep_view();
    let ghost kw = keyword@;
    let ghost w = window as int;
    let ghost ln = line_number as int;
    let n = tokens.len();
    let mut r: Vec<ConcordanceResult> = Vec::new();
    let mut i: usize = 0;
    proof {
        assert(r.deep_view() =~= Seq::<ConcordanceView>::empty());
    }
    while i < n
        invariant
            window >= 1,
            ts == tokens.deep_view(),
            kw == keyword@,
            w == window as int,
            ln == line_number as int,
            n == tokens@.len(),
            0 <= i <= n,
            r.deep_view() == line_results_upto(ts, kw, w, ln, i as int),
        decreases n - i,
    {
        if tokens[i].text.as_str().eq(keyword) {
            let start = if i > window {
                i - window
            } else {
                0
            };
            let end = if window < n - i - 1 {
                i + window + 1
            } else {
                n
            };
            let mut left = String::new();
            let mut k: usize = start;
            while k < i
                invariant
                    ts == tokens.deep_view(),
                    n == tokens@.len(),
                    0 <= start <= k <= i < n,
                    left@ == concat_texts(ts, start as int, k as int),
                decreases i - k,
            {
                left.append(tokens[k].text.as_str());
                k += 1;
            }
            let mut right = String::new();
            let mut m: usize = i + 1;
            proof {
                assert(right@ == concat_texts(ts, i as int + 1, i as int + 1));
            }
            while m < end
                invariant
                    ts == tokens.deep_view(),
                    n == tokens@.len(),
                    0 <= i < n,
                    i + 1 <= m,
                    m <= end <= n,
                    right@ == concat_texts(ts, i as int + 1, m as int),
                decreases end - m,
            {
                right.append(tokens[m].text.as_str());
                m += 1;
            }
            let ghost r_old = r.deep_view();
            r.push(
                ConcordanceResult {
                    keyword: keyword.to_owned(),
                    left_context: left,
                    right_context: right,
                    line_number,
                },
            );
            proof {
                assert(start as int == window_start(i as int, w));
                assert(end as int == window_end(ts, i as int, w));
                assert(r.deep_view() =~= r_old.push(result_at(ts, kw, w, ln, i as int)));
                assert(r.deep_view() =~= line_results_upto(ts, kw, w, ln, i as int) + seq![
                    result_at(ts, kw, w, ln, i as int),
                ]);
            }
        } else {
            proof {
                assert(line_results_upto(ts, kw, w, ln, i as int + 1) =~= line_results_upto(
                    ts,
                    kw,
                    w,
                    ln,
                    i as int,
                ));
            }
        }
        i += 1;
    }
    r
}

/// Appending line `j` of `lines`: the matches of `lines.take(j + 1)` are
/// those of `lines.take(j)` followed by the matches within line `j`.
proof fn lemma_search_lines_snoc(lines: Seq<Seq<char>>, kw: Seq<char>, w: int, base: int, j: int)
    requires
        0 <= j < lines.len(),
    ensures
        search_lines(lines.take(j + 1), kw, w, base) == search_lines(lines.take(j), kw, w, base)
            + line_results(tokens_or_empty(lines[j]), kw, w, base + j),
    decreases j,
{
    if j == 0 {
        assert(lines.take(1).len() == 1);
        assert(lines.take(1).first() == lines[0]);
        assert(lines.take(1).drop_first() =~= Seq::<Seq<char>>::empty());
        assert(lines.take(0int) =~= Seq::<Seq<char>>::empty());
        assert(search_lines(lines.take(1).drop_first(), kw, w, base + 1)
            == Seq::<ConcordanceView>::empty());
        assert(search_lines(lines.take(1), kw, w, base) == line_results(
            tokens_or_empty(lines[0]),
            kw,
            w,
            base,
        ) + Seq::<ConcordanceView>::empty());
        assert(line_results(tokens_or_empty(lines[0]), kw, w, base)
            + Seq::<ConcordanceView>::empty() =~= Seq::<ConcordanceView>::empty() + line_results(
            tokens_or_empty(lines[0]),
            kw,
            w,
            base,
        ));
        assert(search_lines(lines.take(0int), kw, w, base) == Seq::<ConcordanceView>::empty());
    } else {
        let tail = lines.drop_first();
        lemma_search_lines_snoc(tail, kw, w, base + 1, j - 1);
        assert(lines.take(j + 1).first() == lines[0]);
        assert(lines.take(j).first() == lines[0]);
        assert(lines.take(j + 1).drop_first() =~= tail.take(j));
        assert(lines.take(j).drop_first() =~= tail.take(j - 1));
        assert(tail[j - 1] == lines[j]);
        let a = line_results(tokens_or_empty(lines[0]), kw, w, base);
        let b = search_lines(tail.take(j - 1), kw, w, base + 1);
        let c = line_results(tokens_or_empty(lines[j]), kw, w, base + j);
        assert(search_lines(lines.take(j + 1), kw, w, base) == a + (b + c));
        assert(a + (b + c) =~= (a + b) + c);
    }
}

proof fn lemma_line_results_upto_line(ts: Seq<TokenView>, kw: Seq<char>, w: int, ln: int, n: int)
    ensures
        forall|x: int|
            0 <= x < line_results_upto(ts, kw, w, ln, n).len() ==> #[trigger] line_results_upto(
                ts,
                kw,
                w,
                ln,
                n,
            )[x].line_number == ln,
    decreases n,
{
    if n > 0 {
        lemma_line_results_upto_line(ts, kw, w, ln, n - 1);
        let cur = line_results_upto(ts, kw, w, ln, n);
        let prev = line_results_upto(ts, kw, w, ln, n - 1);
        assert forall|x: int| 0 <= x < cur.len() implies cur[x].line_number == ln by {
            if x < prev.len() {
                assert(cur[x] == prev[x]);
            } else {
                assert(cur[x] == result_at(ts, kw, w, ln, n - 1));
            }
        }
    }
}

/// Every record of one line's matches carries that line's number.
pub proof fn lemma_line_results_line_number(ts: Seq<TokenView>, kw: Seq<char>, w: int, ln: int)
    ensures
        forall|x: int|
            0 <= x < line_results(ts, kw, w, ln).len() ==> #[trigger] line_results(
                ts,
                kw,
                w,
                ln,
            )[x].line_number == ln,
{
    lemma_line_results_upto_line(ts, kw, w, ln, ts.len() as int);
}

proof fn lemma_search_lines_ordered(lines: Seq<Seq<char>>, kw: Seq<char>, w: int, base: int)
    ensures
        forall|x: int|
            0 <= x < search_lines(lines, kw, w, base).len() ==> #[trigger] search_lines(
                lines,
                kw,
                w,
                base,
            )[x].line_number >= base,
        forall|x: int, y: int|
            0 <= x <= y < search_lines(lines, kw, w, base).len() ==> search_lines(
                lines,
                kw,
                w,
                base,
            )[x].line_number <= search_lines(lines, kw, w, base)[y].line_number,
    decreases lines.len(),
{
    if lines.len() > 0 {
        let head = line_results(tokens_or_empty(lines.first()), kw, w, base);
        let tail = search_lines(lines.drop_first(), kw, w, base + 1);
        lemma_line_results_line_number(tokens_or_empty(lines.first()), kw, w, base);
        lemma_search_lines_ordered(lines.drop_first(), kw, w, base + 1);
        let all = search_lines(lines, kw, w, base);
        assert forall|x: int|
            0 <= x < all.len() implies #[trigger] all[x].line_number >= base by {
            if x < head.len() {
                assert(all[x] == head[x]);
            } else {
                assert(all[x] == tail[x - head.len()]);
            }
        }
        assert forall|x: int, y: int|
            0 <= x <= y < all.len() implies all[x].line_number <= all[y].line_number by {
            if x < head.len() {
                assert(all[x] == head[x]);
            } else {
                assert(all[x] == tail[x - head.len()]);
            }
            if y < head.len() {
                assert(all[y] == head[y]);
            } else {
                assert(all[y] == tail[y - head.len()]);
            }
        }
    }
}

/// Search results come ordered by line number, ascending: the engine walks
/// the lines in order, numbering them from 1, and within one line emits
/// matches in token order.
pub proof fn lemma_search_ordered(text: Seq<char>, kw: Seq<char>, w: int)
    ensures
        forall|x: int, y: int|
            0 <= x <= y < search_spec(text, kw, w).len() ==> search_spec(
                text,
                kw,
                w,
            )[x].line_number <= search_spec(text, kw, w)[y].line_number,
{
    lemma_search_lines_ordered(spec_lines(text), kw, w, 1);
}

proof fn lemma_line_results_upto_no_match(ts: Seq<TokenView>, kw: Seq<char>, w: int, ln: int, n: int)
    requires
        forall|k: int| 0 <= k < ts.len() ==> (#[trigger] ts[k].text) != kw,
        n <= ts.len(),
    ensures
        line_results_upto(ts, kw, w, ln, n) == Seq::<ConcordanceView>::empty(),
    decreases n,
{
    if n > 0 {
        lemma_line_results_upto_no_match(ts, kw, w, ln, n - 1);
        assert(line_results_upto(ts, kw, w, ln, n) =~= Seq::<ConcordanceView>::empty());
    }
}

/// A keyword that is no token's surface form finds nothing in that line.
pub proof fn lemma_line_results_no_match(ts: Seq<TokenView>, kw: Seq<char>, w: int, ln: int)
    requires
        forall|k: int| 0 <= k < ts.len() ==> (#[trigger] ts[k].text) != kw,
    ensures
        line_results(ts, kw, w, ln) == Seq::<ConcordanceView>::empty(),
{
    lemma_line_results_upto_no_match(ts, kw, w, ln, ts.len() as int);
}

/// Whether every token of every given line has a non-empty surface form.
pub open spec fn all_surfaces_nonempty(lines: Seq<Seq<char>>) -> bool {
    forall|j: int, k: int|
        0 <= j < lines.len() && 0 <= k < tokens_or_empty(lines[j]).len()
            ==> (#[trigger] tokens_or_empty(lines[j])[k]).text.len() > 0
}

proof fn lemma_search_lines_empty_keyword(lines: Seq<Seq<char>>, w: int, base: int)
    requires
        all_surfaces_nonempty(lines),
    ensures
        search_lines(lines, Seq::<char>::empty(), w, base) == Seq::<ConcordanceView>::empty(),
    decreases lines.len(),
{
    if lines.len() > 0 {
        let ts = tokens_or_empty(lines.first());
        assert forall|k: int|
            0 <= k < ts.len() implies (#[trigger] ts[k].text) != Seq::<char>::empty() by {
            assert(lines.first() == lines[0]);
            assert(tokens_or_empty(lines[0])[k].text.len() > 0);
        }
        lemma_line_results_no_match(ts, Seq::<char>::empty(), w, base);
        assert forall|j: int, k: int|
            0 <= j < lines.drop_first().len() && 0 <= k < tokens_or_empty(
                lines.drop_first()[j],
            ).len() implies (#[trigger] tokens_or_empty(lines.drop_first()[j])[k]).text.len()
            > 0 by {
            assert(lines.drop_first()[j] == lines[j + 1]);
        }
        lemma_search_lines_empty_keyword(lines.drop_first(), w, base + 1);
        assert(search_lines(lines, Seq::<char>::empty(), w, base) =~= Seq::<
            ConcordanceView,
        >::empty());
    }
}

/// An empty keyword finds nothing, as long as no token of any line has an
/// empty surface form — which holds of the segmenter's output on ordinary
/// text, where every token covers at least one character.
pub proof fn lemma_empty_keyword_no_results(text: Seq<char>, w: int)
    requires
        all_surfaces_nonempty(spec_lines(text)),
    ensures
        search_spec(text, Seq::<char>::empty(), w) == Seq::<ConcordanceView>::empty(),
{
    lemma_search_lines_empty_keyword(spec_lines(text), w, 1);
}

/// Search a whole document: split it into lines, segment each line on its
/// own, and collect every match in line order, lines numbered from 1.
pub fn search_document(
    seg: &SegmenterHandle,
    text: &str,
    keyword: &str,
    context_size: usize,
) -> (r: Vec<ConcordanceResult>)
    requires
        context_size >= 1,
    ensures
        r.deep_view() == search_spec(text@, keyword@, context_size as int),
{
    let ghost all = spec_lines(text@);
    let ghost kw = keyword@;
    let ghost w = context_size as int;
    let lines = split_lines(text);
    let n = lines.len();
    let mut r: Vec<ConcordanceResult> = Vec::new();
    let mut j: usize = 0;
    proof {
        assert(r.deep_view() =~= Seq::<ConcordanceView>::empty());
        assert(all.take(0int) =~= Seq::<Seq<char>>::empty());
    }
    while j < n
        invariant
            context_size >= 1,
            all == spec_lines(text@),
            all == lines.deep_view(),
            kw == keyword@,
            w == context_size as int,
            n == lines@.len(),
            0 <= j <= n,
            r.deep_view() == search_lines(all.take(j as int), kw, w, 1),
        decreases n - j,
    {
        let toks = match segment_text(seg, lines[j].as_str()) {
            Some(v) => v,
            None => Vec::new(),
        };
        proof {
            assert(lines.deep_view()[j as int] == lines@[j as int]@);
            assert(toks.deep_view() == tokens_or_empty(all[j as int]));
        }
        let mut found = line_matches(&toks, keyword, context_size, j + 1);
        let ghost r_old = r.deep_view();
        let ghost f_view = found.deep_view();
        r.append(&mut found);
        proof {
            assert(r.deep_view() =~= r_old + f_view);
            lemma_search_lines_snoc(all, kw, w, 1, j as int);
        }
        j += 1;
    }
    proof {
        assert(all.take(n as int) =~= all);
    }
    r
}

} // verus!
