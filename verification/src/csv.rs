//! The exporter: the token list and its frequency table rendered as
//! comma-separated text, preceded by a UTF-8 byte-order mark so that
//! spreadsheet applications pick the right encoding. Surface forms are not
//! quoted or escaped; a comma inside one makes a malformed row, which is a
//! known limit of the format.

use vstd::prelude::*;
use vstd::string::{StrSliceExecFns, StringExecFns};
use vstd::utf8::encode_utf8;

use crate::freq::{spec_get, FreqMap};
use crate::lines::{chomp, lemma_lines_prepend, lemma_split_on_none, lemma_split_on_prepend,
    spec_lines, split_on};
use crate::numfmt::{append_dec, dec_chars, is_digit_char, lemma_dec_chars_digits};
use crate::token::{TokenInfo, TokenView};

verus! {

/// The three bytes of the UTF-8 byte-order mark.
pub open spec fn bom_bytes() -> Seq<u8> {
    seq![0xEFu8, 0xBBu8, 0xBFu8]
}

/// The header line's characters: word, part of speech, frequency.
pub open spec fn header_chars() -> Seq<char> {
    seq!['単', '語', ',', '品', '詞', ',', '出', '現', '頻', '度']
}

/// One data line before its terminator: surface form, tag, and the decimal
/// count stored for the surface form, separated by commas.
pub open spec fn body_chars(t: TokenView, f: usize) -> Seq<char> {
    t.text + seq![','] + t.pos + seq![','] + dec_chars(f as nat)
}

/// One data line with its terminator.
pub open spec fn row_chars(t: TokenView, f: usize) -> Seq<char> {
    body_chars(t, f) + seq!['\n']
}

/// All data lines, one per token, in token order.
pub open spec fn rows_chars(ts: Seq<TokenView>, m: Seq<(Seq<char>, usize)>) -> Seq<char>
    decreases ts.len(),
{
    if ts.len() == 0 {
        Seq::empty()
    } else {
        rows_chars(ts.drop_last(), m) + row_chars(ts.last(), spec_get(m, ts.last().text))
    }
}

/// The whole export as text: header line, then one line per token.
pub open spec fn csv_chars(ts: Seq<TokenView>, m: Seq<(Seq<char>, usize)>) -> Seq<char> {
    header_chars() + seq!['\n'] + rows_chars(ts, m)
}

/// The exported bytes: nothing at all for an empty token list, else the
/// byte-order mark followed by the text in UTF-8.
pub open spec fn csv_bytes_spec(ts: Seq<TokenView>, m: Seq<(Seq<char>, usize)>) -> Seq<u8> {
    if ts.len() == 0 {
        Seq::empty()
    } else {
        bom_bytes() + encode_utf8(csv_chars(ts, m))
    }
}

/// Render the token list and its frequency table as CSV bytes. An empty
/// token list yields no bytes at all.
pub fn export_csv(tokens: &Vec<TokenInfo>, freqs: &FreqMap) -> (r: Vec<u8>)
    ensures
        r@ == csv_bytes_spec(tokens.deep_view(), freqs@),
        tokens@.len() == 0 ==> r@ == Seq::<u8>::empty(),
{
    let ghost ts = tokens.deep_view();
    let ghost m = freqs@;
    let n = tokens.len();
    if n == 0 {
        let r = Vec::new();
        proof {
            assert(r@ =~= Seq::<u8>::empty());
        }
        return r;
    }
    let mut content = String::new();
    content.append("単語,品詞,出現頻度");
    content.append("\n");
    proof {
        reveal_strlit("単語,品詞,出現頻度");
        reveal_strlit("\n");
        assert("単語,品詞,出現頻度"@ =~= header_chars());
        assert("\n"@ =~= seq!['\n']);
        assert(content@ =~= header_chars() + seq!['\n'] + rows_chars(ts.take(0int), m));
    }
    let mut i: usize = 0;
    while i < n
        invariant
            ts == tokens.deep_view(),
            m == freqs@,
            n == tokens@.len(),
            0 <= i <= n,
            content@ == header_chars() + seq!['\n'] + rows_chars(ts.take(i as int), m),
        decreases n - i,
    {
        let t = &tokens[i];
        content.append(t.text.as_str());
        content.append(",");
        content.append(t.pos.as_str());
        content.append(",");
        let f = freqs.get(t.text.as_str());
        append_dec(&mut content, f);
        content.append("\n");
        proof {
            reveal_strlit(",");
            reveal_strlit("\n");
            assert(","@ =~= seq![',']);
            assert("\n"@ =~= seq!['\n']);
            let prefix = ts.take(i as int);
            let next = ts.take(i as int + 1);
            assert(next.drop_last() =~= prefix);
            assert(next.last() == ts[i as int]);
            assert(rows_chars(next, m) == rows_chars(prefix, m) + row_chars(
                ts[i as int],
                spec_get(m, ts[i as int].text),
            ));
            assert(content@ =~= header_chars() + seq!['\n'] + rows_chars(next, m));
        }
        i += 1;
    }
    proof {
        assert(ts.take(n as int) =~= ts);
    }
    let mut r: Vec<u8> = Vec::new();
    r.push(0xEF);
    r.push(0xBB);
    r.push(0xBF);
    let mut bytes = content.as_str().as_bytes_vec();
    r.append(&mut bytes);
    proof {
        assert(r@ =~= bom_bytes() + encode_utf8(csv_chars(ts, m)));
    }
    r
}

/// Whether a surface form or tag can stand in a row unharmed: it holds
/// neither a line terminator nor the field separator.
pub open spec fn clean_field(s: Seq<char>) -> bool {
    forall|k: int| 0 <= k < s.len() ==> s[k] != '\n' && s[k] != ','
}

proof fn lemma_body_shape(t: TokenView, f: usize)
    requires
        clean_field(t.text),
        clean_field(t.pos),
    ensures
        forall|k: int| 0 <= k < body_chars(t, f).len() ==> #[trigger] body_chars(t, f)[k] != '\n',
        body_chars(t, f).len() > 0,
        body_chars(t, f).last() != '\r',
{
    let body = body_chars(t, f);
    let d = dec_chars(f as nat);
    lemma_dec_chars_digits(f as nat);
    let a = t.text.len() as int;
    let b = a + 1 + t.pos.len() as int;
    assert forall|k: int| 0 <= k < body.len() implies #[trigger] body[k] != '\n' by {
        if k < a {
            assert(body[k] == t.text[k]);
        } else if k == a {
            assert(body[k] == ',');
        } else if k < b {
            assert(body[k] == t.pos[k - a - 1]);
        } else if k == b {
            assert(body[k] == ',');
        } else {
            assert(body[k] == d[k - b - 1]);
            assert(is_digit_char(d[k - b - 1]));
        }
    }
    assert(body.last() == d.last());
    assert(is_digit_char(d.last()));
}

proof fn lemma_body_fields(t: TokenView, f: usize)
    requires
        clean_field(t.text),
        clean_field(t.pos),
    ensures
        split_on(body_chars(t, f), ',') == seq![t.text, t.pos, dec_chars(f as nat)],
{
    let d = dec_chars(f as nat);
    lemma_dec_chars_digits(f as nat);
    let rest1 = t.pos + seq![','] + d;
    assert(body_chars(t, f) =~= t.text + seq![','] + rest1);
    lemma_split_on_prepend(t.text, rest1, ',');
    lemma_split_on_prepend(t.pos, d, ',');
    assert forall|k: int| 0 <= k < d.len() implies d[k] != ',' by {
        assert(is_digit_char(d[k]));
    }
    lemma_split_on_none(d, ',');
    assert(seq![t.text] + (seq![t.pos] + seq![d]) =~= seq![t.text, t.pos, d]);
}

proof fn lemma_rows_head(ts: Seq<TokenView>, m: Seq<(Seq<char>, usize)>)
    requires
        ts.len() > 0,
    ensures
        rows_chars(ts, m) == row_chars(ts.first(), spec_get(m, ts.first().text)) + rows_chars(
            ts.drop_first(),
            m,
        ),
    decreases ts.len(),
{
    let row0 = row_chars(ts.first(), spec_get(m, ts.first().text));
    if ts.len() == 1 {
        assert(ts.drop_last() =~= Seq::<TokenView>::empty());
        assert(ts.drop_first() =~= Seq::<TokenView>::empty());
        assert(ts.last() == ts.first());
        assert(Seq::<char>::empty() + row0 =~= row0 + Seq::<char>::empty());
    } else {
        let dl = ts.drop_last();
        lemma_rows_head(dl, m);
        assert(dl.first() == ts.first());
        let rowlast = row_chars(ts.last(), spec_get(m, ts.last().text));
        assert(ts.drop_first().len() > 0);
        assert(ts.drop_first().drop_last() =~= dl.drop_first());
        assert(ts.drop_first().last() == ts.last());
        assert(rows_chars(ts.drop_first(), m) == rows_chars(dl.drop_first(), m) + rowlast);
        assert((row0 + rows_chars(dl.drop_first(), m)) + rowlast =~= row0 + (rows_chars(
            dl.drop_first(),
            m,
        ) + rowlast));
    }
}

proof fn lemma_rows_parse(ts: Seq<TokenView>, m: Seq<(Seq<char>, usize)>)
    requires
        forall|i: int|
            0 <= i < ts.len() ==> clean_field(#[trigger] ts[i].text) && clean_field(ts[i].pos),
    ensures
        spec_lines(rows_chars(ts, m)).len() == ts.len(),
        forall|i: int|
            0 <= i < ts.len() ==> #[trigger] spec_lines(rows_chars(ts, m))[i] == body_chars(
                ts[i],
                spec_get(m, ts[i].text),
            ),
    decreases ts.len(),
{
    if ts.len() == 0 {
        assert(rows_chars(ts, m) == Seq::<char>::empty());
        assert(spec_lines(Seq::<char>::empty()) =~= Seq::<Seq<char>>::empty());
    } else {
        lemma_rows_head(ts, m);
        let f0 = spec_get(m, ts.first().text);
        let body0 = body_chars(ts.first(), f0);
        let rest = rows_chars(ts.drop_first(), m);
        assert(ts.first() == ts[0]);
        lemma_body_shape(ts.first(), f0);
        assert(rows_chars(ts, m) =~= body0 + seq!['\n'] + rest);
        lemma_lines_prepend(body0, rest);
        assert(chomp(body0) == body0);
        assert forall|i: int|
            0 <= i < ts.drop_first().len() implies clean_field(
            #[trigger] ts.drop_first()[i].text,
        ) && clean_field(ts.drop_first()[i].pos) by {
            assert(ts.drop_first()[i] == ts[i + 1]);
        }
        lemma_rows_parse(ts.drop_first(), m);
        let all = spec_lines(rows_chars(ts, m));
        assert(all == seq![body0] + spec_lines(rest));
        assert forall|i: int|
            0 <= i < ts.len() implies #[trigger] all[i] == body_chars(
            ts[i],
            spec_get(m, ts[i].text),
        ) by {
            if i == 0 {
                assert(all[0] == body0);
            } else {
                assert(all[i] == spec_lines(rest)[i - 1]);
                assert(ts.drop_first()[i - 1] == ts[i]);
            }
        }
    }
}

/// Round trip: parsing the exporter's own text output — the byte-order
/// mark aside — with the library's own line splitting recovers one header
/// row plus exactly one row per token; each data row, split at commas,
/// is the token's surface form, its tag, and the decimal rendering of the
/// count the table stores for that surface form. This holds as long as no
/// surface form or tag holds a comma or a line terminator, the format's
/// known limit.
pub proof fn lemma_csv_round_trip(ts: Seq<TokenView>, m: Seq<(Seq<char>, usize)>)
    requires
        ts.len() > 0,
        forall|i: int|
            0 <= i < ts.len() ==> clean_field(#[trigger] ts[i].text) && clean_field(ts[i].pos),
    ensures
        spec_lines(csv_chars(ts, m)).len() == ts.len() + 1,
        spec_lines(csv_chars(ts, m))[0] == header_chars(),
        forall|i: int|
            0 <= i < ts.len() ==> split_on(#[trigger] spec_lines(csv_chars(ts, m))[i + 1], ',')
                == seq![ts[i].text, ts[i].pos, dec_chars(spec_get(m, ts[i].text) as nat)],
{
    let header = header_chars();
    let rows = rows_chars(ts, m);
    assert(forall|k: int| 0 <= k < header.len() ==> header[k] != '\n');
    lemma_lines_prepend(header, rows);
    assert(chomp(header) == header);
    lemma_rows_parse(ts, m);
    let all = spec_lines(csv_chars(ts, m));
    assert(all == seq![header] + spec_lines(rows));
    assert forall|i: int|
        0 <= i < ts.len() implies split_on(#[trigger] all[i + 1], ',') == seq![
        ts[i].text,
        ts[i].pos,
        dec_chars(spec_get(m, ts[i].text) as nat),
    ] by {
        assert(all[i + 1] == spec_lines(rows)[i]);
        assert(spec_lines(rows)[i] == body_chars(ts[i], spec_get(m, ts[i].text)));
        lemma_body_fields(ts[i], spec_get(m, ts[i].text));
    }
}

} // verus!
