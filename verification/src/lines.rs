//! Splitting a document into lines: the line-boundary convention splits at
//! `'\n'`, strips one `'\r'` directly before it, keeps empty lines, and
//! drops a final line terminator.

use vstd::prelude::*;
use vstd::string::StrSliceExecFns;

verus! {

/// Index of the first occurrence of `c` in `s`; `s.len()` where absent.
pub open spec fn first_occ(s: Seq<char>, c: char) -> nat
    decreases s.len(),
{
    if s.len() == 0 {
        0
    } else if s.first() == c {
        0
    } else {
        (1 + first_occ(s.drop_first(), c)) as nat
    }
}

/// Strip one trailing carriage return, if any.
pub open spec fn chomp(s: Seq<char>) -> Seq<char> {
    if s.len() > 0 && s.last() == '\r' {
        s.drop_last()
    } else {
        s
    }
}

/// Where the characters before `j` avoid `c` and `j` is either an
/// occurrence of `c` or the end, the first occurrence is `j`.
pub proof fn lemma_first_occ_is(s: Seq<char>, c: char, j: int)
    requires
        0 <= j <= s.len(),
        forall|k: int| 0 <= k < j ==> s[k] != c,
        j < s.len() ==> s[j] == c,
    ensures
        first_occ(s, c) == j,
    decreases j,
{
    if j == 0 {
        if s.len() > 0 {
            assert(s.first() == s[0]);
        }
    } else {
        assert(s[0] != c);
        lemma_first_occ_is(s.drop_first(), c, j - 1);
    }
}

/// The lines of `s`, in order.
pub open spec fn spec_lines(s: Seq<char>) -> Seq<Seq<char>>
    decreases s.len(),
{
    if s.len() == 0 {
        Seq::empty()
    } else {
        let j = first_occ(s, '\n') as int;
        if j >= s.len() {
            seq![s]
        } else {
            seq![chomp(s.take(j))] + spec_lines(s.skip(j + 1))
        }
    }
}

/// Peeling one line off the front: where `s[start..j]` holds no newline and
/// `s[j]` is one, the lines of the tail from `start` are that line (chomped)
/// followed by the lines of the tail from `j + 1`.
pub proof fn lemma_lines_step(s: Seq<char>, start: int, j: int)
    requires
        0 <= start <= j < s.len(),
        forall|k: int| start <= k < j ==> s[k] != '\n',
        s[j] == '\n',
    ensures
        spec_lines(s.skip(start)) == seq![chomp(s.subrange(start, j))] + spec_lines(
            s.skip(j + 1),
        ),
{
    let t = s.skip(start);
    assert forall|k: int| 0 <= k < j - start implies t[k] != '\n' by {
        assert(t[k] == s[start + k]);
    }
    assert(t[j - start] == '\n');
    lemma_first_occ_is(t, '\n', j - start);
    assert(t.take(j - start) =~= s.subrange(start, j));
    assert(t.skip(j - start + 1) =~= s.skip(j + 1));
}

/// Where the tail from `start` holds no newline and is not empty, it is the
/// one remaining line, kept as it stands.
pub proof fn lemma_lines_last(s: Seq<char>, start: int)
    requires
        0 <= start < s.len(),
        forall|k: int| start <= k < s.len() ==> s[k] != '\n',
    ensures
        spec_lines(s.skip(start)) == seq![s.subrange(start, s.len() as int)],
{
    let t = s.skip(start);
    assert forall|k: int| 0 <= k < t.len() implies t[k] != '\n' by {
        assert(t[k] == s[start + k]);
    }
    lemma_first_occ_is(t, '\n', t.len() as int);
    assert(t =~= s.subrange(start, s.len() as int));
}

/// Prepending one terminated line: where `line` holds no newline, the
/// lines of `line + '\n' + rest` are `chomp(line)` followed by the lines
/// of `rest`.
pub proof fn lemma_lines_prepend(line: Seq<char>, rest: Seq<char>)
    requires
        forall|k: int| 0 <= k < line.len() ==> line[k] != '\n',
    ensures
        spec_lines(line + seq!['\n'] + rest) == seq![chomp(line)] + spec_lines(rest),
{
    let s = line + seq!['\n'] + rest;
    let j = line.len() as int;
    assert(s[j] == '\n');
    assert forall|k: int| 0 <= k < j implies s[k] != '\n' by {
        assert(s[k] == line[k]);
    }
    lemma_first_occ_is(s, '\n', j);
    assert(s.take(j) =~= line);
    assert(s.skip(j + 1) =~= rest);
}

/// The pieces of `s` between occurrences of `c`, in order; `s` itself
/// where `c` does not occur.
pub open spec fn split_on(s: Seq<char>, c: char) -> Seq<Seq<char>>
    decreases s.len(),
{
    let j = first_occ(s, c) as int;
    if j >= s.len() {
        seq![s]
    } else {
        seq![s.take(j)] + split_on(s.skip(j + 1), c)
    }
}

/// A sequence free of the separator is one single piece.
pub proof fn lemma_split_on_none(s: Seq<char>, c: char)
    requires
        forall|k: int| 0 <= k < s.len() ==> s[k] != c,
    ensures
        split_on(s, c) == seq![s],
{
    lemma_first_occ_is(s, c, s.len() as int);
}

/// Splitting off the first piece: where `a` is free of the separator, the
/// pieces of `a + c + rest` are `a` followed by the pieces of `rest`.
pub proof fn lemma_split_on_prepend(a: Seq<char>, rest: Seq<char>, c: char)
    requires
        forall|k: int| 0 <= k < a.len() ==> a[k] != c,
    ensures
        split_on(a + seq![c] + rest, c) == seq![a] + split_on(rest, c),
{
    let s = a + seq![c] + rest;
    let j = a.len() as int;
    assert(s[j] == c);
    assert forall|k: int| 0 <= k < j implies s[k] != c by {
        assert(s[k] == a[k]);
    }
    lemma_first_occ_is(s, c, j);
    assert(s.take(j) =~= a);
    assert(s.skip(j + 1) =~= rest);
}

/// Split a document into its lines.
pub fn split_lines(text: &str) -> (r: Vec<String>)
    ensures
        r.deep_view() == spec_lines(text@),
{
    let n = text.unicode_len();
    let mut r: Vec<String> = Vec::new();
    let mut start: usize = 0;
    let mut i: usize = 0;
    proof {
        assert(text@.skip(0int) =~= text@);
        assert(r.deep_view() =~= Seq::<Seq<char>>::empty());
        assert(Seq::<Seq<char>>::empty() + spec_lines(text@) =~= spec_lines(text@));
    }
    while i < n
        invariant
            n == text@.len(),
            0 <= start <= i <= n,
            forall|k: int| start <= k < i ==> text@[k] != '\n',
            spec_lines(text@) == r.deep_view() + spec_lines(text@.skip(start as int)),
        decreases n - i,
    {
        let ch = text.get_char(i);
        if ch == '\n' {
            let end = if i > start && text.get_char(i - 1) == '\r' {
                i - 1
            } else {
                i
            };
            let line = text.substring_char(start, end).to_owned();
            proof {
                lemma_lines_step(text@, start as int, i as int);
                if i > start && text@[i as int - 1] == '\r' {
                    assert(text@.subrange(start as int, i as int).last() == '\r');
                    assert(chomp(text@.subrange(start as int, i as int)) =~= text@.subrange(
                        start as int,
                        i as int - 1,
                    ));
                } else {
                    assert(chomp(text@.subrange(start as int, i as int)) =~= text@.subrange(
                        start as int,
                        i as int,
                    ));
                }
            }
            let ghost r_old = r.deep_view();
            r.push(line);
            proof {
                assert(r.deep_view() =~= r_old.push(line@));
                assert(r.deep_view() + spec_lines(text@.skip(i as int + 1)) =~= r_old + (seq![
                    line@,
                ] + spec_lines(text@.skip(i as int + 1))));
            }
            start = i + 1;
        }
        i += 1;
    }
    if start < n {
        let line = text.substring_char(start, n).to_owned();
        proof {
            lemma_lines_last(text@, start as int);
        }
        let ghost r_old = r.deep_view();
        r.push(line);
        proof {
            assert(r.deep_view() =~= r_old.push(line@));
            assert(r_old + seq![line@] =~= r_old.push(line@));
        }
    } else {
        proof {
            assert(text@.skip(start as int) =~= Seq::<char>::empty());
            assert(r.deep_view() + Seq::<Seq<char>>::empty() =~= r.deep_view());
        }
    }
    r
}

} // verus!
