//! The frequency table: a mapping from surface forms to occurrence counts,
//! kept as an association list with pairwise-distinct keys.

use vstd::prelude::*;

use crate::token::{count_matching, lemma_count_matching_le_len, lemma_count_matching_push,
    TokenInfo, TokenView};

verus! {

/// The count stored for `k`, walking the entries front to back;
/// 0 where no entry carries the key.
pub open spec fn spec_get(m: Seq<(Seq<char>, usize)>, k: Seq<char>) -> usize
    decreases m.len(),
{
    if m.len() == 0 {
        0
    } else if m.first().0 == k {
        m.first().1
    } else {
        spec_get(m.drop_first(), k)
    }
}

/// The sum of all stored counts.
pub open spec fn sum_counts(m: Seq<(Seq<char>, usize)>) -> int
    decreases m.len(),
{
    if m.len() == 0 {
        0
    } else {
        sum_counts(m.drop_last()) + m.last().1
    }
}

/// No two entries carry the same key.
pub open spec fn distinct_keys(m: Seq<(Seq<char>, usize)>) -> bool {
    forall|i: int, j: int| 0 <= i < j < m.len() ==> m[i].0 != m[j].0
}

/// Every stored entry counts at least one occurrence: the table holds no
/// key for a surface form that never occurred.
pub open spec fn counts_positive(m: Seq<(Seq<char>, usize)>) -> bool {
    forall|i: int| 0 <= i < m.len() ==> (#[trigger] m[i]).1 >= 1
}

/// A frequency table over surface forms. Every entry holds a distinct key.
pub struct FreqMap {
    entries: Vec<(String, usize)>,
}

impl View for FreqMap {
    type V = Seq<(Seq<char>, usize)>;

    closed spec fn view(&self) -> Seq<(Seq<char>, usize)> {
        Seq::new(self.entries@.len(), |i: int| (self.entries@[i].0@, self.entries@[i].1))
    }
}

proof fn lemma_get_at_first_match(m: Seq<(Seq<char>, usize)>, i: int)
    requires
        0 <= i < m.len(),
        forall|j: int| 0 <= j < i ==> m[j].0 != m[i].0,
    ensures
        spec_get(m, m[i].0) == m[i].1,
    decreases i,
{
    if i > 0 {
        lemma_get_at_first_match(m.drop_first(), i - 1);
    }
}

proof fn lemma_get_absent(m: Seq<(Seq<char>, usize)>, k: Seq<char>)
    requires
        forall|j: int| 0 <= j < m.len() ==> m[j].0 != k,
    ensures
        spec_get(m, k) == 0,
    decreases m.len(),
{
    if m.len() > 0 {
        lemma_get_absent(m.drop_first(), k);
    }
}

proof fn lemma_get_update_one(m: Seq<(Seq<char>, usize)>, i: int, k: Seq<char>, c: usize, s: Seq<char>)
    requires
        0 <= i < m.len(),
        m[i].0 == k,
        forall|j: int| 0 <= j < i ==> m[j].0 != k,
    ensures
        spec_get(m.update(i, (k, c)), s) == if s == k {
            c
        } else {
            spec_get(m, s)
        },
    decreases i,
{
    let m2 = m.update(i, (k, c));
    if i == 0 {
        assert(m2.first() == (k, c));
        if s != k {
            assert(m2.drop_first() =~= m.drop_first());
        }
    } else {
        assert(m2.first() == m.first());
        assert(m2.drop_first() =~= m.drop_first().update(i - 1, (k, c)));
        lemma_get_update_one(m.drop_first(), i - 1, k, c, s);
    }
}

proof fn lemma_get_update(m: Seq<(Seq<char>, usize)>, i: int, k: Seq<char>, c: usize)
    requires
        0 <= i < m.len(),
        m[i].0 == k,
        forall|j: int| 0 <= j < i ==> m[j].0 != k,
    ensures
        forall|s: Seq<char>|
            spec_get(m.update(i, (k, c)), s) == if s == k {
                c
            } else {
                spec_get(m, s)
            },
{
    assert forall|s: Seq<char>|
        spec_get(m.update(i, (k, c)), s) == (if s == k {
            c
        } else {
            spec_get(m, s)
        }) by {
        lemma_get_update_one(m, i, k, c, s);
    }
}

proof fn lemma_get_push_fresh_one(m: Seq<(Seq<char>, usize)>, k: Seq<char>, c: usize, s: Seq<char>)
    requires
        forall|j: int| 0 <= j < m.len() ==> m[j].0 != k,
    ensures
        spec_get(m.push((k, c)), s) == if s == k {
            c
        } else {
            spec_get(m, s)
        },
    decreases m.len(),
{
    let m2 = m.push((k, c));
    if m.len() == 0 {
        assert(m2.len() == 1);
        assert(m2.first() == (k, c));
        if s == k {
            assert(spec_get(m2, s) == c);
        } else {
            assert(m2.drop_first() =~= Seq::<(Seq<char>, usize)>::empty());
            assert(spec_get(m2, s) == spec_get(m2.drop_first(), s));
            assert(spec_get(m2.drop_first(), s) == 0);
            assert(spec_get(m, s) == 0);
        }
    } else {
        assert(m2.first() == m.first());
        assert(m2.drop_first() =~= m.drop_first().push((k, c)));
        lemma_get_push_fresh_one(m.drop_first(), k, c, s);
    }
}

proof fn lemma_get_push_fresh(m: Seq<(Seq<char>, usize)>, k: Seq<char>, c: usize)
    requires
        forall|j: int| 0 <= j < m.len() ==> m[j].0 != k,
    ensures
        forall|s: Seq<char>|
            spec_get(m.push((k, c)), s) == if s == k {
                c
            } else {
                spec_get(m, s)
            },
{
    assert forall|s: Seq<char>|
        spec_get(m.push((k, c)), s) == (if s == k {
            c
        } else {
            spec_get(m, s)
        }) by {
        lemma_get_push_fresh_one(m, k, c, s);
    }
}

proof fn lemma_sum_update(m: Seq<(Seq<char>, usize)>, i: int, k: Seq<char>, c: usize)
    requires
        0 <= i < m.len(),
    ensures
        sum_counts(m.update(i, (k, c))) == sum_counts(m) - m[i].1 + c,
    decreases m.len(),
{
    let m2 = m.update(i, (k, c));
    if i == m.len() - 1 {
        assert(m2.drop_last() =~= m.drop_last());
        assert(m2.last() == (k, c));
    } else {
        lemma_sum_update(m.drop_last(), i, k, c);
        assert(m2.drop_last() =~= m.drop_last().update(i, (k, c)));
        assert(m2.last() == m.last());
    }
}

proof fn lemma_sum_push(m: Seq<(Seq<char>, usize)>, e: (Seq<char>, usize))
    ensures
        sum_counts(m.push(e)) == sum_counts(m) + e.1,
{
    assert(m.push(e).drop_last() =~= m);
    assert(m.push(e).last() == e);
}

impl FreqMap {
    /// An empty frequency table.
    pub fn new() -> (r: FreqMap)
        ensures
            r@ == Seq::<(Seq<char>, usize)>::empty(),
            distinct_keys(r@),
            counts_positive(r@),
    {
        let r = FreqMap { entries: Vec::new() };
        proof {
            assert(r@ =~= Seq::<(Seq<char>, usize)>::empty());
        }
        r
    }

    /// How many entries the table holds (one per distinct surface form).
    pub fn len(&self) -> (r: usize)
        ensures
            r == self@.len(),
    {
        self.entries.len()
    }

    /// The count recorded for `key`; 0 where the key is absent.
    pub fn get(&self, key: &str) -> (r: usize)
        ensures
            r == spec_get(self@, key@),
    {
        let n = self.entries.len();
        let mut i: usize = 0;
        proof {
            assert(self@.skip(0int) =~= self@);
        }
        while i < n
            invariant
                n == self.entries.len(),
                0 <= i <= n,
                spec_get(self@, key@) == spec_get(self@.skip(i as int), key@),
            decreases n - i,
        {
            let hit = {
                let e = &self.entries[i];
                e.0.as_str().eq(key)
            };
            if hit {
                proof {
                    assert(self@.skip(i as int).first() == self@[i as int]);
                }
                return self.entries[i].1;
            }
            proof {
                assert(self@.skip(i as int).drop_first() =~= self@.skip(i as int + 1));
            }
            i += 1;
        }
        proof {
            assert(self@.skip(n as int) =~= Seq::<(Seq<char>, usize)>::empty());
        }
        0
    }

    /// Raise the count of `key` by one, inserting it with count 1 where absent.
    /// Every other key keeps its count, and the total count rises by one.
    pub fn increment(&mut self, key: &String)
        requires
            distinct_keys(old(self)@),
            counts_positive(old(self)@),
            spec_get(old(self)@, key@) < usize::MAX,
        ensures
            distinct_keys(final(self)@),
            counts_positive(final(self)@),
            forall|s: Seq<char>|
                spec_get(final(self)@, s) == if s == key@ {
                    (spec_get(old(self)@, key@) + 1) as usize
                } else {
                    spec_get(old(self)@, s)
                },
            sum_counts(final(self)@) == sum_counts(old(self)@) + 1,
    {
        let n = self.entries.len();
        let mut i: usize = 0;
        while i < n
            invariant
                *self == *old(self),
                distinct_keys(old(self)@),
                counts_positive(old(self)@),
                spec_get(old(self)@, key@) < usize::MAX,
                n == self.entries.len(),
                0 <= i <= n,
                forall|j: int| 0 <= j < i ==> old(self)@[j].0 != key@,
            decreases n - i,
        {
            let hit = {
                let e = &self.entries[i];
                e.0.as_str().eq(key.as_str())
            };
            if hit {
                proof {
                    assert(old(self)@[i as int].0 == key@);
                    lemma_get_at_first_match(old(self)@, i as int);
                }
                let c = self.entries[i].1;
                proof {
                    assert(c == spec_get(old(self)@, key@));
                }
                let e = self.entries.remove(i);
                self.entries.insert(i, (e.0, c + 1));
                proof {
                    let m1 = old(self)@;
                    let m2 = self@;
                    assert(m2 =~= m1.update(i as int, (key@, (c + 1) as usize)));
                    lemma_get_update(m1, i as int, key@, (c + 1) as usize);
                    lemma_sum_update(m1, i as int, key@, (c + 1) as usize);
                    assert forall|a: int, b: int|
                        0 <= a < b < m2.len() implies m2[a].0 != m2[b].0 by {
                        assert(m2[a].0 == m1[a].0);
                        assert(m2[b].0 == m1[b].0);
                    }
                    assert forall|a: int| 0 <= a < m2.len() implies (#[trigger] m2[a]).1 >= 1 by {
                        if a != i as int {
                            assert(m2[a] == m1[a]);
                        }
                    }
                }
                return;
            }
            i += 1;
        }
        self.entries.push((key.clone(), 1));
        proof {
            let m1 = old(self)@;
            let m2 = self@;
            assert(m2 =~= m1.push((key@, 1usize)));
            lemma_get_absent(m1, key@);
            lemma_get_push_fresh(m1, key@, 1usize);
            lemma_sum_push(m1, (key@, 1usize));
            assert forall|a: int, b: int|
                0 <= a < b < m2.len() implies m2[a].0 != m2[b].0 by {
                assert(m2[a].0 == if a < m1.len() { m1[a].0 } else { key@ });
                assert(m2[b].0 == if b < m1.len() { m1[b].0 } else { key@ });
            }
            assert forall|a: int| 0 <= a < m2.len() implies (#[trigger] m2[a]).1 >= 1 by {
                if a < m1.len() {
                    assert(m2[a] == m1[a]);
                } else {
                    assert(m2[a] == (key@, 1usize));
                }
            }
        }
    }
}

/// Build the frequency table of a token list: for every surface form the
/// table stores exactly the number of tokens carrying it, and the counts
/// sum to the number of tokens.
pub fn aggregate(tokens: &Vec<TokenInfo>) -> (r: FreqMap)
    ensures
        distinct_keys(r@),
        counts_positive(r@),
        forall|s: Seq<char>| spec_get(r@, s) == count_matching(tokens.deep_view(), s),
        sum_counts(r@) == tokens.deep_view().len(),
        tokens@.len() == 0 ==> r@ == Seq::<(Seq<char>, usize)>::empty(),
{
    let ghost full = tokens.deep_view();
    let n = tokens.len();
    let mut r = FreqMap::new();
    let mut i: usize = 0;
    while i < n
        invariant
            n == tokens@.len(),
            full == tokens.deep_view(),
            0 <= i <= n,
            distinct_keys(r@),
            counts_positive(r@),
            forall|s: Seq<char>| spec_get(r@, s) == count_matching(full.take(i as int), s),
            sum_counts(r@) == i,
            i == 0 ==> r@ == Seq::<(Seq<char>, usize)>::empty(),
        decreases n - i,
    {
        let t = &tokens[i];
        proof {
            lemma_count_matching_le_len(full.take(i as int), t.text@);
        }
        r.increment(&t.text);
        proof {
            assert(full.take(i as int).push(full[i as int]) =~= full.take(i as int + 1));
            assert forall|s: Seq<char>|
                spec_get(r@, s) == count_matching(full.take(i as int + 1), s) by {
                lemma_count_matching_push(full.take(i as int), full[i as int], s);
            }
        }
        i += 1;
    }
    proof {
        assert(full.take(n as int) =~= full);
    }
    r
}

} // verus!
