//! Term-to-count tables, kept as association vectors with distinct keys.
//!
//! The same shape serves twice: per-document term frequencies and the
//! global document-frequency table.

use vstd::prelude::*;

use crate::text::term_eq;

verus! {

/// One table row: a term and its count.
pub struct Entry {
    pub term: Vec<char>,
    pub count: u64,
}

/// First count stored under key `t`, scanning from the front.
pub open spec fn lookup(s: Seq<(Seq<char>, u64)>, t: Seq<char>) -> Option<u64>
    decreases s.len(),
{
    if s.len() == 0 {
        None
    } else if s[0].0 == t {
        Some(s[0].1)
    } else {
        lookup(s.skip(1), t)
    }
}

/// The count stored under `t`, or zero when `t` is absent.
pub open spec fn count_of(s: Seq<(Seq<char>, u64)>, t: Seq<char>) -> u64 {
    match lookup(s, t) {
        Some(c) => c,
        None => 0,
    }
}

/// Sum of all counts in the table.
pub open spec fn sum_counts(s: Seq<(Seq<char>, u64)>) -> int
    decreases s.len(),
{
    if s.len() == 0 {
        0
    } else {
        sum_counts(s.drop_last()) + s.last().1
    }
}

/// No key occurs twice.
pub open spec fn distinct_terms(s: Seq<(Seq<char>, u64)>) -> bool {
    forall|i: int, j: int| 0 <= i < j < s.len() ==> s[i].0 != s[j].0
}

pub proof fn lemma_lookup_at(s: Seq<(Seq<char>, u64)>, j: int, t: Seq<char>)
    requires
        0 <= j < s.len(),
        s[j].0 == t,
        forall|k: int| 0 <= k < j ==> s[k].0 != t,
    ensures
        lookup(s, t) == Some(s[j].1),
    decreases j,
{
    if j > 0 {
        assert(s.skip(1)[j - 1] == s[j]);
        assert forall|k: int| 0 <= k < j - 1 implies s.skip(1)[k].0 != t by {
            assert(s.skip(1)[k] == s[k + 1]);
        }
        lemma_lookup_at(s.skip(1), j - 1, t);
    }
}

pub proof fn lemma_lookup_none(s: Seq<(Seq<char>, u64)>, t: Seq<char>)
    requires
        forall|k: int| 0 <= k < s.len() ==> s[k].0 != t,
    ensures
        lookup(s, t) is None,
    decreases s.len(),
{
    if s.len() > 0 {
        assert forall|k: int| 0 <= k < s.skip(1).len() implies s.skip(1)[k].0 != t by {
            assert(s.skip(1)[k] == s[k + 1]);
        }
        lemma_lookup_none(s.skip(1), t);
    }
}

pub proof fn lemma_lookup_update(s: Seq<(Seq<char>, u64)>, j: int, c: u64, u: Seq<char>)
    requires
        0 <= j < s.len(),
        forall|k: int| 0 <= k < j ==> s[k].0 != s[j].0,
    ensures
        lookup(s.update(j, (s[j].0, c)), u) == (if u == s[j].0 {
            Some(c)
        } else {
            lookup(s, u)
        }),
    decreases j,
{
    let s2 = s.update(j, (s[j].0, c));
    if j == 0 {
        if u == s[j].0 {
        } else {
            assert(s2.skip(1) =~= s.skip(1));
        }
    } else {
        assert(s2[0] == s[0]);
        assert(s2.skip(1) =~= s.skip(1).update(j - 1, (s[j].0, c)));
        assert(s.skip(1)[j - 1] == s[j]);
        assert forall|k: int| 0 <= k < j - 1 implies (#[trigger] s.skip(1)[k]).0
            != s.skip(1)[j - 1].0 by {
            assert(s.skip(1)[k] == s[k + 1]);
        }
        lemma_lookup_update(s.skip(1), j - 1, c, u);
        if u == s[j].0 {
            assert(s[0].0 != u);
        }
    }
}

pub proof fn lemma_lookup_push(s: Seq<(Seq<char>, u64)>, t: Seq<char>, c: u64, u: Seq<char>)
    ensures
        lookup(s.push((t, c)), u) == (if lookup(s, u) is Some {
            lookup(s, u)
        } else if u == t {
            Some(c)
        } else {
            None::<u64>
        }),
    decreases s.len(),
{
    let s2 = s.push((t, c));
    if s.len() == 0 {
        assert(s2[0] == (t, c));
        assert(s2[0].0 == t);
        if u == t {
            assert(lookup(s2, u) == Some(c));
        } else {
            assert(s2.skip(1) =~= Seq::<(Seq<char>, u64)>::empty());
            assert(lookup(Seq::<(Seq<char>, u64)>::empty(), u) is None);
            assert(lookup(s2, u) is None);
        }
    } else {
        assert(s2[0] == s[0]);
        assert(s2.skip(1) =~= s.skip(1).push((t, c)));
        lemma_lookup_push(s.skip(1), t, c, u);
        if s[0].0 == u {
            assert(lookup(s2, u) == Some(s[0].1));
            assert(lookup(s, u) == Some(s[0].1));
        } else {
            assert(lookup(s2, u) == lookup(s.skip(1).push((t, c)), u));
            assert(lookup(s, u) == lookup(s.skip(1), u));
        }
    }
}

pub proof fn lemma_sum_update(s: Seq<(Seq<char>, u64)>, j: int, c: u64)
    requires
        0 <= j < s.len(),
    ensures
        sum_counts(s.update(j, (s[j].0, c))) == sum_counts(s) - s[j].1 + c,
    decreases s.len(),
{
    let s2 = s.update(j, (s[j].0, c));
    if j == s.len() - 1 {
        assert(s2.drop_last() =~= s.drop_last());
        assert(s2.last() == (s[j].0, c));
    } else {
        assert(s2.drop_last() =~= s.drop_last().update(j, (s[j].0, c)));
        assert(s2.last() == s.last());
        lemma_sum_update(s.drop_last(), j, c);
    }
}

pub proof fn lemma_sum_push(s: Seq<(Seq<char>, u64)>, t: Seq<char>, c: u64)
    ensures
        sum_counts(s.push((t, c))) == sum_counts(s) + c,
{
    assert(s.push((t, c)).drop_last() =~= s);
}

pub proof fn lemma_sum_nonneg(s: Seq<(Seq<char>, u64)>)
    ensures
        sum_counts(s) >= 0,
    decreases s.len(),
{
    if s.len() > 0 {
        lemma_sum_nonneg(s.drop_last());
    }
}

/// A term-to-count table with distinct keys.
pub struct TermFreq {
    entries: Vec<Entry>,
}

impl View for TermFreq {
    type V = Seq<(Seq<char>, u64)>;

    closed spec fn view(&self) -> Seq<(Seq<char>, u64)> {
        self.entries@.map_values(|e: Entry| (e.term@, e.count))
    }
}

impl TermFreq {
    pub open spec fn wf(&self) -> bool {
        distinct_terms(self@)
    }

    pub fn new() -> (r: TermFreq)
        ensures
            r@ == Seq::<(Seq<char>, u64)>::empty(),
            r.wf(),
    {
        let r = TermFreq { entries: Vec::new() };
        proof {
            assert(r@ =~= Seq::<(Seq<char>, u64)>::empty());
        }
        r
    }

    pub fn len(&self) -> (r: usize)
        ensures
            r == self@.len(),
    {
        self.entries.len()
    }

    pub fn term_at(&self, i: usize) -> (r: &Vec<char>)
        requires
            i < self@.len(),
        ensures
            r@ == self@[i as int].0,
    {
        proof {
            assert(self@[i as int] == (self.entries@[i as int].term@,
                self.entries@[i as int].count));
        }
        &self.entries[i].term
    }

    pub fn count_at(&self, i: usize) -> (r: u64)
        requires
            i < self@.len(),
        ensures
            r == self@[i as int].1,
    {
        proof {
            assert(self@[i as int] == (self.entries@[i as int].term@,
                self.entries@[i as int].count));
        }
        self.entries[i].count
    }

    /// The count recorded for `t`, zero when `t` is absent.
    pub fn get(&self, t: &Vec<char>) -> (r: u64)
        ensures
            r == count_of(self@, t@),
    {
        let n = self.entries.len();
        let mut j: usize = 0;
        while j < n
            invariant
                j <= n,
                n == self@.len(),
                forall|k: int| 0 <= k < j ==> self@[k].0 != t@,
            decreases n - j,
        {
            if term_eq(&self.entries[j].term, &t) {
                proof {
                    lemma_lookup_at(self@, j as int, t@);
                }
                return self.entries[j].count;
            }
            j += 1;
        }
        proof {
            lemma_lookup_none(self@, t@);
        }
        0
    }

    /// Record one more occurrence of `t`.
    #[verifier::loop_isolation(false)]
    pub fn increment(&mut self, t: Vec<char>)
        requires
            old(self).wf(),
            count_of(old(self)@, t@) < u64::MAX,
        ensures
            final(self).wf(),
            forall|u: Seq<char>| #[trigger] lookup(final(self)@, u) == (if u == t@ {
                Some((count_of(old(self)@, t@) + 1) as u64)
            } else {
                lookup(old(self)@, u)
            }),
            sum_counts(final(self)@) == sum_counts(old(self)@) + 1,
            final(self)@.len() <= old(self)@.len() + 1,
    {
        let n = self.entries.len();
        let mut j: usize = 0;
        while j < n
            invariant
                j <= n,
                self == old(self),
                n == self@.len(),
                forall|k: int| 0 <= k < j ==> self@[k].0 != t@,
            decreases n - j,
        {
            let ghost viewj = self@[j as int];
            proof {
                assert(viewj == (self.entries@[j as int].term@,
                    self.entries@[j as int].count));
            }
            if term_eq(&self.entries[j].term, &t) {
                proof {
                    assert(self@[j as int].0 == t@);
                    lemma_lookup_at(self@, j as int, t@);
                    assert(count_of(self@, t@) == self@[j as int].1);
                }
                let c = self.entries[j].count;
                let ghost pre = self@;
                proof {
                    assert(c == viewj.1);
                    assert(c < u64::MAX);
                }
                self.entries[j] = Entry { term: t, count: c + 1 };
                proof {
                    assert(self@ =~= pre.update(j as int, (pre[j as int].0, (c + 1) as u64)));
                    lemma_lookup_update(pre, j as int, (c + 1) as u64, t@);
                    assert forall|u: Seq<char>| u != t@ implies #[trigger] lookup(self@, u)
                        == lookup(pre, u) by {
                        lemma_lookup_update(pre, j as int, (c + 1) as u64, u);
                    }
                    lemma_sum_update(pre, j as int, (c + 1) as u64);
                    assert forall|a: int, b: int| 0 <= a < b < self@.len()
                        implies self@[a].0 != self@[b].0 by {
                        assert(self@[a].0 == pre[a].0);
                        assert(self@[b].0 == pre[b].0);
                        assert(pre[a].0 != pre[b].0);
                    }
                }
                return;
            }
            j += 1;
        }
        proof {
            lemma_lookup_none(self@, t@);
        }
        let ghost pre = self@;
        self.entries.push(Entry { term: t, count: 1 });
        proof {
            assert(self@ =~= pre.push((t@, 1u64)));
            assert forall|u: Seq<char>| true implies #[trigger] lookup(self@, u) == (if u == t@ {
                Some(1u64)
            } else {
                lookup(pre, u)
            }) by {
                lemma_lookup_push(pre, t@, 1u64, u);
            }
            lemma_sum_push(pre, t@, 1u64);
            assert forall|a: int, b: int| 0 <= a < b < self@.len()
                implies self@[a].0 != self@[b].0 by {
                if b < pre.len() {
                    assert(pre[a].0 == self@[a].0 && pre[b].0 == self@[b].0);
                } else {
                    assert(self@[b].0 == t@ && self@[a].0 == pre[a].0);
                }
            }
        }
    }

    /// Append a raw row, as read back from a persisted artifact; the
    /// result need not have distinct keys.
    pub fn push_entry(&mut self, term: Vec<char>, count: u64)
        ensures
            final(self)@ == old(self)@.push((term@, count)),
    {
        let ghost pre = self@;
        self.entries.push(Entry { term, count });
        proof {
            assert(self@ =~= pre.push((self.entries@.last().term@,
                self.entries@.last().count)));
        }
    }

    /// The sum of all counts, saturating at the largest representable value.
    pub fn total(&self) -> (r: u64)
        ensures
            r as int == sat64(sum_counts(self@)),
    {
        let n = self.entries.len();
        let mut acc: u64 = 0;
        let mut j: usize = 0;
        proof {
            assert(self@.take(0) =~= Seq::<(Seq<char>, u64)>::empty());
        }
        while j < n
            invariant
                j <= n,
                n == self@.len(),
                acc as int == sat64(sum_counts(self@.take(j as int))),
            decreases n - j,
        {
            proof {
                assert(self@[j as int] == (self.entries@[j as int].term@,
                    self.entries@[j as int].count));
                assert(self@.take(j + 1).drop_last() =~= self@.take(j as int));
                assert(self@.take(j + 1).last() == self@[j as int]);
                lemma_sum_nonneg(self@.take(j as int));
            }
            acc = acc.saturating_add(self.entries[j].count);
            j += 1;
        }
        proof {
            assert(self@.take(n as int) =~= self@);
        }
        acc
    }
}

/// `x` clamped from above at the largest `u64` value.
pub open spec fn sat64(x: int) -> int {
    if x > u64::MAX {
        u64::MAX as int
    } else {
        x
    }
}

} // verus!
