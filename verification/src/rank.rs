//! The ranker: TF-IDF scoring over an index, in exact integer arithmetic.
//!
//! A document's score is the rational `num / den`: `den` is the document's
//! total term count (at least one), and `num` sums, over the query terms,
//! the term's occurrence count times a scaled inverse document frequency.
//! The idf weight approximates `1000 * log10(n / df)`: exact at powers of
//! ten, linear in between, clamped to at least one whenever `df < n`, and
//! zero when `df == n` or when the term occurs in no document at all.
//! Products and sums saturate at the largest 64-bit value.  Documents are
//! ordered by score, ties keeping index order; the first ten survive, and
//! of those only the strictly positive.

use vstd::prelude::*;

use vstd::arithmetic::div_mod::lemma_fundamental_div_mod;

use crate::freq::{TermFreq, count_of, sat64, sum_counts};
use crate::index::{DocEntry, Index};
use crate::lexer::{tokenize, tokens_of, views};
use crate::text::copy_chars;

verus! {

/// Addition clamped at the largest `u64` value.
pub open spec fn sat_add64(a: int, b: int) -> int {
    if a + b > u64::MAX {
        u64::MAX as int
    } else {
        a + b
    }
}

/// Multiplication clamped at the largest `u64` value.
pub open spec fn sat_mul64(a: int, b: int) -> int {
    if a * b > u64::MAX {
        u64::MAX as int
    } else {
        a * b
    }
}

/// Ten to the `k`.
pub open spec fn pow10(k: int) -> int
    decreases k,
{
    if k <= 0 {
        1
    } else {
        10 * pow10(k - 1)
    }
}

/// How often `d` can be scaled by ten and stay within `n`: the integer
/// part of `log10(n / d)`.
pub open spec fn decades(n: int, d: int) -> int
    decreases n - d when 1 <= d <= n
{
    if 10 * d <= n {
        1 + decades(n, 10 * d)
    } else {
        0
    }
}

pub proof fn lemma_decades_fit(n: int, d: int)
    requires
        1 <= d <= n,
    ensures
        decades(n, d) >= 0,
        pow10(decades(n, d)) >= 1,
        d <= d * pow10(decades(n, d)) <= n,
    decreases n - d,
{
    if 10 * d <= n {
        lemma_decades_fit(n, 10 * d);
        let p = decades(n, 10 * d);
        assert(pow10(p + 1) == 10 * pow10(p));
        assert(d * pow10(p + 1) == (10 * d) * pow10(p)) by (nonlinear_arith)
            requires pow10(p + 1) == 10 * pow10(p);
        assert(d <= d * pow10(p + 1)) by (nonlinear_arith)
            requires d >= 1 && pow10(p + 1) >= 1;
    }
}

/// The scaled idf: thousandths of the approximated `log10(n / df)`, zero
/// exactly when `df == n`, positive whenever `df < n`.
pub open spec fn idf_milli_spec(n: int, df: int) -> int
    recommends
        1 <= df <= n,
{
    let p = decades(n, df);
    let d = df * pow10(p);
    let raw = 1000 * p + ((n - d) * 1000) / (9 * d);
    if df < n && raw == 0 {
        1
    } else {
        raw
    }
}

/// The weight a query term carries: its scaled idf when its document
/// frequency is meaningful, and zero otherwise — in particular zero for a
/// term that occurs in no document.
pub open spec fn term_weight(n_docs: int, df: int) -> int {
    if 1 <= df <= n_docs {
        idf_milli_spec(n_docs, df)
    } else {
        0
    }
}

proof fn lemma_pow10_pos(k: int)
    ensures
        pow10(k) >= 1,
    decreases k,
{
    if k > 0 {
        lemma_pow10_pos(k - 1);
    }
}

proof fn lemma_pow10_mono(a: int, b: int)
    requires
        a <= b,
    ensures
        pow10(a) <= pow10(b),
    decreases b - a,
{
    if a < b {
        lemma_pow10_mono(a, b - 1);
        lemma_pow10_pos(b - 1);
    }
}

pub proof fn lemma_term_weight_nonneg(n_docs: int, df: int)
    ensures
        term_weight(n_docs, df) >= 0,
{
    if 1 <= df <= n_docs {
        lemma_decades_fit(n_docs, df);
        let p = decades(n_docs, df);
        let d = df * pow10(p);
        lemma_fundamental_div_mod((n_docs - d) * 1000, 9 * d);
        assert(((n_docs - d) * 1000) / (9 * d) >= 0) by (nonlinear_arith)
            requires
                n_docs - d >= 0,
                d >= 1,
                (n_docs - d) * 1000 == 9 * d * (((n_docs - d) * 1000) / (9 * d)) + (((n_docs
                    - d) * 1000) % (9 * d)),
                0 <= ((n_docs - d) * 1000) % (9 * d),
        ;
    }
}

/// The numerator of a document's score: over the query's tokens, the sum
/// of occurrence count times term weight, saturating at 64 bits.
pub open spec fn score_num(
    tf: Seq<(Seq<char>, u64)>,
    dfreq: Seq<(Seq<char>, u64)>,
    n_docs: int,
    q: Seq<Seq<char>>,
) -> int
    decreases q.len(),
{
    if q.len() == 0 {
        0
    } else {
        sat_add64(
            score_num(tf, dfreq, n_docs, q.drop_last()),
            sat_mul64(
                count_of(tf, q.last()) as int,
                term_weight(n_docs, count_of(dfreq, q.last()) as int),
            ),
        )
    }
}

/// The denominator of a document's score: its total term count, with an
/// empty document scoring `0 / 1`.
pub open spec fn score_den(tf: Seq<(Seq<char>, u64)>) -> int {
    let s = sat64(sum_counts(tf));
    if s == 0 {
        1
    } else {
        s
    }
}

pub proof fn lemma_score_num_bounds(
    tf: Seq<(Seq<char>, u64)>,
    dfreq: Seq<(Seq<char>, u64)>,
    n_docs: int,
    q: Seq<Seq<char>>,
)
    ensures
        0 <= score_num(tf, dfreq, n_docs, q) <= u64::MAX,
    decreases q.len(),
{
    if q.len() > 0 {
        lemma_score_num_bounds(tf, dfreq, n_docs, q.drop_last());
        let c = count_of(tf, q.last()) as int;
        let w = term_weight(n_docs, count_of(dfreq, q.last()) as int);
        lemma_term_weight_nonneg(n_docs, count_of(dfreq, q.last()) as int);
        assert(c * w >= 0) by (nonlinear_arith)
            requires c >= 0 && w >= 0;
    }
}

/// One ranked result: a document, and its score as the exact rational
/// `num / den`.
pub struct Hit {
    pub doc_id: Vec<char>,
    pub num: u64,
    pub den: u64,
}

impl View for Hit {
    type V = (Seq<char>, u64, u64);

    open spec fn view(&self) -> (Seq<char>, u64, u64) {
        (self.doc_id@, self.num, self.den)
    }
}

/// The views of a sequence of hits.
pub open spec fn hit_views(s: Seq<Hit>) -> Seq<(Seq<char>, u64, u64)> {
    s.map_values(|h: Hit| h@)
}

/// `a`'s score is at least `b`'s: compared as exact fractions.
pub open spec fn score_ge(a: (Seq<char>, u64, u64), b: (Seq<char>, u64, u64)) -> bool {
    a.1 * b.2 >= b.1 * a.2
}

fn hit_ge(a: &Hit, b: &Hit) -> (r: bool)
    ensures
        r == score_ge(a@, b@),
{
    proof {
        assert((a.num as int) * (b.den as int) < 0x100000000000000000000000000000000)
            by (nonlinear_arith)
            requires a.num <= u64::MAX && b.den <= u64::MAX;
        assert((b.num as int) * (a.den as int) < 0x100000000000000000000000000000000)
            by (nonlinear_arith)
            requires b.num <= u64::MAX && a.den <= u64::MAX;
    }
    (a.num as u128) * (b.den as u128) >= (b.num as u128) * (a.den as u128)
}

/// Scores come in descending order.
pub open spec fn sorted_desc(s: Seq<(Seq<char>, u64, u64)>) -> bool {
    forall|i: int, j: int| 0 <= i < j < s.len() ==> score_ge(#[trigger] s[i], #[trigger] s[j])
}

/// Every denominator is at least one.
pub open spec fn dens_pos(s: Seq<(Seq<char>, u64, u64)>) -> bool {
    forall|i: int| 0 <= i < s.len() ==> (#[trigger] s[i]).2 >= 1
}

proof fn lemma_score_ge_trans(
    a: (Seq<char>, u64, u64),
    b: (Seq<char>, u64, u64),
    c: (Seq<char>, u64, u64),
)
    requires
        score_ge(a, b),
        score_ge(b, c),
        b.2 >= 1,
    ensures
        score_ge(a, c),
{
    assert(a.1 * b.2 * c.2 >= b.1 * a.2 * c.2) by (nonlinear_arith)
        requires a.1 * b.2 >= b.1 * a.2 && c.2 >= 0;
    assert(b.1 * c.2 * a.2 >= c.1 * b.2 * a.2) by (nonlinear_arith)
        requires b.1 * c.2 >= c.1 * b.2 && a.2 >= 0;
    assert(b.1 * a.2 * c.2 == b.1 * c.2 * a.2) by (nonlinear_arith);
    assert(a.1 * b.2 * c.2 >= c.1 * b.2 * a.2);
    assert(a.1 * c.2 >= c.1 * a.2) by (nonlinear_arith)
        requires a.1 * b.2 * c.2 >= c.1 * b.2 * a.2 && b.2 >= 1;
}

/// Insert `x` after every element scoring at least `x`: a stable insertion.
pub open spec fn insert_hit(
    s: Seq<(Seq<char>, u64, u64)>,
    x: (Seq<char>, u64, u64),
) -> Seq<(Seq<char>, u64, u64)>
    decreases s.len(),
{
    if s.len() > 0 && score_ge(s[0], x) {
        seq![s[0]] + insert_hit(s.skip(1), x)
    } else {
        seq![x] + s
    }
}

/// Stable insertion sort by descending score; equal scores keep their
/// original order.
pub open spec fn rank_hits(s: Seq<(Seq<char>, u64, u64)>) -> Seq<(Seq<char>, u64, u64)>
    decreases s.len(),
{
    if s.len() == 0 {
        Seq::empty()
    } else {
        insert_hit(rank_hits(s.drop_last()), s.last())
    }
}

proof fn lemma_insert_hit_at(s: Seq<(Seq<char>, u64, u64)>, x: (Seq<char>, u64, u64), p: int)
    requires
        0 <= p <= s.len(),
        forall|k: int| 0 <= k < p ==> score_ge(#[trigger] s[k], x),
        p < s.len() ==> !score_ge(s[p], x),
    ensures
        insert_hit(s, x) == s.take(p) + seq![x] + s.skip(p),
    decreases p,
{
    if p == 0 {
        assert(s.take(0) =~= Seq::<(Seq<char>, u64, u64)>::empty());
        assert(insert_hit(s, x) =~= s.take(0) + seq![x] + s.skip(0));
    } else {
        assert(score_ge(s[0], x));
        assert forall|k: int| 0 <= k < p - 1 implies score_ge(#[trigger] s.skip(1)[k], x) by {
            assert(s.skip(1)[k] == s[k + 1]);
        }
        assert(p - 1 < s.skip(1).len() ==> !score_ge(s.skip(1)[p - 1], x));
        lemma_insert_hit_at(s.skip(1), x, p - 1);
        assert(insert_hit(s, x) =~= s.take(p) + seq![x] + s.skip(p));
    }
}

/// Sort hits by descending score, stably.
#[verifier::loop_isolation(false)]
fn sort_hits(hits: Vec<Hit>) -> (r: Vec<Hit>)
    requires
        dens_pos(hit_views(hits@)),
    ensures
        hit_views(r@) == rank_hits(hit_views(hits@)),
        sorted_desc(hit_views(r@)),
{
    let ghost all = hit_views(hits@);
    let mut rest = hits;
    let mut out: Vec<Hit> = Vec::new();
    proof {
        assert(all.take(0) =~= Seq::<(Seq<char>, u64, u64)>::empty());
        assert(hit_views(out@) =~= rank_hits(all.take(0)));
        assert(hit_views(rest@) =~= all.skip(0));
    }
    while rest.len() > 0
        invariant
            out@.len() + rest@.len() == all.len(),
            hit_views(rest@) == all.skip(out@.len() as int),
            hit_views(out@) == rank_hits(all.take(out@.len() as int)),
            sorted_desc(hit_views(out@)),
            dens_pos(hit_views(out@)),
        decreases rest@.len(),
    {
        let ghost i = out@.len() as int;
        let ghost pre_rest = rest@;
        let h = rest.remove(0);
        proof {
            assert(h == pre_rest[0]);
            assert(hit_views(pre_rest)[0] == pre_rest[0]@);
            assert(h@ == all[i]);
            assert forall|k: int| 0 <= k < rest@.len() implies #[trigger] hit_views(rest@)[k]
                == all.skip(i + 1)[k] by {
                assert(rest@[k] == pre_rest[k + 1]);
                assert(hit_views(pre_rest)[k + 1] == pre_rest[k + 1]@);
                assert(all.skip(i)[k + 1] == all[i + 1 + k]);
            }
            assert(hit_views(rest@) =~= all.skip(i + 1));
        }
        let mut p: usize = 0;
        while p < out.len() && hit_ge(&out[p], &h)
            invariant
                p <= out@.len(),
                forall|k: int| 0 <= k < p ==> score_ge(#[trigger] hit_views(out@)[k], h@),
            decreases out@.len() - p,
        {
            proof {
                assert(hit_views(out@)[p as int] == out@[p as int]@);
            }
            p += 1;
        }
        proof {
            if p < out@.len() {
                assert(hit_views(out@)[p as int] == out@[p as int]@);
            }
            lemma_insert_hit_at(hit_views(out@), h@, p as int);
        }
        let ghost out_pre = hit_views(out@);
        out.insert(p, h);
        proof {
            assert(hit_views(out@) =~= out_pre.take(p as int) + seq![h@] + out_pre.skip(
                p as int,
            ));
            assert(all.take(i + 1).drop_last() =~= all.take(i));
            assert(all.take(i + 1).last() == all[i]);
            assert(hit_views(out@) == rank_hits(all.take(i + 1)));
            let now = hit_views(out@);
            let pi = p as int;
            assert(h@.2 >= 1);
            assert forall|a: int, b: int| 0 <= a < b < now.len() implies score_ge(
                #[trigger] now[a],
                #[trigger] now[b],
            ) by {
                assert(forall|k: int| 0 <= k < pi ==> now[k] == out_pre[k]);
                assert(now[pi] == h@);
                assert(forall|k: int| pi < k < now.len() ==> now[k] == out_pre[k - 1]);
                if b < pi {
                } else if b == pi {
                    assert(score_ge(out_pre[a], h@));
                } else if a < pi {
                } else if a == pi {
                    assert(!score_ge(out_pre[pi], h@));
                    assert(score_ge(h@, out_pre[pi]));
                    if b == pi + 1 {
                    } else {
                        assert(score_ge(out_pre[pi], out_pre[b - 1]));
                        lemma_score_ge_trans(h@, out_pre[pi], out_pre[b - 1]);
                    }
                }
            }
        }
    }
    proof {
        assert(all.take(all.len() as int) =~= all);
    }
    out
}

/// The positive-score filter, keeping order.
pub open spec fn positive_hits(s: Seq<(Seq<char>, u64, u64)>) -> Seq<(Seq<char>, u64, u64)>
    decreases s.len(),
{
    if s.len() == 0 {
        Seq::empty()
    } else {
        positive_hits(s.drop_last()) + if s.last().1 > 0 {
            seq![s.last()]
        } else {
            Seq::empty()
        }
    }
}

proof fn lemma_positive_hits_all_positive(s: Seq<(Seq<char>, u64, u64)>)
    ensures
        positive_hits(s).len() <= s.len(),
        forall|k: int| 0 <= k < positive_hits(s).len() ==> (#[trigger] positive_hits(s)[k]).1
            > 0,
    decreases s.len(),
{
    if s.len() > 0 {
        lemma_positive_hits_all_positive(s.drop_last());
    }
}

/// The scores of every document in the index against the token list `q`.
pub open spec fn scored_hits(
    docs: Seq<DocEntry>,
    dfreq: Seq<(Seq<char>, u64)>,
    n_docs: int,
    q: Seq<Seq<char>>,
) -> Seq<(Seq<char>, u64, u64)> {
    Seq::new(
        docs.len(),
        |i: int|
            (
                docs[i].id@,
                score_num(docs[i].tf@, dfreq, n_docs, q) as u64,
                score_den(docs[i].tf@) as u64,
            ),
    )
}

/// The full search pipeline: tokenize the query with the index-time
/// normalizer, score every document, order by descending score with ties
/// in index order, keep the first ten, and of those the strictly positive.
pub open spec fn search_spec(
    docs: Seq<DocEntry>,
    dfreq: Seq<(Seq<char>, u64)>,
    query: Seq<char>,
) -> Seq<(Seq<char>, u64, u64)> {
    let scored = scored_hits(docs, dfreq, docs.len() as int, tokens_of(query));
    let ranked = rank_hits(scored);
    let top = if ranked.len() > 10 {
        ranked.take(10)
    } else {
        ranked
    };
    positive_hits(top)
}

/// Score one document's table against the query tokens.
#[verifier::loop_isolation(false)]
fn score_doc(tf: &TermFreq, dfreq: &TermFreq, n_docs: u64, q: &Vec<Vec<char>>) -> (r: u64)
    ensures
        r as int == score_num(tf@, dfreq@, n_docs as int, views(q@)),
{
    let ghost qv = views(q@);
    let mut acc: u64 = 0;
    let mut k: usize = 0;
    proof {
        assert(qv.take(0) =~= Seq::<Seq<char>>::empty());
    }
    while k < q.len()
        invariant
            k <= q@.len(),
            acc as int == score_num(tf@, dfreq@, n_docs as int, qv.take(k as int)),
        decreases q@.len() - k,
    {
        let c = tf.get(&q[k]);
        let df = dfreq.get(&q[k]);
        let w = if 1 <= df && df <= n_docs {
            idf_milli(n_docs, df)
        } else {
            0
        };
        let prod = match c.checked_mul(w) {
            Some(x) => x,
            None => u64::MAX,
        };
        proof {
            assert(qv.take(k + 1).drop_last() =~= qv.take(k as int));
            assert(qv.take(k + 1).last() == q@[k as int]@);
            assert(prod as int == sat_mul64(c as int, term_weight(n_docs as int, df as int)));
        }
        acc = acc.saturating_add(prod);
        k += 1;
    }
    proof {
        assert(qv.take(q@.len() as int) =~= qv);
    }
    acc
}

/// The scaled idf weight, in thousandths: exact at powers of ten, linear
/// within each decade, zero exactly for `df == n`.
#[verifier::loop_isolation(false)]
pub fn idf_milli(n: u64, df: u64) -> (r: u64)
    requires
        1 <= df <= n,
    ensures
        r as int == idf_milli_spec(n as int, df as int),
        df == n ==> r == 0,
        df < n ==> r >= 1,
{
    let n128 = n as u128;
    let mut d: u128 = df as u128;
    let mut p: u64 = 0;
    while 10 * d <= n128
        invariant
            1 <= d <= n128,
            p >= 0,
            d == df * pow10(p as int),
            decades(n as int, df as int) == p + decades(n as int, d as int),
        decreases n128 - d,
    {
        proof {
            assert(pow10(p + 1) == 10 * pow10(p as int));
            assert((10 * d) as int == df * pow10(p + 1)) by (nonlinear_arith)
                requires
                    d == df * pow10(p as int),
                    pow10(p + 1) == 10 * pow10(p as int),
            ;
            assert(decades(n as int, d as int) == 1 + decades(n as int, 10 * d as int));
            lemma_pow10_pos(p as int);
            if p + 1 >= 20 {
                reveal_with_fuel(pow10, 21);
                lemma_pow10_mono(20, p + 1);
                assert(pow10(20) > u64::MAX);
                lemma_pow10_pos(p + 1);
                assert(df * pow10(p + 1) >= pow10(p + 1)) by (nonlinear_arith)
                    requires df >= 1 && pow10(p + 1) >= 1;
                assert(false);
            }
        }
        d = 10 * d;
        p = p + 1;
    }
    proof {
        assert(decades(n as int, d as int) == 0);
        assert(p == decades(n as int, df as int));
        assert(p <= 19) by {
            if p >= 20 {
                reveal_with_fuel(pow10, 21);
                lemma_pow10_mono(20, p as int);
                assert(pow10(20) > u64::MAX);
                lemma_pow10_pos(p as int);
                assert(df * pow10(p as int) >= pow10(p as int)) by (nonlinear_arith)
                    requires df >= 1 && pow10(p as int) >= 1;
                assert(false);
            }
        }
    }
    let frac128 = ((n128 - d) * 1000) / (9 * d);
    proof {
        lemma_fundamental_div_mod(((n128 - d) * 1000) as int, (9 * d) as int);
        assert(frac128 < 1000) by (nonlinear_arith)
            requires
                n128 < 10 * d,
                d >= 1,
                ((n128 - d) * 1000) as int == 9 * d * (frac128 as int) + (((n128 - d) * 1000)
                    as int % ((9 * d) as int)),
                0 <= ((n128 - d) * 1000) as int % ((9 * d) as int),
                frac128 >= 0,
        ;
    }
    let frac = frac128 as u64;
    let raw = 1000 * p + frac;
    if df < n && raw == 0 {
        1
    } else {
        raw
    }
}

/// Rank every indexed document against `query`: results come in descending
/// score order (ties keep index order), at most ten of them, each with a
/// strictly positive score.
pub fn search(idx: &Index, query: &Vec<char>) -> (r: Vec<Hit>)
    ensures
        hit_views(r@) == search_spec(idx.term_freq_per_doc@, idx.doc_freq@, query@),
        r@.len() <= 10,
        forall|k: int| 0 <= k < r@.len() ==> (#[trigger] r@[k]@).1 > 0,
        forall|i: int, j: int| 0 <= i < j < r@.len() ==> score_ge(
            #[trigger] r@[i]@,
            #[trigger] r@[j]@,
        ),
{
    let qtoks = tokenize(query);
    let n_docs = idx.term_freq_per_doc.len();
    let ghost dv = idx.term_freq_per_doc@;
    let ghost scored = scored_hits(dv, idx.doc_freq@, dv.len() as int, tokens_of(query@));
    let mut hits: Vec<Hit> = Vec::new();
    let mut i: usize = 0;
    while i < idx.term_freq_per_doc.len()
        invariant
            i <= dv.len(),
            dv == idx.term_freq_per_doc@,
            n_docs == dv.len(),
            views(qtoks@) == tokens_of(query@),
            hit_views(hits@) =~= scored.take(i as int),
            scored == scored_hits(dv, idx.doc_freq@, dv.len() as int, tokens_of(query@)),
        decreases dv.len() - i,
    {
        let e = &idx.term_freq_per_doc[i];
        let num = score_doc(&e.tf, &idx.doc_freq, n_docs as u64, &qtoks);
        let t = e.tf.total();
        let den = if t == 0 {
            1
        } else {
            t
        };
        proof {
            lemma_score_num_bounds(e.tf@, idx.doc_freq@, dv.len() as int, tokens_of(query@));
        }
        let id = copy_chars(&e.id);
        let hit = Hit { doc_id: id, num, den };
        proof {
            assert(e.id@ == dv[i as int].id@ && e.tf == dv[i as int].tf);
            assert(hit@ == scored[i as int]);
        }
        let ghost pre = hit_views(hits@);
        hits.push(hit);
        proof {
            assert(hit_views(hits@) =~= pre.push(scored[i as int]));
            assert(hit_views(hits@) =~= scored.take(i + 1));
        }
        i += 1;
    }
    proof {
        assert(scored.take(dv.len() as int) =~= scored);
        assert forall|k: int| 0 <= k < scored.len() implies (#[trigger] scored[k]).2 >= 1 by {
            crate::freq::lemma_sum_nonneg(dv[k].tf@);
        }
    }
    let mut ranked = sort_hits(hits);
    let ghost ranked_v = rank_hits(scored);
    if ranked.len() > 10 {
        ranked.truncate(10);
        proof {
            assert(hit_views(ranked@) =~= ranked_v.take(10));
        }
    }
    proof {
        assert(sorted_desc(hit_views(ranked@)));
    }
    let ghost top = if ranked_v.len() > 10 {
        ranked_v.take(10)
    } else {
        ranked_v
    };
    let mut out: Vec<Hit> = Vec::new();
    let mut k: usize = 0;
    proof {
        assert(top.take(0) =~= Seq::<(Seq<char>, u64, u64)>::empty());
        assert(hit_views(ranked@) == top);
    }
    while k < ranked.len()
        invariant
            k <= ranked@.len(),
            hit_views(ranked@) == top,
            sorted_desc(top),
            hit_views(out@) == positive_hits(top.take(k as int)),
            sorted_desc(hit_views(out@)),
            forall|j: int, l: int| 0 <= j < out@.len() && k <= l < top.len() ==> score_ge(
                #[trigger] hit_views(out@)[j],
                #[trigger] top[l],
            ),
        decreases ranked@.len() - k,
    {
        proof {
            assert(top.take(k + 1).drop_last() =~= top.take(k as int));
            assert(top.take(k + 1).last() == top[k as int]);
            assert(top[k as int] == ranked@[k as int]@);
        }
        if ranked[k].num > 0 {
            let ghost out_pre = hit_views(out@);
            let h = Hit {
                doc_id: copy_chars(&ranked[k].doc_id),
                num: ranked[k].num,
                den: ranked[k].den,
            };
            proof {
                assert(h@ == ranked@[k as int]@);
            }
            out.push(h);
            proof {
                assert(hit_views(out@) =~= out_pre.push(ranked@[k as int]@));
                assert(hit_views(out@) =~= positive_hits(top.take(k + 1)));
                let now = hit_views(out@);
                assert(now[now.len() - 1] == top[k as int]);
                assert(forall|j: int| 0 <= j < now.len() - 1 ==> now[j] == out_pre[j]);
            }
        } else {
            proof {
                assert(positive_hits(top.take(k + 1)) =~= positive_hits(top.take(k as int)));
            }
        }
        k += 1;
    }
    proof {
        assert(top.take(ranked@.len() as int) =~= top);
        lemma_positive_hits_all_positive(top);
        assert forall|j: int| 0 <= j < out@.len() implies (#[trigger] out@[j]@).1 > 0 by {
            assert(hit_views(out@)[j] == out@[j]@);
            assert(positive_hits(top)[j].1 > 0);
        }
        assert(out@.len() <= top.len());
        assert(top.len() <= 10);
        assert forall|i: int, j: int| 0 <= i < j < out@.len() implies score_ge(
            #[trigger] out@[i]@,
            #[trigger] out@[j]@,
        ) by {
            assert(hit_views(out@)[i] == out@[i]@);
            assert(hit_views(out@)[j] == out@[j]@);
        }
    }
    out
}

/// A term that occurs in every indexed document carries idf zero —
/// `log10(n / n)` — and so adds nothing to any document's score, whatever
/// its occurrence count there.
pub proof fn lemma_ubiquitous_term_scores_nothing(n_docs: int, c: int)
    requires
        1 <= n_docs,
        0 <= c,
    ensures
        term_weight(n_docs, n_docs) == 0,
        sat_mul64(c, term_weight(n_docs, n_docs)) == 0,
{
    assert(decades(n_docs, n_docs) == 0);
    assert(pow10(0) == 1);
    assert(n_docs * 1 == n_docs) by (nonlinear_arith);
    assert((n_docs - n_docs * pow10(0)) * 1000 == 0);
    assert(0int / (9 * n_docs) == 0) by (nonlinear_arith)
        requires n_docs >= 1;
    assert(idf_milli_spec(n_docs, n_docs) == 0);
    assert(c * 0 == 0) by (nonlinear_arith);
}

/// Raising a query term's occurrence count in one document — which also
/// raises that document's total term count — never lowers the document's
/// score for a query consisting of that term, all other tables unchanged.
/// Scores are compared as exact fractions, by cross-multiplication.
pub proof fn lemma_more_occurrences_never_hurt(
    tf_before: Seq<(Seq<char>, u64)>,
    tf_after: Seq<(Seq<char>, u64)>,
    dfreq: Seq<(Seq<char>, u64)>,
    n_docs: int,
    term: Seq<char>,
)
    requires
        count_of(tf_after, term) == count_of(tf_before, term) + 1,
        sum_counts(tf_after) == sum_counts(tf_before) + 1,
        count_of(tf_before, term) <= sum_counts(tf_before),
        0 <= sum_counts(tf_before) < u64::MAX,
        (count_of(tf_before, term) + 1) * term_weight(
            n_docs,
            count_of(dfreq, term) as int,
        ) <= u64::MAX,
    ensures
        score_num(tf_after, dfreq, n_docs, seq![term]) * score_den(tf_before) >= score_num(
            tf_before,
            dfreq,
            n_docs,
            seq![term],
        ) * score_den(tf_after),
{
    let w = term_weight(n_docs, count_of(dfreq, term) as int);
    lemma_term_weight_nonneg(n_docs, count_of(dfreq, term) as int);
    let c = count_of(tf_before, term) as int;
    let q = seq![term];
    assert(q.drop_last() =~= Seq::<Seq<char>>::empty());
    assert(q.last() == term);
    assert(c * w <= (c + 1) * w) by (nonlinear_arith)
        requires w >= 0 && c >= 0;
    assert(c * w >= 0) by (nonlinear_arith)
        requires w >= 0 && c >= 0;
    assert(sat_mul64(c, w) == c * w);
    assert(sat_mul64(c + 1, w) == (c + 1) * w);
    assert(score_num(tf_before, dfreq, n_docs, Seq::<Seq<char>>::empty()) == 0);
    assert(score_num(tf_after, dfreq, n_docs, Seq::<Seq<char>>::empty()) == 0);
    assert(score_num(tf_before, dfreq, n_docs, q) == sat_add64(0, sat_mul64(c, w)));
    assert(score_num(tf_after, dfreq, n_docs, q) == sat_add64(0, sat_mul64(c + 1, w)));
    assert(score_num(tf_before, dfreq, n_docs, q) == c * w);
    assert(score_num(tf_after, dfreq, n_docs, q) == (c + 1) * w);
    let sb = sum_counts(tf_before);
    if sb == 0 {
        assert(c == 0);
        assert(score_den(tf_before) == 1 && score_den(tf_after) == 1);
        assert((0 + 1) * w >= 0 * 1) by (nonlinear_arith)
            requires w >= 0;
    } else {
        assert(score_den(tf_before) == sb && score_den(tf_after) == sb + 1);
        assert(((c + 1) * w) * sb >= (c * w) * (sb + 1)) by (nonlinear_arith)
            requires w >= 0 && 0 <= c <= sb;
    }
}

} // verus!
