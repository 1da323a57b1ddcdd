//! The index builder: per-document term frequencies plus the global
//! document-frequency table.
//!
//! Each input document yields one frequency table (one count per term
//! occurrence); the global table counts, for every term, the number of
//! documents that contain it at least once, however often it occurs there.

use vstd::prelude::*;

use crate::freq::{TermFreq, count_of, lemma_lookup_none, lemma_lookup_push, lookup, sum_counts};
use crate::lexer::{tokenize, tokens_of, views};
use crate::text::copy_chars;

verus! {

/// A document ready for indexing: a stable identifier and its text.
pub struct Document {
    pub id: Vec<char>,
    pub text: Vec<char>,
}

/// One indexed document: its identifier and its term-frequency table.
pub struct DocEntry {
    pub id: Vec<char>,
    pub tf: TermFreq,
}

/// The persisted artifact: all per-document tables and the global
/// document-frequency table.
pub struct Index {
    pub term_freq_per_doc: Vec<DocEntry>,
    pub doc_freq: TermFreq,
}

/// Number of occurrences of `t` in the token list `toks`.
pub open spec fn occ(toks: Seq<Seq<char>>, t: Seq<char>) -> int
    decreases toks.len(),
{
    if toks.len() == 0 {
        0
    } else {
        occ(toks.drop_last(), t) + if toks.last() == t {
            1int
        } else {
            0int
        }
    }
}

/// Whether the text contains the term at least once.
pub open spec fn appears_in(text: Seq<char>, t: Seq<char>) -> bool {
    occ(tokens_of(text), t) > 0
}

/// Number of distinct documents among `texts` that contain `t`.
pub open spec fn df_count(texts: Seq<Seq<char>>, t: Seq<char>) -> int
    decreases texts.len(),
{
    if texts.len() == 0 {
        0
    } else {
        df_count(texts.drop_last(), t) + if appears_in(texts.last(), t) {
            1int
        } else {
            0int
        }
    }
}

/// The text of every document, in order.
pub open spec fn texts_of(docs: Seq<Document>) -> Seq<Seq<char>> {
    docs.map_values(|d: Document| d.text@)
}

/// `tf` records exactly the occurrence counts of `toks`: a term is present
/// if and only if it occurs, with its occurrence count, and the counts sum
/// to the number of tokens.
pub open spec fn is_histogram(tf: Seq<(Seq<char>, u64)>, toks: Seq<Seq<char>>) -> bool {
    &&& forall|u: Seq<char>| #[trigger] lookup(tf, u) == (if occ(toks, u) > 0 {
        Some(occ(toks, u) as u64)
    } else {
        None::<u64>
    })
    &&& sum_counts(tf) == toks.len()
}

pub proof fn lemma_occ_bounds(toks: Seq<Seq<char>>, t: Seq<char>)
    ensures
        0 <= occ(toks, t) <= toks.len(),
    decreases toks.len(),
{
    if toks.len() > 0 {
        lemma_occ_bounds(toks.drop_last(), t);
    }
}

/// The document frequency of any term is at least zero and at most the
/// number of documents.
pub proof fn lemma_doc_freq_bounds(texts: Seq<Seq<char>>, t: Seq<char>)
    ensures
        0 <= df_count(texts, t) <= texts.len(),
    decreases texts.len(),
{
    if texts.len() > 0 {
        lemma_doc_freq_bounds(texts.drop_last(), t);
    }
}

/// For any built document-frequency table — one whose rows are exactly the
/// terms occurring somewhere, each with its distinct-document count — every
/// term's recorded frequency lies between zero and the number of documents,
/// and equals the number of distinct documents containing it.
pub proof fn lemma_doc_freq_in_range(df: Seq<(Seq<char>, u64)>, texts: Seq<Seq<char>>)
    requires
        texts.len() <= u64::MAX,
        forall|u: Seq<char>| #[trigger] lookup(df, u) == (if df_count(texts, u) > 0 {
            Some(df_count(texts, u) as u64)
        } else {
            None::<u64>
        }),
    ensures
        forall|t: Seq<char>| 0 <= #[trigger] count_of(df, t) <= texts.len(),
        forall|t: Seq<char>| df_count(texts, t) > 0 ==> #[trigger] count_of(df, t) == df_count(
            texts,
            t,
        ),
        forall|t: Seq<char>| df_count(texts, t) == 0 ==> #[trigger] count_of(df, t) == 0,
{
    assert forall|t: Seq<char>| 0 <= #[trigger] count_of(df, t) <= texts.len() by {
        lemma_doc_freq_bounds(texts, t);
        assert(lookup(df, t) == (if df_count(texts, t) > 0 {
            Some(df_count(texts, t) as u64)
        } else {
            None::<u64>
        }));
    }
    assert forall|t: Seq<char>| df_count(texts, t) > 0 implies count_of(df, t) == df_count(
        texts,
        t,
    ) by {
        lemma_doc_freq_bounds(texts, t);
        assert(lookup(df, t) == Some(df_count(texts, t) as u64));
    }
    assert forall|t: Seq<char>| df_count(texts, t) == 0 implies count_of(df, t) == 0 by {
        assert(lookup(df, t) is None);
    }
}

/// Deriving a document's total term count from its frequency table agrees
/// with re-tokenizing the document and counting raw tokens.
pub proof fn lemma_total_terms_matches_tokens(tf: Seq<(Seq<char>, u64)>, toks: Seq<Seq<char>>)
    requires
        is_histogram(tf, toks),
    ensures
        sum_counts(tf) == toks.len(),
{
}

/// Count every token of `tokens` into a fresh table.
#[verifier::loop_isolation(false)]
fn count_terms(tokens: &Vec<Vec<char>>) -> (tf: TermFreq)
    ensures
        tf.wf(),
        is_histogram(tf@, views(tokens@)),
{
    let ghost all = views(tokens@);
    let mut tf = TermFreq::new();
    let mut k: usize = 0;
    proof {
        assert(all.take(0) =~= Seq::<Seq<char>>::empty());
    }
    while k < tokens.len()
        invariant
            k <= tokens@.len(),
            tf.wf(),
            sum_counts(tf@) == k,
            forall|u: Seq<char>| #[trigger] lookup(tf@, u) == (if occ(all.take(k as int), u)
                > 0 {
                Some(occ(all.take(k as int), u) as u64)
            } else {
                None::<u64>
            }),
        decreases tokens@.len() - k,
    {
        let tok = copy_chars(&tokens[k]);
        proof {
            lemma_occ_bounds(all.take(k as int), tok@);
        }
        tf.increment(tok);
        proof {
            assert(all.take(k + 1).drop_last() =~= all.take(k as int));
            assert(all.take(k + 1).last() == tokens@[k as int]@);
            assert forall|u: Seq<char>| true implies #[trigger] lookup(tf@, u) == (if occ(
                all.take(k + 1),
                u,
            ) > 0 {
                Some(occ(all.take(k + 1), u) as u64)
            } else {
                None::<u64>
            }) by {
                lemma_occ_bounds(all.take(k as int), u);
            }
        }
        k += 1;
    }
    proof {
        assert(all.take(tokens@.len() as int) =~= all);
    }
    tf
}

/// Walk the distinct terms of one document's table and charge each to the
/// global document-frequency table exactly once.
#[verifier::loop_isolation(false)]
fn add_doc_to_df(df: &mut TermFreq, tf: &TermFreq)
    requires
        old(df).wf(),
        tf.wf(),
        forall|u: Seq<char>| count_of(old(df)@, u) < u64::MAX,
    ensures
        final(df).wf(),
        forall|u: Seq<char>| #[trigger] lookup(final(df)@, u) == (if lookup(tf@, u) is Some {
            Some((count_of(old(df)@, u) + 1) as u64)
        } else {
            lookup(old(df)@, u)
        }),
{
    let n = tf.len();
    let mut j: usize = 0;
    proof {
        assert(tf@.take(0) =~= Seq::<(Seq<char>, u64)>::empty());
    }
    while j < n
        invariant
            j <= n,
            df.wf(),
            forall|u: Seq<char>| #[trigger] lookup(df@, u) == (if lookup(tf@.take(j as int), u)
                is Some {
                Some((count_of(old(df)@, u) + 1) as u64)
            } else {
                lookup(old(df)@, u)
            }),
        decreases n - j,
    {
        let term = copy_chars(tf.term_at(j));
        proof {
            assert forall|k: int| 0 <= k < j implies (#[trigger] tf@.take(j as int)[k]).0
                != term@ by {
                assert(tf@.take(j as int)[k] == tf@[k]);
            }
            lemma_lookup_none(tf@.take(j as int), term@);
            assert(lookup(df@, term@) == lookup(old(df)@, term@));
            assert(count_of(old(df)@, term@) < u64::MAX);
            assert(count_of(df@, term@) < u64::MAX);
        }
        df.increment(term);
        proof {
            assert(tf@.take(j + 1) =~= tf@.take(j as int).push(tf@[j as int]));
            assert forall|u: Seq<char>| true implies #[trigger] lookup(tf@.take(j + 1), u)
                == (if lookup(tf@.take(j as int), u) is Some {
                lookup(tf@.take(j as int), u)
            } else if u == tf@[j as int].0 {
                Some(tf@[j as int].1)
            } else {
                None::<u64>
            }) by {
                lemma_lookup_push(tf@.take(j as int), tf@[j as int].0, tf@[j as int].1, u);
            }
        }
        j += 1;
    }
    proof {
        assert(tf@.take(n as int) =~= tf@);
    }
}

impl Index {
    /// All per-document tables are well formed, as is the global table.
    pub open spec fn wf(&self) -> bool {
        &&& forall|i: int| 0 <= i < self.term_freq_per_doc@.len()
            ==> (#[trigger] self.term_freq_per_doc@[i]).tf.wf()
        &&& self.doc_freq.wf()
    }

    pub fn new(term_freq_per_doc: Vec<DocEntry>, doc_freq: TermFreq) -> (r: Index)
        ensures
            r.term_freq_per_doc@ == term_freq_per_doc@,
            r.doc_freq == doc_freq,
    {
        Index { term_freq_per_doc, doc_freq }
    }

    pub fn doc_count(&self) -> (r: usize)
        ensures
            r == self.term_freq_per_doc@.len(),
    {
        self.term_freq_per_doc.len()
    }
}

/// Build the index over the given documents, one entry per document in
/// order: each entry's table is the histogram of that document's tokens,
/// and the global table maps every term that occurs anywhere to the number
/// of distinct documents containing it.
#[verifier::loop_isolation(false)]
pub fn build_index(docs: &Vec<Document>) -> (idx: Index)
    ensures
        idx.wf(),
        idx.term_freq_per_doc@.len() == docs@.len(),
        forall|i: int| 0 <= i < docs@.len() ==> (#[trigger] idx.term_freq_per_doc@[i]).id@
            == docs@[i].id@,
        forall|i: int| 0 <= i < docs@.len() ==> is_histogram(
            (#[trigger] idx.term_freq_per_doc@[i]).tf@,
            tokens_of(docs@[i].text@),
        ),
        forall|u: Seq<char>| #[trigger] lookup(idx.doc_freq@, u) == (if df_count(
            texts_of(docs@),
            u,
        ) > 0 {
            Some(df_count(texts_of(docs@), u) as u64)
        } else {
            None::<u64>
        }),
{
    let ghost texts = texts_of(docs@);
    let mut entries: Vec<DocEntry> = Vec::new();
    let mut df = TermFreq::new();
    let mut i: usize = 0;
    proof {
        assert(texts.take(0) =~= Seq::<Seq<char>>::empty());
    }
    while i < docs.len()
        invariant
            i <= docs@.len(),
            entries@.len() == i,
            forall|k: int| 0 <= k < i ==> (#[trigger] entries@[k]).id@ == docs@[k].id@,
            forall|k: int| 0 <= k < i ==> (#[trigger] entries@[k]).tf.wf(),
            forall|k: int| 0 <= k < i ==> is_histogram(
                (#[trigger] entries@[k]).tf@,
                tokens_of(docs@[k].text@),
            ),
            df.wf(),
            forall|u: Seq<char>| #[trigger] lookup(df@, u) == (if df_count(
                texts.take(i as int),
                u,
            ) > 0 {
                Some(df_count(texts.take(i as int), u) as u64)
            } else {
                None::<u64>
            }),
        decreases docs@.len() - i,
    {
        let toks = tokenize(&docs[i].text);
        let tf = count_terms(&toks);
        proof {
            assert(views(toks@) == tokens_of(docs@[i as int].text@));
            assert forall|u: Seq<char>| true implies count_of(df@, u) < u64::MAX by {
                lemma_doc_freq_bounds(texts.take(i as int), u);
            }
        }
        let ghost df_pre = df@;
        add_doc_to_df(&mut df, &tf);
        proof {
            assert(texts.take(i + 1).drop_last() =~= texts.take(i as int));
            assert(texts.take(i + 1).last() == docs@[i as int].text@);
            assert forall|u: Seq<char>| true implies #[trigger] lookup(df@, u) == (if df_count(
                texts.take(i + 1),
                u,
            ) > 0 {
                Some(df_count(texts.take(i + 1), u) as u64)
            } else {
                None::<u64>
            }) by {
                lemma_doc_freq_bounds(texts.take(i as int), u);
                assert(df_count(texts.take(i + 1), u) == df_count(texts.take(i as int), u)
                    + if appears_in(docs@[i as int].text@, u) {
                    1int
                } else {
                    0int
                });
            }
        }
        let id = copy_chars(&docs[i].id);
        entries.push(DocEntry { id, tf });
        i += 1;
    }
    proof {
        assert(texts.take(docs@.len() as int) =~= texts);
    }
    Index::new(entries, df)
}

/// What the markup parser extracts from a document: the concatenation of
/// all its character-data runs, one space after each run.
pub uninterp spec fn markup_text_of(s: Seq<char>) -> Seq<char>;

/// Relies on xml's EventReader: the text events of a well-formed document
/// are a function of the source characters alone; malformed tails simply
/// end the event stream.
#[verifier::external_body]
fn extract_text(xml: &str) -> (r: Vec<char>)
    ensures
        r@ == markup_text_of(xml@),
{
    let mut content = String::new();
    for event in xml::reader::EventReader::new(xml.as_bytes()) {
        if let Ok(xml::reader::XmlEvent::Characters(text)) = event {
            content.push_str(&text);
            content.push(' ');
        }
    }
    content.chars().collect()
}

/// A document assembled from a markup source: the text is what the parser
/// extracts from it.
pub fn extract_document(id: Vec<char>, xml: &str) -> (d: Document)
    ensures
        d.id@ == id@,
        d.text@ == markup_text_of(xml@),
{
    let text = extract_text(xml);
    Document { id, text }
}

} // verus!
