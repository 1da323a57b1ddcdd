//! The manifest: document identifiers mapped to display names.
//!
//! The ranker only reads it; the enrichment step adds names for documents
//! that have none yet.  A missing name is reported as a sentinel label
//! rather than an error.

use vstd::prelude::*;

use crate::index::Index;
use crate::rank::{search, search_spec, Hit};
use crate::text::{copy_chars, term_eq};

verus! {

/// One manifest row: a document identifier and its display name.
pub struct NameEntry {
    pub id: Vec<char>,
    pub name: Vec<char>,
}

/// First name stored under `id`, scanning from the front.
pub open spec fn name_lookup(
    s: Seq<(Seq<char>, Seq<char>)>,
    id: Seq<char>,
) -> Option<Seq<char>>
    decreases s.len(),
{
    if s.len() == 0 {
        None
    } else if s[0].0 == id {
        Some(s[0].1)
    } else {
        name_lookup(s.skip(1), id)
    }
}

/// The label shown for a document that has no name.
pub open spec fn na_label() -> Seq<char> {
    seq!['N', '/', 'a']
}

/// The reserved identifier of the manifest artifact itself, which is never
/// a document.
pub open spec fn manifest_label() -> Seq<char> {
    seq!['m', 'a', 'n', 'i', 'f', 'e', 's', 't']
}

proof fn lemma_name_lookup_at(s: Seq<(Seq<char>, Seq<char>)>, j: int, id: Seq<char>)
    requires
        0 <= j < s.len(),
        s[j].0 == id,
        forall|k: int| 0 <= k < j ==> s[k].0 != id,
    ensures
        name_lookup(s, id) == Some(s[j].1),
    decreases j,
{
    if j > 0 {
        assert(s.skip(1)[j - 1] == s[j]);
        assert forall|k: int| 0 <= k < j - 1 implies s.skip(1)[k].0 != id by {
            assert(s.skip(1)[k] == s[k + 1]);
        }
        lemma_name_lookup_at(s.skip(1), j - 1, id);
    }
}

proof fn lemma_name_lookup_none(s: Seq<(Seq<char>, Seq<char>)>, id: Seq<char>)
    requires
        forall|k: int| 0 <= k < s.len() ==> s[k].0 != id,
    ensures
        name_lookup(s, id) is None,
    decreases s.len(),
{
    if s.len() > 0 {
        assert forall|k: int| 0 <= k < s.skip(1).len() implies s.skip(1)[k].0 != id by {
            assert(s.skip(1)[k] == s[k + 1]);
        }
        lemma_name_lookup_none(s.skip(1), id);
    }
}

/// The identifier-to-name table.
pub struct Manifest {
    entries: Vec<NameEntry>,
}

impl View for Manifest {
    type V = Seq<(Seq<char>, Seq<char>)>;

    closed spec fn view(&self) -> Seq<(Seq<char>, Seq<char>)> {
        self.entries@.map_values(|e: NameEntry| (e.id@, e.name@))
    }
}

impl Manifest {
    pub fn new() -> (r: Manifest)
        ensures
            r@ == Seq::<(Seq<char>, Seq<char>)>::empty(),
    {
        let r = Manifest { entries: Vec::new() };
        proof {
            assert(r@ =~= Seq::<(Seq<char>, Seq<char>)>::empty());
        }
        r
    }

    pub fn len(&self) -> (r: usize)
        ensures
            r == self@.len(),
    {
        self.entries.len()
    }

    pub fn id_at(&self, i: usize) -> (r: &Vec<char>)
        requires
            i < self@.len(),
        ensures
            r@ == self@[i as int].0,
    {
        proof {
            assert(self@[i as int] == (self.entries@[i as int].id@,
                self.entries@[i as int].name@));
        }
        &self.entries[i].id
    }

    pub fn name_at(&self, i: usize) -> (r: &Vec<char>)
        requires
            i < self@.len(),
        ensures
            r@ == self@[i as int].1,
    {
        proof {
            assert(self@[i as int] == (self.entries@[i as int].id@,
                self.entries@[i as int].name@));
        }
        &self.entries[i].name
    }

    pub fn contains(&self, id: &Vec<char>) -> (r: bool)
        ensures
            r == (name_lookup(self@, id@) is Some),
    {
        let n = self.entries.len();
        let mut j: usize = 0;
        while j < n
            invariant
                j <= n,
                n == self@.len(),
                forall|k: int| 0 <= k < j ==> self@[k].0 != id@,
            decreases n - j,
        {
            proof {
                assert(self@[j as int] == (self.entries@[j as int].id@,
                    self.entries@[j as int].name@));
            }
            if term_eq(&self.entries[j].id, id) {
                proof {
                    lemma_name_lookup_at(self@, j as int, id@);
                }
                return true;
            }
            j += 1;
        }
        proof {
            lemma_name_lookup_none(self@, id@);
        }
        false
    }

    /// Add a row at the end; an identifier already present keeps its
    /// earlier name, since lookups take the first match.
    pub fn add(&mut self, id: Vec<char>, name: Vec<char>)
        ensures
            final(self)@ == old(self)@.push((id@, name@)),
    {
        let ghost pre = self@;
        self.entries.push(NameEntry { id, name });
        proof {
            assert(self@ =~= pre.push((self.entries@.last().id@,
                self.entries@.last().name@)));
        }
    }

    /// The display name for `id`, or the sentinel label when none is
    /// recorded.
    pub fn display_name(&self, id: &Vec<char>) -> (r: Vec<char>)
        ensures
            r@ == match name_lookup(self@, id@) {
                Some(n) => n,
                None => na_label(),
            },
    {
        let n = self.entries.len();
        let mut j: usize = 0;
        while j < n
            invariant
                j <= n,
                n == self@.len(),
                forall|k: int| 0 <= k < j ==> self@[k].0 != id@,
            decreases n - j,
        {
            proof {
                assert(self@[j as int] == (self.entries@[j as int].id@,
                    self.entries@[j as int].name@));
            }
            if term_eq(&self.entries[j].id, id) {
                proof {
                    lemma_name_lookup_at(self@, j as int, id@);
                }
                return copy_chars(&self.entries[j].name);
            }
            j += 1;
        }
        proof {
            lemma_name_lookup_none(self@, id@);
        }
        let mut r: Vec<char> = Vec::new();
        r.push('N');
        r.push('/');
        r.push('a');
        proof {
            assert(r@ =~= na_label());
        }
        r
    }
}

/// The document identifiers of an index, in order.
pub open spec fn doc_ids(s: Seq<crate::index::DocEntry>) -> Seq<Seq<char>> {
    s.map_values(|e: crate::index::DocEntry| e.id@)
}

/// The identifiers that the enrichment step must still name: those of
/// indexed documents with no manifest row, the reserved manifest
/// identifier excepted, in index order.
pub open spec fn unnamed_spec(
    ids: Seq<Seq<char>>,
    m: Seq<(Seq<char>, Seq<char>)>,
) -> Seq<Seq<char>>
    decreases ids.len(),
{
    if ids.len() == 0 {
        Seq::empty()
    } else {
        unnamed_spec(ids.drop_last(), m) + if name_lookup(m, ids.last()) is None
            && ids.last() != manifest_label() {
            seq![ids.last()]
        } else {
            Seq::empty()
        }
    }
}

/// The documents of `idx` that `m` does not name yet.
#[verifier::loop_isolation(false)]
pub fn unnamed_docs(idx: &Index, m: &Manifest) -> (r: Vec<Vec<char>>)
    ensures
        crate::lexer::views(r@) == unnamed_spec(doc_ids(idx.term_freq_per_doc@), m@),
{
    let ghost ids = doc_ids(idx.term_freq_per_doc@);
    let mut skip_label: Vec<char> = Vec::new();
    skip_label.push('m');
    skip_label.push('a');
    skip_label.push('n');
    skip_label.push('i');
    skip_label.push('f');
    skip_label.push('e');
    skip_label.push('s');
    skip_label.push('t');
    proof {
        assert(skip_label@ =~= manifest_label());
    }
    let mut out: Vec<Vec<char>> = Vec::new();
    let mut i: usize = 0;
    proof {
        assert(ids.take(0) =~= Seq::<Seq<char>>::empty());
        assert(crate::lexer::views(out@) =~= unnamed_spec(ids.take(0), m@));
    }
    while i < idx.term_freq_per_doc.len()
        invariant
            i <= ids.len(),
            ids.len() == idx.term_freq_per_doc@.len(),
            crate::lexer::views(out@) == unnamed_spec(ids.take(i as int), m@),
            skip_label@ == manifest_label(),
        decreases ids.len() - i,
    {
        let id = &idx.term_freq_per_doc[i].id;
        proof {
            assert(ids[i as int] == id@);
            assert(ids.take(i + 1).drop_last() =~= ids.take(i as int));
            assert(ids.take(i + 1).last() == ids[i as int]);
        }
        if !m.contains(id) && !term_eq(id, &skip_label) {
            let ghost pre = crate::lexer::views(out@);
            out.push(copy_chars(id));
            proof {
                assert(crate::lexer::views(out@) =~= pre.push(id@));
                assert(crate::lexer::views(out@) =~= unnamed_spec(ids.take(i + 1), m@));
            }
        } else {
            proof {
                assert(unnamed_spec(ids.take(i + 1), m@) =~= unnamed_spec(
                    ids.take(i as int),
                    m@,
                ));
            }
        }
        i += 1;
    }
    proof {
        assert(ids.take(ids.len() as int) =~= ids);
    }
    out
}

/// A ranked result ready for display: the document, its name from the
/// manifest (or the sentinel), and the exact score.
pub struct NamedHit {
    pub name: Vec<char>,
    pub doc_id: Vec<char>,
    pub num: u64,
    pub den: u64,
}

/// Search and map every result's identifier through the manifest: the
/// ranked results of `search`, each carrying its display name, or the
/// sentinel label where the manifest has none.
#[verifier::loop_isolation(false)]
pub fn search_with_names(idx: &Index, m: &Manifest, query: &Vec<char>) -> (r: Vec<NamedHit>)
    ensures
        ({
            let hits = search_spec(idx.term_freq_per_doc@, idx.doc_freq@, query@);
            &&& r@.len() == hits.len()
            &&& forall|k: int| 0 <= k < hits.len() ==> {
                let h = #[trigger] r@[k];
                &&& h.doc_id@ == hits[k].0
                &&& h.num == hits[k].1
                &&& h.den == hits[k].2
                &&& h.name@ == match name_lookup(m@, hits[k].0) {
                    Some(n) => n,
                    None => na_label(),
                }
            }
        }),
{
    let ghost hits_v = search_spec(idx.term_freq_per_doc@, idx.doc_freq@, query@);
    let hits: Vec<Hit> = search(idx, query);
    let mut out: Vec<NamedHit> = Vec::new();
    let mut k: usize = 0;
    while k < hits.len()
        invariant
            k <= hits@.len(),
            crate::rank::hit_views(hits@) == hits_v,
            out@.len() == k,
            forall|j: int| 0 <= j < k ==> {
                let h = #[trigger] out@[j];
                &&& h.doc_id@ == hits_v[j].0
                &&& h.num == hits_v[j].1
                &&& h.den == hits_v[j].2
                &&& h.name@ == match name_lookup(m@, hits_v[j].0) {
                    Some(n) => n,
                    None => na_label(),
                }
            },
        decreases hits@.len() - k,
    {
        let h = &hits[k];
        proof {
            assert(crate::rank::hit_views(hits@)[k as int] == h@);
        }
        let name = m.display_name(&h.doc_id);
        out.push(NamedHit {
            name,
            doc_id: copy_chars(&h.doc_id),
            num: h.num,
            den: h.den,
        });
        k += 1;
    }
    out
}

} // verus!
