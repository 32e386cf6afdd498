//! The document store: an append-only sequence of documents, each kept with
//! its term-frequency vector, searched by cosine similarity.
use vstd::prelude::*;
use crate::terms::{fields, lemma_fields_len, split_fields, count_tokens, term_views, TermVector, MAX_TEXT_CHARS};
use crate::similarity::{dot, norm, dot_with, lemma_score_le_lt, lemma_dot_disjoint, lemma_dot_shared, Score, MAX_FIELDS};

verus! {

/// A stored document with its precomputed term vector and norm.
pub struct IndexEntry {
    document: String,
    terms: TermVector,
    norm: u64,
}

impl IndexEntry {
    pub closed spec fn wf(&self) -> bool {
        &&& self.document@.len() <= MAX_TEXT_CHARS
        &&& self.terms.counts(fields(self.document@))
        &&& self.norm == norm(self.document@)
    }
}

/// An append-only collection of documents.
pub struct Indexer {
    documents: Vec<IndexEntry>,
}

/// The documents of `docs` whose score against `query` is not zero (their
/// dot product with it is positive), in order.
pub open spec fn matching(query: Seq<char>, docs: Seq<Seq<char>>) -> Seq<Seq<char>>
    decreases docs.len(),
{
    if docs.len() == 0 {
        Seq::empty()
    } else {
        let prev = matching(query, docs.drop_last());
        if dot(query, docs.last()) > 0 {
            prev.push(docs.last())
        } else {
            prev
        }
    }
}

/// A document scores above zero against a query exactly when the two share a field.
pub proof fn lemma_match_iff_shared(query: Seq<char>, doc: Seq<char>)
    ensures
        dot(query, doc) > 0 <==> exists|t: Seq<char>| #[trigger] fields(query).contains(t) && fields(doc).contains(t),
{
    if exists|t: Seq<char>| #[trigger] fields(query).contains(t) && fields(doc).contains(t) {
        let t = choose|t: Seq<char>| #[trigger] fields(query).contains(t) && fields(doc).contains(t);
        lemma_dot_shared(query, doc, t);
    } else {
        lemma_dot_disjoint(query, doc);
    }
}

/// An empty store has no match for any query.
pub proof fn lemma_empty_store_no_hits(query: Seq<char>)
    ensures
        matching(query, Seq::<Seq<char>>::empty()).len() == 0,
{
}

/// A query that shares no field with any stored document matches none of them.
pub proof fn lemma_disjoint_query_no_hits(query: Seq<char>, docs: Seq<Seq<char>>)
    requires
        forall|i: int, t: Seq<char>|
            0 <= i < docs.len() && #[trigger] fields(query).contains(t) ==> !fields(#[trigger] docs[i]).contains(t),
    ensures
        matching(query, docs).len() == 0,
    decreases docs.len(),
{
    if docs.len() > 0 {
        let p = docs.drop_last();
        assert forall|i: int, t: Seq<char>|
            0 <= i < p.len() && #[trigger] fields(query).contains(t) implies !fields(#[trigger] p[i]).contains(t) by {
            assert(p[i] == docs[i]);
        }
        lemma_disjoint_query_no_hits(query, p);
        assert forall|t: Seq<char>| fields(query).contains(t) implies !fields(docs.last()).contains(t) by {
            assert(docs[docs.len() - 1] == docs.last());
        }
        lemma_dot_disjoint(query, docs.last());
    }
}

/// The results `r` are the documents of `docs` that match `query`, in order,
/// each with its cosine score against `query`.
pub open spec fn are_hits(r: Seq<(Score, &String)>, query: Seq<char>, docs: Seq<Seq<char>>) -> bool {
    let m = matching(query, docs);
    &&& r.len() == m.len()
    &&& forall|i: int| 0 <= i < r.len() ==> {
        &&& (#[trigger] r[i]).1@ == m[i]
        &&& r[i].0.is_cosine(query, m[i])
    }
}

/// The hits of a query against a store are fully determined: two result
/// sequences that both meet `are_hits` hold the same scores and documents.
pub proof fn lemma_hits_determined(
    r1: Seq<(Score, &String)>,
    r2: Seq<(Score, &String)>,
    query: Seq<char>,
    docs: Seq<Seq<char>>,
)
    requires
        are_hits(r1, query, docs),
        are_hits(r2, query, docs),
    ensures
        r1.len() == r2.len(),
        forall|i: int| 0 <= i < r1.len() ==> (#[trigger] r1[i]).0 == r2[i].0 && r1[i].1@ == r2[i].1@,
{
    assert forall|i: int| 0 <= i < r1.len() implies (#[trigger] r1[i]).0 == r2[i].0 && r1[i].1@ == r2[i].1@ by {
        assert(r2[i].1@ == matching(query, docs)[i]);
    }
}

impl View for Indexer {
    type V = Seq<Seq<char>>;

    /// The stored documents, oldest first.
    closed spec fn view(&self) -> Seq<Seq<char>> {
        self.documents@.map_values(|e: IndexEntry| e.document@)
    }
}

impl Indexer {
    /// Every entry holds the term vector and norm of its own document.
    pub closed spec fn wf(&self) -> bool {
        forall|i: int| 0 <= i < self.documents@.len() ==> (#[trigger] self.documents@[i]).wf()
    }

    /// An empty index.
    pub fn new() -> (r: Indexer)
        ensures
            r.wf(),
            r@ == Seq::<Seq<char>>::empty(),
    {
        let r = Indexer { documents: Vec::new() };
        assert(r@ =~= Seq::<Seq<char>>::empty());
        r
    }

    /// Appends `document`, with its term vector, to the store.
    pub fn add(&mut self, document: String)
        requires
            old(self).wf(),
            document@.len() <= MAX_TEXT_CHARS,
        ensures
            final(self).wf(),
            final(self)@ == old(self)@.push(document@),
    {
        let toks = split_fields(&document);
        proof {
            lemma_fields_len(document@);
        }
        let terms = count_tokens(&toks);
        let norm = dot_with(&toks, &terms, Ghost(term_views(toks@)));
        let entry = IndexEntry { document, terms, norm };
        let ghost before = self.documents@;
        self.documents.push(entry);
        proof {
            assert forall|i: int| 0 <= i < self.documents@.len() implies (#[trigger] self.documents@[i]).wf() by {
                if i < before.len() {
                    assert(self.documents@[i] == before[i]);
                }
            }
            assert(self@ =~= old(self)@.push(document@));
        }
    }

    /// The stored documents whose score against `text` is not zero, in the
    /// order they were added, each with its cosine score; `None` when there
    /// is none.
    ///
    /// An empty query is not treated apart: it is one empty field, so it
    /// matches every document that holds an empty field (the empty document,
    /// or one with two adjacent spaces or a space at either end). Callers
    /// that want an empty query to find nothing test for it before calling.
    pub fn search(&self, text: String) -> (r: Option<Vec<(Score, &String)>>)
        requires
            self.wf(),
            text@.len() <= MAX_TEXT_CHARS,
        ensures
            r is None <==> matching(text@, self@).len() == 0,
            r matches Some(v) ==> are_hits(v@, text@, self@),
    {
        let q = split_fields(&text);
        proof {
            lemma_fields_len(text@);
        }
        let qv = count_tokens(&q);
        let qn = dot_with(&q, &qv, Ghost(term_views(q@)));
        let mut results: Vec<(Score, &String)> = Vec::new();
        let mut i: usize = 0;
        while i < self.documents.len()
            invariant
                self.wf(),
                i <= self.documents@.len(),
                term_views(q@) == fields(text@),
                q@.len() <= MAX_FIELDS,
                qn == norm(text@),
                are_hits(results@, text@, self@.take(i as int)),
            decreases self.documents@.len() - i,
        {
            let e = &self.documents[i];
            proof {
                assert(e.wf());
                lemma_fields_len(e.document@);
            }
            let d = dot_with(&q, &e.terms, Ghost(fields(e.document@)));
            let ghost docs = self@.take(i + 1);
            proof {
                assert(docs.drop_last() =~= self@.take(i as int));
                assert(docs.last() == e.document@);
            }
            if d != 0 {
                results.push((Score { dot: d, query_norm: qn, doc_norm: e.norm }, &e.document));
            }
            i = i + 1;
        }
        proof {
            assert(self@.take(self.documents@.len() as int) =~= self@);
        }
        if results.len() == 0 {
            None
        } else {
            Some(results)
        }
    }
}


/// The scores of `r` never increase from one result to the next.
pub open spec fn ranked(r: Seq<(Score, &String)>) -> bool {
    forall|i: int, j: int| 0 <= i < j < r.len() ==> (#[trigger] r[i]).0.ge((#[trigger] r[j]).0)
}

/// `r` is `hits` rearranged by `perm`: result `i` is hit `perm[i]`, no hit is
/// used twice, and results of equal score keep the order of their hits.
pub open spec fn reorders(perm: Seq<int>, r: Seq<(Score, &String)>, hits: Seq<(Score, &String)>) -> bool {
    &&& perm.len() == r.len()
    &&& r.len() == hits.len()
    &&& forall|i: int| 0 <= i < r.len() ==> 0 <= #[trigger] perm[i] < hits.len() && r[i] == hits[perm[i]]
    &&& forall|i: int, j: int| 0 <= i < j < r.len() ==> #[trigger] perm[i] != #[trigger] perm[j]
    &&& forall|i: int, j: int|
        0 <= i < j < r.len() && (#[trigger] r[j]).0.ge((#[trigger] r[i]).0) ==> perm[i] < perm[j]
}

/// `r` holds the hits from the highest score to the lowest, equal scores in
/// the order of the hits.
pub open spec fn is_ranking(r: Seq<(Score, &String)>, hits: Seq<(Score, &String)>) -> bool {
    &&& ranked(r)
    &&& r.to_multiset() == hits.to_multiset()
    &&& exists|perm: Seq<int>| reorders(perm, r, hits)
}

/// Orders `hits` from the highest score to the lowest; hits of equal score
/// keep the order they had.
pub fn rank<'a>(hits: Vec<(Score, &'a String)>) -> (r: Vec<(Score, &'a String)>)
    ensures
        is_ranking(r@, hits@),
{
    let mut out: Vec<(Score, &'a String)> = Vec::new();
    let ghost mut perm: Seq<int> = Seq::empty();
    let mut k: usize = 0;
    assert(hits@.take(0) =~= out@);
    while k < hits.len()
        invariant
            k <= hits@.len(),
            out@.to_multiset() == hits@.take(k as int).to_multiset(),
            ranked(out@),
            reorders(perm, out@, hits@.take(k as int)),
        decreases hits@.len() - k,
    {
        let x = hits[k];
        let mut p: usize = 0;
        while p < out.len() && !out[p].0.less_than(&x.0)
            invariant
                p <= out@.len(),
                forall|i: int| 0 <= i < p ==> (#[trigger] out@[i]).0.ge(x.0),
            decreases out@.len() - p,
        {
            p = p + 1;
        }
        let ghost before = out@;
        let ghost bperm = perm;
        out.insert(p, x);
        proof {
            perm = bperm.insert(p as int, k as int);
            assert(out@ == before.insert(p as int, x));
            vstd::seq_lib::to_multiset_insert(before, p as int, x);
            let h = hits@.take(k + 1);
            assert(h =~= hits@.take(k as int).push(x));
            vstd::seq_lib::to_multiset_build(hits@.take(k as int), x);
            assert forall|i: int| 0 <= i < out@.len() implies 0 <= #[trigger] perm[i] < h.len() && out@[i] == h[perm[i]] by {
                if i < p {
                    assert(perm[i] == bperm[i] && out@[i] == before[i]);
                    assert(hits@.take(k as int)[bperm[i]] == h[bperm[i]]);
                } else if i > p {
                    assert(perm[i] == bperm[i - 1] && out@[i] == before[i - 1]);
                    assert(hits@.take(k as int)[bperm[i - 1]] == h[bperm[i - 1]]);
                }
            }
            assert forall|i: int, j: int| 0 <= i < j < out@.len() implies #[trigger] perm[i] != #[trigger] perm[j] by {
                let ii = if i < p { i } else { i - 1 };
                let jj = if j < p { j } else { j - 1 };
                if i != p && j != p {
                    assert(perm[i] == bperm[ii] && perm[j] == bperm[jj]);
                    assert(bperm[ii] != bperm[jj]);
                } else if i == p {
                    assert(0 <= bperm[jj] < k);
                } else {
                    assert(0 <= bperm[ii] < k);
                }
            }
            assert forall|i: int, j: int| 0 <= i < j < out@.len() implies (#[trigger] out@[i]).0.ge((#[trigger] out@[j]).0) by {
                if j < p {
                    assert(out@[i] == before[i] && out@[j] == before[j]);
                } else if i < p && j == p {
                } else if i < p && j > p {
                    assert(out@[i] == before[i] && out@[j] == before[j - 1]);
                } else if i == p {
                    assert(out@[j] == before[j - 1]);
                    assert(before[p as int].0.lt(x.0));
                    if p < j - 1 {
                        assert(before[p as int].0.ge(before[j - 1].0));
                    }
                    lemma_score_le_lt(before[j - 1].0, before[p as int].0, x.0);
                } else {
                    assert(out@[i] == before[i - 1] && out@[j] == before[j - 1]);
                }
            }
            assert forall|i: int, j: int|
                0 <= i < j < out@.len() && (#[trigger] out@[j]).0.ge((#[trigger] out@[i]).0) implies perm[i] < perm[j] by {
                if i == p {
                    assert(out@[j] == before[j - 1]);
                    assert(before[p as int].0.lt(x.0));
                    if p < j - 1 {
                        assert(before[p as int].0.ge(before[j - 1].0));
                    }
                    lemma_score_le_lt(before[j - 1].0, before[p as int].0, x.0);
                } else if j == p {
                    assert(perm[i] == bperm[i]);
                } else {
                    let ii = if i < p { i } else { i - 1 };
                    let jj = if j < p { j } else { j - 1 };
                    assert(out@[i] == before[ii] && out@[j] == before[jj]);
                    assert(perm[i] == bperm[ii] && perm[j] == bperm[jj]);
                }
            }
        }
        k = k + 1;
    }
    assert(hits@.take(hits@.len() as int) =~= hits@);
    out
}

} // verus!
