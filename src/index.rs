use vstd::prelude::*;

use crate::compressor::{fits, fits_in_block};
use crate::doc_set::{difference, intersect, sorted_docs, union};
use crate::listing::{add_ok, postings_ok, Listing};
use crate::page_cache::RamPageCache;
use crate::persistence::ListingRecord;
use crate::posting::{postings_view, sorted_positions, strictly_increasing, DocId, Posting, PostingView};
use crate::vocabulary::Vocabulary;
use crate::query::{
    aligned, answers, has_doc, in_order, occurs_at, term_postings, BooleanOperator, BooleanQuery,
    FilterOperator, PositionalOperator, QueryAtom,
};

verus! {

/// Errors of building or loading an index.
#[derive(Clone, Copy, PartialEq, Eq, Debug, Structural)]
pub enum Error {
    /// A persistent index was asked for without a path to persist it to.
    PersistPathNotSpecified,
    /// The directory to load an index from is empty.
    EmptyPersistPath,
    /// A file of the index does not decode.
    CorruptedIndexFile,
    /// A term occurs in one document at more positions than one block holds.
    PostingTooLarge,
}

/// Positions at which `term` stands in `doc`.
pub open spec fn positions_of(doc: Seq<u64>, term: u64) -> Seq<u32>
    decreases doc.len(),
{
    if doc.len() == 0 {
        Seq::empty()
    } else {
        positions_of(doc.drop_last(), term) + if doc.last() == term {
            seq![(doc.len() - 1) as u32]
        } else {
            Seq::empty()
        }
    }
}

/// The postings of `term` over `docs`, whose doc ids are their indices.
pub open spec fn expected_postings(docs: Seq<Seq<u64>>, term: u64) -> Seq<PostingView>
    decreases docs.len(),
{
    if docs.len() == 0 {
        Seq::empty()
    } else {
        let n = docs.len() - 1;
        expected_postings(docs.drop_last(), term) + if positions_of(docs[n], term).len() > 0 {
            seq![(n as DocId, positions_of(docs[n], term))]
        } else {
            Seq::empty()
        }
    }
}

/// The posting of `term` for document `doc` with doc id `n`, if the term
/// occurs in it.
pub open spec fn document_postings(doc: Seq<u64>, n: DocId, term: u64) -> Seq<PostingView> {
    if positions_of(doc, term).len() > 0 {
        seq![(n, positions_of(doc, term))]
    } else {
        Seq::empty()
    }
}

/// Every doc id in `s` is below `n`.
pub open spec fn docs_below(s: Seq<PostingView>, n: int) -> bool {
    forall|j: int| 0 <= j < s.len() ==> (#[trigger] s[j]).0 < n
}

/// The documents as sequences of terms.
pub open spec fn docs_view(docs: Seq<Vec<u64>>) -> Seq<Seq<u64>> {
    docs.map_values(|d: Vec<u64>| d@)
}

proof fn lemma_positions_step(d: Seq<u64>, p: int)
    requires
        0 <= p < d.len(),
    ensures
        forall|t: u64| #[trigger] positions_of(d.take(p + 1), t) == positions_of(d.take(p), t) + if d[p] == t {
            seq![p as u32]
        } else {
            Seq::empty()
        },
{
    assert(d.take(p + 1).drop_last() =~= d.take(p));
    assert(d.take(p + 1).last() == d[p]);
}

proof fn lemma_expected_step(docs: Seq<Seq<u64>>, n: int)
    requires
        0 <= n < docs.len(),
    ensures
        forall|t: u64| #[trigger] expected_postings(docs.take(n + 1), t) == expected_postings(docs.take(n), t) + if positions_of(docs[n], t).len() > 0 {
            seq![(n as DocId, positions_of(docs[n], t))]
        } else {
            Seq::empty()
        },
{
    assert(docs.take(n + 1).drop_last() =~= docs.take(n));
    assert(docs.take(n + 1)[n] == docs[n]);
}

proof fn lemma_positions_of(doc: Seq<u64>, term: u64)
    requires
        doc.len() <= u32::MAX + 1,
    ensures
        forall|i: int, j: int| 0 <= i < j < positions_of(doc, term).len() ==> positions_of(doc, term)[i] < positions_of(doc, term)[j],
        forall|i: int| 0 <= i < positions_of(doc, term).len() ==> positions_of(doc, term)[i] < doc.len(),
        positions_of(doc, term).len() <= doc.len(),
    decreases doc.len(),
{
    if doc.len() > 0 {
        lemma_positions_of(doc.drop_last(), term);
    }
}

proof fn lemma_expected(docs: Seq<Seq<u64>>, term: u64)
    requires
        docs.len() <= u32::MAX + 1,
        forall|i: int| 0 <= i < docs.len() ==> (#[trigger] docs[i]).len() <= u32::MAX,
    ensures
        strictly_increasing(expected_postings(docs, term)),
        forall|i: int| 0 <= i < expected_postings(docs, term).len() ==> (#[trigger] expected_postings(docs, term)[i]).0 < docs.len(),
        forall|i: int| 0 <= i < expected_postings(docs, term).len() ==> sorted_positions((#[trigger] expected_postings(docs, term)[i]).1),
        forall|i: int| 0 <= i < expected_postings(docs, term).len() ==> (#[trigger] expected_postings(docs, term)[i]).1.len() <= u32::MAX,
    decreases docs.len(),
{
    if docs.len() > 0 {
        let n = docs.len() - 1;
        let init = docs.drop_last();
        assert forall|i: int| 0 <= i < init.len() implies (#[trigger] init[i]).len() <= u32::MAX by {
            assert(init[i] == docs[i]);
        }
        lemma_expected(init, term);
        lemma_positions_of(docs[n], term);
        let e = expected_postings(docs, term);
        let e0 = expected_postings(init, term);
        assert forall|i: int| 0 <= i < e.len() implies sorted_positions((#[trigger] e[i]).1) by {
            if i < e0.len() {
                assert(e[i] == e0[i]);
            }
        }
    }
}

/// `ts` with each term of `xs` that it lacks appended, in order of first
/// occurrence.
pub open spec fn add_terms(ts: Seq<u64>, xs: Seq<u64>) -> Seq<u64>
    decreases xs.len(),
{
    if xs.len() == 0 {
        ts
    } else {
        let t0 = add_terms(ts, xs.drop_last());
        if t0.contains(xs.last()) {
            t0
        } else {
            t0.push(xs.last())
        }
    }
}

/// The vocabulary of `docs`: each distinct term once, in order of first
/// occurrence; a term's id is its index.
pub open spec fn vocabulary_of(docs: Seq<Seq<u64>>) -> Seq<u64>
    decreases docs.len(),
{
    if docs.len() == 0 {
        Seq::empty()
    } else {
        add_terms(vocabulary_of(docs.drop_last()), docs.last())
    }
}

/// Adding terms keeps a sequence free of duplicates, and it then holds
/// exactly the terms it held and the terms added.
pub proof fn lemma_add_terms(ts: Seq<u64>, xs: Seq<u64>)
    requires
        ts.no_duplicates(),
    ensures
        add_terms(ts, xs).no_duplicates(),
        forall|t: u64| #[trigger] add_terms(ts, xs).contains(t) <==> ts.contains(t) || xs.contains(t),
        add_terms(ts, xs).take(ts.len() as int) == ts,
        ts.len() <= add_terms(ts, xs).len(),
    decreases xs.len(),
{
    if xs.len() > 0 {
        let init = xs.drop_last();
        let x = xs.last();
        lemma_add_terms(ts, init);
        let t0 = add_terms(ts, init);
        crate::doc_set::lemma_push_contains(init, x);
        assert(init.push(x) =~= xs);
        if !t0.contains(x) {
            crate::doc_set::lemma_push_contains(t0, x);
            assert(t0.push(x).no_duplicates()) by {
                assert forall|i: int, j: int| 0 <= i < j < t0.push(x).len() implies t0.push(x)[i] != t0.push(x)[j] by {
                    if j == t0.len() {
                        assert(t0[i] != x);
                    }
                }
            }
            assert(t0.push(x).take(ts.len() as int) =~= t0.take(ts.len() as int));
        }
        assert forall|t: u64| #[trigger] add_terms(ts, xs).contains(t) <==> ts.contains(t) || xs.contains(t) by {
            assert(xs.contains(t) <==> init.contains(t) || t == x);
            assert(t0.contains(t) <==> ts.contains(t) || init.contains(t));
            if !t0.contains(x) {
                assert(add_terms(ts, xs) == t0.push(x));
                assert(t0.push(x).contains(t) <==> t0.contains(t) || t == x);
            } else {
                assert(add_terms(ts, xs) == t0);
            }
        }
    }
}

/// Adding the distinct terms of `xs` in order of first occurrence adds the
/// same as adding `xs`.
pub proof fn lemma_add_distinct_terms(ts: Seq<u64>, xs: Seq<u64>)
    ensures
        add_terms(ts, add_terms(Seq::empty(), xs)) == add_terms(ts, xs),
    decreases xs.len(),
{
    if xs.len() > 0 {
        let init = xs.drop_last();
        let x = xs.last();
        lemma_add_distinct_terms(ts, init);
        let u = add_terms(Seq::empty(), init);
        if u.contains(x) {
            lemma_add_terms(Seq::empty(), init);
            assert(init.contains(x));
            lemma_add_terms_superset(ts, init);
        } else {
            assert(u.push(x).drop_last() =~= u);
        }
    }
}

proof fn lemma_add_terms_superset(ts: Seq<u64>, xs: Seq<u64>)
    ensures
        forall|t: u64| xs.contains(t) ==> #[trigger] add_terms(ts, xs).contains(t),
        forall|t: u64| ts.contains(t) ==> #[trigger] add_terms(ts, xs).contains(t),
    decreases xs.len(),
{
    if xs.len() > 0 {
        let init = xs.drop_last();
        let x = xs.last();
        lemma_add_terms_superset(ts, init);
        let t0 = add_terms(ts, init);
        assert(init.push(x) =~= xs);
        crate::doc_set::lemma_push_contains(init, x);
        crate::doc_set::lemma_push_contains(t0, x);
        assert forall|t: u64| xs.contains(t) || ts.contains(t) implies #[trigger] add_terms(ts, xs).contains(t) by {
            assert(xs.contains(t) <==> init.contains(t) || t == x);
            if init.contains(t) || ts.contains(t) {
                assert(t0.contains(t));
            }
            if !t0.contains(x) {
                assert(add_terms(ts, xs) == t0.push(x));
                assert(t0.push(x).contains(t) <==> t0.contains(t) || t == x);
            } else {
                assert(add_terms(ts, xs) == t0);
            }
        }
    }
}

/// A term is in the vocabulary of `docs` exactly when some document holds
/// it, and no term is there twice.
pub proof fn lemma_vocabulary_of(docs: Seq<Seq<u64>>)
    ensures
        vocabulary_of(docs).no_duplicates(),
        forall|t: u64| #[trigger] vocabulary_of(docs).contains(t) <==> exists|i: int| 0 <= i < docs.len() && (#[trigger] docs[i]).contains(t),
    decreases docs.len(),
{
    if docs.len() > 0 {
        let init = docs.drop_last();
        lemma_vocabulary_of(init);
        lemma_add_terms(vocabulary_of(init), docs.last());
        assert forall|t: u64| #[trigger] vocabulary_of(docs).contains(t) <==> exists|i: int| 0 <= i < docs.len() && (#[trigger] docs[i]).contains(t) by {
            if exists|i: int| 0 <= i < docs.len() && (#[trigger] docs[i]).contains(t) {
                let i = choose|i: int| 0 <= i < docs.len() && (#[trigger] docs[i]).contains(t);
                if i < docs.len() - 1 {
                    assert(init[i] == docs[i]);
                }
            }
            if vocabulary_of(init).contains(t) {
                let i = choose|i: int| 0 <= i < init.len() && (#[trigger] init[i]).contains(t);
                assert(docs[i] == init[i]);
            }
        }
    }
}

proof fn lemma_index_of(s: Seq<u64>, i: int)
    requires
        s.no_duplicates(),
        0 <= i < s.len(),
    ensures
        s.index_of(s[i]) == i,
        s.contains(s[i]),
{
    let j = s.index_of(s[i]);
    if j != i {
        assert(s[j] == s[i]);
    }
}

/// The distinct terms of `doc` in order of first occurrence, each with its
/// positions in `doc`.
pub fn positions_by_term(doc: &Vec<u64>) -> (r: (Vec<u64>, Vec<Vec<u32>>))
    requires
        doc@.len() <= u32::MAX,
    ensures
        r.0@.no_duplicates(),
        r.0@.len() == r.1@.len(),
        forall|k: int| 0 <= k < r.0@.len() ==> (#[trigger] r.1@[k])@ == positions_of(doc@, r.0@[k]),
        forall|k: int| 0 <= k < r.0@.len() ==> (#[trigger] r.1@[k])@.len() > 0,
        forall|t: u64| !r.0@.contains(t) ==> #[trigger] positions_of(doc@, t).len() == 0,
        r.0@ == add_terms(Seq::empty(), doc@),
{
    let ghost d = doc@;
    let mut terms: Vec<u64> = Vec::new();
    let mut cur: Vec<Vec<u32>> = Vec::new();
    let mut p: usize = 0;
    assert(d.take(0) =~= Seq::<u64>::empty());
    while p < doc.len()
        invariant
            p <= d.len(),
            d == doc@,
            d.len() <= u32::MAX,
            terms@.no_duplicates(),
            cur@.len() == terms@.len(),
            forall|id: int| 0 <= id < terms@.len() ==> (#[trigger] cur@[id])@ == positions_of(d.take(p as int), terms@[id]),
            forall|id: int| 0 <= id < terms@.len() ==> (#[trigger] cur@[id])@.len() > 0,
            forall|t: u64| !terms@.contains(t) ==> #[trigger] positions_of(d.take(p as int), t).len() == 0,
            terms@ == add_terms(Seq::empty(), d.take(p as int)),
        decreases d.len() - p,
    {
        let t = doc[p];
        proof {
            lemma_positions_step(d, p as int);
            assert(d.take(p + 1).drop_last() =~= d.take(p as int));
            assert(d.take(p + 1).last() == t);
        }
        let nt = terms.len();
        match terms.get(&t) {
            None => {
                let ghost old_terms = terms@;
                terms.push(t);
                let mut v: Vec<u32> = Vec::new();
                v.push(p as u32);
                cur.push(v);
                proof {
                    assert(terms@.no_duplicates()) by {
                        assert forall|i: int, j: int| 0 <= i < j < terms@.len() implies terms@[i] != terms@[j] by {
                            if j == terms@.len() - 1 {
                                assert(old_terms[i] != t);
                            }
                        }
                    }
                    assert forall|tt: u64| !terms@.contains(tt) implies #[trigger] positions_of(d.take(p + 1), tt).len() == 0 by {
                        assert(terms@[nt as int] == t);
                        assert(!old_terms.contains(tt)) by {
                            if old_terms.contains(tt) {
                                let k = choose|k: int| 0 <= k < old_terms.len() && old_terms[k] == tt;
                                assert(terms@[k] == tt);
                            }
                        }
                    }
                    assert forall|k: int| 0 <= k < terms@.len() implies (#[trigger] cur@[k])@ == positions_of(d.take(p + 1), terms@[k]) by {
                        if k == nt {
                            assert(positions_of(d.take(p as int), t).len() == 0);
                            assert(cur@[k]@ =~= positions_of(d.take(p + 1), t));
                        } else {
                            assert(terms@[k] != t);
                        }
                    }
                }
            },
            Some(tid) => {
                assert(tid.0 < nt);
                let id = tid.0 as usize;
                let ghost old_cur = cur@;
                let mut v: Vec<u32> = Vec::new();
                std::mem::swap(&mut v, &mut cur[id]);
                v.push(p as u32);
                std::mem::swap(&mut v, &mut cur[id]);
                proof {
                    assert forall|k: int| 0 <= k < terms@.len() implies (#[trigger] cur@[k])@ == positions_of(d.take(p + 1), terms@[k]) by {
                        if k == id {
                            assert(cur@[k]@ =~= positions_of(d.take(p + 1), t));
                        } else {
                            assert(cur@[k] == old_cur[k]);
                            assert(terms@[k] != t);
                        }
                    }
                    assert forall|tt: u64| !terms@.contains(tt) implies #[trigger] positions_of(d.take(p + 1), tt).len() == 0 by {
                        assert(tt != t);
                    }
                }
            },
        }
        p = p + 1;
    }
    assert(d.take(p as int) =~= d);
    (terms, cur)
}

/// A boolean index: one listing per term, all on one page cache.
pub struct BooleanIndex {
    document_count: u64,
    terms: Vec<u64>,
    listings: Vec<Listing>,
    cache: RamPageCache,
}

impl BooleanIndex {
    /// Indexes `documents`, the `i`-th with doc id `i`, each term at its
    /// position in the document; term ids follow the terms' first
    /// occurrence. Fails with `PostingTooLarge` when a term occurs in one
    /// document at more positions than one block of `BLOCKSIZE` bytes holds
    /// (about 58 positions that lie close together): a block never splits a
    /// posting.
    pub fn new(documents: &Vec<Vec<u64>>) -> (r: Result<BooleanIndex, Error>)
        requires
            documents@.len() <= u32::MAX,
            forall|i: int| 0 <= i < documents@.len() ==> (#[trigger] documents@[i])@.len() <= u32::MAX,
        ensures
            match r {
                Ok(idx) => {
                    &&& idx.wf()
                    &&& idx.spec_document_count() == documents@.len()
                    &&& forall|t: u64| #[trigger] term_postings(idx@, t) == expected_postings(docs_view(documents@), t)
                    &&& idx.spec_terms() == vocabulary_of(docs_view(documents@))
                    &&& idx.spec_terms().no_duplicates()
                    &&& forall|t: u64| #[trigger] idx.spec_terms().contains(t) <==> exists|i: int|
                        0 <= i < documents@.len() && (#[trigger] documents@[i])@.contains(t)
                },
                Err(e) => {
                    &&& e == Error::PostingTooLarge
                    &&& exists|t: u64, i: int|
                        0 <= i < expected_postings(docs_view(documents@), t).len() && !fits(
                            #[trigger] expected_postings(docs_view(documents@), t)[i],
                        )
                },
            },
    {
        let ghost docs = docs_view(documents@);
        let mut terms: Vec<u64> = Vec::new();
        let mut inv: Vec<Vec<Posting>> = Vec::new();
        let mut n: usize = 0;
        while n < documents.len()
            invariant
                n <= documents@.len(),
                docs == docs_view(documents@),
                documents@.len() <= u32::MAX,
                forall|i: int| 0 <= i < documents@.len() ==> (#[trigger] documents@[i])@.len() <= u32::MAX,
                terms@.no_duplicates(),
                terms@ == vocabulary_of(docs.take(n as int)),
                inv@.len() == terms@.len(),
                forall|id: int| 0 <= id < terms@.len() ==> postings_view((#[trigger] inv@[id])@) == expected_postings(docs.take(n as int), terms@[id]),
                forall|t: u64| !terms@.contains(t) ==> #[trigger] expected_postings(docs.take(n as int), t).len() == 0,
            decreases documents@.len() - n,
        {
            let ghost terms0 = terms@;
            let doc = &documents[n];
            let ghost d = doc@;
            assert(docs[n as int] == d);
            let (ts, ps) = positions_by_term(doc);
            proof {
                lemma_expected_step(docs, n as int);
            }
            let mut k: usize = 0;
            assert(ts@.take(0) =~= Seq::<u64>::empty());
            while k < ts.len()
                invariant
                    k <= ts@.len(),
                    ts@.len() == ps@.len(),
                    ts@.no_duplicates(),
                    forall|j: int| 0 <= j < ts@.len() ==> (#[trigger] ps@[j])@ == positions_of(d, ts@[j]),
                    forall|j: int| 0 <= j < ts@.len() ==> (#[trigger] ps@[j])@.len() > 0,
                    forall|t: u64| !ts@.contains(t) ==> #[trigger] positions_of(d, t).len() == 0,
                    n < documents@.len(),
                    documents@.len() <= u32::MAX,
                    docs.len() == documents@.len(),
                    d == docs[n as int],
                    terms@.no_duplicates(),
                    inv@.len() == terms@.len(),
                    forall|id: int| 0 <= id < terms@.len() ==> postings_view((#[trigger] inv@[id])@) == expected_postings(docs.take(n as int), terms@[id])
                        + if ts@.take(k as int).contains(terms@[id]) { document_postings(d, n as DocId, terms@[id]) } else { Seq::empty() },
                    forall|t: u64| !terms@.contains(t) ==> #[trigger] expected_postings(docs.take(n as int), t).len() == 0,
                    forall|j: int| 0 <= j < k ==> terms@.contains(#[trigger] ts@[j]),
                    terms@ == add_terms(terms0, ts@.take(k as int)),
                decreases ts@.len() - k,
            {
                let t = ts[k];
                proof {
                    assert(ts@.take(k + 1).drop_last() =~= ts@.take(k as int));
                    assert(ts@.take(k + 1).last() == t);
                }
                let ghost pv = (n as DocId, positions_of(d, t));
                let posting = Posting(n as u32, ps[k].clone());
                assert(posting@ == pv);
                let ghost old_inv = inv@;
                let ghost old_terms = terms@;
                proof {
                    assert(ts@.take(k + 1) =~= ts@.take(k as int).push(t));
                    crate::doc_set::lemma_push_contains(ts@.take(k as int), t);
                    assert(!ts@.take(k as int).contains(t)) by {
                        if ts@.take(k as int).contains(t) {
                            let j = choose|j: int| 0 <= j < k && ts@.take(k as int)[j] == t;
                            assert(ts@[j] == ts@[k as int]);
                        }
                    }
                    assert(ps@[k as int]@.len() > 0);
                    assert(document_postings(d, n as DocId, t) == seq![pv]);
                }
                let nt = terms.len();
                match terms.get(&t) {
                    Some(tid) => {
                        assert(tid.0 < nt);
                        let id = tid.0 as usize;
                        let mut l: Vec<Posting> = Vec::new();
                        std::mem::swap(&mut l, &mut inv[id]);
                        l.push(posting);
                        std::mem::swap(&mut l, &mut inv[id]);
                        proof {
                            assert(postings_view(inv@[id as int]@) =~= postings_view(old_inv[id as int]@).push(pv));
                            assert forall|j: int| 0 <= j < terms@.len() implies postings_view((#[trigger] inv@[j])@) == expected_postings(docs.take(n as int), terms@[j])
                                + if ts@.take(k + 1).contains(terms@[j]) { document_postings(d, n as DocId, terms@[j]) } else { Seq::empty() } by {
                                if j == id {
                                    assert(expected_postings(docs.take(n as int), t) + seq![pv] =~= (expected_postings(docs.take(n as int), t) + Seq::<PostingView>::empty()).push(pv));
                                    assert(expected_postings(docs.take(n as int), t) + Seq::<PostingView>::empty() =~= expected_postings(docs.take(n as int), t));
                                } else {
                                    assert(inv@[j] == old_inv[j]);
                                    assert(terms@[j] != t);
                                }
                            }
                            assert(terms@[id as int] == t);
                            assert forall|j: int| 0 <= j < k + 1 implies terms@.contains(#[trigger] ts@[j]) by {
                                if j == k {
                                    assert(terms@[id as int] == ts@[j]);
                                }
                            }
                        }
                    },
                    None => {
                        terms.push(t);
                        let mut l: Vec<Posting> = Vec::new();
                        l.push(posting);
                        inv.push(l);
                        proof {
                            assert(terms@.no_duplicates()) by {
                                assert forall|i: int, j: int| 0 <= i < j < terms@.len() implies terms@[i] != terms@[j] by {
                                    if j == nt {
                                        assert(old_terms[i] != t);
                                    }
                                }
                            }
                            assert(expected_postings(docs.take(n as int), t).len() == 0);
                            assert forall|j: int| 0 <= j < terms@.len() implies postings_view((#[trigger] inv@[j])@) == expected_postings(docs.take(n as int), terms@[j])
                                + if ts@.take(k + 1).contains(terms@[j]) { document_postings(d, n as DocId, terms@[j]) } else { Seq::empty() } by {
                                if j == nt {
                                    assert(postings_view(inv@[j]@) =~= seq![pv]);
                                    assert(expected_postings(docs.take(n as int), t) =~= Seq::<PostingView>::empty());
                                    assert(Seq::<PostingView>::empty() + seq![pv] =~= seq![pv]);
                                } else {
                                    assert(inv@[j] == old_inv[j]);
                                    assert(terms@[j] == old_terms[j]);
                                    assert(old_terms[j] != t);
                                }
                            }
                            assert forall|tt: u64| !terms@.contains(tt) implies #[trigger] expected_postings(docs.take(n as int), tt).len() == 0 by {
                                assert(!old_terms.contains(tt)) by {
                                    if old_terms.contains(tt) {
                                        let j = choose|j: int| 0 <= j < old_terms.len() && old_terms[j] == tt;
                                        assert(terms@[j] == tt);
                                    }
                                }
                            }
                            assert forall|j: int| 0 <= j < k + 1 implies terms@.contains(#[trigger] ts@[j]) by {
                                if j == k {
                                    assert(terms@[nt as int] == ts@[j]);
                                } else {
                                    assert(old_terms.contains(ts@[j]));
                                    let i = choose|i: int| 0 <= i < old_terms.len() && old_terms[i] == ts@[j];
                                    assert(terms@[i] == ts@[j]);
                                }
                            }
                        }
                    },
                }
                k = k + 1;
            }
            proof {
                assert(ts@.take(k as int) =~= ts@);
                lemma_add_distinct_terms(terms0, d);
                assert(docs.take(n + 1).drop_last() =~= docs.take(n as int));
                assert(docs.take(n + 1).last() == d);
                assert(terms@ == vocabulary_of(docs.take(n + 1)));
                assert forall|id: int| 0 <= id < terms@.len() implies postings_view((#[trigger] inv@[id])@) == expected_postings(docs.take(n + 1), terms@[id]) by {
                    let t = terms@[id];
                    if !ts@.contains(t) {
                        assert(!ts@.take(k as int).contains(t));
                        assert(positions_of(d, t).len() == 0);
                        assert(expected_postings(docs.take(n as int), t) + Seq::<PostingView>::empty() =~= expected_postings(docs.take(n as int), t));
                    }
                }
                assert forall|t: u64| !terms@.contains(t) implies #[trigger] expected_postings(docs.take(n + 1), t).len() == 0 by {
                    assert(expected_postings(docs.take(n as int), t).len() == 0);
                    assert(!ts@.contains(t)) by {
                        if ts@.contains(t) {
                            let j = choose|j: int| 0 <= j < ts@.len() && ts@[j] == t;
                            assert(terms@.contains(ts@[j]));
                        }
                    }
                    assert(positions_of(d, t).len() == 0);
                }
            }
            n = n + 1;
        }
        proof {
            assert(docs.take(n as int) =~= docs);
            assert forall|i: int| 0 <= i < docs.len() implies (#[trigger] docs[i]).len() <= u32::MAX by {
                assert(docs[i] == documents@[i]@);
            }
            assert forall|t: u64| #[trigger] postings_ok(expected_postings(docs, t)) || exists|i: int|
                0 <= i < expected_postings(docs, t).len() && !fits(#[trigger] expected_postings(docs, t)[i]) by {
                lemma_expected(docs, t);
            }
        }
        let mut cache = RamPageCache::new();
        let mut listings: Vec<Listing> = Vec::new();
        let mut id: usize = 0;
        while id < terms.len()
            invariant
                id <= terms@.len(),
                docs == docs_view(documents@),
                terms@ == vocabulary_of(docs),
                inv@.len() == terms@.len(),
                terms@.no_duplicates(),
                cache.wf(),
                listings@.len() == id,
                docs.len() <= u32::MAX,
                forall|i: int| 0 <= i < docs.len() ==> (#[trigger] docs[i]).len() <= u32::MAX,
                forall|k: int| 0 <= k < terms@.len() ==> postings_view((#[trigger] inv@[k])@) == expected_postings(docs, terms@[k]),
                forall|k: int|
                    0 <= k < id ==> (#[trigger] listings@[k]).wf(&cache) && listings@[k].is_committed() && listings@[k].owner() == k
                        && listings@[k]@ == expected_postings(docs, terms@[k]),
                forall|k: int| 0 <= k < id ==> docs_below((#[trigger] listings@[k])@, docs.len() as int),
            decreases terms@.len() - id,
        {
            let ps = &inv[id];
            let ghost e = expected_postings(docs, terms@[id as int]);
            proof {
                lemma_expected(docs, terms@[id as int]);
                assert(docs_below(e, docs.len() as int));
            }
            let mut j: usize = 0;
            while j < ps.len()
                invariant
                    j <= ps@.len(),
                    id < terms@.len(),
                    docs == docs_view(documents@),
                    e == expected_postings(docs, terms@[id as int]),
                    postings_view(ps@) == e,
                    forall|i: int| 0 <= i < e.len() ==> sorted_positions((#[trigger] e[i]).1),
                    forall|k: int| 0 <= k < j ==> fits(#[trigger] e[k]),
                decreases ps@.len() - j,
            {
                assert(e[j as int] == ps@[j as int]@);
                if !fits_in_block(&ps[j]) {
                    proof {
                        let tt = terms@[id as int];
                        assert(!fits(expected_postings(docs_view(documents@), tt)[j as int]));
                    }
                    return Err(Error::PostingTooLarge);
                }
                j = j + 1;
            }
            let mut listing = Listing::with_owner(id as u64);
            let ghost c0 = cache;
            proof {
                assert(add_ok(Seq::empty(), e)) by {
                    assert forall|a: int, b: int| 0 <= a <= b < e.len() implies (#[trigger] e[a]).0 <= (#[trigger] e[b]).0 by {
                        if a < b {
                            assert(e[a].0 < e[b].0);
                        }
                    }
                }
                crate::listing::lemma_round_trip(e);
                assert(listing@ =~= Seq::<PostingView>::empty());
            }
            listing.add(ps.as_slice(), &mut cache);
            let ghost c1 = cache;
            listing.commit(&mut cache);
            proof {
                crate::page_cache::lemma_cache_frame_trans(&c0, &c1, &cache, id as u64);
                listing.lemma_wf_cache(&cache);
                assert forall|k: int| 0 <= k < id implies (#[trigger] listings@[k]).wf(&cache) by {
                    listings@[k].lemma_wf_frame(&c0, &cache, id as u64);
                }
            }
            listings.push(listing);
            id = id + 1;
        }
        let idx = BooleanIndex { document_count: documents.len() as u64, terms, listings, cache };
        proof {
            lemma_vocabulary_of(docs);
            assert forall|t: u64| #[trigger] idx.spec_terms().contains(t) <==> exists|i: int|
                0 <= i < documents@.len() && (#[trigger] documents@[i])@.contains(t) by {
                if exists|i: int| 0 <= i < documents@.len() && (#[trigger] documents@[i])@.contains(t) {
                    let i = choose|i: int| 0 <= i < documents@.len() && (#[trigger] documents@[i])@.contains(t);
                    assert(docs[i] == documents@[i]@);
                }
                if exists|i: int| 0 <= i < docs.len() && (#[trigger] docs[i]).contains(t) {
                    let i = choose|i: int| 0 <= i < docs.len() && (#[trigger] docs[i]).contains(t);
                    assert(docs[i] == documents@[i]@);
                }
            }
            assert forall|t: u64| #[trigger] term_postings(idx@, t) == expected_postings(docs, t) by {
                if terms@.contains(t) {
                    let k = terms@.index_of(t);
                    assert(idx.listings@[k]@ == expected_postings(docs, terms@[k]));
                } else {
                    assert(expected_postings(docs, t).len() == 0);
                    assert(expected_postings(docs, t) =~= Seq::<PostingView>::empty());
                }
            }
        }
        Ok(idx)
    }

    /// Adds `document` with the next doc id, which it returns. Fails, and
    /// changes nothing, when a term occurs in it at more positions than one
    /// block holds.
    pub fn index_document(&mut self, document: &Vec<u64>) -> (r: Result<u64, Error>)
        requires
            old(self).wf(),
            old(self).spec_document_count() < u32::MAX,
            document@.len() <= u32::MAX,
        ensures
            final(self).wf(),
            match r {
                Ok(n) => {
                    &&& n == old(self).spec_document_count()
                    &&& final(self).spec_document_count() == n + 1
                    &&& forall|t: u64| #[trigger] term_postings(final(self)@, t) == term_postings(old(self)@, t) + document_postings(
                        document@,
                        n as DocId,
                        t,
                    )
                    &&& final(self).spec_terms() == add_terms(old(self).spec_terms(), document@)
                },
                Err(e) => {
                    &&& final(self).spec_terms() == old(self).spec_terms()
                    &&& e == Error::PostingTooLarge
                    &&& final(self)@ == old(self)@
                    &&& final(self).spec_document_count() == old(self).spec_document_count()
                    &&& exists|t: u64| positions_of(document@, t).len() > 0 && !fits(
                        (old(self).spec_document_count() as DocId, #[trigger] positions_of(document@, t)),
                    )
                },
            },
    {
        let ghost m0 = self@;
        let n = self.document_count;
        let (ts, ps) = positions_by_term(document);
        let mut k: usize = 0;
        while k < ts.len()
            invariant
                k <= ts@.len(),
                ts@.len() == ps@.len(),
                forall|j: int| 0 <= j < ts@.len() ==> (#[trigger] ps@[j])@ == positions_of(document@, ts@[j]),
                forall|j: int| 0 <= j < k ==> fits((n as DocId, #[trigger] positions_of(document@, ts@[j]))),
                document@.len() <= u32::MAX,
                n < u32::MAX,
                self.wf(),
                self@ == m0,
                self.document_count == n,
                n == old(self).spec_document_count(),
                *self == *old(self),
            decreases ts@.len() - k,
        {
            proof {
                lemma_positions_of(document@, ts@[k as int]);
            }
            let p = Posting(n as u32, ps[k].clone());
            assert(p@ == (n as DocId, positions_of(document@, ts@[k as int])));
            if !fits_in_block(&p) {
                proof {
                    assert(positions_of(document@, ts@[k as int]).len() > 0);
                }
                return Err(Error::PostingTooLarge);
            }
            k = k + 1;
        }
        self.document_count = n + 1;
        let ghost d = document@;
        proof {
            assert forall|i: int| 0 <= i < self.listings@.len() implies docs_below((#[trigger] self.listings@[i])@, self.document_count as int) by {
                assert(docs_below(self.listings@[i]@, n as int));
            }
        }
        let ghost terms0 = self.terms@;
        let mut k: usize = 0;
        assert(ts@.take(0) =~= Seq::<u64>::empty());
        while k < ts.len()
            invariant
                k <= ts@.len(),
                ts@.len() == ps@.len(),
                ts@.no_duplicates(),
                d == document@,
                forall|j: int| 0 <= j < ts@.len() ==> (#[trigger] ps@[j])@ == positions_of(d, ts@[j]),
                forall|j: int| 0 <= j < ts@.len() ==> (#[trigger] ps@[j])@.len() > 0,
                forall|j: int| 0 <= j < ts@.len() ==> fits((n as DocId, #[trigger] positions_of(d, ts@[j]))),
                forall|t: u64| !ts@.contains(t) ==> #[trigger] positions_of(d, t).len() == 0,
                d.len() <= u32::MAX,
                n < u32::MAX,
                self.wf(),
                self.document_count == n + 1,
                forall|t: u64| #[trigger] term_postings(self@, t) == term_postings(m0, t) + if ts@.take(k as int).contains(t) {
                    document_postings(d, n as DocId, t)
                } else {
                    Seq::empty()
                },
                forall|t: u64| ts@.skip(k as int).contains(t) ==> docs_below(#[trigger] term_postings(self@, t), n as int),
                self.terms@ == add_terms(terms0, ts@.take(k as int)),
                ts@ == add_terms(Seq::empty(), d),
            decreases ts@.len() - k,
        {
            let t = ts[k];
            proof {
                assert(ts@.take(k + 1).drop_last() =~= ts@.take(k as int));
                assert(ts@.take(k + 1).last() == t);
            }
            proof {
                lemma_positions_of(d, t);
                assert(ts@[k as int] == t);
            }
            let mut one: Vec<Posting> = Vec::new();
            one.push(Posting(n as u32, ps[k].clone()));
            let ghost pv = (n as DocId, positions_of(d, t));
            assert(postings_view(one@) =~= seq![pv]);
            let ghost c0 = self.cache;
            let ghost old_listings = self.listings@;
            let ghost old_terms = self.terms@;
            let nt = self.terms.len();
            let ghost old_view = term_postings(self@, t);
            let ghost prev = self@;
            proof {
                assert(ts@.skip(k as int)[0] == t);
                assert(docs_below(old_view, n as int));
                assert(seq![pv].drop_last() =~= Seq::<PostingView>::empty());
                assert(seq![pv].last() == pv);
                assert(crate::listing::extend(old_view, Seq::<PostingView>::empty()) == old_view);
                if old_view.len() > 0 {
                    assert(old_view.last().0 < n);
                }
                assert(crate::listing::extend(old_view, seq![pv]) == old_view.push(pv));
            }
            match self.terms.get(&t) {
                Some(tid) => {
                    assert(tid.0 < nt);
                    let id = tid.0 as usize;
                    let mut l = Listing::new();
                    std::mem::swap(&mut l, &mut self.listings[id]);
                    proof {
                        lemma_index_of(old_terms, id as int);
                        assert(l == old_listings[id as int]);
                        assert(l@ == old_view);
                        assert(add_ok(l@, seq![pv])) by {
                            if l@.len() > 0 {
                                assert(l@.last() == l@[l@.len() - 1]);
                            }
                        }
                    }
                    l.add(one.as_slice(), &mut self.cache);
                    let ghost c1 = self.cache;
                    l.commit(&mut self.cache);
                    proof {
                        l.lemma_wf_cache(&self.cache);
                    }
                    std::mem::swap(&mut l, &mut self.listings[id]);
                    proof {
                        crate::page_cache::lemma_cache_frame_trans(&c0, &c1, &self.cache, id as u64);
                        let new_view = self.listings@[id as int]@;
                        assert(seq![pv].drop_last() =~= Seq::<PostingView>::empty());
                        assert(new_view == old_view.push(pv));
                        assert forall|i: int| 0 <= i < self.listings@.len() implies (#[trigger] self.listings@[i]).wf(&self.cache)
                            && self.listings@[i].is_committed() && self.listings@[i].owner() == i by {
                            if i != id {
                                assert(self.listings@[i] == old_listings[i]);
                                old_listings[i].lemma_wf_frame(&c0, &self.cache, id as u64);
                            }
                        }
                        assert forall|i: int| 0 <= i < self.listings@.len() implies docs_below((#[trigger] self.listings@[i])@, self.document_count as int) by {
                            if i != id {
                                assert(self.listings@[i] == old_listings[i]);
                            } else {
                                assert forall|j: int| 0 <= j < new_view.len() implies (#[trigger] new_view[j]).0 < self.document_count as int by {
                                    if j < old_view.len() {
                                        assert(new_view[j] == old_view[j]);
                                    }
                                }
                            }
                        }
                    }
                },
                None => {
                    let mut l = Listing::with_owner(nt as u64);
                    proof {
                        assert(l@ =~= Seq::<PostingView>::empty());
                        assert(old_view =~= Seq::<PostingView>::empty());
                    }
                    l.add(one.as_slice(), &mut self.cache);
                    let ghost c1 = self.cache;
                    l.commit(&mut self.cache);
                    proof {
                        l.lemma_wf_cache(&self.cache);
                    }
                    self.terms.push(t);
                    self.listings.push(l);
                    proof {
                        crate::page_cache::lemma_cache_frame_trans(&c0, &c1, &self.cache, nt as u64);
                        assert(seq![pv].drop_last() =~= Seq::<PostingView>::empty());
                        assert(self.terms@.no_duplicates()) by {
                            assert forall|i: int, j: int| 0 <= i < j < self.terms@.len() implies self.terms@[i] != self.terms@[j] by {
                                if j == nt {
                                    assert(old_terms[i] != t);
                                }
                            }
                        }
                        assert forall|i: int| 0 <= i < self.listings@.len() implies (#[trigger] self.listings@[i]).wf(&self.cache)
                            && self.listings@[i].is_committed() && self.listings@[i].owner() == i by {
                            if i != nt {
                                assert(self.listings@[i] == old_listings[i]);
                                old_listings[i].lemma_wf_frame(&c0, &self.cache, nt as u64);
                            }
                        }
                        assert forall|i: int| 0 <= i < self.listings@.len() implies docs_below((#[trigger] self.listings@[i])@, self.document_count as int) by {
                            if i != nt {
                                assert(self.listings@[i] == old_listings[i]);
                            } else {
                                assert(self.listings@[i]@ == old_view.push(pv));
                                assert forall|j: int| 0 <= j < self.listings@[i]@.len() implies (#[trigger] self.listings@[i]@[j]).0 < self.document_count as int by {
                                    assert(self.listings@[i]@[j] == pv);
                                }
                            }
                        }
                    }
                },
            }
            proof {
                assert forall|tt: u64| tt != t implies #[trigger] term_postings(self@, tt) == term_postings(prev, tt) by {
                    if old_terms.contains(tt) {
                        let j = old_terms.index_of(tt);
                        lemma_index_of(old_terms, j);
                        assert(self.terms@[j] == tt);
                        lemma_index_of(self.terms@, j);
                        assert(self.listings@[j] == old_listings[j]);
                    } else {
                        assert(!self.terms@.contains(tt)) by {
                            if self.terms@.contains(tt) {
                                let j = choose|j: int| 0 <= j < self.terms@.len() && self.terms@[j] == tt;
                                assert(j < old_terms.len());
                                assert(old_terms[j] == tt);
                            }
                        }
                    }
                }
                assert(term_postings(self@, t) == old_view.push(pv)) by {
                    if old_terms.contains(t) {
                        let j = old_terms.index_of(t);
                        lemma_index_of(old_terms, j);
                        lemma_index_of(self.terms@, j);
                    } else {
                        lemma_index_of(self.terms@, nt as int);
                    }
                }
                assert(ts@.take(k + 1) =~= ts@.take(k as int).push(t));
                crate::doc_set::lemma_push_contains(ts@.take(k as int), t);
                assert(!ts@.take(k as int).contains(t)) by {
                    if ts@.take(k as int).contains(t) {
                        let j = choose|j: int| 0 <= j < k && ts@.take(k as int)[j] == t;
                        assert(ts@[j] == ts@[k as int]);
                    }
                }
                assert(ps@[k as int]@.len() > 0);
                assert(positions_of(d, t).len() > 0);
                assert(document_postings(d, n as DocId, t) == seq![pv]);
                assert(term_postings(m0, t) + seq![pv] =~= old_view.push(pv));
                assert forall|tt: u64| ts@.skip(k + 1).contains(tt) implies docs_below(#[trigger] term_postings(self@, tt), n as int) by {
                    let sk = ts@.skip(k + 1);
                    let j = choose|j: int| 0 <= j < sk.len() && #[trigger] sk[j] == tt;
                    assert(ts@[k + 1 + j] == tt);
                    assert(tt != t);
                    assert(ts@.skip(k as int)[j + 1] == tt);
                }
            }
            k = k + 1;
        }
        assert(ts@.take(k as int) =~= ts@);
        proof {
            lemma_add_distinct_terms(terms0, d);
        }
        Ok(n)
    }

    /// Each term with its postings.
    pub closed spec fn view(&self) -> Map<u64, Seq<PostingView>> {
        Map::new(
            |t: u64| self.terms@.contains(t),
            |t: u64| self.listings@[self.terms@.index_of(t)]@,
        )
    }

    pub closed spec fn spec_document_count(&self) -> nat {
        self.document_count as nat
    }

    /// The terms, in the order of their ids.
    pub closed spec fn spec_terms(&self) -> Seq<u64> {
        self.terms@
    }

    pub closed spec fn wf(&self) -> bool {
        &&& self.cache.wf()
        &&& self.listings@.len() == self.terms@.len()
        &&& self.terms@.no_duplicates()
        &&& forall|i: int|
            0 <= i < self.listings@.len() ==> (#[trigger] self.listings@[i]).wf(&self.cache)
                && self.listings@[i].is_committed() && self.listings@[i].owner() == i
        &&& forall|i: int| 0 <= i < self.listings@.len() ==> docs_below((#[trigger] self.listings@[i])@, self.document_count as int)
        &&& self.document_count <= u32::MAX
    }

    /// Every term's postings have strictly increasing doc ids.
    pub proof fn lemma_postings_ok(&self)
        requires
            self.wf(),
        ensures
            forall|t: u64| #[trigger] postings_ok(term_postings(self@, t)),
    {
        assert forall|t: u64| #[trigger] postings_ok(term_postings(self@, t)) by {
            if self.terms@.contains(t) {
                let i = self.terms@.index_of(t);
                self.listings@[i].lemma_postings_ok(&self.cache);
            }
        }
    }

    /// Number of documents indexed.
    pub fn document_count(&self) -> (r: u64)
        ensures
            r == self.spec_document_count(),
    {
        self.document_count
    }

    /// The vocabulary file of this index.
    pub fn vocabulary_bytes(&self) -> (r: Vec<u8>)
        ensures
            r@ == crate::persistence::vocabulary_spec(self.spec_terms()),
    {
        crate::persistence::encode_vocabulary(&self.terms)
    }

    /// The statistics file of this index.
    pub fn statistics_bytes(&self) -> (r: Vec<u8>)
        ensures
            r@ == crate::vbyte::vbyte_spec(self.spec_document_count()),
    {
        crate::persistence::encode_statistics(self.document_count)
    }

    /// The listing of the term with id `i`.
    pub closed spec fn listing_at(&self, i: int) -> Listing {
        self.listings@[i]
    }

    /// The listing directory entry of the term with id `term_id`.
    pub fn directory_record(&self, term_id: usize) -> (r: ListingRecord)
        requires
            self.wf(),
            term_id < self.spec_terms().len(),
        ensures
            r.pages@ == self.listing_at(term_id as int).spec_pages().0,
            r.unfull == self.listing_at(term_id as int).spec_pages().1,
            r.biases@ == self.listing_at(term_id as int).biases(),
            r.total == term_postings(self@, self.spec_terms()[term_id as int]).len(),
            forall|i: int, j: int| 0 <= i <= j < r.biases@.len() ==> r.biases@[i] <= r.biases@[j],
    {
        let listing = &self.listings[term_id];
        proof {
            assert(listing.wf(&self.cache));
            listing.lemma_biases_sorted(&self.cache);
            lemma_index_of(self.terms@, term_id as int);
        }
        listing.directory_record()
    }

    /// The pages of the page store, each as its blocks' bytes.
    pub closed spec fn stored_pages(&self) -> Seq<Seq<Seq<u8>>> {
        Seq::new(self.cache.spec_len(), |i: int| self.cache.page(i))
    }

    /// The index's page store.
    pub fn page_store(&self) -> (r: &crate::page_cache::PageManager)
        requires
            self.wf(),
        ensures
            r.wf(),
            r@ == self.stored_pages(),
    {
        let r = self.cache.manager();
        assert(r@ =~= self.stored_pages());
        r
    }

    /// Number of distinct terms.
    pub fn term_count(&self) -> (r: usize)
        requires
            self.wf(),
        ensures
            r == self.spec_terms().len(),
    {
        self.terms.len()
    }

    /// The id of `term`, if the index knows it.
    fn term_id(&self, term: u64) -> (r: Option<usize>)
        requires
            self.wf(),
        ensures
            r.is_none() ==> !self.terms@.contains(term),
            r.is_some() ==> r.unwrap() < self.terms@.len() && self.terms@[r.unwrap() as int] == term
                && self.terms@.index_of(term) == r.unwrap(),
    {
        let n = self.terms.len();
        match self.terms.get(&term) {
            None => None,
            Some(id) => {
                assert(id.0 < n);
                let i = id.0 as usize;
                proof {
                    let j = self.terms@.index_of(term);
                    assert(self.terms@.no_duplicates());
                    if j != i {
                        assert(self.terms@[j] == self.terms@[i as int]);
                    }
                }
                Some(i)
            },
        }
    }

    /// The postings of `term`, in doc id order; none for an unknown term.
    pub fn postings(&self, term: u64) -> (r: Vec<Posting>)
        requires
            self.wf(),
        ensures
            postings_view(r@) == term_postings(self@, term),
    {
        match self.term_id(term) {
            None => {
                let r: Vec<Posting> = Vec::new();
                assert(postings_view(r@) =~= Seq::<PostingView>::empty());
                r
            },
            Some(id) => {
                let listing = &self.listings[id];
                assert(listing.wf(&self.cache));
                let mut dec = listing.posting_decoder(&self.cache);
                let mut out: Vec<Posting> = Vec::new();
                let ghost all = dec@;
                let mut done = false;
                assert(all.take(0) =~= Seq::<PostingView>::empty());
                while !done
                    invariant
                        dec.wf(&self.cache),
                        dec@ == all,
                        0 <= dec.position() <= all.len(),
                        postings_view(out@) == all.take(dec.position()),
                        done ==> dec.position() == all.len(),
                    decreases all.len() - dec.position() + if done { 0int } else { 1int },
                {
                    let ghost p0 = dec.position();
                    match dec.next(&self.cache) {
                        None => {
                            done = true;
                        },
                        Some(p) => {
                            let ghost o = out@;
                            out.push(p);
                            assert(all.take(p0 + 1) =~= all.take(p0).push(all[p0]));
                            assert(postings_view(out@) =~= postings_view(o).push(all[p0]));
                        },
                    }
                }
                assert(all.take(all.len() as int) =~= all);
                out
            },
        }
    }
}

/// The index of the posting for document `d` in `list`, whose doc ids
/// strictly increase.
fn find_doc(list: &Vec<Posting>, d: DocId) -> (r: Option<usize>)
    requires
        strictly_increasing(postings_view(list@)),
    ensures
        r.is_some() ==> r.unwrap() < list@.len() && list@[r.unwrap() as int].0 == d,
        r.is_none() ==> !has_doc(postings_view(list@), d),
{
    let ghost v = postings_view(list@);
    let mut l: usize = 0;
    let mut h: usize = list.len();
    while l < h
        invariant
            l <= h <= list@.len(),
            v == postings_view(list@),
            strictly_increasing(v),
            forall|i: int| 0 <= i < l ==> (#[trigger] v[i]).0 < d,
            forall|i: int| h <= i < list@.len() ==> (#[trigger] v[i]).0 > d,
        decreases h - l,
    {
        let mid = l + (h - l) / 2;
        assert(v[mid as int] == list@[mid as int]@);
        if list[mid].0 < d {
            proof {
                assert forall|i: int| 0 <= i < mid + 1 implies (#[trigger] v[i]).0 < d by {
                    if i < mid {
                        assert(v[i].0 < v[mid as int].0);
                    }
                }
            }
            l = mid + 1;
        } else if list[mid].0 > d {
            proof {
                assert forall|i: int| mid <= i < list@.len() implies (#[trigger] v[i]).0 > d by {
                    if i > mid {
                        assert(v[mid as int].0 < v[i].0);
                    }
                }
            }
            h = mid;
        } else {
            return Some(mid);
        }
    }
    None
}

/// Whether `ps` holds position `t`.
fn holds_position(ps: &Vec<u32>, t: u64) -> (r: bool)
    ensures
        r == (t <= u32::MAX && ps@.contains(t as u32)),
{
    if t > u32::MAX as u64 {
        return false;
    }
    let mut i: usize = 0;
    while i < ps.len()
        invariant
            i <= ps@.len(),
            t <= u32::MAX,
            forall|k: int| 0 <= k < i ==> ps@[k] != t as u32,
        decreases ps@.len() - i,
    {
        if ps[i] as u64 == t {
            return true;
        }
        i = i + 1;
    }
    false
}

/// Whether the posting for document `d` in `list` holds position `t`.
fn occurs(list: &Vec<Posting>, d: DocId, t: u64) -> (r: bool)
    requires
        strictly_increasing(postings_view(list@)),
    ensures
        r == occurs_at(postings_view(list@), d, t as int),
{
    let ghost v = postings_view(list@);
    match find_doc(list, d) {
        None => false,
        Some(k) => {
            let r = holds_position(&list[k].1, t);
            proof {
                assert(v[k as int] == list@[k as int]@);
                if occurs_at(v, d, t as int) {
                    let j = choose|j: int| 0 <= j < v.len() && (#[trigger] v[j]).0 == d && v[j].1.contains(t as u32) && 0 <= t <= u32::MAX;
                    if j != k {
                        if j < k {
                            assert(v[j].0 < v[k as int].0);
                        } else {
                            assert(v[k as int].0 < v[j].0);
                        }
                    }
                }
            }
            r
        },
    }
}

impl BooleanIndex {
    /// The documents that contain `term`, in order.
    fn atom_docs(&self, term: u64) -> (r: Vec<DocId>)
        requires
            self.wf(),
        ensures
            sorted_docs(r@),
            forall|d: DocId| r@.contains(d) <==> has_doc(term_postings(self@, term), d),
    {
        let ps = self.postings(term);
        let ghost v = postings_view(ps@);
        proof {
            self.lemma_postings_ok();
            assert(postings_ok(term_postings(self@, term)));
        }
        let mut out: Vec<DocId> = Vec::new();
        let mut i: usize = 0;
        while i < ps.len()
            invariant
                i <= ps@.len(),
                v == postings_view(ps@),
                strictly_increasing(v),
                out@.len() == i,
                forall|k: int| 0 <= k < i ==> out@[k] == (#[trigger] v[k]).0,
            decreases ps@.len() - i,
        {
            assert(v[i as int] == ps@[i as int]@);
            out.push(ps[i].0);
            i = i + 1;
        }
        proof {
            assert forall|a: int, b: int| 0 <= a < b < out@.len() implies out@[a] < out@[b] by {
                assert(v[a].0 < v[b].0);
            }
            assert forall|d: DocId| out@.contains(d) <==> has_doc(v, d) by {
                if out@.contains(d) {
                    let k = choose|k: int| 0 <= k < out@.len() && out@[k] == d;
                    assert(v[k].0 == d);
                }
                if has_doc(v, d) {
                    let k = choose|k: int| 0 <= k < v.len() && (#[trigger] v[k]).0 == d;
                    assert(out@[k] == d);
                }
            }
        }
        out
    }

    /// Whether document `d`, whose posting is `k0` in `lists[0]`, has the
    /// atoms' terms aligned at some base position.
    fn doc_aligned(&self, lists: &Vec<Vec<Posting>>, atoms: &Vec<QueryAtom>, d: DocId, k0: usize) -> (r: bool)
        requires
            self.wf(),
            atoms@.len() > 0,
            lists@.len() == atoms@.len(),
            forall|i: int| 0 <= i < atoms@.len() ==> postings_view((#[trigger] lists@[i])@) == term_postings(self@, atoms@[i].query_term),
            k0 < lists@[0]@.len(),
            lists@[0]@[k0 as int].0 == d,
        ensures
            r == exists|p: int| #[trigger] aligned(self@, atoms@, d, p),
    {
        proof {
            self.lemma_postings_ok();
        }
        let pos0 = &lists[0][k0].1;
        let rel0 = atoms[0].relative_position as u64;
        let ghost m = self@;
        let mut a: usize = 0;
        while a < pos0.len()
            invariant
                self.wf(),
                m == self@,
                rel0 == atoms@[0].relative_position,
                a <= pos0@.len(),
                atoms@.len() > 0,
                lists@.len() == atoms@.len(),
                forall|i: int| 0 <= i < atoms@.len() ==> postings_view((#[trigger] lists@[i])@) == term_postings(m, atoms@[i].query_term),
                forall|t: u64| #[trigger] postings_ok(term_postings(m, t)),
                forall|a2: int| 0 <= a2 < a ==> !aligned(m, atoms@, d, (pos0@[a2] - rel0) as int),
            decreases pos0@.len() - a,
        {
            let q0 = pos0[a] as u64;
            let ghost p = q0 - rel0;
            let mut ok = true;
            let mut i: usize = 0;
            while i < atoms.len() && ok
                invariant
                    i <= atoms@.len(),
                    q0 <= u32::MAX,
                    rel0 == atoms@[0].relative_position,
                    p == q0 - rel0,
                    lists@.len() == atoms@.len(),
                    forall|j: int| 0 <= j < atoms@.len() ==> postings_view((#[trigger] lists@[j])@) == term_postings(m, atoms@[j].query_term),
                    forall|t: u64| #[trigger] postings_ok(term_postings(m, t)),
                    ok <==> forall|j: int| 0 <= j < i ==> occurs_at(
                        term_postings(m, (#[trigger] atoms@[j]).query_term),
                        d,
                        p + atoms@[j].relative_position,
                    ),
                decreases atoms@.len() - i,
            {
                let s = q0 + atoms[i].relative_position as u64;
                let ghost ps = term_postings(m, atoms@[i as int].query_term);
                assert(postings_ok(ps));
                assert(postings_view(lists@[i as int]@) == ps);
                if s < rel0 {
                    ok = false;
                } else {
                    ok = occurs(&lists[i], d, s - rel0);
                }
                proof {
                    if !ok {
                        assert(!occurs_at(ps, d, p + atoms@[i as int].relative_position));
                    }
                }
                i = i + 1;
            }
            if ok {
                proof {
                    assert(aligned(m, atoms@, d, p));
                }
                return true;
            }
            proof {
                assert(!aligned(m, atoms@, d, p)) by {
                    let j = choose|j: int| 0 <= j < i && !occurs_at(
                        term_postings(m, (#[trigger] atoms@[j]).query_term),
                        d,
                        p + atoms@[j].relative_position,
                    );
                }
            }
            a = a + 1;
        }
        proof {
            let v0 = term_postings(m, atoms@[0].query_term);
            assert(postings_ok(v0));
            assert(v0 == postings_view(lists@[0]@));
            assert(v0[k0 as int] == lists@[0]@[k0 as int]@);
            assert forall|p: int| !#[trigger] aligned(m, atoms@, d, p) by {
                if aligned(m, atoms@, d, p) {
                    assert(occurs_at(v0, d, p + atoms@[0].relative_position));
                    let j = choose|j: int| 0 <= j < v0.len() && (#[trigger] v0[j]).0 == d && v0[j].1.contains((p + atoms@[0].relative_position) as u32)
                        && 0 <= p + atoms@[0].relative_position <= u32::MAX;
                    if j != k0 {
                        if j < k0 {
                            assert(v0[j].0 < v0[k0 as int].0);
                        } else {
                            assert(v0[k0 as int].0 < v0[j].0);
                        }
                    }
                    let a2 = choose|a2: int| 0 <= a2 < pos0@.len() && pos0@[a2] == (p + atoms@[0].relative_position) as u32;
                    assert((pos0@[a2] - rel0) as int == p);
                }
            }
        }
        false
    }

    /// The documents in which the atoms' terms stand at their relative
    /// positions from a common base position.
    fn eval_in_order(&self, atoms: &Vec<QueryAtom>) -> (r: Vec<DocId>)
        requires
            self.wf(),
        ensures
            sorted_docs(r@),
            forall|d: DocId| r@.contains(d) <==> in_order(self@, atoms@, d),
    {
        let mut out: Vec<DocId> = Vec::new();
        if atoms.len() == 0 {
            return out;
        }
        let ghost m = self@;
        proof {
            self.lemma_postings_ok();
        }
        let mut lists: Vec<Vec<Posting>> = Vec::new();
        let mut i: usize = 0;
        while i < atoms.len()
            invariant
                self.wf(),
                m == self@,
                i <= atoms@.len(),
                lists@.len() == i,
                forall|j: int| 0 <= j < i ==> postings_view((#[trigger] lists@[j])@) == term_postings(m, atoms@[j].query_term),
            decreases atoms@.len() - i,
        {
            lists.push(self.postings(atoms[i].query_term));
            i = i + 1;
        }
        let ghost v0 = term_postings(m, atoms@[0].query_term);
        assert(postings_ok(v0));
        let mut k: usize = 0;
        while k < lists[0].len()
            invariant
                self.wf(),
                m == self@,
                atoms@.len() > 0,
                lists@.len() == atoms@.len(),
                forall|j: int| 0 <= j < atoms@.len() ==> postings_view((#[trigger] lists@[j])@) == term_postings(m, atoms@[j].query_term),
                v0 == postings_view(lists@[0]@),
                postings_ok(v0),
                k <= v0.len(),
                sorted_docs(out@),
                forall|j: int| 0 <= j < out@.len() ==> k < v0.len() ==> out@[j] < (#[trigger] v0[k as int]).0,
                forall|d: DocId| out@.contains(d) <==> in_order(m, atoms@, d) && exists|j: int| 0 <= j < k && (#[trigger] v0[j]).0 == d,
            decreases v0.len() - k,
        {
            let d = lists[0][k].0;
            assert(v0[k as int] == lists@[0]@[k as int]@);
            let ok = self.doc_aligned(&lists, atoms, d, k);
            let ghost o = out@;
            if ok {
                out.push(d);
            }
            proof {
                crate::doc_set::lemma_push_contains(o, d);
                assert forall|dd: DocId| out@.contains(dd) <==> in_order(m, atoms@, dd) && exists|j: int| 0 <= j < k + 1 && (#[trigger] v0[j]).0 == dd by {
                    assert(o.contains(dd) <==> in_order(m, atoms@, dd) && exists|j: int| 0 <= j < k && (#[trigger] v0[j]).0 == dd);
                    if exists|j: int| 0 <= j < k + 1 && (#[trigger] v0[j]).0 == dd {
                        let j = choose|j: int| 0 <= j < k + 1 && (#[trigger] v0[j]).0 == dd;
                        if j < k {
                        } else {
                            assert(dd == d);
                        }
                    }
                    if dd == d {
                        assert(v0[k as int].0 == dd);
                        assert(forall|j: int| 0 <= j < k ==> (#[trigger] v0[j]).0 < v0[k as int].0);
                    }
                }
                if k + 1 < v0.len() {
                    assert(v0[k as int].0 < v0[k + 1].0);
                }
            }
            k = k + 1;
        }
        proof {
            assert forall|d: DocId| out@.contains(d) <==> in_order(m, atoms@, d) by {
                if in_order(m, atoms@, d) {
                    let p = choose|p: int| #[trigger] aligned(m, atoms@, d, p);
                    assert(occurs_at(term_postings(m, atoms@[0].query_term), d, p + atoms@[0].relative_position));
                    let j = choose|j: int| 0 <= j < v0.len() && (#[trigger] v0[j]).0 == d && v0[j].1.contains((p + atoms@[0].relative_position) as u32)
                        && 0 <= p + atoms@[0].relative_position <= u32::MAX;
                    assert(v0[j].0 == d);
                }
            }
        }
        out
    }

    /// The documents that answer `q`, in order.
    #[verifier::loop_isolation(false)]
    fn eval(&self, q: &BooleanQuery) -> (r: Vec<DocId>)
        requires
            self.wf(),
        ensures
            sorted_docs(r@),
            forall|d: DocId| r@.contains(d) <==> answers(*q, self@, d),
        decreases q,
    {
        match q {
            BooleanQuery::Atom(a) => self.atom_docs(a.query_term),
            BooleanQuery::NAry(BooleanOperator::And, qs) => {
                if qs.len() == 0 {
                    let r: Vec<DocId> = Vec::new();
                    return r;
                }
                let mut acc = self.eval(&qs[0]);
                let mut i: usize = 1;
                while i < qs.len()
                    invariant
                        self.wf(),
                        1 <= i <= qs@.len(),
                        sorted_docs(acc@),
                        forall|d: DocId| acc@.contains(d) <==> forall|k: int| 0 <= k < i ==> answers(#[trigger] qs@[k], self@, d),
                    decreases qs@.len() - i,
                {
                    let next = self.eval(&qs[i]);
                    acc = intersect(&acc, &next);
                    proof {
                        assert forall|d: DocId| acc@.contains(d) <==> forall|k: int| 0 <= k < i + 1 ==> answers(#[trigger] qs@[k], self@, d) by {
                            if forall|k: int| 0 <= k < i + 1 ==> answers(#[trigger] qs@[k], self@, d) {
                                assert(answers(qs@[i as int], self@, d));
                            }
                        }
                    }
                    i = i + 1;
                }
                acc
            },
            BooleanQuery::NAry(BooleanOperator::Or, qs) => {
                let mut acc: Vec<DocId> = Vec::new();
                let mut i: usize = 0;
                while i < qs.len()
                    invariant
                        self.wf(),
                        i <= qs@.len(),
                        sorted_docs(acc@),
                        forall|d: DocId| acc@.contains(d) <==> exists|k: int| 0 <= k < i && answers(#[trigger] qs@[k], self@, d),
                    decreases qs@.len() - i,
                {
                    let next = self.eval(&qs[i]);
                    acc = union(&acc, &next);
                    proof {
                        assert forall|d: DocId| acc@.contains(d) <==> exists|k: int| 0 <= k < i + 1 && answers(#[trigger] qs@[k], self@, d) by {
                            if exists|k: int| 0 <= k < i + 1 && answers(#[trigger] qs@[k], self@, d) {
                                let k = choose|k: int| 0 <= k < i + 1 && answers(#[trigger] qs@[k], self@, d);
                                if k < i {
                                    assert(exists|k: int| 0 <= k < i && answers(#[trigger] qs@[k], self@, d));
                                }
                            }
                            if next@.contains(d) {
                                assert(answers(qs@[i as int], self@, d));
                            }
                        }
                    }
                    i = i + 1;
                }
                acc
            },
            BooleanQuery::Positional(PositionalOperator::InOrder, atoms) => self.eval_in_order(atoms),
            BooleanQuery::Filter(FilterOperator::Not, sand, sieve) => {
                let a = self.eval(sand);
                let b = self.eval(sieve);
                difference(&a, &b)
            },
        }
    }

    /// The documents that answer `query`, in increasing doc id order.
    pub fn execute_query(&self, query: &BooleanQuery) -> (r: Vec<DocId>)
        requires
            self.wf(),
        ensures
            sorted_docs(r@),
            forall|d: DocId| r@.contains(d) <==> answers(*query, self@, d),
    {
        self.eval(query)
    }
}

} // verus!