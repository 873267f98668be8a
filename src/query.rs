use vstd::prelude::*;

use crate::posting::{DocId, PostingView};

verus! {

#[derive(Clone, Copy, PartialEq, Eq, Debug, Structural)]
pub enum BooleanOperator {
    And,
    Or,
}

#[derive(Clone, Copy, PartialEq, Eq, Debug, Structural)]
pub enum PositionalOperator {
    InOrder,
}

#[derive(Clone, Copy, PartialEq, Eq, Debug, Structural)]
pub enum FilterOperator {
    Not,
}

/// A term, with its position relative to the other atoms of a positional
/// query.
#[derive(Clone, Copy, PartialEq, Eq, Debug, Structural)]
pub struct QueryAtom {
    pub relative_position: u32,
    pub query_term: u64,
}

impl QueryAtom {
    pub fn new(relative_position: u32, query_term: u64) -> (r: Self)
        ensures
            r.relative_position == relative_position,
            r.query_term == query_term,
    {
        QueryAtom { relative_position, query_term }
    }
}

pub enum BooleanQuery {
    Atom(QueryAtom),
    NAry(BooleanOperator, Vec<BooleanQuery>),
    Positional(PositionalOperator, Vec<QueryAtom>),
    Filter(FilterOperator, Box<BooleanQuery>, Box<BooleanQuery>),
}

/// The postings of `term`, none for a term the index does not know.
pub open spec fn term_postings(m: Map<u64, Seq<PostingView>>, term: u64) -> Seq<PostingView> {
    if m.contains_key(term) {
        m[term]
    } else {
        Seq::empty()
    }
}

/// `ps` has a posting for document `d`.
pub open spec fn has_doc(ps: Seq<PostingView>, d: DocId) -> bool {
    exists|i: int| 0 <= i < ps.len() && (#[trigger] ps[i]).0 == d
}

/// `ps` has position `pos` in its posting for document `d`.
pub open spec fn occurs_at(ps: Seq<PostingView>, d: DocId, pos: int) -> bool {
    exists|i: int| 0 <= i < ps.len() && (#[trigger] ps[i]).0 == d && ps[i].1.contains(pos as u32) && 0 <= pos
        <= u32::MAX
}

/// Document `d` has each atom's term at base position `p` plus the atom's
/// relative position.
pub open spec fn aligned(m: Map<u64, Seq<PostingView>>, atoms: Seq<QueryAtom>, d: DocId, p: int) -> bool {
    forall|i: int|
        0 <= i < atoms.len() ==> occurs_at(
            term_postings(m, (#[trigger] atoms[i]).query_term),
            d,
            p + atoms[i].relative_position,
        )
}

/// Document `d` has the atoms' terms in the order their relative positions
/// give, from some base position on.
pub open spec fn in_order(m: Map<u64, Seq<PostingView>>, atoms: Seq<QueryAtom>, d: DocId) -> bool {
    &&& atoms.len() > 0
    &&& exists|p: int| #[trigger] aligned(m, atoms, d, p)
}

/// Whether document `d` answers query `q` on an index whose terms have the
/// postings `m`.
pub open spec fn answers(q: BooleanQuery, m: Map<u64, Seq<PostingView>>, d: DocId) -> bool
    decreases q,
{
    match q {
        BooleanQuery::Atom(a) => has_doc(term_postings(m, a.query_term), d),
        BooleanQuery::NAry(BooleanOperator::And, qs) => qs@.len() > 0 && forall|i: int|
            0 <= i < qs@.len() ==> answers(#[trigger] qs@[i], m, d),
        BooleanQuery::NAry(BooleanOperator::Or, qs) => exists|i: int|
            0 <= i < qs@.len() && answers(#[trigger] qs@[i], m, d),
        BooleanQuery::Positional(PositionalOperator::InOrder, atoms) => in_order(m, atoms@, d),
        BooleanQuery::Filter(FilterOperator::Not, sand, sieve) => answers(*sand, m, d) && !answers(*sieve, m, d),
    }
}

/// AND is intersection: a document answers the conjunction of `q1` and `q2`
/// exactly when it answers both.
pub proof fn lemma_and_is_intersection(qs: Vec<BooleanQuery>, m: Map<u64, Seq<PostingView>>, d: DocId)
    requires
        qs@.len() == 2,
    ensures
        answers(BooleanQuery::NAry(BooleanOperator::And, qs), m, d) <==> answers(qs@[0], m, d) && answers(qs@[1], m, d),
{
    if answers(qs@[0], m, d) && answers(qs@[1], m, d) {
        assert forall|i: int| 0 <= i < qs@.len() implies answers(#[trigger] qs@[i], m, d) by {
            if i == 0 {
            } else {
                assert(i == 1);
            }
        }
    }
}

/// OR is union: a document answers the disjunction of two queries exactly
/// when it answers one of them.
pub proof fn lemma_or_is_union(q: BooleanQuery, m: Map<u64, Seq<PostingView>>, d: DocId)
    requires
        q is NAry,
        q->NAry_0 == BooleanOperator::Or,
        q->NAry_1@.len() == 2,
    ensures
        answers(q, m, d) <==> answers(q->NAry_1@[0], m, d) || answers(q->NAry_1@[1], m, d),
{
    let qs = q->NAry_1;
    if answers(qs@[0], m, d) {
        assert(answers(qs@[0], m, d) && 0 <= 0 < qs@.len());
    }
    if answers(qs@[1], m, d) {
        assert(answers(qs@[1], m, d) && 0 <= 1 < qs@.len());
    }
    if answers(q, m, d) {
        let i = choose|i: int| 0 <= i < qs@.len() && answers(#[trigger] qs@[i], m, d);
        assert(i == 0 || i == 1);
    }
}

/// NOT is set difference: a document answers `sand` filtered by `sieve`
/// exactly when it answers `sand` and not `sieve`.
pub proof fn lemma_not_is_difference(sand: BooleanQuery, sieve: BooleanQuery, m: Map<u64, Seq<PostingView>>, d: DocId)
    ensures
        answers(BooleanQuery::Filter(FilterOperator::Not, Box::new(sand), Box::new(sieve)), m, d) <==> answers(sand, m, d)
            && !answers(sieve, m, d),
{
}

/// A positional query answers document `d` exactly when, for some base
/// position `p`, every atom's term stands in `d` at `p` plus the atom's
/// relative position (`aligned`).
pub proof fn lemma_in_order(atoms: Vec<QueryAtom>, m: Map<u64, Seq<PostingView>>, d: DocId)
    requires
        atoms@.len() > 0,
    ensures
        answers(BooleanQuery::Positional(PositionalOperator::InOrder, atoms), m, d) <==> exists|p: int| #[trigger] aligned(m, atoms@, d, p),
{
}

} // verus!
