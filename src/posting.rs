use vstd::prelude::*;

verus! {

/// Identifier of a document.
pub type DocId = u32;

/// Offsets of a term inside one document.
pub type Positions = Vec<u32>;

/// Doc id that marks "no document".
pub const NONE_DOC_ID: DocId = 0xffff_ffff;

/// The mathematical value of a posting: its doc id and its positions.
pub type PostingView = (DocId, Seq<u32>);

/// One document in which a term occurs, with the term's positions in it.
pub struct Posting(pub DocId, pub Positions);

impl View for Posting {
    type V = PostingView;

    open spec fn view(&self) -> PostingView {
        (self.0, self.1@)
    }
}

/// The views of a sequence of postings.
pub open spec fn postings_view(s: Seq<Posting>) -> Seq<PostingView> {
    s.map_values(|p: Posting| p@)
}

/// Positions in non-decreasing order.
pub open spec fn sorted_positions(ps: Seq<u32>) -> bool {
    forall|i: int, j: int| 0 <= i <= j < ps.len() ==> ps[i] <= ps[j]
}

/// Doc ids strictly increasing along the sequence.
pub open spec fn strictly_increasing(s: Seq<PostingView>) -> bool {
    forall|i: int, j: int| 0 <= i < j < s.len() ==> (#[trigger] s[i]).0 < (#[trigger] s[j]).0
}

/// The doc ids of a sequence of postings, in order.
pub open spec fn doc_ids(s: Seq<PostingView>) -> Seq<DocId> {
    s.map_values(|p: PostingView| p.0)
}

impl Posting {
    pub fn new(doc_id: DocId, positions: Positions) -> (r: Self)
        ensures
            r@ == (doc_id, positions@),
    {
        Posting(doc_id, positions)
    }

    pub fn doc_id(&self) -> (r: &DocId)
        ensures
            *r == self.0,
    {
        &self.0
    }

    pub fn positions(&self) -> (r: &Positions)
        ensures
            r@ == self.1@,
    {
        &self.1
    }

    /// A copy with equal doc id and positions.
    pub fn duplicate(&self) -> (r: Self)
        ensures
            r@ == self@,
    {
        let mut positions: Vec<u32> = Vec::new();
        let mut i: usize = 0;
        while i < self.1.len()
            invariant
                i <= self.1@.len(),
                positions@ == self.1@.take(i as int),
            decreases self.1@.len() - i,
        {
            positions.push(self.1[i]);
            i = i + 1;
            assert(positions@ =~= self.1@.take(i as int));
        }
        assert(positions@ =~= self.1@);
        Posting(self.0, positions)
    }
}

} // verus!
