use vstd::prelude::*;

verus! {

/// Identifier of a term: its place in the vocabulary.
#[derive(Clone, Copy, PartialEq, Eq, Debug, Structural)]
pub struct TermId(pub u64);

/// Terms with dense ids, in the order they were added.
pub trait Vocabulary {
    /// The terms, the one with id `i` at index `i`.
    spec fn terms(&self) -> Seq<u64>;

    /// The id of `term`, added at the end when the vocabulary lacks it.
    fn get_or_add(&mut self, term: u64) -> (r: TermId)
        requires
            old(self).terms().len() < u64::MAX,
        ensures
            old(self).terms().contains(term) ==> final(self).terms() == old(self).terms(),
            !old(self).terms().contains(term) ==> final(self).terms() == old(self).terms().push(term)
                && r.0 == old(self).terms().len(),
            r.0 < final(self).terms().len(),
            final(self).terms()[r.0 as int] == term,
    ;

    /// The id of `term`, if the vocabulary has it.
    fn get(&self, term: &u64) -> (r: Option<TermId>)
        ensures
            r.is_none() <==> !self.terms().contains(*term),
            r.is_some() ==> r.unwrap().0 < self.terms().len() && self.terms()[r.unwrap().0 as int] == *term,
            r.is_some() ==> forall|i: int| 0 <= i < r.unwrap().0 ==> self.terms()[i] != *term,
    ;
}

impl Vocabulary for Vec<u64> {
    open spec fn terms(&self) -> Seq<u64> {
        self@
    }

    fn get_or_add(&mut self, term: u64) -> (r: TermId) {
        match self.get(&term) {
            Some(id) => id,
            None => {
                let id = self.len() as u64;
                self.push(term);
                TermId(id)
            },
        }
    }

    fn get(&self, term: &u64) -> (r: Option<TermId>) {
        let mut i: usize = 0;
        while i < self.len()
            invariant
                i <= self@.len(),
                forall|k: int| 0 <= k < i ==> self@[k] != *term,
            decreases self@.len() - i,
        {
            if self[i] == *term {
                return Some(TermId(i as u64));
            }
            i = i + 1;
        }
        None
    }
}

} // verus!
