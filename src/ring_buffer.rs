use vstd::prelude::*;

use crate::posting::{postings_view, DocId, Posting, PostingView};

verus! {

/// Number of slots of a ring buffer.
pub const SIZE: usize = 64;

/// A first-in first-out queue with a fixed number of slots.
///
/// The slots form a circle: the queue's items sit in `count` consecutive
/// slots (modulo `SIZE`) starting at `start`.
pub struct RingBuffer<T> {
    buff: Vec<Option<T>>,
    start: usize,
    count: usize,
}

impl<T> RingBuffer<T> {
    /// Slot of the queue's `i`-th item.
    pub closed spec fn slot(&self, i: int) -> int {
        if self.start + i < SIZE { self.start + i } else { self.start + i - SIZE }
    }

    pub closed spec fn wf(&self) -> bool {
        &&& self.buff@.len() == SIZE
        &&& self.start < SIZE
        &&& self.count <= SIZE
        &&& forall|i: int| 0 <= i < self.count ==> (#[trigger] self.buff@[self.slot(i)]).is_some()
    }

    /// The queued items, front first.
    pub closed spec fn view(&self) -> Seq<T> {
        Seq::new(self.count as nat, |i: int| self.buff@[self.slot(i)].unwrap())
    }

    pub fn new() -> (r: Self)
        ensures
            r.wf(),
            r@.len() == 0,
    {
        let mut buff: Vec<Option<T>> = Vec::new();
        while buff.len() < SIZE
            invariant
                buff@.len() <= SIZE,
            decreases SIZE - buff@.len(),
        {
            buff.push(None);
        }
        let r = RingBuffer { buff, start: 0, count: 0 };
        assert(r@ =~= Seq::<T>::empty());
        r
    }

    /// Empties the queue.
    #[inline]
    pub fn flush(&mut self)
        requires
            old(self).wf(),
        ensures
            final(self).wf(),
            final(self)@.len() == 0,
    {
        self.start = 0;
        self.count = 0;
        assert(self@ =~= Seq::<T>::empty());
    }

    /// Appends an item at the back; the queue must have a free slot.
    pub fn push_back(&mut self, element: T)
        requires
            old(self).wf(),
            old(self)@.len() < SIZE,
        ensures
            final(self).wf(),
            final(self)@ == old(self)@.push(element),
    {
        let ghost old_self = *self;
        let idx = if self.start + self.count < SIZE {
            self.start + self.count
        } else {
            self.start + self.count - SIZE
        };
        self.buff.set(idx, Some(element));
        self.count = self.count + 1;
        assert forall|i: int| 0 <= i < self.count implies (#[trigger] self.buff@[self.slot(i)]).is_some() by {
            if i < old_self.count {
                assert(self.slot(i) != idx);
                assert(old_self.buff@[old_self.slot(i)].is_some());
            }
        }
        assert(self@ =~= old_self@.push(element)) by {
            assert forall|i: int| 0 <= i < old_self.count implies self.slot(i) != idx as int by {}
        }
    }

    /// Removes and returns the front item, or `None` when the queue is empty.
    pub fn pop_front(&mut self) -> (r: Option<T>)
        requires
            old(self).wf(),
        ensures
            final(self).wf(),
            old(self)@.len() == 0 ==> r.is_none() && final(self)@ == old(self)@,
            old(self)@.len() > 0 ==> r == Some(old(self)@[0]) && final(self)@ == old(self)@.drop_first(),
    {
        if self.count > 0 {
            let ghost old_self = *self;
            let start = self.start;
            assert(self.buff@[self.slot(0)].is_some());
            assert(self.slot(0) == start as int);
            let element = self.buff[start].take();
            self.count = self.count - 1;
            self.start = if self.start + 1 < SIZE { self.start + 1 } else { 0 };
            assert forall|i: int| 0 <= i < self.count implies (#[trigger] self.buff@[self.slot(i)]).is_some() by {
                assert(self.slot(i) == old_self.slot(i + 1));
                assert(old_self.buff@[old_self.slot(i + 1)].is_some());
            }
            assert(self@ =~= old_self@.drop_first()) by {
                assert forall|i: int| 0 <= i < self.count implies self.slot(i) == old_self.slot(i + 1)
                    && self.slot(i) != start as int by {}
            }
            element
        } else {
            None
        }
    }

    /// The front item, if any, left in place.
    pub fn peek_front(&self) -> (r: Option<&T>)
        requires
            self.wf(),
        ensures
            self@.len() == 0 ==> r.is_none(),
            self@.len() > 0 ==> r == Some(&self@[0]),
    {
        if self.count > 0 {
            assert(self.buff@[self.slot(0)].is_some());
            match &self.buff[self.start] {
                Some(e) => Some(e),
                None => None,
            }
        } else {
            None
        }
    }

    /// The `i`-th item from the front.
    pub fn get(&self, i: usize) -> (r: &T)
        requires
            self.wf(),
            i < self@.len(),
        ensures
            *r == self@[i as int],
    {
        let idx = if self.start + i < SIZE { self.start + i } else { self.start + i - SIZE };
        assert(self.buff@[self.slot(i as int)].is_some());
        match &self.buff[idx] {
            Some(e) => e,
            None => vstd::pervasive::unreached(),
        }
    }

    /// Number of queued items.
    #[inline]
    pub fn count(&self) -> (r: usize)
        requires
            self.wf(),
        ensures
            r == self@.len(),
    {
        self.count
    }

    #[inline]
    pub fn is_empty(&self) -> (r: bool)
        requires
            self.wf(),
        ensures
            r == (self@.len() == 0),
    {
        self.count == 0
    }
}

/// A ring buffer of postings with a base doc id: items enter and leave
/// through the `_biased` methods shifted by the base.
pub struct BiasedRingBuffer {
    buff: RingBuffer<Posting>,
    base: DocId,
}

impl BiasedRingBuffer {
    pub closed spec fn wf(&self) -> bool {
        self.buff.wf()
    }

    /// The queued postings, front first, as stored (not shifted).
    pub closed spec fn view(&self) -> Seq<PostingView> {
        postings_view(self.buff@)
    }

    pub closed spec fn spec_base(&self) -> DocId {
        self.base
    }

    pub proof fn lemma_len(&self)
        requires
            self.wf(),
        ensures
            self@.len() <= SIZE,
    {
    }

    pub fn new() -> (r: Self)
        ensures
            r.wf(),
            r@.len() == 0,
            r.spec_base() == 0,
    {
        let r = BiasedRingBuffer { buff: RingBuffer::new(), base: 0 };
        assert(r@ =~= Seq::<PostingView>::empty());
        r
    }

    /// Removes the front posting and returns it with the base subtracted
    /// from its doc id.
    pub fn pop_front_biased(&mut self) -> (r: Option<Posting>)
        requires
            old(self).wf(),
            old(self)@.len() > 0 ==> old(self)@[0].0 >= old(self).spec_base(),
        ensures
            final(self).wf(),
            final(self).spec_base() == old(self).spec_base(),
            old(self)@.len() == 0 ==> r.is_none() && final(self)@ == old(self)@,
            old(self)@.len() > 0 ==> r.is_some() && r.unwrap()@ == (
                (old(self)@[0].0 - old(self).spec_base()) as DocId,
                old(self)@[0].1,
            ) && final(self)@ == old(self)@.drop_first(),
    {
        let ghost before = self.buff@;
        let r = self.buff.pop_front();
        proof {
            if before.len() > 0 {
                assert(self@ =~= postings_view(before).drop_first());
            }
        }
        match r {
            Some(p) => Some(Posting(p.0 - self.base, p.1)),
            None => None,
        }
    }

    /// Appends a posting with the base added to its doc id.
    pub fn push_back_biased(&mut self, element: Posting)
        requires
            old(self).wf(),
            old(self)@.len() < SIZE,
            element.0 + old(self).spec_base() <= u32::MAX,
        ensures
            final(self).wf(),
            final(self).spec_base() == old(self).spec_base(),
            final(self)@ == old(self)@.push(
                ((element.0 + old(self).spec_base()) as DocId, element.1@),
            ),
    {
        let ghost before = self.buff@;
        let p = Posting(element.0 + self.base, element.1);
        self.buff.push_back(p);
        assert(self@ =~= postings_view(before).push(p@));
    }

    /// Appends a posting as it is.
    pub fn push_back(&mut self, element: Posting)
        requires
            old(self).wf(),
            old(self)@.len() < SIZE,
        ensures
            final(self).wf(),
            final(self).spec_base() == old(self).spec_base(),
            final(self)@ == old(self)@.push(element@),
    {
        let ghost before = self.buff@;
        self.buff.push_back(element);
        assert(self@ =~= postings_view(before).push(element@));
    }

    /// Removes and returns the front posting as it is stored.
    pub fn pop_front(&mut self) -> (r: Option<Posting>)
        requires
            old(self).wf(),
        ensures
            final(self).wf(),
            final(self).spec_base() == old(self).spec_base(),
            old(self)@.len() == 0 ==> r.is_none() && final(self)@ == old(self)@,
            old(self)@.len() > 0 ==> r.is_some() && r.unwrap()@ == old(self)@[0]
                && final(self)@ == old(self)@.drop_first(),
    {
        let ghost before = self.buff@;
        let r = self.buff.pop_front();
        proof {
            if before.len() > 0 {
                assert(self@ =~= postings_view(before).drop_first());
            }
        }
        r
    }

    pub fn set_base(&mut self, base: DocId)
        requires
            old(self).wf(),
        ensures
            final(self).wf(),
            final(self)@ == old(self)@,
            final(self).spec_base() == base,
    {
        self.base = base;
    }

    pub fn base(&self) -> (r: DocId)
        ensures
            r == self.spec_base(),
    {
        self.base
    }

    /// Doc id of the front posting, if any.
    pub fn peek_front_doc_id(&self) -> (r: Option<DocId>)
        requires
            self.wf(),
        ensures
            self@.len() == 0 ==> r.is_none(),
            self@.len() > 0 ==> r == Some(self@[0].0),
    {
        match self.buff.peek_front() {
            Some(p) => Some(p.0),
            None => None,
        }
    }

    /// The `i`-th posting from the front, as stored.
    pub fn get(&self, i: usize) -> (r: &Posting)
        requires
            self.wf(),
            i < self@.len(),
        ensures
            r@ == self@[i as int],
    {
        self.buff.get(i)
    }

    pub fn count(&self) -> (r: usize)
        requires
            self.wf(),
        ensures
            r == self@.len(),
    {
        self.buff.count()
    }

    pub fn is_empty(&self) -> (r: bool)
        requires
            self.wf(),
        ensures
            r == (self@.len() == 0),
    {
        self.buff.is_empty()
    }

    pub fn flush(&mut self)
        requires
            old(self).wf(),
        ensures
            final(self).wf(),
            final(self)@.len() == 0,
            final(self).spec_base() == old(self).spec_base(),
    {
        self.buff.flush();
    }
}

} // verus!
