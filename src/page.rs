use vstd::prelude::*;

verus! {

/// Bytes in a block.
pub const BLOCKSIZE: usize = 64;

/// Blocks in a page.
pub const PAGESIZE: usize = 64;

/// A fixed-size container of `BLOCKSIZE` bytes.
pub struct Block(pub Vec<u8>);

impl View for Block {
    type V = Seq<u8>;

    open spec fn view(&self) -> Seq<u8> {
        self.0@
    }
}

impl Block {
    pub open spec fn wf(&self) -> bool {
        self@.len() == BLOCKSIZE
    }

    /// A block of zero bytes.
    pub fn empty() -> (r: Block)
        ensures
            r.wf(),
            r@ == Seq::new(BLOCKSIZE as nat, |i: int| 0u8),
    {
        let mut v: Vec<u8> = Vec::new();
        while v.len() < BLOCKSIZE
            invariant
                v@.len() <= BLOCKSIZE,
                forall|i: int| 0 <= i < v@.len() ==> v@[i] == 0u8,
            decreases BLOCKSIZE - v@.len(),
        {
            v.push(0u8);
        }
        let r = Block(v);
        assert(r@ =~= Seq::new(BLOCKSIZE as nat, |i: int| 0u8));
        r
    }

    pub fn as_slice(&self) -> (r: &[u8])
        ensures
            r@ == self@,
    {
        self.0.as_slice()
    }

    /// A copy with the same bytes.
    pub fn duplicate(&self) -> (r: Block)
        ensures
            r@ == self@,
    {
        let mut v: Vec<u8> = Vec::new();
        let mut i: usize = 0;
        while i < self.0.len()
            invariant
                i <= self@.len(),
                v@ == self@.take(i as int),
            decreases self@.len() - i,
        {
            v.push(self.0[i]);
            i = i + 1;
            assert(v@ =~= self@.take(i as int));
        }
        assert(v@ =~= self@);
        Block(v)
    }
}

/// `PAGESIZE` blocks, stored together.
pub struct Page(pub Vec<Block>);

impl Page {
    pub open spec fn wf(&self) -> bool {
        &&& self.0@.len() == PAGESIZE
        &&& forall|i: int| 0 <= i < PAGESIZE ==> (#[trigger] self.0@[i]).wf()
    }

    /// The bytes of each block.
    pub open spec fn blocks(&self) -> Seq<Seq<u8>> {
        self.0@.map_values(|b: Block| b@)
    }

    /// A page of zero blocks.
    pub fn empty() -> (r: Page)
        ensures
            r.wf(),
    {
        let mut v: Vec<Block> = Vec::new();
        while v.len() < PAGESIZE
            invariant
                v@.len() <= PAGESIZE,
                forall|i: int| 0 <= i < v@.len() ==> (#[trigger] v@[i]).wf(),
            decreases PAGESIZE - v@.len(),
        {
            v.push(Block::empty());
        }
        Page(v)
    }

    /// A copy with the same blocks.
    pub fn duplicate(&self) -> (r: Page)
        ensures
            r.blocks() == self.blocks(),
            self.wf() ==> r.wf(),
    {
        let mut v: Vec<Block> = Vec::new();
        let mut i: usize = 0;
        while i < self.0.len()
            invariant
                i <= self.0@.len(),
                v@.len() == i,
                forall|j: int| 0 <= j < i ==> (#[trigger] v@[j])@ == self.0@[j]@,
                forall|j: int| 0 <= j < i ==> self.0@[j].wf() ==> (#[trigger] v@[j]).wf(),
            decreases self.0@.len() - i,
        {
            v.push(self.0[i].duplicate());
            i = i + 1;
        }
        let r = Page(v);
        assert(r.blocks() =~= self.blocks());
        r
    }
}

/// Identifier of a page in the page store.
#[derive(Clone, Copy, PartialEq, Eq, Debug, Structural)]
pub struct PageId(pub u64);

impl PageId {
    /// The id that stands for no page.
    pub fn none() -> (r: PageId)
        ensures
            r.0 == u64::MAX,
    {
        PageId(u64::MAX)
    }
}

/// Index of a block within a page.
#[derive(Clone, Copy, PartialEq, Eq, Debug, Structural)]
pub struct BlockId(pub usize);

impl BlockId {
    pub fn first() -> (r: BlockId)
        ensures
            r.0 == 0,
    {
        BlockId(0)
    }

    pub fn last() -> (r: BlockId)
        ensures
            r.0 == PAGESIZE - 1,
    {
        BlockId(PAGESIZE - 1)
    }

    /// Moves to the next slot, wrapping from the last back to the first.
    pub fn inc(&mut self)
        requires
            old(self).0 < PAGESIZE,
        ensures
            final(self).0 == if old(self).0 + 1 == PAGESIZE { 0 } else { old(self).0 + 1 },
    {
        if self.0 + 1 == PAGESIZE {
            self.0 = 0;
        } else {
            self.0 = self.0 + 1;
        }
    }
}

/// Blocks `[from, to)` of page `page_id` belong to one listing, and the rest
/// of the page is unused.
#[derive(Clone, Copy, PartialEq, Eq, Debug, Structural)]
pub struct UnfullPage(pub PageId, pub BlockId, pub BlockId);

impl UnfullPage {
    pub open spec fn wf(&self) -> bool {
        self.1.0 < self.2.0 < PAGESIZE
    }

    pub fn new(page_id: PageId, from: BlockId, to: BlockId) -> (r: Self)
        ensures
            r == UnfullPage(page_id, from, to),
    {
        UnfullPage(page_id, from, to)
    }

    pub fn page_id(&self) -> (r: PageId)
        ensures
            r == self.0,
    {
        self.0
    }

    pub fn from(&self) -> (r: BlockId)
        ensures
            r == self.1,
    {
        self.1
    }

    pub fn to(&self) -> (r: BlockId)
        ensures
            r == self.2,
    {
        self.2
    }
}

/// The pages of one listing: full pages in order, then at most one unfull
/// page.
pub struct Pages(pub Vec<PageId>, pub Option<UnfullPage>);

impl Pages {
    /// Number of pages, the unfull one included.
    pub open spec fn spec_len(&self) -> nat {
        self.0@.len() + if self.1.is_some() { 1nat } else { 0nat }
    }

    pub fn new() -> (r: Pages)
        ensures
            r.0@.len() == 0,
            r.1.is_none(),
    {
        Pages(Vec::new(), None)
    }

    pub fn len(&self) -> (r: usize)
        requires
            self.0@.len() < usize::MAX,
        ensures
            r == self.spec_len(),
    {
        match self.1 {
            Some(_) => self.0.len() + 1,
            None => self.0.len(),
        }
    }

    pub fn is_empty(&self) -> (r: bool)
        ensures
            r == (self.spec_len() == 0),
    {
        self.0.len() == 0 && self.1.is_none()
    }

    /// The id of the `ptr`-th page, the unfull page counted last.
    pub fn get(&self, ptr: usize) -> (r: Option<PageId>)
        ensures
            ptr < self.0@.len() ==> r == Some(self.0@[ptr as int]),
            ptr == self.0@.len() && self.1.is_some() ==> r == Some(self.1.unwrap().0),
            ptr >= self.spec_len() ==> r.is_none(),
    {
        if ptr < self.0.len() {
            Some(self.0[ptr])
        } else if ptr == self.0.len() {
            match self.1 {
                Some(u) => Some(u.0),
                None => None,
            }
        } else {
            None
        }
    }

    #[inline]
    pub fn push(&mut self, page_id: PageId)
        ensures
            final(self).0@ == old(self).0@.push(page_id),
            final(self).1 == old(self).1,
    {
        self.0.push(page_id);
    }

    #[inline]
    pub fn add_unfull(&mut self, unfull_page: UnfullPage)
        ensures
            final(self).0@ == old(self).0@,
            final(self).1 == Some(unfull_page),
    {
        self.1 = Some(unfull_page);
    }

    #[inline]
    pub fn take_unfull(&mut self) -> (r: Option<UnfullPage>)
        ensures
            r == old(self).1,
            final(self).0@ == old(self).0@,
            final(self).1.is_none(),
    {
        self.1.take()
    }

    #[inline]
    pub fn unfull(&self) -> (r: Option<UnfullPage>)
        ensures
            r == self.1,
    {
        self.1
    }

    #[inline]
    pub fn has_unfull(&self) -> (r: bool)
        ensures
            r == self.1.is_some(),
    {
        self.1.is_some()
    }

    /// A copy with the same pages.
    pub fn duplicate(&self) -> (r: Pages)
        ensures
            r.0@ == self.0@,
            r.1 == self.1,
    {
        Pages(self.0.clone(), self.1)
    }
}

} // verus!
