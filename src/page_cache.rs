use vstd::prelude::*;

use crate::page::{Block, BlockId, Page, PageId, UnfullPage, BLOCKSIZE, PAGESIZE};

verus! {

/// The backing store: pages with dense ids, assigned in append order from 0.
pub struct PageManager {
    pages: Vec<Page>,
}

impl PageManager {
    pub closed spec fn wf(&self) -> bool {
        forall|i: int| 0 <= i < self.pages@.len() ==> (#[trigger] self.pages@[i]).wf()
    }

    /// The stored pages, each as the bytes of its blocks.
    pub closed spec fn view(&self) -> Seq<Seq<Seq<u8>>> {
        self.pages@.map_values(|p: Page| p.blocks())
    }

    pub proof fn lemma_wf(&self)
        requires
            self.wf(),
        ensures
            forall|i: int, j: int|
                0 <= i < self@.len() && 0 <= j < PAGESIZE ==> (#[trigger] self@[i][j]).len() == BLOCKSIZE,
            forall|i: int| 0 <= i < self@.len() ==> (#[trigger] self@[i]).len() == PAGESIZE,
    {
        assert forall|i: int, j: int|
            0 <= i < self@.len() && 0 <= j < PAGESIZE implies (#[trigger] self@[i][j]).len() == BLOCKSIZE by {
            assert(self.pages@[i].wf());
            assert(self.pages@[i].0@[j].wf());
        }
        assert forall|i: int| 0 <= i < self@.len() implies (#[trigger] self@[i]).len() == PAGESIZE by {
            assert(self.pages@[i].wf());
        }
    }

    pub fn new() -> (r: Self)
        ensures
            r.wf(),
            r@.len() == 0,
    {
        let r = PageManager { pages: Vec::new() };
        assert(r@ =~= Seq::<Seq<Seq<u8>>>::empty());
        r
    }

    pub fn len(&self) -> (r: usize)
        ensures
            r == self@.len(),
    {
        self.pages.len()
    }

    /// Appends a page and returns its id.
    pub fn store_page(&mut self, page: Page) -> (r: PageId)
        requires
            old(self).wf(),
            page.wf(),
        ensures
            final(self).wf(),
            final(self)@ == old(self)@.push(page.blocks()),
            r.0 == old(self)@.len(),
    {
        let id = self.pages.len() as u64;
        assert(id == self.pages@.len());
        let ghost before = self.pages@;
        self.pages.push(page);
        assert(self@ =~= before.map_values(|p: Page| p.blocks()).push(page.blocks()));
        PageId(id)
    }

    /// A copy of a stored page.
    pub fn read_page(&self, id: PageId) -> (r: Page)
        requires
            self.wf(),
            id.0 < self@.len(),
        ensures
            r.wf(),
            r.blocks() == self@[id.0 as int],
    {
        let n = self.pages.len();
        assert(id.0 < n);
        self.pages[id.0 as usize].duplicate()
    }

    /// Replaces a stored page.
    pub fn overwrite_page(&mut self, id: PageId, page: Page)
        requires
            old(self).wf(),
            id.0 < old(self)@.len(),
            page.wf(),
        ensures
            final(self).wf(),
            final(self)@ == old(self)@.update(id.0 as int, page.blocks()),
    {
        let ghost before = self.pages@;
        let n = self.pages.len();
        assert(id.0 < n);
        self.pages.set(id.0 as usize, page);
        assert(self@ =~= before.map_values(|p: Page| p.blocks()).update(id.0 as int, page.blocks()));
    }

    /// A copy of one block of a stored page.
    pub fn read_block(&self, id: PageId, block_id: BlockId) -> (r: Block)
        requires
            self.wf(),
            id.0 < self@.len(),
            block_id.0 < PAGESIZE,
        ensures
            r.wf(),
            r@ == self@[id.0 as int][block_id.0 as int],
    {
        let n = self.pages.len();
        assert(id.0 < n);
        assert(self.pages@[id.0 as int].wf());
        self.pages[id.0 as usize].0[block_id.0].duplicate()
    }

    /// Writes one block of a stored page.
    pub fn write_block(&mut self, id: PageId, block_id: BlockId, block: Block)
        requires
            old(self).wf(),
            id.0 < old(self)@.len(),
            block_id.0 < PAGESIZE,
            block.wf(),
        ensures
            final(self).wf(),
            final(self)@ == old(self)@.update(
                id.0 as int,
                old(self)@[id.0 as int].update(block_id.0 as int, block@),
            ),
    {
        let ghost before = self.pages@;
        let ghost bytes = block@;
        let n = self.pages.len();
        assert(id.0 < n);
        let mut page = self.pages[id.0 as usize].duplicate();
        assert(self.pages@[id.0 as int].wf());
        page.0.set(block_id.0, block);
        assert(page.blocks() =~= before[id.0 as int].blocks().update(block_id.0 as int, bytes));
        self.overwrite_page(id, page);
    }
}

/// Pages in RAM between the listings and the backing store.
///
/// A page that a listing is filling is "hot" and tagged with that listing's
/// owner tag; only its owner writes it, and flushing it ends that. Flushed
/// pages are never written again.
pub struct RamPageCache {
    manager: PageManager,
    owners: Vec<Option<u64>>,
    unfull: Vec<UnfullPage>,
}

/// What an operation on behalf of `owner` leaves in place: every page that
/// was not hot for `owner` keeps its blocks and its tag, and no page goes.
pub open spec fn cache_frame(c1: &RamPageCache, c2: &RamPageCache, owner: u64) -> bool {
    &&& c1.spec_len() <= c2.spec_len()
    &&& forall|id: int|
        #![trigger c2.page(id)]
        #![trigger c2.owner(id)]
        0 <= id < c1.spec_len() && c1.owner(id) != Some(owner) ==> c2.page(id) == c1.page(id) && c2.owner(id)
            == c1.owner(id)
}

pub proof fn lemma_cache_frame_trans(c1: &RamPageCache, c2: &RamPageCache, c3: &RamPageCache, owner: u64)
    requires
        cache_frame(c1, c2, owner),
        cache_frame(c2, c3, owner),
    ensures
        cache_frame(c1, c3, owner),
{
    assert forall|id: int| 0 <= id < c1.spec_len() && c1.owner(id) != Some(owner) implies (#[trigger] c3.page(id))
        == c1.page(id) && c3.owner(id) == c1.owner(id) by {
        assert(c2.page(id) == c1.page(id));
    }
}

impl RamPageCache {
    pub closed spec fn wf(&self) -> bool {
        &&& self.manager.wf()
        &&& self.owners@.len() == self.manager@.len()
    }

    pub closed spec fn spec_len(&self) -> nat {
        self.manager@.len()
    }

    /// The blocks of page `id`.
    pub closed spec fn page(&self, id: int) -> Seq<Seq<u8>> {
        self.manager@[id]
    }

    /// The owner tag of page `id` while it is hot.
    pub closed spec fn owner(&self, id: int) -> Option<u64> {
        self.owners@[id]
    }

    /// The descriptors of unfull pages that are kept.
    pub closed spec fn unfull_pages(&self) -> Seq<UnfullPage> {
        self.unfull@
    }

    /// Every page has `PAGESIZE` blocks of `BLOCKSIZE` bytes.
    pub proof fn lemma_pages(&self)
        requires
            self.wf(),
        ensures
            forall|id: int| 0 <= id < self.spec_len() ==> (#[trigger] self.page(id)).len() == PAGESIZE,
            forall|id: int, j: int|
                0 <= id < self.spec_len() && 0 <= j < PAGESIZE ==> (#[trigger] self.page(id)[j]).len() == BLOCKSIZE,
    {
        self.manager.lemma_wf();
    }

    pub proof fn lemma_frame_refl(&self, owner: u64)
        ensures
            cache_frame(self, self, owner),
    {
    }

    pub fn new() -> (r: Self)
        ensures
            r.wf(),
            r.spec_len() == 0,
    {
        RamPageCache { manager: PageManager::new(), owners: Vec::new(), unfull: Vec::new() }
    }

    /// Number of pages.
    pub fn len(&self) -> (r: usize)
        requires
            self.wf(),
        ensures
            r == self.spec_len(),
    {
        self.manager.len()
    }

    /// Puts `block` at the first slot of a fresh page, hot for `owner`.
    pub fn store_block(&mut self, block: Block, owner: u64) -> (r: PageId)
        requires
            old(self).wf(),
            block.wf(),
        ensures
            final(self).wf(),
            r.0 == old(self).spec_len(),
            final(self).spec_len() == old(self).spec_len() + 1,
            final(self).page(r.0 as int)[0] == block@,
            final(self).owner(r.0 as int) == Some(owner),
            cache_frame(old(self), final(self), owner),
            forall|id: int| 0 <= id < old(self).spec_len() ==> (#[trigger] final(self).page(id)) == old(self).page(id),
            forall|id: int| 0 <= id < old(self).spec_len() ==> (#[trigger] final(self).owner(id)) == old(self).owner(id),
            final(self).unfull_pages() == old(self).unfull_pages(),
    {
        let mut page = Page::empty();
        let ghost bytes = block@;
        page.0.set(0, block);
        let id = self.manager.store_page(page);
        self.owners.push(Some(owner));
        id
    }

    /// Writes `block` at slot `block_id` of a page hot for `owner`.
    pub fn store_in_place(&mut self, page_id: PageId, block_id: BlockId, block: Block, owner: u64)
        requires
            old(self).wf(),
            page_id.0 < old(self).spec_len(),
            old(self).owner(page_id.0 as int) == Some(owner),
            block_id.0 < PAGESIZE,
            block.wf(),
        ensures
            final(self).wf(),
            final(self).spec_len() == old(self).spec_len(),
            final(self).page(page_id.0 as int) == old(self).page(page_id.0 as int).update(
                block_id.0 as int,
                block@,
            ),
            forall|id: int| 0 <= id < old(self).spec_len() ==> (#[trigger] final(self).owner(id)) == old(self).owner(id),
            forall|id: int|
                0 <= id < old(self).spec_len() && id != page_id.0 ==> (#[trigger] final(self).page(id)) == old(
                    self,
                ).page(id),
            cache_frame(old(self), final(self), owner),
            final(self).unfull_pages() == old(self).unfull_pages(),
    {
        let n = self.manager.len();
        self.manager.write_block(page_id, block_id, block);
    }

    /// Ends the filling of a hot page whose every slot is used, and returns
    /// its id in the backing store.
    pub fn flush_page(&mut self, page_id: PageId, owner: u64) -> (r: PageId)
        requires
            old(self).wf(),
            page_id.0 < old(self).spec_len(),
            old(self).owner(page_id.0 as int) == Some(owner),
        ensures
            final(self).wf(),
            r == page_id,
            final(self).spec_len() == old(self).spec_len(),
            final(self).owner(page_id.0 as int).is_none(),
            forall|id: int| 0 <= id < old(self).spec_len() ==> (#[trigger] final(self).page(id)) == old(self).page(id),
            forall|id: int|
                0 <= id < old(self).spec_len() && id != page_id.0 ==> (#[trigger] final(self).owner(id)) == old(
                    self,
                ).owner(id),
            cache_frame(old(self), final(self), owner),
            final(self).unfull_pages() == old(self).unfull_pages(),
    {
        let n = self.owners.len();
        assert(page_id.0 < n);
        self.owners.set(page_id.0 as usize, None);
        page_id
    }

    /// Ends the filling of a hot page whose slots `[0, next_block)` are
    /// used, and keeps its descriptor.
    pub fn flush_unfull(&mut self, page_id: PageId, next_block: BlockId, owner: u64) -> (r: UnfullPage)
        requires
            old(self).wf(),
            page_id.0 < old(self).spec_len(),
            old(self).owner(page_id.0 as int) == Some(owner),
            0 < next_block.0 < PAGESIZE,
        ensures
            final(self).wf(),
            r == UnfullPage(page_id, BlockId(0), next_block),
            r.wf(),
            final(self).spec_len() == old(self).spec_len(),
            final(self).owner(page_id.0 as int).is_none(),
            forall|id: int| 0 <= id < old(self).spec_len() ==> (#[trigger] final(self).page(id)) == old(self).page(id),
            forall|id: int|
                0 <= id < old(self).spec_len() && id != page_id.0 ==> (#[trigger] final(self).owner(id)) == old(
                    self,
                ).owner(id),
            cache_frame(old(self), final(self), owner),
            final(self).unfull_pages() == old(self).unfull_pages().push(r),
    {
        let n = self.owners.len();
        assert(page_id.0 < n);
        self.owners.set(page_id.0 as usize, None);
        let u = UnfullPage(page_id, BlockId(0), next_block);
        self.unfull.push(u);
        u
    }

    /// Drops the descriptors kept for unfull page `page_id`; its bytes stay
    /// in the backing store.
    pub fn delete_unfull(&mut self, page_id: PageId)
        requires
            old(self).wf(),
        ensures
            final(self).wf(),
            final(self).spec_len() == old(self).spec_len(),
            forall|id: int| 0 <= id < old(self).spec_len() ==> (#[trigger] final(self).page(id)) == old(self).page(id),
            forall|id: int| 0 <= id < old(self).spec_len() ==> (#[trigger] final(self).owner(id)) == old(self).owner(id),
            final(self).unfull_pages() == old(self).unfull_pages().filter(|u: UnfullPage| u.0 != page_id),
    {
        let ghost before = self.unfull@;
        let mut kept: Vec<UnfullPage> = Vec::new();
        let mut i: usize = 0;
        while i < self.unfull.len()
            invariant
                i <= self.unfull@.len(),
                self.unfull@ == before,
                kept@ == before.take(i as int).filter(|u: UnfullPage| u.0 != page_id),
            decreases self.unfull@.len() - i,
        {
            let u = self.unfull[i];
            proof {
                assert(before.take(i + 1).drop_last() =~= before.take(i as int));
                reveal(Seq::filter);
            }
            if u.0 != page_id {
                kept.push(u);
            }
            i = i + 1;
        }
        assert(before.take(i as int) =~= before);
        self.unfull = kept;
    }

    /// A copy of block `block_id` of page `page_id`.
    pub fn read_block(&self, page_id: PageId, block_id: BlockId) -> (r: Block)
        requires
            self.wf(),
            page_id.0 < self.spec_len(),
            block_id.0 < PAGESIZE,
        ensures
            r.wf(),
            r@ == self.page(page_id.0 as int)[block_id.0 as int],
    {
        self.manager.read_block(page_id, block_id)
    }

    /// The backing store.
    pub fn manager(&self) -> (r: &PageManager)
        requires
            self.wf(),
        ensures
            r.wf(),
            r@.len() == self.spec_len(),
            forall|id: int| 0 <= id < self.spec_len() ==> (#[trigger] r@[id]) == self.page(id),
    {
        &self.manager
    }
}

} // verus!
