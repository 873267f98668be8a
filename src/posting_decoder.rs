use vstd::prelude::*;
use vstd::seq_lib::lemma_flatten_concat;

use crate::listing::{biases_ok, block_loc, block_ok, block_stored, blocks_stored, docs_le};
use crate::page::{BlockId, PageId, Pages, PAGESIZE};
use crate::page_cache::RamPageCache;
use crate::posting::{postings_view, strictly_increasing, DocId, Posting, PostingView};

verus! {

/// Where the blocks of a listing lie: `full` pages of `PAGESIZE` blocks, then
/// the blocks of the unfull page, if any.
pub open spec fn layout_ok(
    c: &RamPageCache,
    pages: Seq<PageId>,
    unfull: Option<crate::page::UnfullPage>,
    blocks: Seq<Seq<PostingView>>,
    biases: Seq<DocId>,
) -> bool {
    let nf = pages.len();
    &&& forall|i: int| 0 <= i < nf ==> (#[trigger] pages[i]).0 < c.spec_len()
    &&& match unfull {
        Some(u) => {
            &&& u.1.0 <= u.2.0 <= PAGESIZE
            &&& blocks.len() == nf * PAGESIZE + u.2.0 - u.1.0
            &&& blocks_stored(c, pages, u.0, u.1.0 as int, blocks, biases)
        },
        None => {
            &&& blocks.len() == nf * PAGESIZE
            &&& blocks_stored(c, pages, PageId(0), 0, blocks, biases)
        },
    }
}

/// Reads the postings of a committed listing, block by block, from a
/// snapshot of its pages and biases.
pub struct PostingDecoder {
    pages: Pages,
    biases: Vec<DocId>,
    total: u64,
    next_block: usize,
    current: Vec<Posting>,
    pos: usize,
    blocks: Ghost<Seq<Seq<PostingView>>>,
    index: Ghost<int>,
}

/// The doc ids up to block `k` do not exceed the bias of block `k`.
pub proof fn lemma_prefix_docs(blocks: Seq<Seq<PostingView>>, biases: Seq<DocId>, k: int)
    requires
        biases_ok(blocks, biases),
        0 <= k < blocks.len(),
    ensures
        forall|i: int| 0 <= i < blocks.take(k).flatten().len() ==> (#[trigger] blocks.take(k).flatten()[i]).0 <= biases[k],
    decreases k,
{
    if k > 0 {
        lemma_prefix_docs(blocks, biases, k - 1);
        assert(blocks.take(k) =~= blocks.take(k - 1).push(blocks[k - 1]));
        blocks.take(k - 1).lemma_flatten_push(blocks[k - 1]);
        let f = blocks.take(k - 1).flatten();
        assert(docs_le(blocks[k - 1], biases[k]));
        assert(block_ok(blocks[k - 1], biases[k - 1]));
        assert(blocks[k - 1][0].0 <= biases[k]);
        assert(biases[k - 1] <= blocks[k - 1][0].0);
        assert forall|i: int| 0 <= i < blocks.take(k).flatten().len() implies (#[trigger] blocks.take(k).flatten()[i]).0
            <= biases[k] by {
            if i < f.len() {
                assert(f[i].0 <= biases[k - 1]);
            } else {
                assert(blocks.take(k).flatten()[i] == blocks[k - 1][i - f.len()]);
            }
        }
    }
}

/// Biases do not decrease.
pub proof fn lemma_biases_sorted(blocks: Seq<Seq<PostingView>>, biases: Seq<DocId>, a: int, b: int)
    requires
        biases_ok(blocks, biases),
        0 <= a <= b < blocks.len(),
    ensures
        biases[a] <= biases[b],
    decreases b - a,
{
    if a < b {
        lemma_biases_sorted(blocks, biases, a + 1, b);
        assert(block_ok(blocks[a], biases[a]));
        assert(docs_le(blocks[a], biases[a + 1]));
        assert(blocks[a][0].0 <= biases[a + 1]);
    }
}

/// Splitting the blocks after block `j`.
proof fn lemma_flatten_split(blocks: Seq<Seq<PostingView>>, j: int)
    requires
        0 <= j < blocks.len(),
    ensures
        blocks.take(j + 1).flatten() == blocks.take(j).flatten() + blocks[j],
        blocks.flatten() == blocks.take(j + 1).flatten() + blocks.skip(j + 1).flatten(),
        blocks.flatten() == blocks.take(j).flatten() + blocks.skip(j).flatten(),
        blocks.skip(j).flatten() == blocks[j] + blocks.skip(j + 1).flatten(),
{
    assert(blocks.take(j + 1) =~= blocks.take(j).push(blocks[j]));
    blocks.take(j).lemma_flatten_push(blocks[j]);
    assert(blocks.take(j + 1) + blocks.skip(j + 1) =~= blocks);
    lemma_flatten_concat(blocks.take(j + 1), blocks.skip(j + 1));
    assert(blocks.take(j) + blocks.skip(j) =~= blocks);
    lemma_flatten_concat(blocks.take(j), blocks.skip(j));
    assert(blocks.skip(j).drop_first() =~= blocks.skip(j + 1));
}

impl PostingDecoder {
    /// All postings of the listing, in order.
    pub closed spec fn view(&self) -> Seq<PostingView> {
        self.blocks@.flatten()
    }

    /// Number of postings read so far.
    pub closed spec fn position(&self) -> int {
        self.index@
    }

    /// The postings of each block, and each block's bias.
    pub closed spec fn spec_blocks(&self) -> Seq<Seq<PostingView>> {
        self.blocks@
    }

    pub closed spec fn spec_biases(&self) -> Seq<DocId> {
        self.biases@
    }

    pub closed spec fn wf(&self, c: &RamPageCache) -> bool {
        let n = self.blocks@.len();
        &&& c.wf()
        &&& biases_ok(self.blocks@, self.biases@)
        &&& strictly_increasing(self.view())
        &&& layout_ok(c, self.pages.0@, self.pages.1, self.blocks@, self.biases@)
        &&& self.total == self.view().len()
        &&& self.next_block <= n
        &&& self.pos <= self.current@.len()
        &&& (self.current@.len() > 0 ==> self.next_block > 0 && postings_view(self.current@)
            == self.blocks@[self.next_block - 1])
        &&& self.index@ == self.blocks@.take(self.next_block as int).flatten().len() - self.current@.len()
            + self.pos
    }

    /// A decoder at the first posting of the blocks `blocks`, which lie on
    /// `pages` as `layout_ok` says.
    pub(crate) fn new(pages: Pages, biases: Vec<DocId>, total: u64, blocks: Ghost<Seq<Seq<PostingView>>>, c: &RamPageCache) -> (r: Self)
        requires
            c.wf(),
            biases_ok(blocks@, biases@),
            strictly_increasing(blocks@.flatten()),
            layout_ok(c, pages.0@, pages.1, blocks@, biases@),
            total == blocks@.flatten().len(),
        ensures
            r.wf(c),
            r@ == blocks@.flatten(),
            r.position() == 0,
            r.spec_blocks() == blocks@,
            r.spec_biases() == biases@,
    {
        let r = PostingDecoder {
            pages,
            biases,
            total,
            next_block: 0,
            current: Vec::new(),
            pos: 0,
            blocks,
            index: Ghost(0),
        };
        assert(blocks@.take(0) =~= Seq::<Seq<PostingView>>::empty());
        r
    }

    /// Page and slot of block `b`.
    fn block_location(&self, b: usize, c: &RamPageCache) -> (r: (PageId, BlockId))
        requires
            self.wf(c),
            b < self.blocks@.len(),
        ensures
            ({
                let tail = match self.pages.1 { Some(u) => u.0, None => PageId(0) };
                let from = match self.pages.1 { Some(u) => u.1.0 as int, None => 0 };
                block_loc(self.pages.0@, tail, from, b as int) == (r.0.0 as int, r.1.0 as int)
            }),
    {
        let n = self.biases.len();
        let nf = self.pages.0.len();
        assert(nf * PAGESIZE <= n);
        let full_blocks = nf * PAGESIZE;
        if b < full_blocks {
            proof {
                vstd::arithmetic::div_mod::lemma_div_is_ordered(b as int, full_blocks as int, PAGESIZE as int);
                vstd::arithmetic::div_mod::lemma_div_multiples_vanish(nf as int, PAGESIZE as int);
                if b / PAGESIZE == nf {
                    vstd::arithmetic::div_mod::lemma_fundamental_div_mod(b as int, PAGESIZE as int);
                }
            }
            (self.pages.0[b / PAGESIZE], BlockId(b % PAGESIZE))
        } else {
            match self.pages.1 {
                Some(u) => (u.0, BlockId(u.1.0 + (b - full_blocks))),
                None => vstd::pervasive::unreached(),
            }
        }
    }

    /// Decodes the next block into `current`.
    fn load_block(&mut self, c: &RamPageCache)
        requires
            old(self).wf(c),
            old(self).next_block < old(self).blocks@.len(),
            old(self).pos == old(self).current@.len(),
        ensures
            final(self).wf(c),
            final(self).blocks == old(self).blocks,
            final(self).biases@ == old(self).biases@,
            final(self).index == old(self).index,
            final(self).next_block == old(self).next_block + 1,
            final(self).pos == 0,
            final(self).current@.len() > 0,
    {
        let nb = self.next_block;
        let n = self.biases.len();
        let ghost blocks = self.blocks@;
        let ghost b = blocks[nb as int];
        let (pg, sl) = self.block_location(nb, c);
        proof {
            let tail = match self.pages.1 { Some(u) => u.0, None => PageId(0) };
            let from = match self.pages.1 { Some(u) => u.1.0 as int, None => 0 };
            assert(blocks_stored(c, self.pages.0@, tail, from, blocks, self.biases@));
            assert(block_stored(c, self.pages.0@, tail, from, nb as int, b, self.biases@[nb as int]));
            assert(block_ok(b, self.biases@[nb as int]));
        }
        let blk = c.read_block(pg, sl);
        let bias = self.biases[nb];
        let ps = crate::listing::decode_stored_block(&blk, bias, Ghost(b));
        self.current = ps;
        self.pos = 0;
        self.next_block = nb + 1;
        proof {
            lemma_flatten_split(blocks, nb as int);
        }
    }

    /// The next posting, or `None` once every posting has been read.
    pub fn next(&mut self, c: &RamPageCache) -> (r: Option<Posting>)
        requires
            old(self).wf(c),
        ensures
            final(self).wf(c),
            final(self)@ == old(self)@,
            final(self).spec_blocks() == old(self).spec_blocks(),
            final(self).spec_biases() == old(self).spec_biases(),
            0 <= old(self).position() <= old(self)@.len(),
            old(self).position() < old(self)@.len() ==> r.is_some() && r.unwrap()@ == old(self)@[old(self).position()]
                && final(self).position() == old(self).position() + 1,
            old(self).position() >= old(self)@.len() ==> r.is_none() && final(self).position() == old(self).position(),
    {
        let ghost blocks = self.blocks@;
        proof {
            self.lemma_position();
        }
        if self.pos == self.current.len() {
            if self.next_block >= self.biases.len() {
                return None;
            }
            self.load_block(c);
        }
        let p = self.current[self.pos].duplicate();
        proof {
            let nb = self.next_block as int;
            lemma_flatten_split(blocks, nb - 1);
            assert(postings_view(self.current@)[self.pos as int] == self.current@[self.pos as int]@);
            let f = blocks.take(nb).flatten();
            assert(blocks.flatten()[self.index@] == f[self.index@]);
        }
        self.pos = self.pos + 1;
        self.index = Ghost(self.index@ + 1);
        Some(p)
    }

    proof fn lemma_position(&self)
        requires
            exists|c: &RamPageCache| self.wf(c),
        ensures
            0 <= self.index@ <= self.view().len(),
            self.pos < self.current@.len() || self.next_block < self.blocks@.len() <==> self.index@ < self.view().len(),
    {
        let blocks = self.blocks@;
        let nb = self.next_block as int;
        if nb > 0 {
            lemma_flatten_split(blocks, nb - 1);
        }
        if nb < blocks.len() {
            lemma_flatten_split(blocks, nb);
            assert(block_ok(blocks[nb], self.biases@[nb]));
        } else {
            assert(blocks.take(nb) =~= blocks);
        }
    }

    /// The first posting whose doc id is at least `target`, after which
    /// reading goes on from there; `None` when there is none.
    pub fn next_seek(&mut self, target: DocId, c: &RamPageCache) -> (r: Option<Posting>)
        requires
            old(self).wf(c),
        ensures
            final(self).wf(c),
            final(self)@ == old(self)@,
            final(self).spec_blocks() == old(self).spec_blocks(),
            final(self).spec_biases() == old(self).spec_biases(),
            match r {
                Some(p) => {
                    &&& 1 <= final(self).position() <= final(self)@.len()
                    &&& p@ == final(self)@[final(self).position() - 1]
                    &&& target <= p.0
                    &&& forall|j: int| 0 <= j < final(self).position() - 1 ==> (#[trigger] final(self)@[j]).0 < target
                },
                None => {
                    &&& final(self).position() == final(self)@.len()
                    &&& forall|j: int| 0 <= j < final(self)@.len() ==> (#[trigger] final(self)@[j]).0 < target
                },
            },
    {
        let ghost blocks = self.blocks@;
        let ghost biases = self.biases@;
        let n = self.biases.len();
        let mut lo: usize = 0;
        let mut hi: usize = n;
        while lo < hi
            invariant
                0 <= lo <= hi <= n,
                n == biases.len(),
                biases == self.biases@,
                biases_ok(blocks, biases),
                forall|i: int| 0 <= i < lo ==> (#[trigger] biases[i]) < target,
                forall|i: int| hi <= i < n ==> (#[trigger] biases[i]) >= target,
            decreases hi - lo,
        {
            let mid = lo + (hi - lo) / 2;
            if self.biases[mid] < target {
                proof {
                    assert forall|i: int| 0 <= i < mid + 1 implies (#[trigger] biases[i]) < target by {
                        lemma_biases_sorted(blocks, biases, i, mid as int);
                    }
                }
                lo = mid + 1;
            } else {
                proof {
                    assert forall|i: int| mid <= i < n implies (#[trigger] biases[i]) >= target by {
                        lemma_biases_sorted(blocks, biases, mid as int, i);
                    }
                }
                hi = mid;
            }
        }
        // Block `k` is the last whose bias is below the target (a bias may
        // equal the last doc id of the block before it, so an equal bias does
        // not rule out earlier blocks).
        let k = if lo == 0 { 0 } else { lo - 1 };
        // Going on from the current position reads no block twice; that is
        // right when the last posting read is below the target and its block
        // is not before block `k`.
        let resume = self.pos > 0 && k < self.next_block && self.current[self.pos - 1].0 < target;
        if resume {
            proof {
                let nb = self.next_block as int;
                lemma_flatten_split(blocks, nb - 1);
                let i = self.index@ - 1;
                assert(postings_view(self.current@)[self.pos - 1] == self.current@[self.pos - 1]@);
                assert(self.view()[i] == blocks.take(nb).flatten()[i]);
                assert(self.view()[i].0 < target);
                assert forall|j: int| 0 <= j < self.index@ implies (#[trigger] self.view()[j]).0 < target by {
                    if j < i {
                        assert(self.view()[j].0 < self.view()[i].0);
                    }
                }
            }
        } else {
            self.next_block = k;
            self.current = Vec::new();
            self.pos = 0;
            self.index = Ghost(blocks.take(k as int).flatten().len() as int);
            proof {
                if k < blocks.len() {
                    lemma_prefix_docs(blocks, biases, k as int);
                    lemma_flatten_split(blocks, k as int);
                } else {
                    assert(blocks.take(k as int) =~= blocks);
                }
                assert forall|j: int| 0 <= j < self.index@ implies (#[trigger] self.view()[j]).0 < target by {
                    assert(self.view()[j] == blocks.take(k as int).flatten()[j]);
                }
            }
        }
        proof {
            assert(self.wf(c));
            self.lemma_position();
        }
        let mut result: Option<Posting> = None;
        let mut done = false;
        while !done
            invariant
                self.wf(c),
                self.blocks@ == blocks,
                self.biases@ == biases,
                0 <= self.index@ <= self.view().len(),
                !done ==> result.is_none(),
                !done ==> forall|j: int| 0 <= j < self.index@ ==> (#[trigger] self.view()[j]).0 < target,
                done ==> match result {
                    Some(p) => {
                        &&& 1 <= self.index@
                        &&& p@ == self.view()[self.index@ - 1]
                        &&& target <= p.0
                        &&& forall|j: int| 0 <= j < self.index@ - 1 ==> (#[trigger] self.view()[j]).0 < target
                    },
                    None => {
                        &&& self.index@ == self.view().len()
                        &&& forall|j: int| 0 <= j < self.view().len() ==> (#[trigger] self.view()[j]).0 < target
                    },
                },
            decreases self.view().len() - self.index@ + if done { 0int } else { 1int },
        {
            let ghost i0 = self.index@;
            match self.next(c) {
                None => {
                    assert(self.index@ == self.view().len());
                    assert(forall|j: int| 0 <= j < self.view().len() ==> (#[trigger] self.view()[j]).0 < target);
                    done = true;
                },
                Some(p) => {
                    assert(p@ == self.view()[i0]);
                    if p.0 >= target {
                        assert(forall|j: int| 0 <= j < self.index@ - 1 ==> (#[trigger] self.view()[j]).0 < target);
                        result = Some(p);
                        done = true;
                    } else {
                        assert forall|j: int| 0 <= j < self.index@ implies (#[trigger] self.view()[j]).0 < target by {
                            if j < i0 {
                            }
                        }
                    }
                },
            }
        }
        result
    }

    /// The decoder reads doc ids in strictly increasing order.
    pub proof fn lemma_increasing(&self, c: &RamPageCache)
        requires
            self.wf(c),
        ensures
            strictly_increasing(self@),
    {
    }

    /// Number of postings of the listing.
    pub fn len(&self) -> (r: u64)
        requires
            exists|c: &RamPageCache| self.wf(c),
        ensures
            r == self@.len(),
    {
        self.total
    }
}

} // verus!
