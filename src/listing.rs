use vstd::prelude::*;
use vstd::seq_lib::lemma_flatten_concat;

use crate::compressor::{
    buffer_ok, block_spec, chain_ok, compress, decode_block, fits, force_compress,
    lemma_block_round_trip, lemma_records_min_len, lemma_shift_chain, lemma_records_prefix_len, lemma_shift_take, records_spec,
    shift,
};
use crate::page::{Block, BlockId, PageId, Pages, UnfullPage, BLOCKSIZE, PAGESIZE};
use crate::page_cache::{cache_frame, lemma_cache_frame_trans, RamPageCache};
use crate::persistence::ListingRecord;
use crate::posting_decoder::PostingDecoder;
use crate::posting::{
    postings_view, sorted_positions, strictly_increasing, DocId, Posting, PostingView,
};
use crate::ring_buffer::BiasedRingBuffer;

verus! {

/// Location (page id, slot) of the `k`-th block of a listing whose full
/// pages are `full` and whose remaining blocks lie on page `tail` from slot
/// `from` on.
pub open spec fn block_loc(full: Seq<PageId>, tail: PageId, from: int, k: int) -> (int, int) {
    if k < full.len() * PAGESIZE {
        (full[k / PAGESIZE as int].0 as int, k % PAGESIZE as int)
    } else {
        (tail.0 as int, from + k - full.len() * PAGESIZE)
    }
}

/// The `k`-th block, holding `b` with base `bias`, is in the cache.
pub open spec fn block_stored(
    c: &RamPageCache,
    full: Seq<PageId>,
    tail: PageId,
    from: int,
    k: int,
    b: Seq<PostingView>,
    bias: DocId,
) -> bool {
    let l = block_loc(full, tail, from, k);
    &&& 0 <= l.0 < c.spec_len()
    &&& 0 <= l.1 < PAGESIZE
    &&& c.page(l.0)[l.1] == block_spec(shift(b, bias as int))
}

/// Every block of `blocks`, with its bias, is in the cache.
pub open spec fn blocks_stored(
    c: &RamPageCache,
    full: Seq<PageId>,
    tail: PageId,
    from: int,
    blocks: Seq<Seq<PostingView>>,
    biases: Seq<DocId>,
) -> bool {
    forall|k: int|
        0 <= k < blocks.len() ==> #[trigger] block_stored(c, full, tail, from, k, blocks[k], biases[k])
}

/// A block's postings with its bias: at least one posting, doc ids from the
/// bias on, records that fit in a block.
pub open spec fn block_ok(b: Seq<PostingView>, bias: DocId) -> bool {
    &&& b.len() > 0
    &&& chain_ok(b, bias as int)
    &&& forall|i: int| 0 <= i < b.len() ==> fits(#[trigger] b[i])
    &&& records_spec(shift(b, bias as int), 0).len() <= BLOCKSIZE
}

/// Every doc id in `b` is at most `d`.
pub open spec fn docs_le(b: Seq<PostingView>, d: DocId) -> bool {
    forall|i: int| 0 <= i < b.len() ==> (#[trigger] b[i]).0 <= d
}

/// Bias and doc id order across blocks: block `k` starts at or after its
/// bias, and its doc ids do not exceed the bias of block `k + 1`.
pub open spec fn biases_ok(blocks: Seq<Seq<PostingView>>, biases: Seq<DocId>) -> bool {
    &&& blocks.len() == biases.len()
    &&& forall|k: int| 0 <= k < blocks.len() ==> block_ok(#[trigger] blocks[k], biases[k])
    &&& forall|k: int| 0 <= k < blocks.len() - 1 ==> docs_le(#[trigger] blocks[k], biases[k + 1])
}

/// Postings that a listing may hold: doc ids strictly increasing, positions
/// sorted, each record fitting a block.
pub open spec fn postings_ok(s: Seq<PostingView>) -> bool {
    &&& strictly_increasing(s)
    &&& forall|i: int| 0 <= i < s.len() ==> sorted_positions((#[trigger] s[i]).1)
    &&& forall|i: int| 0 <= i < s.len() ==> fits(#[trigger] s[i])
    &&& forall|i: int| 0 <= i < s.len() ==> (#[trigger] s[i]).1.len() <= u32::MAX
}

/// What a listing holding `s` holds after `ps` is added: a posting whose doc
/// id equals that of the last one held is dropped.
pub open spec fn extend(s: Seq<PostingView>, ps: Seq<PostingView>) -> Seq<PostingView>
    decreases ps.len(),
{
    if ps.len() == 0 {
        s
    } else {
        let t = extend(s, ps.drop_last());
        if t.len() > 0 && t.last().0 == ps.last().0 {
            t
        } else {
            t.push(ps.last())
        }
    }
}

/// Postings that may be added to a listing holding `s`: doc ids
/// non-decreasing from the last one held, positions sorted, each record
/// fitting a block.
pub open spec fn add_ok(s: Seq<PostingView>, ps: Seq<PostingView>) -> bool {
    &&& forall|i: int, j: int| 0 <= i <= j < ps.len() ==> (#[trigger] ps[i]).0 <= (#[trigger] ps[j]).0
    &&& (s.len() > 0 && ps.len() > 0 ==> s.last().0 <= ps[0].0)
    &&& forall|i: int| 0 <= i < ps.len() ==> sorted_positions((#[trigger] ps[i]).1)
    &&& forall|i: int| 0 <= i < ps.len() ==> fits(#[trigger] ps[i])
    &&& forall|i: int| 0 <= i < ps.len() ==> (#[trigger] ps[i]).1.len() <= u32::MAX
}

/// Shipping the first `k` postings of the buffer `buf` as a block with bias
/// `bs`, and taking `nbs` as the next bias, keeps the block invariants.
#[verifier::spinoff_prover]
#[verifier::rlimit(80)]
proof fn lemma_ship_seqs(
    buf: Seq<PostingView>,
    k: int,
    bs: DocId,
    nbs: DocId,
    block_end: DocId,
    blocks: Seq<Seq<PostingView>>,
    biases: Seq<DocId>,
)
    requires
        buffer_ok(buf, bs as int),
        biases_ok(blocks, biases),
        blocks.len() > 0 ==> docs_le(blocks.last(), bs),
        1 <= k <= buf.len(),
        records_spec(shift(buf.take(k), bs as int), 0).len() <= BLOCKSIZE,
        k < buf.len() ==> nbs == buf[k].0,
        k == buf.len() ==> nbs == block_end && block_end == buf.last().0,
    ensures
        (blocks.push(buf.take(k))).flatten() + buf.skip(k) == blocks.flatten() + buf,
        biases_ok(blocks.push(buf.take(k)), biases.push(bs)),
        docs_le(buf.take(k), nbs),
        buffer_ok(buf.skip(k), nbs as int),
        nbs <= buf.last().0,
{
    let popped = buf.take(k);
    let rest = buf.skip(k);
    blocks.lemma_flatten_push(popped);
    assert(popped + rest =~= buf);
    assert((blocks.flatten() + popped) + rest =~= blocks.flatten() + (popped + rest));
    assert(block_ok(popped, bs)) by {
        assert forall|i: int, j: int| 0 <= i < j < popped.len() implies (#[trigger] popped[i]).0
            < (#[trigger] popped[j]).0 by {
            assert(buf[i].0 < buf[j].0);
        }
        assert forall|i: int| 0 <= i < popped.len() implies bs <= (#[trigger] popped[i]).0 by {
            assert(bs <= buf[i].0);
        }
        assert forall|i: int| 0 <= i < popped.len() implies sorted_positions((#[trigger] popped[i]).1) by {
            assert(sorted_positions(buf[i].1));
        }
        assert forall|i: int| 0 <= i < popped.len() implies fits(#[trigger] popped[i]) by {
            assert(fits(buf[i]));
        }
        assert forall|i: int| 0 <= i < popped.len() implies (#[trigger] popped[i]).1.len() <= u32::MAX by {
            assert(buf[i].1.len() <= u32::MAX);
        }
    }
    assert(docs_le(popped, nbs)) by {
        assert forall|i: int| 0 <= i < popped.len() implies (#[trigger] popped[i]).0 <= nbs by {
            if k < buf.len() {
                assert(buf[i].0 < buf[k].0);
            } else if i < buf.len() - 1 {
                assert(buf[i].0 < buf[buf.len() - 1].0);
            }
        }
    }
    assert(nbs <= buf.last().0) by {
        if k < buf.len() - 1 {
            assert(buf[k].0 < buf[buf.len() - 1].0);
        }
    }
    assert(buffer_ok(rest, nbs as int)) by {
        assert forall|i: int| 0 <= i < rest.len() implies nbs <= (#[trigger] rest[i]).0 by {
            if i > 0 {
                assert(buf[k].0 < buf[k + i].0);
            }
        }
        assert forall|i: int, j: int| 0 <= i < j < rest.len() implies (#[trigger] rest[i]).0
            < (#[trigger] rest[j]).0 by {
            assert(buf[k + i].0 < buf[k + j].0);
        }
        assert forall|i: int| 0 <= i < rest.len() implies sorted_positions((#[trigger] rest[i]).1) by {
            assert(sorted_positions(buf[k + i].1));
        }
        assert forall|i: int| 0 <= i < rest.len() implies fits(#[trigger] rest[i]) by {
            assert(fits(buf[k + i]));
        }
        assert forall|i: int| 0 <= i < rest.len() implies (#[trigger] rest[i]).1.len() <= u32::MAX by {
            assert(buf[k + i].1.len() <= u32::MAX);
        }
    }
    let nblocks = blocks.push(popped);
    let nbiases = biases.push(bs);
    assert(biases_ok(nblocks, nbiases)) by {
        assert forall|j: int| 0 <= j < nblocks.len() implies block_ok(#[trigger] nblocks[j], nbiases[j]) by {
            if j < blocks.len() {
                assert(nblocks[j] == blocks[j]);
                assert(nbiases[j] == biases[j]);
            }
        }
        assert forall|j: int| 0 <= j < nblocks.len() - 1 implies docs_le(#[trigger] nblocks[j], nbiases[j + 1]) by {
            if j < blocks.len() - 1 {
                assert(nblocks[j] == blocks[j]);
                assert(nbiases[j + 1] == biases[j + 1]);
            } else {
                assert(nblocks[j] == blocks.last());
            }
        }
    }
}

/// The postings `b` of a block stored with bias `bias`, read back.
pub(crate) fn decode_stored_block(blk: &Block, bias: DocId, b: Ghost<Seq<PostingView>>) -> (r: Vec<Posting>)
    requires
        blk@ == block_spec(shift(b@, bias as int)),
        block_ok(b@, bias),
    ensures
        postings_view(r@) == b@,
{
    let ghost b = b@;
    proof {
        lemma_shift_chain(b, bias as int);
        lemma_block_round_trip(shift(b, bias as int));
    }
    let rel = match decode_block(blk.as_slice()) {
        Some(r) => r,
        None => vstd::pervasive::unreached(),
    };
    let mut out: Vec<Posting> = Vec::new();
    let mut m: usize = 0;
    assert(postings_view(rel@).len() == rel@.len());
    assert(b.take(0) =~= Seq::<PostingView>::empty());
    while m < rel.len()
        invariant
            m <= rel@.len(),
            rel@.len() == b.len(),
            postings_view(rel@) == shift(b, bias as int),
            chain_ok(b, bias as int),
            postings_view(out@) == b.take(m as int),
        decreases rel@.len() - m,
    {
        assert(postings_view(rel@)[m as int] == rel@[m as int]@);
        assert(bias <= b[m as int].0);
        let d = rel[m].0 + bias;
        let q = Posting(d, rel[m].1.clone());
        assert(q@ == b[m as int]);
        let ghost old_out = out@;
        out.push(q);
        assert(postings_view(out@) =~= postings_view(old_out).push(b[m as int]));
        assert(b.take(m + 1) =~= b.take(m as int).push(b[m as int]));
        m = m + 1;
    }
    assert(b.take(m as int) =~= b);
    out
}

/// The postings that adding `ps` to a listing holding `s` appends.
pub open spec fn added(s: Seq<PostingView>, ps: Seq<PostingView>) -> Seq<PostingView> {
    extend(s, ps).skip(s.len() as int)
}

/// `s` comes first in what adding `ps` gives.
pub proof fn lemma_extend_keeps(s: Seq<PostingView>, ps: Seq<PostingView>)
    ensures
        s.len() <= extend(s, ps).len(),
        extend(s, ps).take(s.len() as int) == s,
    decreases ps.len(),
{
    if ps.len() == 0 {
        assert(s.take(s.len() as int) =~= s);
    } else {
        lemma_extend_keeps(s, ps.drop_last());
        let a = extend(s, ps.drop_last());
        assert(extend(s, ps).take(s.len() as int) =~= a.take(s.len() as int));
    }
}

/// Adding more postings only appends: what a prefix of `ps` gives is a
/// prefix of what a longer prefix gives, and `s` comes first.
pub proof fn lemma_extend_mono(s: Seq<PostingView>, ps: Seq<PostingView>, i: int, j: int)
    requires
        0 <= i <= j <= ps.len(),
    ensures
        s.len() <= extend(s, ps.take(i)).len() <= extend(s, ps.take(j)).len(),
        extend(s, ps.take(j)).take(extend(s, ps.take(i)).len() as int) == extend(s, ps.take(i)),
        extend(s, ps.take(j)).take(s.len() as int) == s,
    decreases j - i,
{
    lemma_extend_keeps(s, ps.take(i));
    lemma_extend_keeps(s, ps.take(j));
    if i == j {
        assert(extend(s, ps.take(j)).take(extend(s, ps.take(j)).len() as int) =~= extend(s, ps.take(j)));
    } else {
        lemma_extend_mono(s, ps, i, j - 1);
        assert(ps.take(j).drop_last() =~= ps.take(j - 1));
        let a = extend(s, ps.take(j - 1));
        let b = extend(s, ps.take(j));
        assert(b == a || b == a.push(ps.take(j).last()));
        assert(b.take(extend(s, ps.take(i)).len() as int) =~= a.take(extend(s, ps.take(i)).len() as int));
    }
}

/// A prefix of postings that fit one block together fits too.
proof fn lemma_small_prefix(total: Seq<PostingView>, start: DocId, m: int)
    requires
        0 <= m <= total.len(),
        records_spec(shift(total, start as int), 0).len() < BLOCKSIZE,
    ensures
        records_spec(shift(total.take(m), start as int), 0).len() < BLOCKSIZE,
{
    lemma_shift_take(total, start as int, m);
    lemma_records_prefix_len(shift(total, start as int), 0, m, total.len() as int);
    assert(shift(total, start as int).take(total.len() as int) =~= shift(total, start as int));
}

/// When the `i`-th posting is appended, the postings appended so far grow
/// by it and stay a prefix of all that is appended.
proof fn lemma_added_step(s0: Seq<PostingView>, ps: Seq<PostingView>, i: int, pending: Seq<PostingView>, p: PostingView)
    requires
        0 <= i < ps.len(),
        extend(s0, ps.take(i + 1)) == extend(s0, ps.take(i)).push(p),
    ensures
        added(s0, ps.take(i + 1)) == added(s0, ps.take(i)).push(p),
        s0.len() <= extend(s0, ps.take(i + 1)).len(),
        pending.len() + extend(s0, ps.take(i + 1)).len() - s0.len() <= pending.len() + added(s0, ps).len(),
        (pending + added(s0, ps.take(i))).push(p) == (pending + added(s0, ps)).take(
            pending.len() + extend(s0, ps.take(i + 1)).len() - s0.len(),
        ),
{
    lemma_extend_mono(s0, ps, 0, i);
    lemma_extend_mono(s0, ps, i + 1, ps.len() as int);
    assert(ps.take(ps.len() as int) =~= ps);
    let ei = extend(s0, ps.take(i + 1));
    let e = extend(s0, ps);
    assert(added(s0, ps.take(i + 1)) =~= added(s0, ps.take(i)).push(p));
    assert((pending + added(s0, ps.take(i))).push(p) =~= (pending + added(s0, ps)).take(pending.len() + ei.len() - s0.len()));
}

/// After adding at least one posting, the last posting held has the doc id
/// of the last one added.
pub proof fn lemma_extend_last(s: Seq<PostingView>, ps: Seq<PostingView>)
    requires
        ps.len() > 0,
    ensures
        extend(s, ps).len() > 0,
        extend(s, ps).last().0 == ps.last().0,
{
}

/// Round trip: adding postings with strictly increasing doc ids to an empty
/// listing makes it hold exactly those postings; committing keeps them and a
/// decoder of the listing reads them back in order.
pub proof fn lemma_round_trip(ps: Seq<PostingView>)
    requires
        strictly_increasing(ps),
    ensures
        extend(Seq::empty(), ps) == ps,
    decreases ps.len(),
{
    if ps.len() > 0 {
        let init = ps.drop_last();
        assert(strictly_increasing(init));
        lemma_round_trip(init);
        if init.len() > 0 {
            assert(init.last().0 < ps.last().0);
        }
        assert(init.push(ps.last()) =~= ps);
    }
}

/// Appending after a commit: adding `a`, committing, then adding `b`, gives
/// the postings that adding `a + b` at once gives.
pub proof fn lemma_append_after_commit(s: Seq<PostingView>, a: Seq<PostingView>, b: Seq<PostingView>)
    ensures
        extend(extend(s, a), b) == extend(s, a + b),
    decreases b.len(),
{
    if b.len() == 0 {
        assert(a + b =~= a);
    } else {
        lemma_append_after_commit(s, a, b.drop_last());
        assert((a + b).drop_last() =~= a + b.drop_last());
        assert((a + b).last() == b.last());
    }
}

/// Consecutive postings with equal doc ids collapse to the first: the
/// second one adds nothing.
pub proof fn lemma_idempotent_doc_ids(s: Seq<PostingView>, ps: Seq<PostingView>, p: PostingView, q: PostingView)
    requires
        p.0 == q.0,
    ensures
        extend(s, ps.push(p).push(q)) == extend(s, ps.push(p)),
{
    assert(ps.push(p).push(q).drop_last() =~= ps.push(p));
    lemma_extend_last(s, ps.push(p));
}

/// A sequence with strictly increasing doc ids has at most `2^32` items.
pub proof fn lemma_increasing_len(s: Seq<PostingView>)
    requires
        strictly_increasing(s),
    ensures
        s.len() <= u32::MAX + 1,
{
    if s.len() > 0 {
        assert forall|i: int| 0 <= i < s.len() implies (#[trigger] s[i]).0 >= i by {
            lemma_increasing_at(s, i);
        }
        assert(s[s.len() - 1].0 >= s.len() - 1);
    }
}

proof fn lemma_increasing_at(s: Seq<PostingView>, i: int)
    requires
        strictly_increasing(s),
        0 <= i < s.len(),
    ensures
        s[i].0 >= i,
    decreases i,
{
    if i > 0 {
        lemma_increasing_at(s, i - 1);
        assert(s[i - 1].0 < s[i].0);
    }
}

/// Number of blocks on an unfull page.
pub open spec fn unfull_blocks(u: Option<UnfullPage>) -> int {
    match u {
        Some(u) => u.2.0 - u.1.0,
        None => 0,
    }
}

/// The postings of one term, kept in compressed blocks on pages of a
/// `RamPageCache`, with the postings not yet shipped in a buffer.
pub struct Listing {
    owner: u64,
    pages: Pages,
    current_page: Option<PageId>,
    block_biases: Vec<DocId>,
    block_counter: BlockId,
    block_start: DocId,
    block_end: DocId,
    posting_buffer: BiasedRingBuffer,
    size: u64,
    blocks: Ghost<Seq<Seq<PostingView>>>,
}

impl Listing {
    /// The postings held, in order.
    pub closed spec fn view(&self) -> Seq<PostingView> {
        self.blocks@.flatten() + self.posting_buffer@
    }

    /// The tag under which this listing fills pages of the cache.
    pub closed spec fn owner(&self) -> u64 {
        self.owner
    }

    /// The postings of each shipped block, in order.
    pub closed spec fn shipped_blocks(&self) -> Seq<Seq<PostingView>> {
        self.blocks@
    }

    /// The bias of each shipped block.
    pub closed spec fn biases(&self) -> Seq<DocId> {
        self.block_biases@
    }

    /// The pages: full ones, then at most one unfull one.
    pub closed spec fn spec_pages(&self) -> (Seq<PageId>, Option<UnfullPage>) {
        (self.pages.0@, self.pages.1)
    }

    /// Every posting is on a page and no page is being filled.
    pub closed spec fn is_committed(&self) -> bool {
        &&& self.posting_buffer@.len() == 0
        &&& self.current_page.is_none()
    }

    spec fn tail_page(&self) -> PageId {
        match self.current_page {
            Some(p) => p,
            None => match self.pages.1 {
                Some(u) => u.0,
                None => PageId(0),
            },
        }
    }

    spec fn layout_ok(&self, c: &RamPageCache) -> bool {
        let n = self.block_biases@.len();
        let nf = self.pages.0@.len();
        &&& forall|i: int|
            0 <= i < nf ==> (#[trigger] self.pages.0@[i]).0 < c.spec_len() && c.owner(
                self.pages.0@[i].0 as int,
            ).is_none()
        &&& self.block_counter.0 < PAGESIZE
        &&& match self.current_page {
            Some(cp) => {
                &&& self.pages.1.is_none()
                &&& 1 <= self.block_counter.0
                &&& n == nf * PAGESIZE + self.block_counter.0
                &&& cp.0 < c.spec_len()
                &&& c.owner(cp.0 as int) == Some(self.owner)
            },
            None => {
                &&& self.block_counter.0 == 0
                &&& match self.pages.1 {
                    Some(u) => {
                        &&& u.1.0 == 0
                        &&& 0 < u.2.0 < PAGESIZE
                        &&& n == nf * PAGESIZE + u.2.0
                        &&& u.0.0 < c.spec_len()
                        &&& c.owner(u.0.0 as int).is_none()
                        &&& self.posting_buffer@.len() == 0
                    },
                    None => n == nf * PAGESIZE,
                }
            },
        }
        &&& blocks_stored(c, self.pages.0@, self.tail_page(), 0, self.blocks@, self.block_biases@)
    }

    /// Everything but the three conditions on `block_start`, `block_end` and
    /// the buffer's size.
    spec fn inv(&self, c: &RamPageCache) -> bool {
        &&& c.wf()
        &&& self.posting_buffer.wf()
        &&& self.posting_buffer.spec_base() == self.block_start
        &&& self.blocks@.len() == self.block_biases@.len()
        &&& self.size == self@.len()
        &&& postings_ok(self@)
        &&& buffer_ok(self.posting_buffer@, self.block_start as int)
        &&& biases_ok(self.blocks@, self.block_biases@)
        &&& (self.blocks@.len() > 0 ==> docs_le(self.blocks@.last(), self.block_start))
        &&& self.layout_ok(c)
    }

    spec fn end_ok(&self) -> bool {
        self@.len() > 0 ==> self.block_end == self@.last().0
    }

    spec fn start_ok(&self) -> bool {
        &&& self@.len() == 0 ==> self.block_start == 0
        &&& self@.len() > 0 ==> self.block_start <= self@.last().0
    }

    spec fn small(&self) -> bool {
        records_spec(shift(self.posting_buffer@, self.block_start as int), 0).len() < BLOCKSIZE
    }

    /// The listing's state agrees with the cache `c`.
    pub closed spec fn agrees(&self, c: &RamPageCache) -> bool {
        &&& self.inv(c)
        &&& self.end_ok()
        &&& self.start_ok()
        &&& self.small()
    }

    /// The count kept equals the number of postings held, and the buffer
    /// is well formed.
    pub closed spec fn counted(&self) -> bool {
        &&& self.size == self@.len()
        &&& self.posting_buffer.wf()
    }

    pub open spec fn wf(&self, c: &RamPageCache) -> bool {
        &&& self.agrees(c)
        &&& self.counted()
    }

    /// A listing with no postings, filling pages under tag 0.
    pub fn new() -> (r: Self)
        ensures
            r@.len() == 0,
            r.owner() == 0,
            forall|c: &RamPageCache| c.wf() ==> r.wf(c),
    {
        Self::with_owner(0)
    }

    /// A listing with no postings, filling pages under tag `owner`.
    pub fn with_owner(owner: u64) -> (r: Self)
        ensures
            r@.len() == 0,
            r.owner() == owner,
            forall|c: &RamPageCache| c.wf() ==> r.wf(c),
    {
        let r = Listing {
            owner,
            pages: Pages::new(),
            current_page: None,
            block_biases: Vec::new(),
            block_counter: BlockId::first(),
            block_start: 0,
            block_end: 0,
            posting_buffer: BiasedRingBuffer::new(),
            size: 0,
            blocks: Ghost(Seq::empty()),
        };
        assert(r@ =~= Seq::<PostingView>::empty());
        assert(shift(r.posting_buffer@, 0) =~= Seq::<PostingView>::empty());
        r
    }

    /// Nothing that the listing's state consists of differs from `o`.
    spec fn same(&self, o: &Listing) -> bool {
        &&& self.owner == o.owner
        &&& self.pages.0@ == o.pages.0@
        &&& self.pages.1 == o.pages.1
        &&& self.current_page == o.current_page
        &&& self.block_biases@ == o.block_biases@
        &&& self.block_counter == o.block_counter
        &&& self.block_start == o.block_start
        &&& self.block_end == o.block_end
        &&& self.posting_buffer@ == o.posting_buffer@
        &&& self.posting_buffer.spec_base() == o.posting_buffer.spec_base()
        &&& self.posting_buffer.wf() == o.posting_buffer.wf()
        &&& self.size == o.size
        &&& self.blocks@ == o.blocks@
    }

    /// Compresses the buffer's front postings into a block and ships it to
    /// the cache. Without `force` it does so only when they fill a block;
    /// with `force`, whenever the buffer holds a posting. Returns whether a
    /// block was shipped.
    #[verifier::rlimit(60)]
    fn ship_block(&mut self, cache: &mut RamPageCache, force: bool) -> (r: bool)
        requires
            old(self).inv(old(cache)),
            old(self).end_ok(),
            old(self).start_ok(),
            old(self).pages.1.is_none(),
        ensures
            final(self).inv(final(cache)),
            final(self).end_ok(),
            final(self).start_ok(),
            final(self).pages.1.is_none(),
            final(self)@ == old(self)@,
            final(self).owner == old(self).owner,
            cache_frame(old(cache), final(cache), old(self).owner),
            final(self).posting_buffer@.len() <= old(self).posting_buffer@.len(),
            r ==> final(self).posting_buffer@.len() < old(self).posting_buffer@.len(),
            !r && !force ==> final(self).small(),
            !r ==> final(self).posting_buffer@ == old(self).posting_buffer@,
            force ==> (r == (old(self).posting_buffer@.len() > 0)),
            force && old(self).small() ==> final(self).posting_buffer@.len() == 0,
            !force && old(self).small() ==> !r,
            !r ==> final(self).same(old(self)) && *final(cache) == *old(cache),
            r ==> {
                let k = old(self).posting_buffer@.len() - final(self).posting_buffer@.len();
                &&& final(self).blocks@ == old(self).blocks@.push(old(self).posting_buffer@.take(k))
                &&& final(self).block_biases@ == old(self).block_biases@.push(old(self).block_start)
                &&& final(self).posting_buffer@ == old(self).posting_buffer@.skip(k)
            },
            old(self).pages.0@.len() <= final(self).pages.0@.len(),
            final(self).pages.0@.take(old(self).pages.0@.len() as int) == old(self).pages.0@,
    {
        let ghost old_buf = self.posting_buffer@;
        let ghost old_view = self@;
        let ghost old_blocks = self.blocks@;
        let ghost old_biases = self.block_biases@;
        let ghost old_full = self.pages.0@;
        let ghost old_tail = self.tail_page();
        let ghost c0 = *cache;
        let ghost bs = self.block_start;
        let ghost counter = self.block_counter.0;
        let ghost n = self.block_biases@.len();
        let ghost nf = self.pages.0@.len();
        let block = if force {
            if self.posting_buffer.is_empty() {
                proof {
                    c0.lemma_frame_refl(self.owner);
                }
                return false;
            }
            force_compress(&mut self.posting_buffer)
        } else {
            match compress(&mut self.posting_buffer) {
                Some(b) => b,
                None => {
                    proof {
                        c0.lemma_frame_refl(self.owner);
                    }
                    return false;
                },
            }
        };
        let ghost k = old_buf.len() - self.posting_buffer@.len();
        let ghost popped = old_buf.take(k);
        let ghost bytes = block@;
        proof {
            c0.lemma_pages();
        }
        proof {
            lemma_shift_take(old_buf, bs as int, k);
            if force {
                if k < old_buf.len() {
                    lemma_records_prefix_len(shift(old_buf, bs as int), 0, k + 1, old_buf.len() as int);
                    assert(shift(old_buf, bs as int).take(old_buf.len() as int) =~= shift(old_buf, bs as int));
                }
            }
        }
        if self.block_counter.0 == 0 {
            let cp = cache.store_block(block, self.owner);
            assert(cache.page(cp.0 as int)[0] == bytes);
            self.current_page = Some(cp);
        } else {
            let cp = match self.current_page {
                Some(p) => p,
                None => vstd::pervasive::unreached(),
            };
            cache.store_in_place(cp, self.block_counter, block, self.owner);
            assert(cache.page(cp.0 as int)[counter as int] == bytes);
        }
        let cp = match self.current_page {
            Some(p) => p,
            None => vstd::pervasive::unreached(),
        };
        let ghost c1 = *cache;
        assert(bytes == block_spec(shift(popped, bs as int)));
        self.block_biases.push(self.block_start);
        self.blocks = Ghost(self.blocks@.push(popped));
        if self.block_counter.0 == PAGESIZE - 1 {
            self.current_page = None;
            let id = cache.flush_page(cp, self.owner);
            self.pages.push(id);
        }
        let ghost c2 = *cache;
        self.block_counter.inc();
        self.block_start = match self.posting_buffer.peek_front_doc_id() {
            Some(d) => d,
            None => self.block_end,
        };
        self.posting_buffer.set_base(self.block_start);
        proof {
            lemma_cache_frame_trans(&c0, &c1, &c2, self.owner);
            lemma_ship_seqs(old_buf, k, bs, self.block_start, self.block_end, old_blocks, old_biases);
            assert(self.blocks@.last() == popped);
            assert(c1.page(cp.0 as int)[counter as int] == bytes);
            assert(self.posting_buffer@ == old_buf.skip(k));
            assert(self@ =~= old_view);
            self.lemma_layout_after_ship(old_full, old_tail, old_blocks, old_biases, &c0, &c1, &c2, cp, counter, bs);
        }
        true
    }

    proof fn lemma_layout_after_ship(
        &self,
        old_full: Seq<PageId>,
        old_tail: PageId,
        old_blocks: Seq<Seq<PostingView>>,
        old_biases: Seq<DocId>,
        c0: &RamPageCache,
        c1: &RamPageCache,
        c2: &RamPageCache,
        cp: PageId,
        counter: usize,
        bs: DocId,
    )
        requires
            c0.wf(),
            c2.wf(),
            old_blocks.len() == old_biases.len(),
            self.blocks@ == old_blocks.push(self.blocks@.last()),
            self.block_biases@ == old_biases.push(bs),
            blocks_stored(c0, old_full, old_tail, 0, old_blocks, old_biases),
            counter < PAGESIZE,
            old_blocks.len() == old_full.len() * PAGESIZE + counter,
            counter > 0 ==> old_tail == cp && cp.0 < c0.spec_len() && c0.owner(cp.0 as int) == Some(self.owner),
            forall|i: int|
                0 <= i < old_full.len() ==> (#[trigger] old_full[i]).0 < c0.spec_len() && c0.owner(
                    old_full[i].0 as int,
                ).is_none(),
            c1.spec_len() == c0.spec_len() + if counter == 0 { 1int } else { 0int },
            counter == 0 ==> cp.0 == c0.spec_len(),
            forall|id: int| 0 <= id < c0.spec_len() && id != cp.0 ==> (#[trigger] c1.page(id)) == c0.page(id),
            forall|id: int| 0 <= id < c0.spec_len() && id != cp.0 ==> (#[trigger] c1.owner(id)) == c0.owner(id),
            c1.page(cp.0 as int)[counter as int] == block_spec(shift(self.blocks@.last(), bs as int)),
            forall|j: int| 0 <= j < counter ==> (#[trigger] c1.page(cp.0 as int)[j]) == c0.page(cp.0 as int)[j],
            c1.owner(cp.0 as int) == Some(self.owner),
            c2.spec_len() == c1.spec_len(),
            forall|id: int| 0 <= id < c1.spec_len() ==> (#[trigger] c2.page(id)) == c1.page(id),
            forall|id: int| 0 <= id < c1.spec_len() && id != cp.0 ==> (#[trigger] c2.owner(id)) == c1.owner(id),
            counter == PAGESIZE - 1 ==> {
                &&& self.pages.0@ == old_full.push(cp)
                &&& self.current_page.is_none()
                &&& c2.owner(cp.0 as int).is_none()
                &&& self.block_counter.0 == 0
            },
            counter < PAGESIZE - 1 ==> {
                &&& self.pages.0@ == old_full
                &&& self.current_page == Some(cp)
                &&& c2.owner(cp.0 as int) == Some(self.owner)
                &&& self.block_counter.0 == counter + 1
            },
            self.pages.1.is_none(),
        ensures
            self.layout_ok(c2),
    {
        let nf = old_full.len();
        let full = self.pages.0@;
        let tail = self.tail_page();
        let blocks = self.blocks@;
        let biases = self.block_biases@;
        let n = old_blocks.len();
        assert forall|i: int| 0 <= i < full.len() implies (#[trigger] full[i]).0 < c2.spec_len() && c2.owner(
            full[i].0 as int,
        ).is_none() by {
            if i < nf {
                assert(full[i] == old_full[i]);
                assert(old_full[i].0 < c0.spec_len());
                assert(old_full[i].0 != cp.0);
            }
        }
        assert forall|k: int| 0 <= k < blocks.len() implies #[trigger] block_stored(
            c2,
            full,
            tail,
            0,
            k,
            blocks[k],
            biases[k],
        ) by {
            if k < n {
                assert(block_stored(c0, old_full, old_tail, 0, k, old_blocks[k], old_biases[k]));
                assert(blocks[k] == old_blocks[k]);
                assert(biases[k] == old_biases[k]);
                if k < nf * PAGESIZE {
                    let q = k / PAGESIZE as int;
                    assert(0 <= q < nf) by {
                        vstd::arithmetic::div_mod::lemma_div_is_ordered(k, nf * PAGESIZE - 1, PAGESIZE as int);
                        vstd::arithmetic::div_mod::lemma_div_multiples_vanish_fancy(nf as int, PAGESIZE - 1, PAGESIZE as int);
                        assert((nf * PAGESIZE + (PAGESIZE - 1)) == nf * PAGESIZE + PAGESIZE - 1);
                        vstd::arithmetic::div_mod::lemma_div_is_ordered(0, k, PAGESIZE as int);
                        vstd::arithmetic::div_mod::lemma_div_is_ordered(nf * PAGESIZE - 1, nf * PAGESIZE + (PAGESIZE - 1), PAGESIZE as int);
                        vstd::arithmetic::div_mod::lemma_fundamental_div_mod_converse(nf * PAGESIZE - 1, PAGESIZE as int, nf - 1, PAGESIZE - 1);
                    }
                    assert(full[q] == old_full[q]);
                    assert(old_full[q].0 != cp.0);
                    assert(block_loc(full, tail, 0, k) == block_loc(old_full, old_tail, 0, k));
                } else {
                    let j = k - nf * PAGESIZE;
                    assert(0 <= j < counter);
                    assert(old_tail == cp);
                    assert(c2.page(cp.0 as int)[j] == c0.page(cp.0 as int)[j]);
                    if counter == PAGESIZE - 1 {
                        vstd::arithmetic::div_mod::lemma_fundamental_div_mod_converse(k, PAGESIZE as int, nf as int, j);
                        assert(full[nf as int] == cp);
                    }
                }
            } else {
                assert(k == n);
                let j = counter as int;
                if counter == PAGESIZE - 1 {
                    vstd::arithmetic::div_mod::lemma_fundamental_div_mod_converse(k, PAGESIZE as int, nf as int, j);
                    assert(full[nf as int] == cp);
                }
            }
        }
    }

    /// Ships blocks while the buffer fills one; with `force`, ships the rest
    /// of the buffer too.
    fn compress_and_ship(&mut self, cache: &mut RamPageCache, force: bool)
        requires
            old(self).inv(old(cache)),
            old(self).end_ok(),
            old(self).start_ok(),
            old(self).pages.1.is_none(),
        ensures
            final(self).inv(final(cache)),
            final(self).end_ok(),
            final(self).start_ok(),
            final(self).small(),
            final(self).pages.1.is_none(),
            final(self)@ == old(self)@,
            final(self).owner == old(self).owner,
            cache_frame(old(cache), final(cache), old(self).owner),
            force ==> final(self).posting_buffer@.len() == 0,
            old(self).kept_in(final(self)),
            old(self).small() && (!force || old(self).posting_buffer@.len() == 0) ==> final(self).same(old(self))
                && *final(cache) == *old(cache),
            old(self).small() && force && old(self).posting_buffer@.len() > 0 ==> {
                &&& final(self).blocks@ == old(self).blocks@.push(old(self).posting_buffer@)
                &&& final(self).block_biases@ == old(self).block_biases@.push(old(self).block_start)
            },
    {
        let ghost c0 = *cache;
        let ghost v0 = self@;
        let ghost s0 = *self;
        let mut shipped = true;
        proof {
            c0.lemma_frame_refl(self.owner);
            assert(s0.blocks@.take(s0.blocks@.len() as int) =~= s0.blocks@);
            assert(s0.block_biases@.take(s0.block_biases@.len() as int) =~= s0.block_biases@);
            assert(s0.pages.0@.take(s0.pages.0@.len() as int) =~= s0.pages.0@);
        }
        while shipped
            invariant
                self.inv(cache),
                self.end_ok(),
                self.start_ok(),
                self.pages.1.is_none(),
                self@ == v0,
                self.owner == old(self).owner,
                cache_frame(&c0, cache, self.owner),
                !shipped ==> self.small(),
                s0 == *old(self),
                s0.kept_in(self),
                s0.small() ==> self.same(&s0) && *cache == c0 && !shipped || shipped && self.same(&s0) && *cache == c0,
            decreases self.posting_buffer@.len() + if shipped { 1int } else { 0int },
        {
            let ghost c1 = *cache;
            let ghost s1 = *self;
            shipped = self.ship_block(cache, false);
            proof {
                lemma_cache_frame_trans(&c0, &c1, cache, self.owner);
                if shipped {
                    assert(self.blocks@.take(s1.blocks@.len() as int) =~= s1.blocks@);
                    assert(self.block_biases@.take(s1.block_biases@.len() as int) =~= s1.block_biases@);
                }
                s1.lemma_kept_in_ship(self, &s0);
            }
        }
        if force {
            let ghost c1 = *cache;
            let ghost s1 = *self;
            let r = self.ship_block(cache, true);
            proof {
                lemma_cache_frame_trans(&c0, &c1, cache, self.owner);
                if r {
                    assert(self.blocks@.take(s1.blocks@.len() as int) =~= s1.blocks@);
                    assert(self.block_biases@.take(s1.block_biases@.len() as int) =~= s1.block_biases@);
                }
                s1.lemma_kept_in_ship(self, &s0);
                assert(shift(self.posting_buffer@, self.block_start as int) =~= Seq::<PostingView>::empty());
                if s0.small() && s0.posting_buffer@.len() > 0 {
                    let k = s1.posting_buffer@.len() - self.posting_buffer@.len();
                    assert(s1.posting_buffer@.take(k) =~= s1.posting_buffer@);
                }
            }
        }
    }

    /// `o` keeps the shipped blocks, biases and full pages of `self` as a
    /// prefix.
    spec fn kept_in(&self, o: &Listing) -> bool {
        &&& self.blocks@.len() <= o.blocks@.len()
        &&& o.blocks@.take(self.blocks@.len() as int) == self.blocks@
        &&& self.block_biases@.len() <= o.block_biases@.len()
        &&& o.block_biases@.take(self.block_biases@.len() as int) == self.block_biases@
        &&& self.pages.0@.len() <= o.pages.0@.len()
        &&& o.pages.0@.take(self.pages.0@.len() as int) == self.pages.0@
    }

    /// `o` keeps the full pages of `self`, and the blocks and biases on
    /// them.
    spec fn unraveled(&self, o: &Listing) -> bool {
        let first = self.pages.0@.len() * PAGESIZE;
        &&& first <= o.blocks@.len()
        &&& o.blocks@.take(first) == self.blocks@.take(first)
        &&& first <= o.block_biases@.len()
        &&& o.block_biases@.take(first) == self.block_biases@.take(first)
        &&& self.pages.0@.len() <= o.pages.0@.len()
        &&& o.pages.0@.take(self.pages.0@.len() as int) == self.pages.0@
    }

    proof fn lemma_kept_in_trans(a: &Listing, b: &Listing, c: &Listing)
        requires
            a.kept_in(b),
            b.kept_in(c),
        ensures
            a.kept_in(c),
    {
        assert(c.blocks@.take(a.blocks@.len() as int) =~= b.blocks@.take(a.blocks@.len() as int));
        assert(c.block_biases@.take(a.block_biases@.len() as int) =~= b.block_biases@.take(a.block_biases@.len() as int));
        assert(c.pages.0@.take(a.pages.0@.len() as int) =~= b.pages.0@.take(a.pages.0@.len() as int));
    }

    proof fn lemma_kept_in_ship(&self, next: &Listing, first: &Listing)
        requires
            first.kept_in(self),
            next.same(self) || (next.blocks@.len() == self.blocks@.len() + 1 && next.blocks@.take(self.blocks@.len() as int)
                == self.blocks@ && next.block_biases@.len() == self.block_biases@.len() + 1
                && next.block_biases@.take(self.block_biases@.len() as int) == self.block_biases@),
            self.pages.0@.len() <= next.pages.0@.len(),
            next.pages.0@.take(self.pages.0@.len() as int) == self.pages.0@,
        ensures
            first.kept_in(next),
    {
        assert(next.blocks@.take(first.blocks@.len() as int) =~= self.blocks@.take(first.blocks@.len() as int));
        assert(next.block_biases@.take(first.block_biases@.len() as int) =~= self.block_biases@.take(first.block_biases@.len() as int));
        assert(next.pages.0@.take(first.pages.0@.len() as int) =~= self.pages.0@.take(first.pages.0@.len() as int));
    }

    /// Appends `p` to the buffer and ships what fills blocks.
    fn push_posting(&mut self, p: Posting, cache: &mut RamPageCache)
        requires
            old(self).inv(old(cache)),
            old(self).small(),
            old(self).pages.1.is_none(),
            postings_ok(old(self)@.push(p@)),
            old(self).block_start <= p.0,
        ensures
            final(self).wf(final(cache)),
            final(self).pages.1.is_none(),
            final(self)@ == old(self)@.push(p@),
            final(self).owner == old(self).owner,
            cache_frame(old(cache), final(cache), old(self).owner),
            old(self).kept_in(final(self)),
            records_spec(shift(old(self).posting_buffer@.push(p@), old(self).block_start as int), 0).len() < BLOCKSIZE ==> {
                &&& final(self).blocks@ == old(self).blocks@
                &&& final(self).block_biases@ == old(self).block_biases@
                &&& final(self).pages.0@ == old(self).pages.0@
                &&& final(self).posting_buffer@ == old(self).posting_buffer@.push(p@)
                &&& final(self).block_start == old(self).block_start
            },
    {
        let ghost s_old = *self;
        proof {
            assert(s_old.blocks@.take(s_old.blocks@.len() as int) =~= s_old.blocks@);
            assert(s_old.block_biases@.take(s_old.block_biases@.len() as int) =~= s_old.block_biases@);
            assert(s_old.pages.0@.take(s_old.pages.0@.len() as int) =~= s_old.pages.0@);
        }
        let ghost old_view = self@;
        let ghost old_buf = self.posting_buffer@;
        proof {
            lemma_increasing_len(old_view.push(p@));
            lemma_records_min_len(shift(old_buf, self.block_start as int), 0);
        }
        self.size = self.size + 1;
        self.block_end = p.0;
        self.posting_buffer.push_back(p);
        proof {
            let buf = self.posting_buffer@;
            let v = self@;
            assert(self.blocks@.flatten() + old_buf.push(p@) =~= old_view.push(p@));
            assert(buffer_ok(buf, self.block_start as int)) by {
                assert forall|i: int| 0 <= i < buf.len() implies self.block_start <= (#[trigger] buf[i]).0 by {
                    if i < old_buf.len() {
                        assert(buf[i] == old_buf[i]);
                    }
                }
                assert forall|i: int, j: int| 0 <= i < j < buf.len() implies (#[trigger] buf[i]).0
                    < (#[trigger] buf[j]).0 by {
                    let off = v.len() - buf.len();
                    assert(buf[i] == v[off + i]);
                    assert(buf[j] == v[off + j]);
                }
                assert forall|i: int| 0 <= i < buf.len() implies sorted_positions((#[trigger] buf[i]).1) && fits(buf[i])
                    && buf[i].1.len() <= u32::MAX by {
                    let off = v.len() - buf.len();
                    assert(buf[i] == v[off + i]);
                }
            }
        }
        let ghost s_mid = *self;
        assert(s_old.kept_in(&s_mid));
        self.compress_and_ship(cache, false);
    }

    /// Ships the buffered postings, which never fill more than one block, as
    /// one block, and marks the page being filled as unfull. A committed
    /// listing is left as it is.
    pub fn commit(&mut self, cache: &mut RamPageCache)
        requires
            old(self).wf(old(cache)),
        ensures
            final(self).wf(final(cache)),
            final(self)@ == old(self)@,
            final(self).owner() == old(self).owner(),
            final(self).is_committed(),
            final(self).buffered().len() == 0,
            cache_frame(old(cache), final(cache), old(self).owner()),
            old(self).is_committed() ==> {
                &&& final(self).shipped_blocks() == old(self).shipped_blocks()
                &&& final(self).biases() == old(self).biases()
                &&& final(self).spec_pages() == old(self).spec_pages()
                &&& *final(cache) == *old(cache)
            },
            !old(self).is_committed() ==> {
                &&& final(self).shipped_blocks() == if old(self).buffered().len() > 0 {
                    old(self).shipped_blocks().push(old(self).buffered())
                } else {
                    old(self).shipped_blocks()
                }
                &&& final(self).biases() == if old(self).buffered().len() > 0 {
                    old(self).biases().push(old(self).spec_block_start())
                } else {
                    old(self).biases()
                }
                &&& old(self).spec_pages().0.len() <= final(self).spec_pages().0.len()
                &&& final(self).spec_pages().0.take(old(self).spec_pages().0.len() as int) == old(self).spec_pages().0
            },
            final(self).biases().len() == final(self).spec_pages().0.len() * PAGESIZE + unfull_blocks(
                final(self).spec_pages().1,
            ),
            final(self).spec_pages().1.is_some() ==> {
                let u = final(self).spec_pages().1.unwrap();
                u.1.0 == 0 && 0 < u.2.0 < PAGESIZE
            },
    {
        let ghost c0 = *cache;
        if self.pages.has_unfull() || (self.current_page.is_none() && self.posting_buffer.is_empty()) {
            proof {
                c0.lemma_frame_refl(self.owner);
            }
            return;
        }
        self.compress_and_ship(cache, true);
        let ghost c1 = *cache;
        match self.current_page {
            Some(cp) => {
                proof {
                    c1.lemma_pages();
                }
                let u = cache.flush_unfull(cp, self.block_counter, self.owner);
                self.current_page = None;
                self.pages.add_unfull(u);
                self.block_counter = BlockId::first();
                proof {
                    lemma_cache_frame_trans(&c0, &c1, cache, self.owner);
                    let full = self.pages.0@;
                    assert forall|i: int| 0 <= i < full.len() implies (#[trigger] full[i]).0 < cache.spec_len()
                        && cache.owner(full[i].0 as int).is_none() by {
                        assert(c1.owner(full[i].0 as int).is_none());
                    }
                    assert forall|k: int| 0 <= k < self.blocks@.len() implies #[trigger] block_stored(
                        cache,
                        full,
                        self.tail_page(),
                        0,
                        k,
                        self.blocks@[k],
                        self.block_biases@[k],
                    ) by {
                        assert(block_stored(&c1, full, cp, 0, k, self.blocks@[k], self.block_biases@[k]));
                    }
                }
            },
            None => {},
        }
    }

    /// Appends postings, dropping each whose doc id equals that of the
    /// last posting held. Each posting's record must fit one block (`fits`),
    /// since a block never splits a posting. A listing that was committed
    /// with an unfull page first takes that page's postings back into its
    /// buffer; the blocks on its full pages stay as they are. When the
    /// postings to buffer do not fill a block, nothing is shipped.
    #[verifier::spinoff_prover]
    #[verifier::rlimit(60)]
    pub fn add(&mut self, postings: &[Posting], cache: &mut RamPageCache)
        requires
            old(self).wf(old(cache)),
            add_ok(old(self)@, postings_view(postings@)),
        ensures
            final(self).wf(final(cache)),
            final(self)@ == extend(old(self)@, postings_view(postings@)),
            final(self).owner() == old(self).owner(),
            final(self).spec_pages().1.is_none(),
            cache_frame(old(cache), final(cache), old(self).owner()),
            ({
                let first = old(self).spec_pages().0.len() * PAGESIZE;
                let reopened = old(self).spec_pages().1.is_some();
                let kept = if reopened { old(self).shipped_blocks().take(first) } else { old(self).shipped_blocks() };
                let kept_biases = if reopened { old(self).biases().take(first) } else { old(self).biases() };
                let pending = if reopened { old(self).shipped_blocks().skip(first).flatten() } else { old(self).buffered() };
                let start = if reopened { old(self).biases()[first] } else { old(self).spec_block_start() };
                &&& old(self).spec_pages().0.len() <= final(self).spec_pages().0.len()
                &&& final(self).spec_pages().0.take(old(self).spec_pages().0.len() as int) == old(self).spec_pages().0
                &&& kept.len() <= final(self).shipped_blocks().len()
                &&& final(self).shipped_blocks().take(kept.len() as int) == kept
                &&& kept_biases.len() <= final(self).biases().len()
                &&& final(self).biases().take(kept_biases.len() as int) == kept_biases
                &&& records_spec(shift(pending + added(old(self)@, postings_view(postings@)), start as int), 0).len() < BLOCKSIZE ==> {
                    &&& final(self).shipped_blocks() == kept
                    &&& final(self).biases() == kept_biases
                    &&& final(self).spec_pages().0 == old(self).spec_pages().0
                    &&& final(self).buffered() == pending + added(old(self)@, postings_view(postings@))
                }
            }),
    {
        let ghost c0 = *cache;
        let ghost s0 = self@;
        let ghost ps = postings_view(postings@);
        let ghost s_in = *self;
        let ghost first = self.pages.0@.len() * PAGESIZE;
        let ghost reopened = self.pages.1.is_some();
        let ghost pending = if reopened { self.blocks@.skip(first).flatten() } else { self.posting_buffer@ };
        let ghost start = if reopened { self.block_biases@[first] } else { self.block_start };
        let ghost total = pending + added(s0, ps);
        let ghost small = records_spec(shift(total, start as int), 0).len() < BLOCKSIZE;
        proof {
            lemma_extend_mono(s0, ps, 0, ps.len() as int);
            assert(ps.take(0) =~= Seq::<PostingView>::empty());
            assert(ps.take(ps.len() as int) =~= ps);
            if small {
                lemma_shift_take(total, start as int, pending.len() as int);
                lemma_records_prefix_len(shift(total, start as int), 0, pending.len() as int, total.len() as int);
                assert(total.take(pending.len() as int) =~= pending);
                assert(shift(total, start as int).take(total.len() as int) =~= shift(total, start as int));
            }
        }
        if self.pages.has_unfull() {
            self.unravel_unfull(cache);
        } else {
            proof {
                c0.lemma_frame_refl(self.owner);
            }
        }
        let ghost s_a = *self;
        proof {
            assert(s_a.blocks@.take(s_a.blocks@.len() as int) =~= s_a.blocks@);
            assert(s_a.block_biases@.take(s_a.block_biases@.len() as int) =~= s_a.block_biases@);
            assert(s_a.pages.0@.take(s_a.pages.0@.len() as int) =~= s_a.pages.0@);
            if !reopened {
                assert(s_in.blocks@.take(first) =~= s_in.blocks@.take(first));
            }
            assert(pending + added(s0, ps.take(0)) =~= pending) by {
                assert(extend(s0, ps.take(0)) == s0);
                assert(s0.skip(s0.len() as int) =~= Seq::<PostingView>::empty());
            }
        }
        let mut i: usize = 0;
        assert(ps.take(0) =~= Seq::<PostingView>::empty());
        while i < postings.len()
            invariant
                i <= postings@.len(),
                ps == postings_view(postings@),
                add_ok(s0, ps),
                self.wf(cache),
                self.pages.1.is_none(),
                self@ == extend(s0, ps.take(i as int)),
                self.owner == old(self).owner,
                cache_frame(&c0, cache, self.owner),
                s_a.kept_in(self),
                small == (records_spec(shift(total, start as int), 0).len() < BLOCKSIZE),
                total == pending + added(s0, ps),
                small ==> self.blocks@ == s_a.blocks@ && self.block_biases@ == s_a.block_biases@
                    && self.pages.0@ == s_a.pages.0@ && self.posting_buffer@ == pending + added(s0, ps.take(i as int))
                    && self.block_start == start,
            decreases postings@.len() - i,
        {
            let p = &postings[i];
            let ghost t = self@;
            assert(ps.take(i + 1).drop_last() =~= ps.take(i as int));
            assert(ps.take(i + 1).last() == ps[i as int]);
            assert(ps[i as int] == p@);
            if self.size > 0 && self.block_end == p.0 {
            } else {
                proof {
                    if i > 0 {
                        lemma_extend_last(s0, ps.take(i as int));
                        assert(ps.take(i as int).last() == ps[i - 1]);
                        assert(ps[i - 1].0 <= ps[i as int].0);
                    }
                    let v = t.push(p@);
                    assert(sorted_positions(ps[i as int].1) && fits(ps[i as int]) && ps[i as int].1.len() <= u32::MAX);
                    assert(postings_ok(v)) by {
                        assert forall|a: int, b: int| 0 <= a < b < v.len() implies (#[trigger] v[a]).0 < (#[trigger] v[b]).0 by {
                            if b == v.len() - 1 && a < b {
                                if a < t.len() - 1 {
                                    assert(t[a].0 < t[t.len() - 1].0);
                                }
                            }
                        }
                    }
                }
                let ghost c1 = *cache;
                let ghost s2 = *self;
                proof {
                    assert(extend(s0, ps.take(i + 1)) == t.push(p@));
                    lemma_added_step(s0, ps, i as int, pending, p@);
                    if small {
                        lemma_small_prefix(total, start, (pending.len() + extend(s0, ps.take(i + 1)).len() - s0.len()) as int);
                    }
                }
                self.push_posting(p.duplicate(), cache);
                proof {
                    lemma_cache_frame_trans(&c0, &c1, cache, self.owner);
                    Self::lemma_kept_in_trans(&s_a, &s2, self);
                }
            }
            i = i + 1;
        }
        assert(ps.take(i as int) =~= ps);
        proof {
            assert(s_a.blocks@.len() <= self.blocks@.len());
            if reopened {
                assert(self.blocks@.take(first) =~= s_a.blocks@.take(first));
                assert(self.block_biases@.take(first) =~= s_a.block_biases@.take(first));
            }
            assert(self.pages.0@.take(s_in.pages.0@.len() as int) =~= s_a.pages.0@.take(s_in.pages.0@.len() as int));
        }
    }

    /// Takes back the postings of the unfull page into the buffer, as if its
    /// blocks had never been shipped.
    #[verifier::rlimit(60)]
    fn unravel_unfull(&mut self, cache: &mut RamPageCache)
        requires
            old(self).wf(old(cache)),
            old(self).pages.1.is_some(),
        ensures
            final(self).wf(final(cache)),
            final(self).pages.1.is_none(),
            final(self)@ == old(self)@,
            final(self).owner == old(self).owner,
            cache_frame(old(cache), final(cache), old(self).owner),
            ({
                let first = old(self).pages.0@.len() * PAGESIZE;
                let taken = old(self).blocks@.skip(first).flatten();
                let bias = old(self).block_biases@[first];
                &&& first < old(self).blocks@.len()
                &&& first < old(self).block_biases@.len()
                &&& old(self).unraveled(final(self))
                &&& records_spec(shift(taken, bias as int), 0).len() < BLOCKSIZE ==> {
                    &&& final(self).blocks@ == old(self).blocks@.take(first)
                    &&& final(self).block_biases@ == old(self).block_biases@.take(first)
                    &&& final(self).pages.0@ == old(self).pages.0@
                    &&& final(self).posting_buffer@ == taken
                    &&& final(self).block_start == bias
                }
            }),
    {
        let ghost c0 = *cache;
        let ghost v0 = self@;
        let ghost blocks = self.blocks@;
        let ghost biases = self.block_biases@;
        let ghost s_in = *self;
        let ghost full = self.pages.0@;
        let u = match self.pages.take_unfull() {
            Some(u) => u,
            None => vstd::pervasive::unreached(),
        };
        let k = u.2.0 - u.1.0;
        let nb = self.block_biases.len();
        let first = nb - k;
        let base = self.block_biases[first];
        proof {
            c0.lemma_pages();
            assert(self.blocks@.len() == nb);
            assert(first == full.len() * PAGESIZE);
        }
        proof {
            assert forall|j: int| 0 <= j < k implies (#[trigger] c0.page(u.0.0 as int)[j]) == block_spec(
                shift(blocks[first + j], biases[first + j] as int),
            ) by {
                assert(block_stored(&c0, full, u.0, 0, first + j, blocks[first + j], biases[first + j]));
            }
        }
        let decoded = self.decode_blocks(cache, u.0, first, k);
        let j = k;
        proof {
            assert(blocks.subrange(first as int, first + j) =~= blocks.skip(first as int));
            assert(blocks.take(first as int) + blocks.skip(first as int) =~= blocks);
            lemma_flatten_concat(blocks.take(first as int), blocks.skip(first as int));
            assert(self.posting_buffer@.len() == 0);
            assert(v0 =~= blocks.flatten());
            let sk = blocks.skip(first as int);
            assert(sk.flatten() == sk[0] + sk.drop_first().flatten());
            assert(sk[0] == blocks[first as int]);
            assert(block_ok(blocks[first as int], biases[first as int]));
        }
        let ghost dv = postings_view(decoded@);
        let ghost prefix = blocks.take(first as int).flatten();
        self.block_biases.truncate(first);
        self.blocks = Ghost(blocks.take(first as int));
        self.size = self.size - decoded.len() as u64;
        self.block_start = base;
        self.posting_buffer.set_base(base);
        cache.delete_unfull(u.0);
        proof {
            let v = self@;
            assert(v =~= prefix);
            assert(v0 == prefix + dv);
            assert forall|i: int| 0 <= i < v.len() implies v[i] == v0[i] by {}
            assert(postings_ok(v)) by {
                assert forall|a: int, b: int| 0 <= a < b < v.len() implies (#[trigger] v[a]).0 < (#[trigger] v[b]).0 by {
                    assert(v0[a].0 < v0[b].0);
                }
                assert forall|i: int| 0 <= i < v.len() implies sorted_positions((#[trigger] v[i]).1) && fits(v[i])
                    && v[i].1.len() <= u32::MAX by {
                    assert(v0[i] == v[i]);
                }
            }
            let nblocks = self.blocks@;
            let nbiases = self.block_biases@;
            assert(nbiases =~= biases.take(first as int));
            assert(biases_ok(nblocks, nbiases)) by {
                assert forall|j: int| 0 <= j < nblocks.len() implies block_ok(#[trigger] nblocks[j], nbiases[j]) by {
                    assert(block_ok(blocks[j], biases[j]));
                }
                assert forall|j: int| 0 <= j < nblocks.len() - 1 implies docs_le(#[trigger] nblocks[j], nbiases[j + 1]) by {
                    assert(docs_le(blocks[j], biases[j + 1]));
                }
            }
            if nblocks.len() > 0 {
                assert(docs_le(blocks[first - 1], biases[first as int]));
                assert(nblocks.last() == blocks[first - 1]);
            }
            assert(shift(self.posting_buffer@, base as int) =~= Seq::<PostingView>::empty());
            assert forall|kk: int| 0 <= kk < nblocks.len() implies #[trigger] block_stored(
                cache,
                self.pages.0@,
                self.tail_page(),
                0,
                kk,
                nblocks[kk],
                nbiases[kk],
            ) by {
                assert(block_stored(&c0, full, u.0, 0, kk, blocks[kk], biases[kk]));
            }
            assert forall|i: int| 0 <= i < full.len() implies (#[trigger] full[i]).0 < cache.spec_len()
                && cache.owner(full[i].0 as int).is_none() by {
                assert(c0.owner(full[i].0 as int).is_none());
            }
            assert(cache_frame(&c0, cache, self.owner));
            assert(dv.len() > 0);
            assert(base <= dv[0].0) by {
                assert(dv[0] == blocks[first as int][0]);
            }
        }
        let ghost c1 = *cache;
        let ghost s_t = *self;
        let ghost small_u = records_spec(shift(dv, base as int), 0).len() < BLOCKSIZE;
        proof {
            assert(s_t.blocks@.take(s_t.blocks@.len() as int) =~= s_t.blocks@);
            assert(s_t.block_biases@.take(s_t.block_biases@.len() as int) =~= s_t.block_biases@);
            assert(s_t.pages.0@.take(s_t.pages.0@.len() as int) =~= s_t.pages.0@);
            assert(self.posting_buffer@ =~= dv.take(0));
        }
        let mut i: usize = 0;
        while i < decoded.len()
            invariant
                i <= decoded@.len(),
                s_t.kept_in(self),
                small_u == (records_spec(shift(dv, base as int), 0).len() < BLOCKSIZE),
                small_u ==> self.blocks@ == s_t.blocks@ && self.block_biases@ == s_t.block_biases@
                    && self.pages.0@ == s_t.pages.0@ && self.posting_buffer@ == dv.take(i as int)
                    && self.block_start == base,
                dv == postings_view(decoded@),
                dv.len() > 0,
                v0 == prefix + dv,
                postings_ok(v0),
                self@ == prefix + dv.take(i as int),
                self.pages.1.is_none(),
                self.owner == old(self).owner,
                cache_frame(&c0, cache, self.owner),
                i == 0 ==> self.inv(cache) && self.small() && self.block_start <= dv[0].0,
                i > 0 ==> self.wf(cache),
            decreases decoded@.len() - i,
        {
            let p = decoded[i].duplicate();
            proof {
                let v = self@;
                let w = v.push(p@);
                assert(p@ == dv[i as int]);
                assert(w =~= v0.take(prefix.len() + i + 1));
                assert(postings_ok(w)) by {
                    assert forall|a: int, b: int| 0 <= a < b < w.len() implies (#[trigger] w[a]).0 < (#[trigger] w[b]).0 by {
                        assert(v0[a].0 < v0[b].0);
                    }
                    assert forall|a: int| 0 <= a < w.len() implies sorted_positions((#[trigger] w[a]).1) && fits(w[a])
                        && w[a].1.len() <= u32::MAX by {
                        assert(w[a] == v0[a]);
                    }
                }
                if i > 0 {
                    assert(v.last() == v0[prefix.len() + i - 1]);
                    assert(v0[prefix.len() + i - 1].0 < v0[prefix.len() + i].0);
                }
            }
            let ghost c2 = *cache;
            let ghost s2 = *self;
            proof {
                if small_u {
                    assert(s2.posting_buffer@.push(p@) =~= dv.take(i + 1));
                    lemma_shift_take(dv, base as int, i + 1);
                    lemma_records_prefix_len(shift(dv, base as int), 0, i + 1, dv.len() as int);
                    assert(shift(dv, base as int).take(dv.len() as int) =~= shift(dv, base as int));
                }
            }
            self.push_posting(p, cache);
            proof {
                lemma_cache_frame_trans(&c0, &c2, cache, self.owner);
                Self::lemma_kept_in_trans(&s_t, &s2, self);
                assert(self@ =~= prefix + dv.take(i + 1));
            }
            i = i + 1;
        }
        proof {
            assert(dv.take(i as int) =~= dv);
            assert(s_t.blocks@ == blocks.take(first as int));
            assert(s_t.block_biases@ == biases.take(first as int));
            assert(s_t.pages.0@ == s_in.pages.0@);
            assert(dv == blocks.skip(first as int).flatten());
            assert(base == biases[first as int]);
            assert(s_in.unraveled(self));
        }
    }

    /// The postings of blocks `[first, first + k)`, which lie in slots
    /// `[0, k)` of page `page`.
    fn decode_blocks(&self, cache: &RamPageCache, page: PageId, first: usize, k: usize) -> (r: Vec<Posting>)
        requires
            cache.wf(),
            self.block_biases@.len() == self.blocks@.len(),
            biases_ok(self.blocks@, self.block_biases@),
            first + k <= self.blocks@.len(),
            k <= PAGESIZE,
            page.0 < cache.spec_len(),
            forall|j: int|
                0 <= j < k ==> (#[trigger] cache.page(page.0 as int)[j]) == block_spec(
                    shift(self.blocks@[first + j], self.block_biases@[first + j] as int),
                ),
        ensures
            postings_view(r@) == self.blocks@.subrange(first as int, first + k).flatten(),
    {
        let ghost blocks = self.blocks@;
        let ghost biases = self.block_biases@;
        let mut decoded: Vec<Posting> = Vec::new();
        let mut j: usize = 0;
        let nb = self.block_biases.len();
        assert(blocks.subrange(first as int, first as int) =~= Seq::<Seq<PostingView>>::empty());
        while j < k
            invariant
                j <= k,
                nb == biases.len(),
                blocks == self.blocks@,
                biases == self.block_biases@,
                biases.len() == blocks.len(),
                biases_ok(blocks, biases),
                first + k <= blocks.len(),
                k <= PAGESIZE,
                cache.wf(),
                page.0 < cache.spec_len(),
                forall|j: int|
                    0 <= j < k ==> (#[trigger] cache.page(page.0 as int)[j]) == block_spec(
                        shift(blocks[first + j], biases[first + j] as int),
                    ),
                postings_view(decoded@) == blocks.subrange(first as int, first + j).flatten(),
            decreases k - j,
        {
            let ghost b = blocks[first + j];
            let bias = self.block_biases[first + j];
            let blk = cache.read_block(page, BlockId(j));
            let ghost before = postings_view(decoded@);
            proof {
                assert(block_ok(b, bias));
            }
            let mut ps = decode_stored_block(&blk, bias, Ghost(b));
            decoded.append(&mut ps);
            assert(postings_view(decoded@) =~= before + b);
            proof {
                assert(blocks.subrange(first as int, first + j + 1) =~= blocks.subrange(first as int, first + j).push(b));
                blocks.subrange(first as int, first + j).lemma_flatten_push(b);
            }
            j = j + 1;
        }
        decoded
    }

    /// A decoder over the postings of this committed listing.
    pub fn posting_decoder(&self, cache: &RamPageCache) -> (r: PostingDecoder)
        requires
            self.wf(cache),
            self.is_committed(),
        ensures
            r.wf(cache),
            r@ == self@,
            r.position() == 0,
            r.spec_blocks() == self.shipped_blocks(),
            r.spec_biases() == self.biases(),
    {
        proof {
            assert(self@ =~= self.blocks@.flatten());
        }
        PostingDecoder::new(self.pages.duplicate(), self.block_biases.clone(), self.size, self.blocks, cache)
    }

    /// Postings held are in strictly increasing doc id order, each with
    /// sorted positions.
    pub proof fn lemma_postings_ok(&self, cache: &RamPageCache)
        requires
            self.wf(cache),
        ensures
            postings_ok(self@),
    {
    }

    /// Each shipped block starts at or after its bias, and its doc ids do
    /// not exceed the next block's bias.
    pub proof fn lemma_block_biases(&self, cache: &RamPageCache)
        requires
            self.wf(cache),
        ensures
            biases_ok(self.shipped_blocks(), self.biases()),
            self.shipped_blocks().len() == self.biases().len(),
            self.shipped_blocks().flatten() + self.buffered() == self@,
    {
    }

    pub proof fn lemma_wf_cache(&self, c: &RamPageCache)
        requires
            self.wf(c),
        ensures
            c.wf(),
    {
    }

    /// What another owner does to the cache leaves this listing in
    /// agreement with it.
    pub proof fn lemma_wf_frame(&self, c1: &RamPageCache, c2: &RamPageCache, owner: u64)
        requires
            self.wf(c1),
            c2.wf(),
            cache_frame(c1, c2, owner),
            owner != self.owner(),
        ensures
            self.wf(c2),
    {
        let full = self.pages.0@;
        let tail = self.tail_page();
        assert forall|i: int| 0 <= i < full.len() implies (#[trigger] full[i]).0 < c2.spec_len() && c2.owner(
            full[i].0 as int,
        ).is_none() by {
            assert(c1.owner(full[i].0 as int).is_none());
        }
        if let Some(cp) = self.current_page {
            assert(c1.owner(cp.0 as int) == Some(self.owner));
            assert(c2.owner(cp.0 as int) == Some(self.owner));
        }
        if let Some(u) = self.pages.1 {
            assert(c1.owner(u.0.0 as int).is_none());
            assert(c2.owner(u.0.0 as int).is_none());
        }
        assert forall|k: int| 0 <= k < self.blocks@.len() implies #[trigger] block_stored(
            c2,
            full,
            tail,
            0,
            k,
            self.blocks@[k],
            self.block_biases@[k],
        ) by {
            assert(block_stored(c1, full, tail, 0, k, self.blocks@[k], self.block_biases@[k]));
            let l = block_loc(full, tail, 0, k);
            if k < full.len() * PAGESIZE {
                let q = k / PAGESIZE as int;
                assert(0 <= q < full.len()) by {
                    vstd::arithmetic::div_mod::lemma_div_is_ordered(k, full.len() * PAGESIZE - 1, PAGESIZE as int);
                    vstd::arithmetic::div_mod::lemma_div_is_ordered(0, k, PAGESIZE as int);
                    vstd::arithmetic::div_mod::lemma_fundamental_div_mod_converse(full.len() * PAGESIZE - 1, PAGESIZE as int, full.len() - 1, PAGESIZE - 1);
                }
                assert(c1.owner(full[q].0 as int).is_none());
            }
            assert(c1.owner(l.0) != Some(owner));
        }
    }

    /// A committed listing buffers nothing, and its blocks fill its full
    /// pages and then the first slots of its unfull page, which it has
    /// exactly when the number of blocks is not a multiple of `PAGESIZE`.
    pub proof fn lemma_committed(&self, cache: &RamPageCache)
        requires
            self.wf(cache),
            self.is_committed(),
        ensures
            self.buffered().len() == 0,
            self.biases().len() == self.shipped_blocks().len(),
            self.biases().len() == self.spec_pages().0.len() * PAGESIZE + unfull_blocks(self.spec_pages().1),
            self.spec_pages().1.is_some() ==> {
                let u = self.spec_pages().1.unwrap();
                u.1.0 == 0 && 0 < u.2.0 < PAGESIZE
            },
            self.spec_pages().1.is_some() <==> (self.biases().len() as int) % (PAGESIZE as int) != 0,
    {
        let n = self.biases().len() as int;
        let nf = self.spec_pages().0.len() as int;
        match self.pages.1 {
            Some(u) => {
                vstd::arithmetic::div_mod::lemma_fundamental_div_mod_converse(n, PAGESIZE as int, nf, u.2.0 as int);
            },
            None => {
                vstd::arithmetic::div_mod::lemma_fundamental_div_mod_converse(n, PAGESIZE as int, nf, 0);
            },
        }
    }

    /// The biases do not decrease.
    pub proof fn lemma_biases_sorted(&self, cache: &RamPageCache)
        requires
            self.wf(cache),
        ensures
            forall|i: int, j: int| 0 <= i <= j < self.biases().len() ==> self.biases()[i] <= self.biases()[j],
    {
        assert forall|i: int, j: int| 0 <= i <= j < self.biases().len() implies self.biases()[i] <= self.biases()[j] by {
            crate::posting_decoder::lemma_biases_sorted(self.blocks@, self.block_biases@, i, j);
        }
    }

    /// The listing's entry in the listing directory.
    pub fn directory_record(&self) -> (r: ListingRecord)
        requires
            self.counted(),
        ensures
            r.pages@ == self.spec_pages().0,
            r.unfull == self.spec_pages().1,
            r.biases@ == self.biases(),
            r.total == self@.len(),
    {
        ListingRecord {
            pages: self.pages.0.clone(),
            unfull: self.pages.1,
            biases: self.block_biases.clone(),
            total: self.size,
        }
    }

    /// The postings not yet shipped.
    pub closed spec fn buffered(&self) -> Seq<PostingView> {
        self.posting_buffer@
    }

    /// Number of pages, the unfull one included (saturating at
    /// `usize::MAX`).
    pub fn page_count(&self) -> (r: usize)
        ensures
            r == if self.spec_pages().0.len() + (if self.spec_pages().1.is_some() { 1int } else { 0int }) > usize::MAX {
                usize::MAX as int
            } else {
                self.spec_pages().0.len() + (if self.spec_pages().1.is_some() { 1int } else { 0int })
            },
    {
        let n = self.pages.0.len();
        if self.pages.1.is_some() {
            if n == usize::MAX {
                n
            } else {
                n + 1
            }
        } else {
            n
        }
    }

    /// Whether the listing holds an unfull page, left by a commit.
    pub fn has_unfull(&self) -> (r: bool)
        ensures
            r == self.spec_pages().1.is_some(),
    {
        self.pages.has_unfull()
    }

    /// Number of postings not yet shipped.
    pub fn buffered_count(&self) -> (r: usize)
        requires
            self.counted(),
        ensures
            r == self.buffered().len(),
    {
        self.posting_buffer.count()
    }

    /// The bias of the block being filled.
    pub fn block_start(&self) -> (r: DocId)
        ensures
            r == self.spec_block_start(),
    {
        self.block_start
    }

    /// The doc id of the last posting added.
    pub fn block_end(&self) -> (r: DocId)
        ensures
            r == self.spec_block_end(),
    {
        self.block_end
    }

    pub closed spec fn spec_block_start(&self) -> DocId {
        self.block_start
    }

    pub closed spec fn spec_block_end(&self) -> DocId {
        self.block_end
    }

    /// The bias of each shipped block.
    pub fn block_biases(&self) -> (r: Vec<DocId>)
        ensures
            r@ == self.biases(),
    {
        self.block_biases.clone()
    }

    /// Number of postings held.
    pub fn len(&self) -> (r: u64)
        requires
            self.counted(),
        ensures
            r == self@.len(),
    {
        self.size
    }
}

} // verus!
