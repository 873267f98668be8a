use vstd::prelude::*;

use crate::page::{Block, BLOCKSIZE};
use crate::posting::{postings_view, sorted_positions, DocId, Posting, PostingView};
use crate::ring_buffer::{BiasedRingBuffer, SIZE};
use crate::vbyte::{
    lemma_decode_len, lemma_read_at, lemma_vbyte_len, vbyte_decode, vbyte_encode_into, vbyte_len, vbyte_read_spec,
    vbyte_spec,
};

verus! {

// A block is a run of records, one per posting, then padding:
//   <vbyte doc_delta + 1> <vbyte positions_len> <vbyte position_delta>*
// `doc_delta` is the doc id minus the previous record's doc id (0 before the
// first record), and position deltas run from 0 within a record. The padding
// bytes each read as the integer 0, which no record starts with.

/// Padding byte: the one-byte encoding of 0.
pub const TERMINATOR: u8 = 0x80;

/// Encoding of positions as deltas, starting from `last`.
pub open spec fn positions_spec(ps: Seq<u32>, last: int) -> Seq<u8>
    decreases ps.len(),
{
    if ps.len() == 0 {
        Seq::empty()
    } else {
        vbyte_spec((ps[0] - last) as nat) + positions_spec(ps.drop_first(), ps[0] as int)
    }
}

/// Encoding of one posting that follows a record for doc id `prev`.
pub open spec fn record_spec(p: PostingView, prev: int) -> Seq<u8> {
    vbyte_spec((p.0 - prev + 1) as nat) + vbyte_spec(p.1.len()) + positions_spec(p.1, 0)
}

/// Encoding of a run of postings that follows a record for doc id `prev`.
pub open spec fn records_spec(ps: Seq<PostingView>, prev: int) -> Seq<u8>
    decreases ps.len(),
{
    if ps.len() == 0 {
        Seq::empty()
    } else {
        record_spec(ps[0], prev) + records_spec(ps.drop_first(), ps[0].0 as int)
    }
}

pub open spec fn padding(n: nat) -> Seq<u8> {
    Seq::new(n, |i: int| TERMINATOR)
}

/// The block that holds the postings `ps` (doc ids relative to the block's
/// base).
pub open spec fn block_spec(ps: Seq<PostingView>) -> Seq<u8> {
    records_spec(ps, 0) + padding((BLOCKSIZE - records_spec(ps, 0).len()) as nat)
}

/// Doc ids relative to `base`.
pub open spec fn shift(ps: Seq<PostingView>, base: int) -> Seq<PostingView> {
    ps.map_values(|p: PostingView| ((p.0 - base) as DocId, p.1))
}

/// A run that may be encoded after a record for `prev`: doc ids strictly
/// increasing from `prev` on (the first may equal it), positions sorted.
pub open spec fn chain_ok(ps: Seq<PostingView>, prev: int) -> bool {
    &&& forall|i: int| 0 <= i < ps.len() ==> prev <= (#[trigger] ps[i]).0
    &&& forall|i: int, j: int| 0 <= i < j < ps.len() ==> (#[trigger] ps[i]).0 < (#[trigger] ps[j]).0
    &&& forall|i: int| 0 <= i < ps.len() ==> sorted_positions((#[trigger] ps[i]).1)
    &&& forall|i: int| 0 <= i < ps.len() ==> (#[trigger] ps[i]).1.len() <= u32::MAX
}

/// A posting whose record fits in one block whatever doc id precedes it.
pub open spec fn fits(p: PostingView) -> bool {
    5 + vbyte_spec(p.1.len()).len() + positions_spec(p.1, 0).len() <= BLOCKSIZE
}

// ----- decoding, as it reads arbitrary bytes

/// Reads `n` position deltas at `pos`, starting from `last`.
pub open spec fn decode_positions_spec(s: Seq<u8>, pos: int, n: nat, last: int) -> Option<(Seq<u32>, int)>
    decreases n,
{
    if n == 0 {
        Some((Seq::empty(), pos))
    } else {
        match vbyte_read_spec(s, pos) {
            Some((d, e)) => {
                let p = last + d;
                if p > u32::MAX {
                    None
                } else {
                    match decode_positions_spec(s, e as int, (n - 1) as nat, p) {
                        Some((rest, e2)) => Some((seq![p as u32] + rest, e2)),
                        None => None,
                    }
                }
            },
            None => None,
        }
    }
}

/// Reads records at `pos` until the end of `s` or a 0 in place of a doc
/// delta; `None` on bytes that no encoding produces.
pub open spec fn decode_records_spec(s: Seq<u8>, pos: int, prev: int) -> Option<Seq<PostingView>>
    decreases s.len() - pos,
{
    if pos >= s.len() {
        Some(Seq::empty())
    } else {
        match vbyte_read_spec(s, pos) {
            None => None,
            Some((v, e1)) => if v == 0 {
                Some(Seq::empty())
            } else if prev + v - 1 > u32::MAX {
                None
            } else {
                match vbyte_read_spec(s, e1 as int) {
                    None => None,
                    Some((n, e2)) => match decode_positions_spec(s, e2 as int, n as nat, 0) {
                        None => None,
                        Some((positions, e3)) => if e3 <= pos || e3 > s.len() {
                            None
                        } else {
                            let doc = prev + v - 1;
                            match decode_records_spec(s, e3, doc) {
                                Some(rest) => Some(seq![(doc as DocId, positions)] + rest),
                                None => None,
                            }
                        },
                    },
                }
            },
        }
    }
}

/// The postings that a block holds, doc ids relative to its base.
pub open spec fn decode_block_spec(s: Seq<u8>) -> Option<Seq<PostingView>> {
    decode_records_spec(s, 0, 0)
}

// ----- lemmas

proof fn lemma_positions_round_trip(s: Seq<u8>, pos: int, ps: Seq<u32>, last: int, rest: Seq<u8>)
    requires
        0 <= pos <= s.len(),
        s.len() <= usize::MAX,
        s.subrange(pos, s.len() as int) == positions_spec(ps, last) + rest,
        sorted_positions(ps),
        0 <= last,
        ps.len() > 0 ==> last <= ps[0],
    ensures
        decode_positions_spec(s, pos, ps.len(), last) == Some((ps, pos + positions_spec(ps, last).len())),
        pos + positions_spec(ps, last).len() <= s.len(),
        s.subrange(pos + positions_spec(ps, last).len(), s.len() as int) == rest,
    decreases ps.len(),
{
    if ps.len() == 0 {
        assert(s.subrange(pos, s.len() as int) =~= rest);
    } else {
        let d = (ps[0] - last) as nat;
        let tail = ps.drop_first();
        assert(positions_spec(ps, last) + rest =~= vbyte_spec(d) + (positions_spec(tail, ps[0] as int) + rest));
        lemma_read_at(s, pos, d, positions_spec(tail, ps[0] as int) + rest);
        let e = pos + vbyte_spec(d).len();
        assert(sorted_positions(tail));
        if tail.len() > 0 {
            assert(ps[0] <= tail[0]);
        }
        lemma_positions_round_trip(s, e, tail, ps[0] as int, rest);
        assert(seq![ps[0]] + tail =~= ps);
    }
}

/// Decoding the records of `ps`, followed by padding, gives back `ps`.
pub proof fn lemma_records_round_trip(s: Seq<u8>, pos: int, ps: Seq<PostingView>, prev: int, pad: nat)
    requires
        0 <= pos <= s.len(),
        s.len() <= usize::MAX,
        s.subrange(pos, s.len() as int) == records_spec(ps, prev) + padding(pad),
        chain_ok(ps, prev),
        0 <= prev <= u32::MAX,
    ensures
        decode_records_spec(s, pos, prev) == Some(ps),
    decreases ps.len(),
{
    if ps.len() == 0 {
        if pos < s.len() {
            assert(s[pos] == s.subrange(pos, s.len() as int)[0]);
            assert(s.subrange(pos, s.len() as int) =~= vbyte_spec(0) + padding((pad - 1) as nat));
            lemma_read_at(s, pos, 0, padding((pad - 1) as nat));
        }
    } else {
        let p = ps[0];
        let tail = ps.drop_first();
        let v = (p.0 - prev + 1) as nat;
        let n = p.1.len();
        let r2 = positions_spec(p.1, 0) + (records_spec(tail, p.0 as int) + padding(pad));
        assert(records_spec(ps, prev) + padding(pad) =~= vbyte_spec(v) + (vbyte_spec(n) + r2));
        lemma_read_at(s, pos, v, vbyte_spec(n) + r2);
        let e1 = pos + vbyte_spec(v).len();
        lemma_read_at(s, e1, n, r2);
        let e2 = e1 + vbyte_spec(n).len();
        assert(sorted_positions(p.1));
        lemma_positions_round_trip(s, e2, p.1, 0, records_spec(tail, p.0 as int) + padding(pad));
        let e3 = e2 + positions_spec(p.1, 0).len();
        lemma_vbyte_len(v);
        assert(chain_ok(tail, p.0 as int)) by {
            assert forall|i: int| 0 <= i < tail.len() implies p.0 <= (#[trigger] tail[i]).0 by {
                assert(ps[0].0 < ps[i + 1].0);
            }
            assert forall|i: int, j: int| 0 <= i < j < tail.len() implies (#[trigger] tail[i]).0 < (#[trigger] tail[j]).0 by {
                assert(ps[i + 1].0 < ps[j + 1].0);
            }
            assert forall|i: int| 0 <= i < tail.len() implies sorted_positions((#[trigger] tail[i]).1) by {
                assert(sorted_positions(ps[i + 1].1));
            }
            assert forall|i: int| 0 <= i < tail.len() implies (#[trigger] tail[i]).1.len() <= u32::MAX by {
                assert(ps[i + 1].1.len() <= u32::MAX);
            }
        }
        lemma_records_round_trip(s, e3, tail, p.0 as int, pad);
        assert(seq![(p.0, p.1)] + tail =~= ps);
    }
}

/// A block decodes to the postings it was made from.
pub proof fn lemma_block_round_trip(ps: Seq<PostingView>)
    requires
        chain_ok(ps, 0),
        records_spec(ps, 0).len() <= BLOCKSIZE,
    ensures
        decode_block_spec(block_spec(ps)) == Some(ps),
{
    let s = block_spec(ps);
    assert(s.subrange(0, s.len() as int) =~= s);
    lemma_records_round_trip(s, 0, ps, 0, (BLOCKSIZE - records_spec(ps, 0).len()) as nat);
}

proof fn lemma_positions_unfold(ps: Seq<u32>, i: int, last: int)
    requires
        0 <= i < ps.len(),
    ensures
        positions_spec(ps.skip(i), last) == vbyte_spec((ps[i] - last) as nat) + positions_spec(ps.skip(i + 1), ps[i] as int),
{
    assert(ps.skip(i).drop_first() =~= ps.skip(i + 1));
}

/// The records of a run with one more posting at the end.
pub proof fn lemma_records_push(ps: Seq<PostingView>, p: PostingView, prev: int)
    ensures
        records_spec(ps.push(p), prev) == records_spec(ps, prev) + record_spec(
            p,
            if ps.len() == 0 { prev } else { ps.last().0 as int },
        ),
    decreases ps.len(),
{
    if ps.len() == 0 {
        assert(ps.push(p).drop_first() =~= Seq::<PostingView>::empty());
        assert(ps.push(p)[0] == p);
        assert(records_spec(Seq::<PostingView>::empty(), p.0 as int) =~= Seq::<u8>::empty());
        assert(records_spec(ps.push(p), prev) =~= record_spec(p, prev));
        assert(records_spec(ps, prev) =~= Seq::<u8>::empty());
    } else {
        let tail = ps.drop_first();
        lemma_records_push(tail, p, ps[0].0 as int);
        assert(ps.push(p).drop_first() =~= tail.push(p));
        if tail.len() > 0 {
            assert(tail.last() == ps.last());
        }
        assert(records_spec(ps.push(p), prev) =~= records_spec(ps, prev) + record_spec(
            p,
            if ps.len() == 0 { prev } else { ps.last().0 as int },
        ));
    }
}

/// Every record takes at least two bytes.
pub proof fn lemma_records_min_len(ps: Seq<PostingView>, prev: int)
    ensures
        records_spec(ps, prev).len() >= 2 * ps.len(),
    decreases ps.len(),
{
    if ps.len() > 0 {
        lemma_records_min_len(ps.drop_first(), ps[0].0 as int);
        lemma_vbyte_len((ps[0].0 - prev + 1) as nat);
        lemma_vbyte_len(ps[0].1.len());
    }
}

/// Length of the encoding of positions `ps`, capped just above a block.
fn positions_len(ps: &Vec<u32>) -> (r: usize)
    requires
        sorted_positions(ps@),
    ensures
        (r <= BLOCKSIZE) == (positions_spec(ps@, 0).len() <= BLOCKSIZE),
        r <= BLOCKSIZE ==> r == positions_spec(ps@, 0).len(),
        r <= BLOCKSIZE + 10,
{
    let mut total: usize = 0;
    let mut last: u32 = 0;
    let mut i: usize = 0;
    assert(ps@.skip(0) =~= ps@);
    while i < ps.len()
        invariant
            i <= ps@.len(),
            sorted_positions(ps@),
            total <= BLOCKSIZE,
            i > 0 ==> last == ps@[i - 1],
            i == 0 ==> last == 0,
            total + positions_spec(ps@.skip(i as int), last as int).len() == positions_spec(ps@, 0).len(),
        decreases ps@.len() - i,
    {
        proof {
            lemma_positions_unfold(ps@, i as int, last as int);
            lemma_vbyte_len((ps@[i as int] - last) as nat);
        }
        let l = vbyte_len((ps[i] - last) as u64);
        total = total + l;
        last = ps[i];
        i = i + 1;
        if total > BLOCKSIZE {
            return total;
        }
    }
    assert(ps@.skip(i as int) =~= Seq::<u32>::empty());
    total
}

/// Whether the record of `p` fits in one block whatever precedes it.
pub fn fits_in_block(p: &Posting) -> (r: bool)
    requires
        sorted_positions(p.1@),
    ensures
        r == fits(p@),
{
    proof {
        lemma_vbyte_len(p.1@.len());
    }
    let pl = positions_len(&p.1);
    let nl = vbyte_len(p.1.len() as u64);
    5 + nl + pl <= BLOCKSIZE
}

/// Length of the record of `p` after a record for `prev`, capped just above
/// a block.
fn record_len(p: &Posting, prev: DocId) -> (r: usize)
    requires
        prev <= p.0,
        sorted_positions(p.1@),
    ensures
        (r <= BLOCKSIZE) == (record_spec(p@, prev as int).len() <= BLOCKSIZE),
        r <= BLOCKSIZE ==> r == record_spec(p@, prev as int).len(),
        r <= BLOCKSIZE + 30,
{
    proof {
        lemma_vbyte_len(p.1@.len());
        lemma_vbyte_len((p.0 - prev + 1) as nat);
    }
    let dl = vbyte_len((p.0 - prev) as u64 + 1);
    let nl = vbyte_len(p.1.len() as u64);
    let pl = positions_len(&p.1);
    dl + nl + pl
}

/// Appends the encoding of positions `ps` to `out`.
fn encode_positions_into(ps: &Vec<u32>, out: &mut Vec<u8>)
    requires
        sorted_positions(ps@),
    ensures
        final(out)@ == old(out)@ + positions_spec(ps@, 0),
{
    let mut last: u32 = 0;
    let mut i: usize = 0;
    assert(ps@.skip(0) =~= ps@);
    while i < ps.len()
        invariant
            i <= ps@.len(),
            sorted_positions(ps@),
            i > 0 ==> last == ps@[i - 1],
            i == 0 ==> last == 0,
            old(out)@ + positions_spec(ps@, 0) == out@ + positions_spec(ps@.skip(i as int), last as int),
        decreases ps@.len() - i,
    {
        proof {
            lemma_positions_unfold(ps@, i as int, last as int);
        }
        let ghost before = out@;
        vbyte_encode_into((ps[i] - last) as u64, out);
        assert(before + positions_spec(ps@.skip(i as int), last as int) =~= out@ + positions_spec(
            ps@.skip(i + 1),
            ps@[i as int] as int,
        ));
        last = ps[i];
        i = i + 1;
    }
    assert(ps@.skip(i as int) =~= Seq::<u32>::empty());
    assert(out@ + Seq::<u8>::empty() =~= out@);
}

/// Appends the record of `p`, following a record for `prev`, to `out`.
fn encode_record_into(p: &Posting, prev: DocId, out: &mut Vec<u8>)
    requires
        prev <= p.0,
        sorted_positions(p.1@),
    ensures
        final(out)@ == old(out)@ + record_spec(p@, prev as int),
{
    let ghost before = out@;
    vbyte_encode_into((p.0 - prev) as u64 + 1, out);
    vbyte_encode_into(p.1.len() as u64, out);
    encode_positions_into(&p.1, out);
    assert(out@ =~= before + record_spec(p@, prev as int));
}

/// `prefix` put in front of what a decoding step yields.
pub open spec fn prepend_positions(prefix: Seq<u32>, o: Option<(Seq<u32>, int)>) -> Option<(Seq<u32>, int)> {
    match o {
        Some((r, e)) => Some((prefix + r, e)),
        None => None,
    }
}

pub open spec fn prepend_postings(prefix: Seq<PostingView>, o: Option<Seq<PostingView>>) -> Option<Seq<PostingView>> {
    match o {
        Some(r) => Some(prefix + r),
        None => None,
    }
}

/// Reads `n` position deltas at `pos`, starting from 0.
fn decode_positions(s: &[u8], pos: usize, n: u64) -> (r: Option<(Vec<u32>, usize)>)
    requires
        pos <= s@.len(),
    ensures
        match decode_positions_spec(s@, pos as int, n as nat, 0) {
            Some((ps, e)) => r.is_some() && r.unwrap().0@ == ps && r.unwrap().1 == e,
            None => r.is_none(),
        },
{
    let slen = s.len();
    let mut out: Vec<u32> = Vec::new();
    let mut k: u64 = 0;
    let mut at = pos;
    let mut last: u32 = 0;
    assert(Seq::<u32>::empty() + Seq::<u32>::empty() =~= Seq::<u32>::empty());
    while k < n
        invariant
            k <= n,
            at <= s@.len(),
            slen == s@.len(),
            decode_positions_spec(s@, pos as int, n as nat, 0) == prepend_positions(
                out@,
                decode_positions_spec(s@, at as int, (n - k) as nat, last as int),
            ),
        decreases n - k,
    {
        match vbyte_decode(s, at) {
            None => return None,
            Some((d, e)) => {
                proof {
                    lemma_read_in_range(s@, at as int);
                }
                if d > (u32::MAX - last) as u64 {
                    return None;
                }
                let p = last + d as u32;
                let ghost rec = decode_positions_spec(s@, e as int, (n - k - 1) as nat, p as int);
                proof {
                    match rec {
                        Some((rest, e2)) => {
                            assert(out@ + (seq![p] + rest) =~= out@.push(p) + rest);
                        },
                        None => {},
                    }
                }
                out.push(p);
                last = p;
                at = e;
                k = k + 1;
            },
        }
    }
    assert(out@ + Seq::<u32>::empty() =~= out@);
    Some((out, at))
}

proof fn lemma_read_in_range(s: Seq<u8>, pos: int)
    requires
        0 <= pos <= s.len(),
        s.len() <= usize::MAX,
        vbyte_read_spec(s, pos).is_some(),
    ensures
        pos < vbyte_read_spec(s, pos).unwrap().1 <= s.len(),
{
    lemma_decode_len(s.subrange(pos, s.len() as int));
}

/// The postings of a block, doc ids relative to its base; `None` on bytes
/// that no encoding produces.
pub fn decode_block(s: &[u8]) -> (r: Option<Vec<Posting>>)
    ensures
        match decode_block_spec(s@) {
            Some(ps) => r.is_some() && postings_view(r.unwrap()@) == ps,
            None => r.is_none(),
        },
{
    let mut out: Vec<Posting> = Vec::new();
    let mut at: usize = 0;
    let mut prev: u32 = 0;
    assert(postings_view(out@) + Seq::<PostingView>::empty() =~= Seq::<PostingView>::empty());
    while at < s.len()
        invariant
            at <= s@.len(),
            decode_block_spec(s@) == prepend_postings(
                postings_view(out@),
                decode_records_spec(s@, at as int, prev as int),
            ),
        decreases s@.len() - at,
    {
        let ghost at0 = at;
        let (v, e1) = match vbyte_decode(s, at) {
            None => return None,
            Some(x) => x,
        };
        proof {
            lemma_read_in_range(s@, at as int);
        }
        if v == 0 {
            assert(postings_view(out@) + Seq::<PostingView>::empty() =~= postings_view(out@));
            return Some(out);
        }
        if v - 1 > (u32::MAX - prev) as u64 {
            return None;
        }
        let (n, e2) = match vbyte_decode(s, e1) {
            None => return None,
            Some(x) => x,
        };
        proof {
            lemma_read_in_range(s@, e1 as int);
        }
        let (positions, e3) = match decode_positions(s, e2, n) {
            None => return None,
            Some(x) => x,
        };
        if e3 <= at || e3 > s.len() {
            return None;
        }
        let doc = prev + (v - 1) as u32;
        let ghost rec = decode_records_spec(s@, e3 as int, doc as int);
        let p = Posting(doc, positions);
        proof {
            match rec {
                Some(rest) => {
                    assert(postings_view(out@) + (seq![(doc, p.1@)] + rest) =~= postings_view(out@.push(p)) + rest);
                },
                None => {},
            }
        }
        out.push(p);
        prev = doc;
        at = e3;
    }
    assert(postings_view(out@) + Seq::<PostingView>::empty() =~= postings_view(out@));
    Some(out)
}

/// Postings that a buffer with base `base` may hold: doc ids strictly
/// increasing from `base` on, sorted positions, each record fitting a block.
pub open spec fn buffer_ok(items: Seq<PostingView>, base: int) -> bool {
    &&& chain_ok(items, base)
    &&& forall|i: int| 0 <= i < items.len() ==> fits(#[trigger] items[i])
}

pub proof fn lemma_shift_take(ps: Seq<PostingView>, base: int, k: int)
    requires
        0 <= k <= ps.len(),
    ensures
        shift(ps.take(k), base) == shift(ps, base).take(k),
{
    assert(shift(ps.take(k), base) =~= shift(ps, base).take(k));
}

pub proof fn lemma_shift_chain(ps: Seq<PostingView>, base: int)
    requires
        chain_ok(ps, base),
        0 <= base,
    ensures
        chain_ok(shift(ps, base), 0),
{
    let r = shift(ps, base);
    assert forall|i: int, j: int| 0 <= i < j < r.len() implies (#[trigger] r[i]).0 < (#[trigger] r[j]).0 by {
        assert(ps[i].0 < ps[j].0);
        assert(base <= ps[i].0);
    }
    assert forall|i: int| 0 <= i < r.len() implies sorted_positions((#[trigger] r[i]).1) by {
        assert(sorted_positions(ps[i].1));
    }
    assert forall|i: int| 0 <= i < r.len() implies (#[trigger] r[i]).1.len() <= u32::MAX by {
        assert(ps[i].1.len() <= u32::MAX);
    }
}

/// The records of a prefix are no longer than those of a longer prefix.
pub proof fn lemma_records_prefix_len(ps: Seq<PostingView>, prev: int, i: int, j: int)
    requires
        0 <= i <= j <= ps.len(),
    ensures
        records_spec(ps.take(i), prev).len() <= records_spec(ps.take(j), prev).len(),
    decreases j - i,
{
    if i < j {
        lemma_records_prefix_len(ps, prev, i, j - 1);
        assert(ps.take(j) =~= ps.take(j - 1).push(ps[j - 1]));
        lemma_records_push(ps.take(j - 1), ps[j - 1], prev);
    }
}

proof fn lemma_record_fits(p: PostingView, prev: int)
    requires
        fits(p),
        prev <= p.0,
        0 <= prev,
    ensures
        record_spec(p, prev).len() <= BLOCKSIZE,
{
    lemma_vbyte_len((p.0 - prev + 1) as nat);
}

/// Moves the longest run of front postings whose records fit into a block,
/// and pads the rest of the block.
fn fill_block(data: &mut BiasedRingBuffer) -> (b: Block)
    requires
        old(data).wf(),
        buffer_ok(old(data)@, old(data).spec_base() as int),
    ensures
        final(data).wf(),
        final(data).spec_base() == old(data).spec_base(),
        final(data)@.len() <= old(data)@.len(),
        ({
            let k = old(data)@.len() - final(data)@.len();
            let rel = shift(old(data)@, old(data).spec_base() as int);
            &&& final(data)@ == old(data)@.skip(k)
            &&& b.wf()
            &&& b@ == block_spec(rel.take(k))
            &&& records_spec(rel.take(k), 0).len() <= BLOCKSIZE
            &&& (old(data)@.len() > 0 ==> k >= 1)
            &&& (k == old(data)@.len() || records_spec(rel.take(k + 1), 0).len() > BLOCKSIZE)
        }),
{
    let ghost items = data@;
    let base = data.base();
    let ghost rel = shift(items, base as int);
    let mut out: Vec<u8> = Vec::new();
    let mut prev: u32 = 0;
    let mut k: usize = 0;
    let mut done = false;
    proof {
        data.lemma_len();
    }
    assert(items.skip(0) =~= items);
    assert(rel.take(0) =~= Seq::<PostingView>::empty());
    while !done && !data.is_empty()
        invariant
            data.wf(),
            data.spec_base() == base,
            buffer_ok(items, base as int),
            rel == shift(items, base as int),
            items.len() <= SIZE,
            k <= items.len(),
            data@ == items.skip(k as int),
            out@ == records_spec(rel.take(k as int), 0),
            out@.len() <= BLOCKSIZE,
            k == 0 ==> prev == 0,
            k > 0 ==> prev == rel[k - 1].0,
            k > 0 ==> prev + base == items[k - 1].0,
            done ==> k > 0 && k < items.len() && records_spec(rel.take(k + 1), 0).len() > BLOCKSIZE,
        decreases items.len() - k + if done { 0int } else { 1int },
    {
        let front = data.get(0);
        assert(front@ == items[k as int]);
        proof {
            if k > 0 {
                assert(items[k - 1].0 < items[k as int].0);
            }
            assert(sorted_positions(items[k as int].1));
            assert(fits(items[k as int]));
            assert(base <= items[k as int].0);
            lemma_records_push(rel.take(k as int), rel[k as int], 0);
            assert(rel.take(k + 1) =~= rel.take(k as int).push(rel[k as int]));
            if k == 0 {
                lemma_record_fits(items[0], base as int);
            }
        }
        let l = record_len(front, base + prev);
        if out.len() + l > BLOCKSIZE {
            done = true;
        } else {
            let p = match data.pop_front_biased() {
                Some(p) => p,
                None => vstd::pervasive::unreached(),
            };
            assert(p@ == rel[k as int]);
            encode_record_into(&p, prev, &mut out);
            prev = p.0;
            k = k + 1;
            assert(items.skip(k - 1).drop_first() =~= items.skip(k as int));
        }
    }
    let ghost recs = out@;
    proof {
        if !done {
            assert(k == items.len()) by {
                assert(items.skip(k as int).len() == 0);
            }
        }
    }
    assert(out@ =~= recs + padding((out@.len() - recs.len()) as nat));
    while out.len() < BLOCKSIZE
        invariant
            recs.len() <= out@.len() <= BLOCKSIZE,
            out@ == recs + padding((out@.len() - recs.len()) as nat),
        decreases BLOCKSIZE - out@.len(),
    {
        out.push(TERMINATOR);
        assert(out@ =~= recs + padding((out@.len() - recs.len()) as nat));
    }
    Block(out)
}

/// Moves postings into a block when the buffer holds enough of them to
/// fill one; otherwise returns `None` and leaves the buffer as it is.
pub fn compress(data: &mut BiasedRingBuffer) -> (r: Option<Block>)
    requires
        old(data).wf(),
        buffer_ok(old(data)@, old(data).spec_base() as int),
    ensures
        final(data).wf(),
        final(data).spec_base() == old(data).spec_base(),
        final(data)@.len() <= old(data)@.len(),
        ({
            let k = old(data)@.len() - final(data)@.len();
            let rel = shift(old(data)@, old(data).spec_base() as int);
            match r {
                None => {
                    &&& records_spec(rel, 0).len() < BLOCKSIZE
                    &&& final(data)@ == old(data)@
                },
                Some(b) => {
                    &&& records_spec(rel, 0).len() >= BLOCKSIZE
                    &&& final(data)@ == old(data)@.skip(k)
                    &&& b.wf()
                    &&& b@ == block_spec(rel.take(k))
                    &&& records_spec(rel.take(k), 0).len() <= BLOCKSIZE
                    &&& k >= 1
                    &&& (k == old(data)@.len() || records_spec(rel.take(k + 1), 0).len() > BLOCKSIZE)
                },
            }
        }),
{
    let ghost items = data@;
    let base = data.base();
    let ghost rel = shift(items, base as int);
    let n = data.count();
    let mut total: usize = 0;
    let mut prev: u32 = base;
    let mut i: usize = 0;
    assert(rel.take(0) =~= Seq::<PostingView>::empty());
    while i < n && total < BLOCKSIZE
        invariant
            data.wf(),
            data@ == items,
            data.spec_base() == base,
            n == items.len(),
            buffer_ok(items, base as int),
            rel == shift(items, base as int),
            i <= n,
            i == 0 ==> prev == base,
            i > 0 ==> prev == items[i - 1].0,
            total < BLOCKSIZE ==> total == records_spec(rel.take(i as int), 0).len(),
            total >= BLOCKSIZE ==> records_spec(rel.take(i as int), 0).len() >= BLOCKSIZE,
            total <= 2 * BLOCKSIZE + 30,
        decreases n - i,
    {
        let p = data.get(i);
        proof {
            if i > 0 {
                assert(items[i - 1].0 < items[i as int].0);
            }
            assert(sorted_positions(items[i as int].1));
            assert(base <= items[i as int].0);
            lemma_records_push(rel.take(i as int), rel[i as int], 0);
            assert(rel.take(i + 1) =~= rel.take(i as int).push(rel[i as int]));
        }
        let l = record_len(p, prev);
        total = total + l;
        prev = p.0;
        i = i + 1;
    }
    proof {
        lemma_records_prefix_len(rel, 0, i as int, n as int);
        assert(rel.take(n as int) =~= rel);
    }
    if total < BLOCKSIZE {
        None
    } else {
        Some(fill_block(data))
    }
}

/// Moves what the buffer holds, as far as it fits, into a block padded
/// after the last record.
pub fn force_compress(data: &mut BiasedRingBuffer) -> (b: Block)
    requires
        old(data).wf(),
        buffer_ok(old(data)@, old(data).spec_base() as int),
    ensures
        final(data).wf(),
        final(data).spec_base() == old(data).spec_base(),
        final(data)@.len() <= old(data)@.len(),
        ({
            let k = old(data)@.len() - final(data)@.len();
            let rel = shift(old(data)@, old(data).spec_base() as int);
            &&& final(data)@ == old(data)@.skip(k)
            &&& b.wf()
            &&& b@ == block_spec(rel.take(k))
            &&& records_spec(rel.take(k), 0).len() <= BLOCKSIZE
            &&& (old(data)@.len() > 0 ==> k >= 1)
            &&& (k == old(data)@.len() || records_spec(rel.take(k + 1), 0).len() > BLOCKSIZE)
        }),
{
    fill_block(data)
}

/// Doc ids moved up by `base`.
pub open spec fn unshift(ps: Seq<PostingView>, base: int) -> Seq<PostingView> {
    ps.map_values(|p: PostingView| ((p.0 + base) as DocId, p.1))
}

/// Every doc id of `ps` plus `base` is still a doc id.
pub open spec fn unshift_ok(ps: Seq<PostingView>, base: int) -> bool {
    forall|i: int| 0 <= i < ps.len() ==> (#[trigger] ps[i]).0 + base <= u32::MAX
}

/// Appends the postings of a block to the buffer, with the buffer's base
/// added to their doc ids. Nothing is appended when the block does not
/// decode, when a doc id would exceed `u32`, or when the postings do not
/// all fit in the buffer.
pub fn decompress(data: &Block, target: &mut BiasedRingBuffer)
    requires
        old(target).wf(),
    ensures
        final(target).wf(),
        final(target).spec_base() == old(target).spec_base(),
        match decode_block_spec(data@) {
            Some(ps) => if unshift_ok(ps, old(target).spec_base() as int) && old(target)@.len() + ps.len() <= SIZE {
                final(target)@ == old(target)@ + unshift(ps, old(target).spec_base() as int)
            } else {
                final(target)@ == old(target)@
            },
            None => final(target)@ == old(target)@,
        },
{
    let ps = match decode_block(data.as_slice()) {
        Some(ps) => ps,
        None => return,
    };
    let base = target.base();
    proof {
        target.lemma_len();
    }
    if ps.len() > SIZE - target.count() {
        return;
    }
    let mut i: usize = 0;
    while i < ps.len()
        invariant
            i <= ps@.len(),
            target.wf(),
            target@ == old(target)@,
            target.spec_base() == base,
            base == old(target).spec_base(),
            postings_view(ps@) == decode_block_spec(data@).unwrap(),
            decode_block_spec(data@).is_some(),
            old(target)@.len() + ps@.len() <= SIZE,
            forall|m: int| 0 <= m < i ==> (#[trigger] ps@[m]).0 + base <= u32::MAX,
        decreases ps@.len() - i,
    {
        if ps[i].0 as u64 + base as u64 > u32::MAX as u64 {
            assert(!unshift_ok(postings_view(ps@), base as int)) by {
                assert(postings_view(ps@)[i as int].0 == ps@[i as int].0);
            }
            return;
        }
        i = i + 1;
    }
    let ghost old_items = target@;
    let mut j: usize = 0;
    while j < ps.len()
        invariant
            j <= ps@.len(),
            target.wf(),
            target.spec_base() == base,
            old_items.len() + ps@.len() <= SIZE,
            forall|m: int| 0 <= m < ps@.len() ==> (#[trigger] ps@[m]).0 + base <= u32::MAX,
            target@ == old_items + unshift(postings_view(ps@).take(j as int), base as int),
        decreases ps@.len() - j,
    {
        let p = ps[j].duplicate();
        target.push_back_biased(p);
        j = j + 1;
        assert(target@ =~= old_items + unshift(postings_view(ps@).take(j as int), base as int));
    }
    assert(postings_view(ps@).take(j as int) =~= postings_view(ps@));
}

} // verus!
