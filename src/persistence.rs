use vstd::prelude::*;

use crate::index::Error;
use crate::page::{BlockId, PageId, UnfullPage, PAGESIZE};
use crate::posting::DocId;
use crate::vbyte::{
    lemma_decode_len, lemma_read_at, vbyte_decode, vbyte_encode_into, vbyte_len, vbyte_read_spec,
    vbyte_spec,
};

verus! {

// vocabulary file: for each term in id order, <vbyte id><vbyte length><term bytes>
// statistics file: <vbyte document count>

/// A value written as bytes.
pub trait ByteEncodable {
    spec fn spec_encode(&self) -> Seq<u8>;

    fn encode(&self) -> (r: Vec<u8>)
        ensures
            r@ == self.spec_encode(),
    ;
}

/// A value read back from the bytes that `ByteEncodable` writes.
pub trait ByteDecodable: Sized {
    /// The value that `bytes` hold, if they hold one.
    spec fn spec_decode(bytes: Seq<u8>) -> Option<Self>;

    fn decode(bytes: Vec<u8>) -> (r: Result<Self, Error>)
        ensures
            match Self::spec_decode(bytes@) {
                Some(v) => r == Ok::<Self, Error>(v),
                None => r == Err::<Self, Error>(Error::CorruptedIndexFile),
            },
    ;
}

/// A term is written as its variable-byte encoding.
impl ByteEncodable for u64 {
    open spec fn spec_encode(&self) -> Seq<u8> {
        vbyte_spec(*self as nat)
    }

    fn encode(&self) -> (r: Vec<u8>) {
        let mut r: Vec<u8> = Vec::new();
        vbyte_encode_into(*self, &mut r);
        assert(r@ =~= vbyte_spec(*self as nat));
        r
    }
}

impl ByteDecodable for u64 {
    /// The integer whose reading takes all of `bytes`.
    open spec fn spec_decode(bytes: Seq<u8>) -> Option<u64> {
        match vbyte_read_spec(bytes, 0) {
            Some((v, e)) => if e == bytes.len() {
                Some(v)
            } else {
                None
            },
            None => None,
        }
    }

    fn decode(bytes: Vec<u8>) -> (r: Result<u64, Error>) {
        match vbyte_decode(bytes.as_slice(), 0) {
            Some((v, e)) => if e == bytes.len() {
                Ok(v)
            } else {
                Err(Error::CorruptedIndexFile)
            },
            None => Err(Error::CorruptedIndexFile),
        }
    }
}

/// The record of term `t` with id `id`.
pub open spec fn vocab_record_spec(id: nat, t: u64) -> Seq<u8> {
    vbyte_spec(id) + vbyte_spec(vbyte_spec(t as nat).len()) + vbyte_spec(t as nat)
}

/// The records of `ts`, the first with id `k`.
pub open spec fn vocab_records_spec(ts: Seq<u64>, k: nat) -> Seq<u8>
    decreases ts.len(),
{
    if ts.len() == 0 {
        Seq::empty()
    } else {
        vocab_record_spec(k, ts[0]) + vocab_records_spec(ts.drop_first(), k + 1)
    }
}

/// The vocabulary file of terms `ts`, the term with id `i` at index `i`.
pub open spec fn vocabulary_spec(ts: Seq<u64>) -> Seq<u8> {
    vocab_records_spec(ts, 0)
}

/// Reads records at `pos`, the next expected id being `k`; `None` on bytes
/// that no vocabulary file holds.
pub open spec fn decode_vocabulary_spec(s: Seq<u8>, pos: int, k: nat) -> Option<Seq<u64>>
    decreases s.len() - pos,
{
    if pos >= s.len() {
        Some(Seq::empty())
    } else {
        match vbyte_read_spec(s, pos) {
            None => None,
            Some((id, e1)) => if id != k {
                None
            } else {
                match vbyte_read_spec(s, e1 as int) {
                    None => None,
                    Some((l, e2)) => match vbyte_read_spec(s, e2 as int) {
                        None => None,
                        Some((t, e3)) => if e3 - e2 != l || e3 <= pos || e3 > s.len() {
                            None
                        } else {
                            match decode_vocabulary_spec(s, e3 as int, k + 1) {
                                Some(rest) => Some(seq![t] + rest),
                                None => None,
                            }
                        },
                    },
                }
            },
        }
    }
}

/// Reading a vocabulary file gives back its terms.
pub proof fn lemma_vocabulary_round_trip(s: Seq<u8>, pos: int, ts: Seq<u64>, k: nat)
    requires
        0 <= pos <= s.len(),
        s.len() <= usize::MAX,
        s.subrange(pos, s.len() as int) == vocab_records_spec(ts, k),
        k + ts.len() <= u64::MAX,
    ensures
        decode_vocabulary_spec(s, pos, k) == Some(ts),
    decreases ts.len(),
{
    if ts.len() == 0 {
        assert(s.subrange(pos, s.len() as int).len() == 0);
    } else {
        let t = ts[0];
        let tail = ts.drop_first();
        let lt = vbyte_spec(t as nat).len();
        crate::vbyte::lemma_vbyte_len(t as nat);
        let r3 = vocab_records_spec(tail, k + 1);
        assert(vocab_records_spec(ts, k) =~= vbyte_spec(k) + (vbyte_spec(lt) + (vbyte_spec(t as nat) + r3)));
        lemma_read_at(s, pos, k, vbyte_spec(lt) + (vbyte_spec(t as nat) + r3));
        let e1 = pos + vbyte_spec(k).len();
        lemma_read_at(s, e1, lt, vbyte_spec(t as nat) + r3);
        let e2 = e1 + vbyte_spec(lt).len();
        lemma_read_at(s, e2, t as nat, r3);
        let e3 = e2 + lt;
        crate::vbyte::lemma_vbyte_len(k);
        lemma_vocabulary_round_trip(s, e3, tail, k + 1);
        assert(seq![t] + tail =~= ts);
    }
}

/// Reading the vocabulary file of `ts` gives back `ts`.
pub proof fn lemma_vocabulary_file_round_trip(ts: Seq<u64>)
    requires
        vocabulary_spec(ts).len() <= usize::MAX,
        ts.len() <= u64::MAX,
    ensures
        decode_vocabulary_spec(vocabulary_spec(ts), 0, 0) == Some(ts),
{
    let s = vocabulary_spec(ts);
    assert(s.subrange(0, s.len() as int) =~= s);
    lemma_vocabulary_round_trip(s, 0, ts, 0);
}

proof fn lemma_vocab_records_push(ts: Seq<u64>, t: u64, k: nat)
    ensures
        vocab_records_spec(ts.push(t), k) == vocab_records_spec(ts, k) + vocab_record_spec(k + ts.len(), t),
    decreases ts.len(),
{
    if ts.len() == 0 {
        assert(ts.push(t).drop_first() =~= Seq::<u64>::empty());
        assert(ts.push(t)[0] == t);
        assert(vocab_records_spec(Seq::<u64>::empty(), k + 1) =~= Seq::<u8>::empty());
        assert(vocab_records_spec(ts.push(t), k) =~= vocab_record_spec(k, t));
        assert(vocab_records_spec(ts, k) =~= Seq::<u8>::empty());
    } else {
        lemma_vocab_records_push(ts.drop_first(), t, k + 1);
        assert(ts.push(t).drop_first() =~= ts.drop_first().push(t));
        assert(vocab_records_spec(ts.push(t), k) =~= vocab_records_spec(ts, k) + vocab_record_spec(k + ts.len(), t));
    }
}

/// The vocabulary file of `terms`.
pub fn encode_vocabulary(terms: &Vec<u64>) -> (r: Vec<u8>)
    ensures
        r@ == vocabulary_spec(terms@),
{
    let mut out: Vec<u8> = Vec::new();
    let mut i: usize = 0;
    assert(terms@.take(0) =~= Seq::<u64>::empty());
    while i < terms.len()
        invariant
            i <= terms@.len(),
            out@ == vocabulary_spec(terms@.take(i as int)),
        decreases terms@.len() - i,
    {
        let t = terms[i];
        let ghost before = out@;
        vbyte_encode_into(i as u64, &mut out);
        let l = vbyte_len(t);
        vbyte_encode_into(l as u64, &mut out);
        vbyte_encode_into(t, &mut out);
        proof {
            lemma_vocab_records_push(terms@.take(i as int), t, 0);
            assert(terms@.take(i + 1) =~= terms@.take(i as int).push(t));
            assert(out@ =~= before + vocab_record_spec(i as nat, t));
        }
        i = i + 1;
    }
    assert(terms@.take(i as int) =~= terms@);
    out
}

/// The terms of a vocabulary file, the one with id `i` at index `i`;
/// `CorruptedIndexFile` when an integer is cut off, an id is out of order,
/// or a length disagrees with its term.
pub fn decode_vocabulary(bytes: &[u8]) -> (r: Result<Vec<u64>, Error>)
    ensures
        match decode_vocabulary_spec(bytes@, 0, 0) {
            Some(ts) => r.is_ok() && r.unwrap()@ == ts,
            None => r == Err::<Vec<u64>, Error>(Error::CorruptedIndexFile),
        },
{
    let mut out: Vec<u64> = Vec::new();
    let mut at: usize = 0;
    let mut k: u64 = 0;
    let slen = bytes.len();
    assert(out@ + Seq::<u64>::empty() =~= Seq::<u64>::empty());
    while at < bytes.len()
        invariant
            at <= bytes@.len(),
            slen == bytes@.len(),
            k == out@.len(),
            k <= at,
            match decode_vocabulary_spec(bytes@, 0, 0) {
                Some(ts) => match decode_vocabulary_spec(bytes@, at as int, k as nat) {
                    Some(rest) => ts == out@ + rest,
                    None => false,
                },
                None => decode_vocabulary_spec(bytes@, at as int, k as nat).is_none(),
            },
        decreases bytes@.len() - at,
    {
        let (id, e1) = match vbyte_decode(bytes, at) {
            None => return Err(Error::CorruptedIndexFile),
            Some(x) => x,
        };
        proof {
            lemma_decode_len(bytes@.subrange(at as int, bytes@.len() as int));
        }
        if id != k {
            return Err(Error::CorruptedIndexFile);
        }
        let (l, e2) = match vbyte_decode(bytes, e1) {
            None => return Err(Error::CorruptedIndexFile),
            Some(x) => x,
        };
        proof {
            lemma_decode_len(bytes@.subrange(e1 as int, bytes@.len() as int));
        }
        let (t, e3) = match vbyte_decode(bytes, e2) {
            None => return Err(Error::CorruptedIndexFile),
            Some(x) => x,
        };
        proof {
            lemma_decode_len(bytes@.subrange(e2 as int, bytes@.len() as int));
        }
        if (e3 - e2) as u64 != l || e3 <= at || e3 > bytes.len() {
            return Err(Error::CorruptedIndexFile);
        }
        let ghost o = out@;
        proof {
            match decode_vocabulary_spec(bytes@, e3 as int, (k + 1) as nat) {
                Some(rest) => {
                    assert(o + (seq![t] + rest) =~= o.push(t) + rest);
                },
                None => {},
            }
        }
        out.push(t);
        k = k + 1;
        at = e3;
    }
    proof {
        match decode_vocabulary_spec(bytes@, 0, 0) {
            Some(ts) => {
                assert(out@ + Seq::<u64>::empty() =~= out@);
            },
            None => {},
        }
    }
    Ok(out)
}

/// An entry of a storage index file: an item's id, its offset in the data
/// file and its length in bytes.
pub fn encode_entry(id: u64, offset: u64, length: u32) -> (r: Vec<u8>)
    ensures
        r@ == vbyte_spec(id as nat) + vbyte_spec(offset as nat) + vbyte_spec(length as nat),
{
    let mut r: Vec<u8> = Vec::new();
    vbyte_encode_into(id, &mut r);
    vbyte_encode_into(offset, &mut r);
    vbyte_encode_into(length as u64, &mut r);
    assert(r@ =~= vbyte_spec(id as nat) + vbyte_spec(offset as nat) + vbyte_spec(length as nat));
    r
}

/// What reading an entry at `pos` yields: id, offset, length and the
/// position after it.
pub open spec fn entry_read_spec(s: Seq<u8>, pos: int) -> Option<((u64, u64, u32), usize)> {
    match vbyte_read_spec(s, pos) {
        Some((id, e1)) => match vbyte_read_spec(s, e1 as int) {
            Some((offset, e2)) => match vbyte_read_spec(s, e2 as int) {
                Some((length, e3)) => if length <= u32::MAX {
                    Some(((id, offset, length as u32), e3))
                } else {
                    None
                },
                None => None,
            },
            None => None,
        },
        None => None,
    }
}

/// Reads entries from `pos` to the end; `None` when one does not decode.
pub open spec fn decode_entries_spec(s: Seq<u8>, pos: int) -> Option<Seq<(u64, u64, u32)>>
    decreases s.len() - pos,
{
    if pos >= s.len() || pos < 0 {
        Some(Seq::empty())
    } else {
        match entry_read_spec(s, pos) {
            None => None,
            Some((e, next)) => if next <= pos || next > s.len() {
                None
            } else {
                match decode_entries_spec(s, next as int) {
                    Some(rest) => Some(seq![e] + rest),
                    None => None,
                }
            },
        }
    }
}

/// Reads directory records from `pos` to the end; `None` when one does not
/// decode.
pub open spec fn decode_directory_spec(s: Seq<u8>, pos: int) -> Option<Seq<(Seq<PageId>, Option<UnfullPage>, Seq<DocId>, u64)>>
    decreases s.len() - pos,
{
    if pos >= s.len() || pos < 0 {
        Some(Seq::empty())
    } else {
        match decode_record_spec(s, pos) {
            None => None,
            Some((pages, unfull, biases, total, next)) => if next <= pos || next > s.len() {
                None
            } else {
                match decode_directory_spec(s, next) {
                    Some(rest) => Some(seq![(pages, unfull, biases, total)] + rest),
                    None => None,
                }
            },
        }
    }
}

/// The view of a directory record.
pub open spec fn record_view(r: ListingRecord) -> (Seq<PageId>, Option<UnfullPage>, Seq<DocId>, u64) {
    (r.pages@, r.unfull, r.biases@, r.total)
}

/// The entries of a storage index file; `CorruptedIndexFile` when one does
/// not decode.
pub fn decode_entries(bytes: &[u8]) -> (r: Result<Vec<(u64, u64, u32)>, Error>)
    ensures
        match decode_entries_spec(bytes@, 0) {
            Some(es) => r.is_ok() && r.unwrap()@ == es,
            None => r == Err::<Vec<(u64, u64, u32)>, Error>(Error::CorruptedIndexFile),
        },
{
    let mut out: Vec<(u64, u64, u32)> = Vec::new();
    let mut at: usize = 0;
    assert(out@ + Seq::<(u64, u64, u32)>::empty() =~= Seq::<(u64, u64, u32)>::empty());
    while at < bytes.len()
        invariant
            at <= bytes@.len(),
            match decode_entries_spec(bytes@, 0) {
                Some(es) => match decode_entries_spec(bytes@, at as int) {
                    Some(rest) => es == out@ + rest,
                    None => false,
                },
                None => decode_entries_spec(bytes@, at as int).is_none(),
            },
        decreases bytes@.len() - at,
    {
        let (e, next) = match decode_entry(bytes, at) {
            Some(x) => x,
            None => return Err(Error::CorruptedIndexFile),
        };
        if next <= at || next > bytes.len() {
            return Err(Error::CorruptedIndexFile);
        }
        proof {
            match decode_entries_spec(bytes@, next as int) {
                Some(rest) => {
                    assert(out@ + (seq![e] + rest) =~= out@.push(e) + rest);
                },
                None => {},
            }
        }
        out.push(e);
        at = next;
    }
    proof {
        assert(out@ + Seq::<(u64, u64, u32)>::empty() =~= out@);
    }
    Ok(out)
}

/// The records of a listing directory, one per term id in order;
/// `CorruptedIndexFile` when one does not decode.
pub fn decode_listing_directory(bytes: &[u8]) -> (r: Result<Vec<ListingRecord>, Error>)
    ensures
        match decode_directory_spec(bytes@, 0) {
            Some(rs) => r.is_ok() && r.unwrap()@.map_values(|x: ListingRecord| record_view(x)) == rs,
            None => match r {
                Ok(_) => false,
                Err(e) => e == Error::CorruptedIndexFile,
            },
        },
{
    let mut out: Vec<ListingRecord> = Vec::new();
    let mut at: usize = 0;
    assert(out@.map_values(|x: ListingRecord| record_view(x)) + Seq::<(Seq<PageId>, Option<UnfullPage>, Seq<DocId>, u64)>::empty()
        =~= Seq::<(Seq<PageId>, Option<UnfullPage>, Seq<DocId>, u64)>::empty());
    while at < bytes.len()
        invariant
            at <= bytes@.len(),
            match decode_directory_spec(bytes@, 0) {
                Some(rs) => match decode_directory_spec(bytes@, at as int) {
                    Some(rest) => rs == out@.map_values(|x: ListingRecord| record_view(x)) + rest,
                    None => false,
                },
                None => decode_directory_spec(bytes@, at as int).is_none(),
            },
        decreases bytes@.len() - at,
    {
        let (rec, next) = match decode_listing_record(bytes, at) {
            Some(x) => x,
            None => return Err(Error::CorruptedIndexFile),
        };
        if next <= at || next > bytes.len() {
            return Err(Error::CorruptedIndexFile);
        }
        let ghost o = out@;
        proof {
            match decode_directory_spec(bytes@, next as int) {
                Some(rest) => {
                    assert(o.map_values(|x: ListingRecord| record_view(x)) + (seq![record_view(rec)] + rest)
                        =~= o.push(rec).map_values(|x: ListingRecord| record_view(x)) + rest);
                },
                None => {},
            }
        }
        out.push(rec);
        at = next;
    }
    proof {
        assert(out@.map_values(|x: ListingRecord| record_view(x)) + Seq::<(Seq<PageId>, Option<UnfullPage>, Seq<DocId>, u64)>::empty()
            =~= out@.map_values(|x: ListingRecord| record_view(x)));
    }
    Ok(out)
}

/// Reads an entry at `pos`: id, offset, length and the position after it;
/// `None` when the bytes end inside it or the length exceeds `u32`.
pub fn decode_entry(bytes: &[u8], pos: usize) -> (r: Option<((u64, u64, u32), usize)>)
    requires
        pos <= bytes@.len(),
    ensures
        r == entry_read_spec(bytes@, pos as int),
{
    let slen = bytes.len();
    let (id, e1) = match vbyte_decode(bytes, pos) {
        Some(x) => x,
        None => return None,
    };
    proof {
        lemma_decode_len(bytes@.subrange(pos as int, bytes@.len() as int));
    }
    let (offset, e2) = match vbyte_decode(bytes, e1) {
        Some(x) => x,
        None => return None,
    };
    proof {
        lemma_decode_len(bytes@.subrange(e1 as int, bytes@.len() as int));
    }
    let (length, e3) = match vbyte_decode(bytes, e2) {
        Some(x) => x,
        None => return None,
    };
    if length > u32::MAX as u64 {
        return None;
    }
    Some(((id, offset, length as u32), e3))
}

/// Integers one after another, each in its variable-byte encoding.
pub open spec fn varints_spec(xs: Seq<u64>) -> Seq<u8>
    decreases xs.len(),
{
    if xs.len() == 0 {
        Seq::empty()
    } else {
        vbyte_spec(xs[0] as nat) + varints_spec(xs.drop_first())
    }
}

/// Reads `n` integers at `pos`: them and the position after them.
pub open spec fn decode_varints_spec(s: Seq<u8>, pos: int, n: nat) -> Option<(Seq<u64>, int)>
    decreases n,
{
    if n == 0 {
        Some((Seq::empty(), pos))
    } else {
        match vbyte_read_spec(s, pos) {
            None => None,
            Some((v, e)) => match decode_varints_spec(s, e as int, (n - 1) as nat) {
                Some((rest, e2)) => Some((seq![v] + rest, e2)),
                None => None,
            },
        }
    }
}

pub proof fn lemma_varints_round_trip(s: Seq<u8>, pos: int, xs: Seq<u64>, rest: Seq<u8>)
    requires
        0 <= pos <= s.len(),
        s.len() <= usize::MAX,
        s.subrange(pos, s.len() as int) == varints_spec(xs) + rest,
    ensures
        decode_varints_spec(s, pos, xs.len()) == Some((xs, pos + varints_spec(xs).len())),
        s.subrange(pos + varints_spec(xs).len(), s.len() as int) == rest,
    decreases xs.len(),
{
    if xs.len() == 0 {
        assert(s.subrange(pos, s.len() as int) =~= rest);
    } else {
        let tail = xs.drop_first();
        assert(varints_spec(xs) + rest =~= vbyte_spec(xs[0] as nat) + (varints_spec(tail) + rest));
        lemma_read_at(s, pos, xs[0] as nat, varints_spec(tail) + rest);
        lemma_varints_round_trip(s, pos + vbyte_spec(xs[0] as nat).len(), tail, rest);
        assert(seq![xs[0]] + tail =~= xs);
    }
}

/// Appends the encodings of `xs` to `out`.
pub fn encode_varints(xs: &Vec<u64>, out: &mut Vec<u8>)
    ensures
        final(out)@ == old(out)@ + varints_spec(xs@),
{
    let mut i: usize = 0;
    assert(xs@.skip(0) =~= xs@);
    while i < xs.len()
        invariant
            i <= xs@.len(),
            old(out)@ + varints_spec(xs@) == out@ + varints_spec(xs@.skip(i as int)),
        decreases xs@.len() - i,
    {
        let ghost before = out@;
        assert(xs@.skip(i as int).drop_first() =~= xs@.skip(i + 1));
        vbyte_encode_into(xs[i], out);
        assert(before + varints_spec(xs@.skip(i as int)) =~= out@ + varints_spec(xs@.skip(i + 1)));
        i = i + 1;
    }
    assert(xs@.skip(i as int) =~= Seq::<u64>::empty());
    assert(out@ + Seq::<u8>::empty() =~= out@);
}

/// Reads `n` integers at `pos`.
pub fn decode_varints(s: &[u8], pos: usize, n: u64) -> (r: Option<(Vec<u64>, usize)>)
    requires
        pos <= s@.len(),
    ensures
        match decode_varints_spec(s@, pos as int, n as nat) {
            Some((xs, e)) => r.is_some() && r.unwrap().0@ == xs && r.unwrap().1 == e,
            None => r.is_none(),
        },
{
    let slen = s.len();
    let mut out: Vec<u64> = Vec::new();
    let mut k: u64 = 0;
    let mut at = pos;
    assert(Seq::<u64>::empty() + Seq::<u64>::empty() =~= Seq::<u64>::empty());
    while k < n
        invariant
            k <= n,
            at <= s@.len(),
            slen == s@.len(),
            match decode_varints_spec(s@, pos as int, n as nat) {
                Some((xs, e)) => match decode_varints_spec(s@, at as int, (n - k) as nat) {
                    Some((rest, e2)) => xs == out@ + rest && e == e2,
                    None => false,
                },
                None => decode_varints_spec(s@, at as int, (n - k) as nat).is_none(),
            },
        decreases n - k,
    {
        match vbyte_decode(s, at) {
            None => return None,
            Some((v, e)) => {
                proof {
                    lemma_decode_len(s@.subrange(at as int, s@.len() as int));
                    match decode_varints_spec(s@, e as int, (n - k - 1) as nat) {
                        Some((rest, e2)) => {
                            assert(out@ + (seq![v] + rest) =~= out@.push(v) + rest);
                        },
                        None => {},
                    }
                }
                out.push(v);
                at = e;
                k = k + 1;
            },
        }
    }
    proof {
        match decode_varints_spec(s@, pos as int, n as nat) {
            Some((xs, e)) => {
                assert(out@ + Seq::<u64>::empty() =~= out@);
            },
            None => {},
        }
    }
    Some((out, at))
}

/// A listing's entry in the listing directory: its pages, its biases and
/// its number of postings.
pub struct ListingRecord {
    pub pages: Vec<PageId>,
    pub unfull: Option<UnfullPage>,
    pub biases: Vec<DocId>,
    pub total: u64,
}

pub open spec fn page_ids(pages: Seq<PageId>) -> Seq<u64> {
    pages.map_values(|p: PageId| p.0)
}

pub open spec fn unfull_nums(u: Option<UnfullPage>) -> Seq<u64> {
    match u {
        Some(u) => seq![1u64, u.0.0, u.1.0 as u64, u.2.0 as u64],
        None => seq![0u64],
    }
}

/// The first bias, then the difference of each bias from the one before.
pub open spec fn bias_deltas(b: Seq<DocId>) -> Seq<u64> {
    Seq::new(b.len(), |i: int| if i == 0 { b[0] as u64 } else { (b[i] - b[i - 1]) as u64 })
}

/// Biases back from their deltas; `None` when one exceeds `u32`.
pub open spec fn undelta(ds: Seq<u64>) -> Option<Seq<DocId>>
    decreases ds.len(),
{
    if ds.len() == 0 {
        Some(Seq::empty())
    } else {
        match undelta(ds.drop_last()) {
            Some(b) => {
                let v = (if b.len() == 0 { 0 } else { b.last() as int }) + ds.last();
                if v > u32::MAX {
                    None
                } else {
                    Some(b.push(v as DocId))
                }
            },
            None => None,
        }
    }
}

/// The directory record of a listing:
/// <vbyte page_count><vbyte page_id>*<vbyte has_unfull>[<vbyte unfull_page_id><vbyte from><vbyte to>]
/// <vbyte bias_count><vbyte first bias><vbyte delta>*<vbyte total_postings>
pub open spec fn record_spec(pages: Seq<PageId>, unfull: Option<UnfullPage>, biases: Seq<DocId>, total: u64) -> Seq<u8> {
    vbyte_spec(pages.len()) + varints_spec(page_ids(pages)) + varints_spec(unfull_nums(unfull)) + vbyte_spec(biases.len())
        + varints_spec(bias_deltas(biases)) + vbyte_spec(total as nat)
}

/// The unfull page part of a record at `pos`, and the position after it.
pub open spec fn decode_unfull_spec(s: Seq<u8>, pos: int) -> Option<(Option<UnfullPage>, int)> {
    match vbyte_read_spec(s, pos) {
        None => None,
        Some((flag, e)) => if flag == 0 {
            Some((None, e as int))
        } else if flag == 1 {
            match decode_varints_spec(s, e as int, 3) {
                Some((xs, e2)) => if xs[1] <= xs[2] <= PAGESIZE {
                    Some((Some(UnfullPage(PageId(xs[0]), BlockId(xs[1] as usize), BlockId(xs[2] as usize))), e2))
                } else {
                    None
                },
                None => None,
            }
        } else {
            None
        },
    }
}

/// Reads a directory record at `pos`: pages, unfull page, biases, total and
/// the position after it; `None` on bytes that no record holds.
pub open spec fn decode_record_spec(s: Seq<u8>, pos: int) -> Option<(Seq<PageId>, Option<UnfullPage>, Seq<DocId>, u64, int)> {
    match vbyte_read_spec(s, pos) {
        None => None,
        Some((np, e1)) => match decode_varints_spec(s, e1 as int, np as nat) {
            None => None,
            Some((ids, e2)) => match decode_unfull_spec(s, e2) {
                None => None,
                Some((u, e3)) => match vbyte_read_spec(s, e3) {
                    None => None,
                    Some((nb, e4)) => match decode_varints_spec(s, e4 as int, nb as nat) {
                        None => None,
                        Some((ds, e5)) => match undelta(ds) {
                            None => None,
                            Some(b) => match vbyte_read_spec(s, e5) {
                                None => None,
                                Some((total, e6)) => Some((ids.map_values(|x: u64| PageId(x)), u, b, total, e6 as int)),
                            },
                        },
                    },
                },
            },
        },
    }
}

proof fn lemma_undelta(b: Seq<DocId>)
    requires
        forall|i: int, j: int| 0 <= i <= j < b.len() ==> b[i] <= b[j],
    ensures
        undelta(bias_deltas(b)) == Some(b),
    decreases b.len(),
{
    if b.len() > 0 {
        let init = b.drop_last();
        assert(bias_deltas(b).drop_last() =~= bias_deltas(init));
        lemma_undelta(init);
        assert(init.push(b.last()) =~= b);
    }
}

proof fn lemma_varints_concat(a: Seq<u64>, b: Seq<u64>)
    ensures
        varints_spec(a + b) == varints_spec(a) + varints_spec(b),
    decreases a.len(),
{
    if a.len() == 0 {
        assert(a + b =~= b);
    } else {
        lemma_varints_concat(a.drop_first(), b);
        assert((a + b).drop_first() =~= a.drop_first() + b);
    }
}

proof fn lemma_unfull_round_trip(s: Seq<u8>, pos: int, unfull: Option<UnfullPage>, rest: Seq<u8>)
    requires
        0 <= pos <= s.len(),
        s.len() <= usize::MAX,
        s.subrange(pos, s.len() as int) == varints_spec(unfull_nums(unfull)) + rest,
        unfull.is_some() ==> unfull.unwrap().1.0 <= unfull.unwrap().2.0 <= PAGESIZE,
    ensures
        decode_unfull_spec(s, pos) == Some((unfull, pos + varints_spec(unfull_nums(unfull)).len())),
        s.subrange(pos + varints_spec(unfull_nums(unfull)).len(), s.len() as int) == rest,
{
    let un = unfull_nums(unfull);
    assert(varints_spec(Seq::<u64>::empty()) =~= Seq::<u8>::empty());
    match unfull {
        Some(u) => {
            let three = seq![u.0.0, u.1.0 as u64, u.2.0 as u64];
            assert(un =~= seq![1u64] + three);
            lemma_varints_concat(seq![1u64], three);
            assert(seq![1u64].drop_first() =~= Seq::<u64>::empty());
            assert(varints_spec(seq![1u64]) =~= vbyte_spec(1));
            assert(varints_spec(un) + rest =~= vbyte_spec(1) + (varints_spec(three) + rest));
            lemma_read_at(s, pos, 1, varints_spec(three) + rest);
            let e = pos + vbyte_spec(1).len();
            lemma_varints_round_trip(s, e, three, rest);
            assert(three[1] == u.1.0 as u64 && three[2] == u.2.0 as u64 && three[0] == u.0.0);
        },
        None => {
            assert(un.drop_first() =~= Seq::<u64>::empty());
            assert(varints_spec(un) =~= vbyte_spec(0));
            assert(varints_spec(un) + rest =~= vbyte_spec(0) + rest);
            lemma_read_at(s, pos, 0, rest);
        },
    }
}

/// Reading the record of a listing gives back its pages, biases and total.
#[verifier::rlimit(80)]
pub proof fn lemma_record_round_trip(
    s: Seq<u8>,
    pos: int,
    pages: Seq<PageId>,
    unfull: Option<UnfullPage>,
    biases: Seq<DocId>,
    total: u64,
    rest: Seq<u8>,
)
    requires
        0 <= pos <= s.len(),
        s.len() <= usize::MAX,
        s.subrange(pos, s.len() as int) == record_spec(pages, unfull, biases, total) + rest,
        pages.len() <= u64::MAX,
        biases.len() <= u64::MAX,
        forall|i: int, j: int| 0 <= i <= j < biases.len() ==> biases[i] <= biases[j],
        unfull.is_some() ==> unfull.unwrap().1.0 <= unfull.unwrap().2.0 <= PAGESIZE,
    ensures
        decode_record_spec(s, pos) == Some((pages, unfull, biases, total, pos + record_spec(pages, unfull, biases, total).len())),
{
    let ids = page_ids(pages);
    let un = unfull_nums(unfull);
    let ds = bias_deltas(biases);
    let r5 = vbyte_spec(total as nat) + rest;
    let r4 = varints_spec(ds) + r5;
    let r3 = vbyte_spec(biases.len()) + r4;
    let r2 = varints_spec(un) + r3;
    let r1 = varints_spec(ids) + r2;
    assert(record_spec(pages, unfull, biases, total) + rest =~= vbyte_spec(pages.len()) + r1);
    lemma_read_at(s, pos, pages.len(), r1);
    let e1 = pos + vbyte_spec(pages.len()).len();
    lemma_varints_round_trip(s, e1, ids, r2);
    let e2 = e1 + varints_spec(ids).len();
    lemma_unfull_round_trip(s, e2, unfull, r3);
    let e3 = e2 + varints_spec(un).len();
    lemma_read_at(s, e3, biases.len(), r4);
    let e4 = e3 + vbyte_spec(biases.len()).len();
    lemma_varints_round_trip(s, e4, ds, r5);
    let e5 = e4 + varints_spec(ds).len();
    lemma_undelta(biases);
    lemma_read_at(s, e5, total as nat, rest);
    assert(ids.map_values(|x: u64| PageId(x)) =~= pages);
}

/// The directory record of `rec`.
pub fn encode_listing_record(rec: &ListingRecord) -> (r: Vec<u8>)
    requires
        forall|i: int, j: int| 0 <= i <= j < rec.biases@.len() ==> rec.biases@[i] <= rec.biases@[j],
    ensures
        r@ == record_spec(rec.pages@, rec.unfull, rec.biases@, rec.total),
{
    let mut out: Vec<u8> = Vec::new();
    vbyte_encode_into(rec.pages.len() as u64, &mut out);
    let mut ids: Vec<u64> = Vec::new();
    let mut i: usize = 0;
    while i < rec.pages.len()
        invariant
            i <= rec.pages@.len(),
            ids@ == page_ids(rec.pages@).take(i as int),
        decreases rec.pages@.len() - i,
    {
        ids.push(rec.pages[i].0);
        i = i + 1;
        assert(ids@ =~= page_ids(rec.pages@).take(i as int));
    }
    assert(page_ids(rec.pages@).take(i as int) =~= page_ids(rec.pages@));
    encode_varints(&ids, &mut out);
    let mut un: Vec<u64> = Vec::new();
    match rec.unfull {
        Some(u) => {
            un.push(1);
            un.push(u.0.0);
            un.push(u.1.0 as u64);
            un.push(u.2.0 as u64);
        },
        None => {
            un.push(0);
        },
    }
    assert(un@ =~= unfull_nums(rec.unfull));
    encode_varints(&un, &mut out);
    vbyte_encode_into(rec.biases.len() as u64, &mut out);
    let mut ds: Vec<u64> = Vec::new();
    let mut j: usize = 0;
    while j < rec.biases.len()
        invariant
            j <= rec.biases@.len(),
            forall|a: int, b: int| 0 <= a <= b < rec.biases@.len() ==> rec.biases@[a] <= rec.biases@[b],
            ds@ == bias_deltas(rec.biases@).take(j as int),
        decreases rec.biases@.len() - j,
    {
        if j == 0 {
            ds.push(rec.biases[0] as u64);
        } else {
            ds.push((rec.biases[j] - rec.biases[j - 1]) as u64);
        }
        j = j + 1;
        assert(ds@ =~= bias_deltas(rec.biases@).take(j as int));
    }
    assert(bias_deltas(rec.biases@).take(j as int) =~= bias_deltas(rec.biases@));
    encode_varints(&ds, &mut out);
    vbyte_encode_into(rec.total, &mut out);
    assert(out@ =~= record_spec(rec.pages@, rec.unfull, rec.biases@, rec.total));
    out
}

/// Reads the directory record at `pos`, and the position after it.
#[verifier::loop_isolation(false)]
pub fn decode_listing_record(bytes: &[u8], pos: usize) -> (r: Option<(ListingRecord, usize)>)
    requires
        pos <= bytes@.len(),
    ensures
        match decode_record_spec(bytes@, pos as int) {
            Some((pages, unfull, biases, total, e)) => r.is_some() && r.unwrap().0.pages@ == pages && r.unwrap().0.unfull
                == unfull && r.unwrap().0.biases@ == biases && r.unwrap().0.total == total && r.unwrap().1 == e,
            None => r.is_none(),
        },
{
    let slen = bytes.len();
    let (np, e1) = match vbyte_decode(bytes, pos) {
        Some(x) => x,
        None => return None,
    };
    proof {
        lemma_decode_len(bytes@.subrange(pos as int, bytes@.len() as int));
    }
    let (ids, e2) = match decode_varints(bytes, e1, np) {
        Some(x) => x,
        None => return None,
    };
    let mut pages: Vec<PageId> = Vec::new();
    let mut i: usize = 0;
    while i < ids.len()
        invariant
            i <= ids@.len(),
            pages@ == ids@.take(i as int).map_values(|x: u64| PageId(x)),
        decreases ids@.len() - i,
    {
        pages.push(PageId(ids[i]));
        i = i + 1;
        assert(pages@ =~= ids@.take(i as int).map_values(|x: u64| PageId(x)));
    }
    assert(ids@.take(i as int) =~= ids@);
    proof {
        lemma_varints_end(bytes@, e1 as int, np as nat);
    }
    let (flag, e3a) = match vbyte_decode(bytes, e2) {
        Some(x) => x,
        None => return None,
    };
    proof {
        lemma_decode_len(bytes@.subrange(e2 as int, bytes@.len() as int));
    }
    let (unfull, e3) = if flag == 0 {
        (None, e3a)
    } else if flag == 1 {
        let (xs, e) = match decode_varints(bytes, e3a, 3) {
            Some(x) => x,
            None => return None,
        };
        proof {
            lemma_varints_len(bytes@, e3a as int, 3);
        }
        if !(xs[1] <= xs[2] && xs[2] <= PAGESIZE as u64) {
            return None;
        }
        (Some(UnfullPage(PageId(xs[0]), BlockId(xs[1] as usize), BlockId(xs[2] as usize))), e)
    } else {
        return None;
    };
    proof {
        if flag == 1 {
            lemma_varints_end(bytes@, e3a as int, 3);
        }
        assert(decode_unfull_spec(bytes@, e2 as int) == Some((unfull, e3 as int)));
    }
    let (nb, e4) = match vbyte_decode(bytes, e3) {
        Some(x) => x,
        None => return None,
    };
    proof {
        lemma_decode_len(bytes@.subrange(e3 as int, bytes@.len() as int));
    }
    let (ds, e5) = match decode_varints(bytes, e4, nb) {
        Some(x) => x,
        None => return None,
    };
    proof {
        lemma_varints_end(bytes@, e4 as int, nb as nat);
    }
    let mut biases: Vec<DocId> = Vec::new();
    let mut k: usize = 0;
    assert(ds@.take(0) =~= Seq::<u64>::empty());
    while k < ds.len()
        invariant
            k <= ds@.len(),
            undelta(ds@.take(k as int)) == Some(biases@),
        decreases ds@.len() - k,
    {
        assert(ds@.take(k + 1).drop_last() =~= ds@.take(k as int));
        let prev: u64 = if biases.len() == 0 { 0 } else { biases[biases.len() - 1] as u64 };
        assert(ds@.take(k + 1).last() == ds@[k as int]);
        proof {
            if biases@.len() > 0 {
                assert(biases@.last() == biases@[biases@.len() - 1]);
            }
        }
        if ds[k] > u32::MAX as u64 - prev {
            proof {
                assert(undelta(ds@.take(k + 1)).is_none());
                lemma_undelta_prefix(ds@, k + 1);
            }
            return None;
        }
        biases.push((prev + ds[k]) as u32);
        k = k + 1;
    }
    assert(ds@.take(k as int) =~= ds@);
    assert(undelta(ds@) == Some(biases@));
    let (total, e6) = match vbyte_decode(bytes, e5) {
        Some(x) => x,
        None => return None,
    };
    Some((ListingRecord { pages, unfull, biases, total }, e6))
}

proof fn lemma_varints_len(s: Seq<u8>, pos: int, n: nat)
    requires
        decode_varints_spec(s, pos, n).is_some(),
    ensures
        decode_varints_spec(s, pos, n).unwrap().0.len() == n,
    decreases n,
{
    if n > 0 {
        let e = vbyte_read_spec(s, pos).unwrap().1;
        lemma_varints_len(s, e as int, (n - 1) as nat);
    }
}

/// Once a prefix of the deltas fails, all of them fail.
proof fn lemma_undelta_prefix(ds: Seq<u64>, k: int)
    requires
        0 <= k <= ds.len(),
        undelta(ds.take(k)).is_none(),
    ensures
        undelta(ds).is_none(),
    decreases ds.len() - k,
{
    if k < ds.len() {
        assert(ds.take(k + 1).drop_last() =~= ds.take(k));
        lemma_undelta_prefix(ds, k + 1);
    } else {
        assert(ds.take(k) =~= ds);
    }
}

/// Reading integers ends within the bytes.
proof fn lemma_varints_end(s: Seq<u8>, pos: int, n: nat)
    requires
        0 <= pos <= s.len(),
        s.len() <= usize::MAX,
        decode_varints_spec(s, pos, n).is_some(),
    ensures
        pos <= decode_varints_spec(s, pos, n).unwrap().1 <= s.len(),
    decreases n,
{
    if n > 0 {
        lemma_decode_len(s.subrange(pos, s.len() as int));
        let e = vbyte_read_spec(s, pos).unwrap().1;
        lemma_varints_end(s, e as int, (n - 1) as nat);
    }
}

/// The statistics file: the number of documents.
pub fn encode_statistics(document_count: u64) -> (r: Vec<u8>)
    ensures
        r@ == vbyte_spec(document_count as nat),
{
    let mut r: Vec<u8> = Vec::new();
    vbyte_encode_into(document_count, &mut r);
    assert(r@ =~= vbyte_spec(document_count as nat));
    r
}

/// The number of documents that a statistics file holds.
pub fn decode_statistics(bytes: &[u8]) -> (r: Result<u64, Error>)
    ensures
        match vbyte_read_spec(bytes@, 0) {
            Some((v, _)) => r == Ok::<u64, Error>(v),
            None => r == Err::<u64, Error>(Error::CorruptedIndexFile),
        },
{
    match vbyte_decode(bytes, 0) {
        Some((v, _)) => Ok(v),
        None => Err(Error::CorruptedIndexFile),
    }
}

} // verus!
