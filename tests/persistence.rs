use boolean_ir::index::{BooleanIndex, Error};
use boolean_ir::listing::Listing;
use boolean_ir::page::{BlockId, PageId, UnfullPage};
use boolean_ir::page_cache::RamPageCache;
use boolean_ir::persistence::{
    decode_entries, decode_entry, decode_listing_directory, decode_listing_record, decode_statistics, decode_vocabulary, encode_entry, encode_listing_record,
    encode_statistics, encode_vocabulary, ByteDecodable, ByteEncodable, ListingRecord,
};
use boolean_ir::posting::Posting;
use boolean_ir::vocabulary::{TermId, Vocabulary};

#[test]
fn vocabulary_round_trip() {
    let terms: Vec<u64> = vec![7, 0, 300, u64::MAX, 42];
    let bytes = encode_vocabulary(&terms);
    assert_eq!(decode_vocabulary(&bytes), Ok(terms));
}

#[test]
fn vocabulary_layout() {
    let bytes = encode_vocabulary(&vec![5, 200]);
    // id 0, length 1, term 5; id 1, length 2, term 200
    assert_eq!(bytes, vec![0x80, 0x81, 0x85, 0x81, 0x82, 0x48, 0x81]);
    assert_eq!(decode_vocabulary(&[]), Ok(vec![]));
}

#[test]
fn corrupted_vocabulary() {
    let bytes = encode_vocabulary(&vec![5, 200]);
    // cut inside the last integer
    assert_eq!(decode_vocabulary(&bytes[..bytes.len() - 1]), Err(Error::CorruptedIndexFile));
    // ids out of order
    assert_eq!(decode_vocabulary(&[0x81, 0x81, 0x85]), Err(Error::CorruptedIndexFile));
    // length that disagrees with the term
    assert_eq!(decode_vocabulary(&[0x80, 0x82, 0x85]), Err(Error::CorruptedIndexFile));
}

#[test]
fn statistics_round_trip() {
    assert_eq!(decode_statistics(&encode_statistics(3)), Ok(3));
    assert_eq!(decode_statistics(&encode_statistics(1 << 33)), Ok(1 << 33));
    assert_eq!(decode_statistics(&[]), Err(Error::CorruptedIndexFile));
    assert_eq!(decode_statistics(&[0x05]), Err(Error::CorruptedIndexFile));
}

#[test]
fn term_bytes() {
    assert_eq!(300u64.encode(), vec![0x2c, 0x82]);
    assert_eq!(u64::decode(vec![0x2c, 0x82]), Ok(300));
    assert_eq!(u64::decode(vec![0x2c, 0x82, 0x80]), Err(Error::CorruptedIndexFile));
    assert_eq!(u64::decode(vec![0x2c]), Err(Error::CorruptedIndexFile));
}

#[test]
fn index_files() {
    let docs: Vec<Vec<u64>> = vec![vec![3, 1], vec![1, 9]];
    let index = BooleanIndex::new(&docs).unwrap();
    assert_eq!(decode_vocabulary(&index.vocabulary_bytes()), Ok(vec![3, 1, 9]));
    assert_eq!(decode_statistics(&index.statistics_bytes()), Ok(2));
}

#[test]
fn vocabulary_ids() {
    let mut v: Vec<u64> = Vec::new();
    assert_eq!(v.get_or_add(10), TermId(0));
    assert_eq!(v.get_or_add(20), TermId(1));
    assert_eq!(v.get_or_add(10), TermId(0));
    assert_eq!(Vocabulary::get(&v, &20), Some(TermId(1)));
    assert_eq!(Vocabulary::get(&v, &30), None);
    assert_eq!(v, vec![10, 20]);
}

#[test]
fn listing_record_round_trip() {
    let mut cache = RamPageCache::new();
    let mut listing = Listing::new();
    let postings: Vec<Posting> = (0..3000u32).map(|i| Posting(i * 5, vec![])).collect();
    listing.add(&postings, &mut cache);
    listing.commit(&mut cache);
    let rec = listing.directory_record();
    assert!(rec.pages.len() > 0);
    assert!(rec.unfull.is_some());
    let mut bytes = encode_listing_record(&rec);
    let len = bytes.len();
    bytes.push(0x99);
    let (back, end) = decode_listing_record(&bytes, 0).unwrap();
    assert_eq!(end, len);
    assert_eq!(back.pages, rec.pages);
    assert_eq!(back.unfull, rec.unfull);
    assert_eq!(back.biases, rec.biases);
    assert_eq!(back.total, 3000);
    assert!(decode_listing_record(&bytes[..len - 1], 0).is_none());
}

#[test]
fn listing_record_layout() {
    let rec = ListingRecord {
        pages: vec![PageId(2)],
        unfull: Some(UnfullPage(PageId(5), BlockId(0), BlockId(3))),
        biases: vec![4, 10, 10],
        total: 7,
    };
    assert_eq!(
        encode_listing_record(&rec),
        vec![0x81, 0x82, 0x81, 0x85, 0x80, 0x83, 0x83, 0x84, 0x86, 0x80, 0x87]
    );
}

#[test]
fn storage_entries() {
    let mut bytes = encode_entry(3, 1556, 24);
    bytes.extend(encode_entry(234543463709865987, 0, u32::MAX));
    let (first, next) = decode_entry(&bytes, 0).unwrap();
    assert_eq!(first, (3, 1556, 24));
    let (second, end) = decode_entry(&bytes, next).unwrap();
    assert_eq!(second, (234543463709865987, 0, u32::MAX));
    assert_eq!(end, bytes.len());
    assert!(decode_entry(&bytes, end).is_none());
    // a length beyond u32 is refused
    let mut big = encode_entry(1, 1, 0);
    big.truncate(big.len() - 1);
    big.extend(vec![0x00, 0x00, 0x00, 0x00, 0x00, 0x81]);
    assert!(decode_entry(&big, 0).is_none());
}

#[test]
fn entries_and_directory_files() {
    let mut bytes = encode_entry(0, 0, 24);
    bytes.extend(encode_entry(1, 24, 56));
    assert_eq!(decode_entries(&bytes), Ok(vec![(0, 0, 24), (1, 24, 56)]));
    assert_eq!(decode_entries(&bytes[..bytes.len() - 1]), Err(Error::CorruptedIndexFile));
    let docs: Vec<Vec<u64>> = vec![vec![3, 1], vec![1, 9]];
    let index = BooleanIndex::new(&docs).unwrap();
    let mut dir = Vec::new();
    for id in 0..index.term_count() {
        dir.extend(encode_listing_record(&index.directory_record(id)));
    }
    let records = decode_listing_directory(&dir).unwrap();
    assert_eq!(records.len(), 3);
    assert_eq!(records.iter().map(|r| r.total).collect::<Vec<_>>(), vec![1, 2, 1]);
    assert!(decode_listing_directory(&dir[..dir.len() - 1]).is_err());
}
