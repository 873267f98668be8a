use boolean_ir::listing::Listing;
use boolean_ir::page_cache::RamPageCache;
use boolean_ir::posting::Posting;
use boolean_ir::posting_decoder::PostingDecoder;

fn read_all(decoder: &mut PostingDecoder, cache: &RamPageCache) -> Vec<(u32, Vec<u32>)> {
    let mut out = Vec::new();
    while let Some(p) = decoder.next(cache) {
        out.push((p.0, p.1));
    }
    out
}

fn doc(d: u32) -> Posting {
    Posting(d, vec![])
}

#[test]
fn basic_add() {
    let mut cache = RamPageCache::new();
    let mut listing = Listing::new();
    listing.add(&[doc(0)], &mut cache);
    assert_eq!(listing.page_count(), 0);
    assert_eq!(listing.buffered_count(), 1);
}

#[test]
fn commit() {
    let mut cache = RamPageCache::new();
    let mut listing = Listing::new();
    listing.add(&[doc(0)], &mut cache);
    assert_eq!(listing.page_count(), 0);
    assert_eq!(listing.buffered_count(), 1);
    listing.commit(&mut cache);
    assert_eq!(listing.page_count(), 1);
    assert_eq!(listing.buffered_count(), 0);
}

#[test]
fn add() {
    let mut cache = RamPageCache::new();
    let mut listing = Listing::new();
    listing.add(&[doc(0)], &mut cache);
    assert_eq!(listing.page_count(), 0);
    assert_eq!(listing.buffered_count(), 1);
    for i in 0..100 {
        listing.add(&[doc(i)], &mut cache);
    }
    assert_eq!(listing.page_count(), 0);
    assert!(listing.buffered_count() > 0);
    listing.commit(&mut cache);
    assert_eq!(listing.buffered_count(), 0);
}

#[test]
fn add_much() {
    let mut cache = RamPageCache::new();
    let mut listing = Listing::new();
    listing.add(&[doc(0)], &mut cache);
    assert_eq!(listing.page_count(), 0);
    assert_eq!(listing.buffered_count(), 1);
    for i in 0..10001 {
        listing.add(&[doc(i)], &mut cache);
    }
    assert!(listing.page_count() > 0);
    assert!(listing.buffered_count() > 0);
    listing.commit(&mut cache);
    assert_eq!(listing.buffered_count(), 0);
}

#[test]
fn multiple_listings() {
    let mut cache = RamPageCache::new();
    let mut listings = (0..100).map(|i| Listing::with_owner(i)).collect::<Vec<_>>();
    for i in 0..50000 {
        listings[i % 100].add(&[doc(i as u32)], &mut cache);
    }
    for listing in listings.iter_mut() {
        assert!(listing.buffered_count() > 0);
        listing.commit(&mut cache);
    }
    for listing in listings.iter() {
        assert_eq!(listing.buffered_count(), 0);
    }
    for (k, listing) in listings.iter().enumerate() {
        let mut decoder = listing.posting_decoder(&cache);
        let docs: Vec<u32> = read_all(&mut decoder, &cache).into_iter().map(|p| p.0).collect();
        let expected: Vec<u32> = (0..500).map(|j| (j * 100 + k) as u32).collect();
        assert_eq!(docs, expected);
    }
}

#[test]
fn biases_after_reopening() {
    let mut cache = RamPageCache::new();
    let mut listing = Listing::new();
    listing.add(&[doc(1)], &mut cache);
    assert_eq!(listing.block_start(), 0);
    assert_eq!(listing.block_end(), 1);
    listing.commit(&mut cache);
    assert_eq!(listing.block_start(), 1);
    assert_eq!(listing.block_end(), 1);
    assert!(listing.has_unfull());
    listing.add(&[doc(10)], &mut cache);
    assert!(!listing.has_unfull());
    assert_eq!(listing.block_end(), 10);
    listing.commit(&mut cache);
    assert_eq!(listing.block_start(), 10);
    // the unfull page's block was taken back and shipped again with its bias
    assert_eq!(listing.block_biases(), vec![0]);
}

#[test]
fn round_trip_with_positions() {
    let mut cache = RamPageCache::new();
    let mut listing = Listing::new();
    let postings: Vec<Posting> = (0..3000u32).map(|i| Posting(i * 7 + 1, vec![i % 5, i % 5 + 3, 200])).collect();
    listing.add(&postings, &mut cache);
    listing.commit(&mut cache);
    assert_eq!(listing.len(), 3000);
    let mut decoder = listing.posting_decoder(&cache);
    assert_eq!(decoder.len(), 3000);
    let got = read_all(&mut decoder, &cache);
    let want: Vec<(u32, Vec<u32>)> = postings.iter().map(|p| (p.0, p.1.clone())).collect();
    assert_eq!(got, want);
    assert!(decoder.next(&cache).is_none());
}

#[test]
fn append_after_commit_equals_one_add() {
    let a: Vec<Posting> = (0..700u32).map(|i| Posting(i * 2, vec![i % 3])).collect();
    let b: Vec<Posting> = (700..1500u32).map(|i| Posting(i * 2, vec![i % 3, 9])).collect();
    let mut cache1 = RamPageCache::new();
    let mut l1 = Listing::new();
    l1.add(&a, &mut cache1);
    l1.commit(&mut cache1);
    l1.add(&b, &mut cache1);
    l1.commit(&mut cache1);
    let mut cache2 = RamPageCache::new();
    let mut l2 = Listing::new();
    let mut ab: Vec<Posting> = a.iter().map(|p| Posting(p.0, p.1.clone())).collect();
    ab.extend(b.iter().map(|p| Posting(p.0, p.1.clone())));
    l2.add(&ab, &mut cache2);
    l2.commit(&mut cache2);
    let mut d1 = l1.posting_decoder(&cache1);
    let mut d2 = l2.posting_decoder(&cache2);
    let r1 = read_all(&mut d1, &cache1);
    let r2 = read_all(&mut d2, &cache2);
    assert_eq!(r1.len(), 1500);
    assert_eq!(r1, r2);
}

#[test]
fn equal_doc_ids_collapse_to_the_first() {
    let mut cache = RamPageCache::new();
    let mut listing = Listing::new();
    listing.add(&[Posting(3, vec![1]), Posting(3, vec![2]), Posting(4, vec![0])], &mut cache);
    listing.add(&[Posting(4, vec![9]), Posting(6, vec![])], &mut cache);
    listing.commit(&mut cache);
    assert_eq!(listing.len(), 3);
    let mut decoder = listing.posting_decoder(&cache);
    assert_eq!(read_all(&mut decoder, &cache), vec![(3, vec![1]), (4, vec![0]), (6, vec![])]);
}

#[test]
fn decoder_doc_ids_increase() {
    let mut cache = RamPageCache::new();
    let mut listing = Listing::new();
    for i in 0..2000u32 {
        listing.add(&[doc(i * 3), doc(i * 3)], &mut cache);
        if i % 97 == 0 {
            listing.commit(&mut cache);
        }
    }
    listing.commit(&mut cache);
    let mut decoder = listing.posting_decoder(&cache);
    let docs: Vec<u32> = read_all(&mut decoder, &cache).into_iter().map(|p| p.0).collect();
    assert_eq!(docs.len(), 2000);
    assert!(docs.windows(2).all(|w| w[0] < w[1]));
}

#[test]
fn seek_finds_first_at_least_target() {
    let mut cache = RamPageCache::new();
    let mut listing = Listing::new();
    let postings: Vec<Posting> = (0..5000u32).map(|i| Posting(i * 10, vec![i % 7])).collect();
    listing.add(&postings, &mut cache);
    listing.commit(&mut cache);
    let mut decoder = listing.posting_decoder(&cache);
    let p = decoder.next_seek(12345, &cache).unwrap();
    assert_eq!(p.0, 12350);
    assert_eq!(p.1, vec![1235 % 7]);
    assert_eq!(decoder.next(&cache).unwrap().0, 12360);
    // seeking backwards works too
    assert_eq!(decoder.next_seek(0, &cache).unwrap().0, 0);
    assert_eq!(decoder.next(&cache).unwrap().0, 10);
    assert_eq!(decoder.next_seek(49990, &cache).unwrap().0, 49990);
    assert!(decoder.next(&cache).is_none());
    assert!(decoder.next_seek(49991, &cache).is_none());
}

#[test]
fn seek_on_equal_biases() {
    // 63 full blocks, then a block of one posting in the page's last slot:
    // the next block's bias equals that posting's doc id
    let mut cache = RamPageCache::new();
    let mut listing = Listing::new();
    let first: Vec<Posting> = (0..63 * 32).map(|i| doc(i)).collect();
    listing.add(&first, &mut cache);
    listing.add(&[doc(5000)], &mut cache);
    listing.commit(&mut cache);
    assert!(!listing.has_unfull());
    listing.add(&[doc(5001)], &mut cache);
    listing.commit(&mut cache);
    let biases = listing.block_biases();
    assert_eq!(biases.len(), 65);
    assert_eq!(biases[64], 5000);
    let mut decoder = listing.posting_decoder(&cache);
    assert_eq!(decoder.next_seek(5000, &cache).unwrap().0, 5000);
    assert_eq!(decoder.next(&cache).unwrap().0, 5001);
}

#[test]
fn monotone_seeks_match_forward_reading() {
    let mut cache = RamPageCache::new();
    let mut listing = Listing::new();
    let postings: Vec<Posting> = (0..4000u32).map(|i| Posting(i * 3 + (i % 2), vec![])).collect();
    listing.add(&postings, &mut cache);
    listing.commit(&mut cache);
    let docs: Vec<u32> = postings.iter().map(|p| p.0).collect();
    let mut decoder = listing.posting_decoder(&cache);
    for target in (0..12100u32).step_by(37) {
        let want = docs.iter().copied().find(|d| *d >= target);
        let got = decoder.next_seek(target, &cache).map(|p| p.0);
        assert_eq!(got, want);
        if let Some(d) = want {
            let after = docs.iter().copied().find(|x| *x > d);
            assert_eq!(decoder.next(&cache).map(|p| p.0), after);
        }
    }
}
