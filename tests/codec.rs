use boolean_ir::compressor::{compress, decode_block, decompress, fits_in_block, force_compress, TERMINATOR};
use boolean_ir::page::BLOCKSIZE;
use boolean_ir::posting::Posting;
use boolean_ir::ring_buffer::BiasedRingBuffer;
use boolean_ir::vbyte::{vbyte_decode, vbyte_encode, vbyte_len};

#[test]
fn vbyte_known_values() {
    assert_eq!(vbyte_encode(0), vec![0x80]);
    assert_eq!(vbyte_encode(5), vec![0x85]);
    assert_eq!(vbyte_encode(127), vec![0xff]);
    assert_eq!(vbyte_encode(128), vec![0x00, 0x81]);
    assert_eq!(vbyte_encode(300), vec![0x2c, 0x82]);
    assert_eq!(vbyte_len(300), 2);
    assert_eq!(vbyte_len(u64::MAX), 10);
}

#[test]
fn vbyte_round_trip() {
    for n in [0u64, 1, 127, 128, 16383, 16384, 1 << 40, u64::MAX] {
        let mut bytes = vbyte_encode(n);
        let len = bytes.len();
        bytes.extend_from_slice(&[7, 8, 9]);
        assert_eq!(vbyte_decode(&bytes, 0), Some((n, len)));
    }
}

#[test]
fn vbyte_truncated_input() {
    assert_eq!(vbyte_decode(&[0x00, 0x01], 0), None);
    assert_eq!(vbyte_decode(&[], 0), None);
    assert_eq!(vbyte_decode(&[0x85, 0x86], 1), Some((6, 2)));
}

#[test]
fn compress_waits_for_a_full_block() {
    let mut buffer = BiasedRingBuffer::new();
    assert!(compress(&mut buffer).is_none());
    // each record takes two bytes: 31 of them do not fill a block
    for i in 0..31u32 {
        buffer.push_back(Posting(i, vec![]));
    }
    assert!(compress(&mut buffer).is_none());
    assert_eq!(buffer.count(), 31);
    buffer.push_back(Posting(31, vec![]));
    let block = compress(&mut buffer).unwrap();
    assert_eq!(block.0.len(), BLOCKSIZE);
    assert_eq!(buffer.count(), 0);
}

#[test]
fn compress_then_decompress() {
    let mut buffer = BiasedRingBuffer::new();
    for i in 0..40u32 {
        buffer.push_back(Posting(i * 3, vec![i, i + 4]));
    }
    let block = compress(&mut buffer).unwrap();
    let left = buffer.count();
    assert!(left > 0 && left < 40);
    let mut target = BiasedRingBuffer::new();
    decompress(&block, &mut target);
    let shipped = 40 - left;
    assert_eq!(target.count(), shipped);
    for i in 0..shipped as u32 {
        let p = target.pop_front().unwrap();
        assert_eq!(p.0, i * 3);
        assert_eq!(p.1, vec![i, i + 4]);
    }
}

#[test]
fn force_compress_pads_the_block() {
    let mut buffer = BiasedRingBuffer::new();
    buffer.push_back(Posting(0, vec![]));
    buffer.push_back(Posting(1, vec![]));
    assert!(compress(&mut buffer).is_none());
    let block = force_compress(&mut buffer);
    assert_eq!(buffer.count(), 0);
    // doc 0: delta 0 + 1, no positions; doc 1: delta 1 + 1, no positions
    assert_eq!(&block.0[0..4], &[0x81, 0x80, 0x82, 0x80]);
    assert!(block.0[4..].iter().all(|b| *b == TERMINATOR));
    let mut target = BiasedRingBuffer::new();
    decompress(&block, &mut target);
    assert_eq!(target.pop_front().unwrap().0, 0);
    assert_eq!(target.pop_front().unwrap().0, 1);
    assert!(target.pop_front().is_none());
}

#[test]
fn blocks_are_relative_to_the_base() {
    let mut buffer = BiasedRingBuffer::new();
    buffer.set_base(1000);
    buffer.push_back(Posting(1000, vec![3]));
    buffer.push_back(Posting(1002, vec![]));
    let block = force_compress(&mut buffer);
    let rel = decode_block(&block.0).unwrap();
    assert_eq!(rel.len(), 2);
    assert_eq!(rel[0].0, 0);
    assert_eq!(rel[0].1, vec![3]);
    assert_eq!(rel[1].0, 2);
    let mut target = BiasedRingBuffer::new();
    target.set_base(1000);
    decompress(&block, &mut target);
    assert_eq!(target.pop_front().unwrap().0, 1000);
    assert_eq!(target.pop_front().unwrap().0, 1002);
}

#[test]
fn corrupt_block_does_not_decode() {
    let mut bytes = vec![0x00; BLOCKSIZE];
    assert!(decode_block(&bytes).is_none());
    bytes[BLOCKSIZE - 1] = 0x81;
    // one doc id record without its positions count
    assert!(decode_block(&bytes[BLOCKSIZE - 1..]).is_none());
}

#[test]
fn oversized_posting_does_not_fit() {
    assert!(fits_in_block(&Posting(0, (0..50).collect())));
    assert!(!fits_in_block(&Posting(0, (0..70).collect())));
    assert!(!fits_in_block(&Posting(0, (0..40).map(|i| i * 1000).collect())));
}
