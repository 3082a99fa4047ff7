use std::sync::Arc;

use mini_lsm::block::{Block, BlockBuilder, BlockIterator};
use mini_lsm::checksum::fingerprint64;
use mini_lsm::compare_keys;
use mini_lsm::error::LsmError;
use mini_lsm::iterators::merge_iterator::MergeIterator;
use mini_lsm::iterators::two_merge_iterator::TwoMergeIterator;
use mini_lsm::iterators::StorageIterator;
use mini_lsm::keys::KeyOrdering;
use mini_lsm::mem_table::{MemTable, MemTableIterator, ScanBound};
use mini_lsm::table::{BlockMeta, FileObject, SsTable, SsTableBuilder, SsTableIterator};

fn sample_block() -> Block {
    let mut builder = BlockBuilder::new(4096);
    assert!(builder.add(b"k1", b"v1"));
    assert!(builder.add(b"k2", b"v22"));
    assert!(builder.add(b"key3", b"value333"));
    builder.build()
}

#[test]
fn block_round_trip() {
    let block = sample_block();
    let encoded = block.encode();
    assert!(encoded.len() > 0);
    let decoded = Block::decode(&encoded).unwrap();
    let mut iter = BlockIterator::create_and_seek_to_first(Arc::new(decoded));
    assert!(iter.is_valid());
    assert_eq!(iter.key(), b"k1");
    assert_eq!(iter.value(), b"v1");
    iter.next();
    assert!(iter.is_valid());
    assert_eq!(iter.key(), b"k2");
    assert_eq!(iter.value(), b"v22");
    iter.next();
    assert!(iter.is_valid());
    assert_eq!(iter.key(), b"key3");
    assert_eq!(iter.value(), b"value333");
    iter.next();
    assert!(!iter.is_valid());
}

#[test]
fn block_seek_to_key() {
    let block = Arc::new(sample_block());
    let mut iter = BlockIterator::create_and_seek_to_key(Arc::clone(&block), b"k2");
    assert!(iter.is_valid());
    assert_eq!(iter.key(), b"k2");
    assert_eq!(iter.value(), b"v22");
    iter.seek_to_key(b"k15");
    assert!(iter.is_valid());
    assert_eq!(iter.key(), b"k2");
    iter.seek_to_key(b"z");
    assert!(!iter.is_valid());
}

#[test]
fn block_oversized_first_entry() {
    let mut builder = BlockBuilder::new(10);
    assert!(builder.add(b"a", b"0123456789"));
    assert!(!builder.add(b"b", b"x"));
    let block = builder.build();
    let mut iter = BlockIterator::create_and_seek_to_first(Arc::new(block));
    assert!(iter.is_valid());
    assert_eq!(iter.key(), b"a");
    assert_eq!(iter.value(), b"0123456789");
    iter.next();
    assert!(!iter.is_valid());
}

#[test]
fn block_corruption_detected() {
    let block = sample_block();
    let mut encoded = block.encode();
    // Flip the last byte, inside the checksum field.
    let last = encoded.len() - 1;
    encoded[last] ^= 0x01;
    assert!(matches!(Block::decode(&encoded), Err(LsmError::CorruptBlock)));
}

#[test]
fn block_data_bit_flip_detected() {
    let block = sample_block();
    let mut encoded = block.encode();
    // Flip one bit inside the data section.
    encoded[3] ^= 0x40;
    assert!(matches!(Block::decode(&encoded), Err(LsmError::CorruptBlock)));
}

#[test]
fn block_decode_short_input() {
    assert!(matches!(Block::decode(b"tiny"), Err(LsmError::CorruptBlock)));
}

#[test]
fn fingerprint_is_stable() {
    // FNV-1a with nothing folded in returns the offset basis.
    assert_eq!(fingerprint64(b""), 0xcbf29ce484222325);
    assert_eq!(fingerprint64(b"abc"), fingerprint64(b"abc"));
    assert_ne!(fingerprint64(b"ab"), fingerprint64(b"ba"));
}

#[test]
fn compare_keys_is_lexicographic() {
    assert!(matches!(compare_keys(b"abc", b"abd"), KeyOrdering::Less));
    assert!(matches!(compare_keys(b"abc", b"abc"), KeyOrdering::Equal));
    assert!(matches!(compare_keys(b"b", b"ab"), KeyOrdering::Greater));
    assert!(matches!(compare_keys(b"ab", b"abc"), KeyOrdering::Less));
    assert!(matches!(compare_keys(b"", b"a"), KeyOrdering::Less));
}

#[test]
fn meta_round_trip_and_corruption() {
    let metas = vec![
        BlockMeta { offset: 0, first_key: b"apple".to_vec() },
        BlockMeta { offset: 57, first_key: b"kiwi".to_vec() },
    ];
    let mut buf = Vec::new();
    BlockMeta::encode_block_meta(&metas, &mut buf);
    let decoded = BlockMeta::decode_block_meta(&buf).unwrap();
    assert_eq!(decoded.len(), 2);
    assert_eq!(decoded[0].offset, 0);
    assert_eq!(decoded[0].first_key, b"apple".to_vec());
    assert_eq!(decoded[1].offset, 57);
    assert_eq!(decoded[1].first_key, b"kiwi".to_vec());
    // A bit flip in the meta section is caught.
    let mut corrupt = buf.clone();
    corrupt[1] ^= 0x10;
    assert!(matches!(
        BlockMeta::decode_block_meta(&corrupt),
        Err(LsmError::CorruptMeta)
    ));
}

#[test]
fn file_object_short_read() {
    let file = FileObject::create(vec![1, 2, 3, 4]);
    assert_eq!(file.size(), 4);
    assert_eq!(file.read(1, 2).unwrap(), vec![2, 3]);
    assert_eq!(file.read(2, 3).unwrap_err(), LsmError::ShortRead);
}

fn single_key_blocks_sst() -> SsTable {
    // Each key starts its own block: the second add never fits.
    let mut builder = SsTableBuilder::new(10);
    builder.add(b"a", b"");
    builder.add(b"g", b"");
    builder.add(b"m", b"");
    builder.add(b"s", b"");
    builder.build()
}

#[test]
fn sst_find_block_idx() {
    let sst = single_key_blocks_sst();
    assert_eq!(sst.num_of_blocks(), 4);
    assert_eq!(sst.find_block_idx(b"0"), 0);
    assert_eq!(sst.find_block_idx(b"a"), 0);
    assert_eq!(sst.find_block_idx(b"f"), 0);
    assert_eq!(sst.find_block_idx(b"g"), 1);
    assert_eq!(sst.find_block_idx(b"p"), 2);
    assert_eq!(sst.find_block_idx(b"z"), 3);
}

#[test]
fn sst_full_scan_yields_input() {
    let mut builder = SsTableBuilder::new(16);
    let pairs: Vec<(&[u8], &[u8])> = vec![
        (b"apple", b"1"),
        (b"banana", b"22"),
        (b"cherry", b"333"),
        (b"damson", b"4444"),
        (b"elder", b"55555"),
    ];
    for (k, v) in &pairs {
        builder.add(k, v);
    }
    let sst = builder.build();
    assert!(sst.num_of_blocks() > 1);
    let mut iter = SsTableIterator::create_and_seek_to_first(Arc::new(sst)).unwrap();
    let mut seen: Vec<(Vec<u8>, Vec<u8>)> = Vec::new();
    while iter.is_valid() {
        seen.push((iter.key().to_vec(), iter.value().to_vec()));
        iter.next().unwrap();
    }
    let expected: Vec<(Vec<u8>, Vec<u8>)> =
        pairs.iter().map(|(k, v)| (k.to_vec(), v.to_vec())).collect();
    assert_eq!(seen, expected);
}

#[test]
fn sst_seek_across_block_boundary() {
    // Block 0 holds {a, b, c}, block 1 holds {g, h}.
    let mut builder = SsTableBuilder::new(25);
    builder.add(b"a", b"");
    builder.add(b"b", b"");
    builder.add(b"c", b"");
    builder.add(b"g", b"");
    builder.add(b"h", b"");
    let sst = builder.build();
    assert_eq!(sst.num_of_blocks(), 2);
    let table = Arc::new(sst);
    let mut iter = SsTableIterator::create_and_seek_to_key(Arc::clone(&table), b"d").unwrap();
    assert!(iter.is_valid());
    assert_eq!(iter.key(), b"g");
    iter.seek_to_key(b"z").unwrap();
    assert!(!iter.is_valid());
    iter.seek_to_key(b"b").unwrap();
    assert!(iter.is_valid());
    assert_eq!(iter.key(), b"b");
}

#[test]
fn sst_open_round_trip() {
    let mut builder = SsTableBuilder::new(4096);
    builder.add(b"k1", b"v1");
    builder.add(b"k2", b"v2");
    let sst = builder.build();
    let image = sst.raw_image();
    let reopened = SsTable::open(FileObject::create(image)).unwrap();
    assert_eq!(reopened.num_of_blocks(), 1);
    let mut iter = SsTableIterator::create_and_seek_to_first(Arc::new(reopened)).unwrap();
    assert_eq!(iter.key(), b"k1");
    iter.next().unwrap();
    assert_eq!(iter.key(), b"k2");
    iter.next().unwrap();
    assert!(!iter.is_valid());
}

#[test]
fn sst_open_corrupt_meta() {
    let mut builder = SsTableBuilder::new(4096);
    builder.add(b"k1", b"v1");
    let sst = builder.build();
    let mut image = sst.raw_image();
    // Flip a bit inside the meta section (just before the 12 trailer bytes).
    let pos = image.len() - 13;
    image[pos] ^= 0x08;
    assert!(matches!(
        SsTable::open(FileObject::create(image)),
        Err(LsmError::CorruptMeta)
    ));
}

#[test]
fn memtable_put_get_overwrite() {
    let mut table = MemTable::create();
    assert!(table.get(b"k").is_none());
    table.put(b"k", b"1");
    assert_eq!(table.get(b"k").unwrap(), b"1".to_vec());
    table.put(b"k", b"2");
    assert_eq!(table.get(b"k").unwrap(), b"2".to_vec());
    table.put(b"j", b"0");
    assert_eq!(table.get(b"j").unwrap(), b"0".to_vec());
}

#[test]
fn memtable_scan_bounds() {
    let mut table = MemTable::create();
    table.put(b"a", b"1");
    table.put(b"b", b"2");
    table.put(b"c", b"3");
    table.put(b"d", b"4");
    let mut iter = table.scan(
        &ScanBound::Excluded(b"a".to_vec()),
        &ScanBound::Included(b"c".to_vec()),
    );
    let mut seen: Vec<Vec<u8>> = Vec::new();
    while iter.is_valid() {
        seen.push(iter.key().to_vec());
        iter.next().unwrap();
    }
    assert_eq!(seen, vec![b"b".to_vec(), b"c".to_vec()]);
    let empty = table.scan(
        &ScanBound::Excluded(b"x".to_vec()),
        &ScanBound::Unbounded,
    );
    assert!(!empty.is_valid());
}

#[test]
fn memtable_flush_to_sst() {
    let mut table = MemTable::create();
    table.put(b"cherry", b"3");
    table.put(b"apple", b"1");
    table.put(b"banana", b"2");
    let mut builder = SsTableBuilder::new(4096);
    table.flush(&mut builder).unwrap();
    let sst = builder.build();
    let mut iter = SsTableIterator::create_and_seek_to_first(Arc::new(sst)).unwrap();
    assert_eq!(iter.key(), b"apple");
    iter.next().unwrap();
    assert_eq!(iter.key(), b"banana");
    iter.next().unwrap();
    assert_eq!(iter.key(), b"cherry");
    iter.next().unwrap();
    assert!(!iter.is_valid());
}

#[test]
fn memtable_flush_appends_to_builder() {
    // Flushing appends after whatever the builder already holds, as long as
    // every table key exceeds the builder's last key.
    let mut builder = SsTableBuilder::new(4096);
    builder.add(b"aa", b"0");
    let mut table = MemTable::create();
    table.put(b"cc", b"2");
    table.put(b"bb", b"1");
    table.flush(&mut builder).unwrap();
    let sst = builder.build();
    let mut iter = SsTableIterator::create_and_seek_to_first(Arc::new(sst)).unwrap();
    let mut seen: Vec<Vec<u8>> = Vec::new();
    while iter.is_valid() {
        seen.push(iter.key().to_vec());
        iter.next().unwrap();
    }
    assert_eq!(seen, vec![b"aa".to_vec(), b"bb".to_vec(), b"cc".to_vec()]);
}

fn memtable_iter(pairs: &[(&[u8], &[u8])]) -> MemTableIterator {
    let mut table = MemTable::create();
    for (k, v) in pairs {
        table.put(k, v);
    }
    table.scan(&ScanBound::Unbounded, &ScanBound::Unbounded)
}

#[test]
fn merge_iterator_tie_break_and_dedup() {
    let i0 = memtable_iter(&[(b"a", b"A0"), (b"c", b"C0")]);
    let i1 = memtable_iter(&[(b"a", b"A1"), (b"b", b"B1"), (b"c", b"C1")]);
    let i2 = memtable_iter(&[(b"b", b"B2"), (b"d", b"D2")]);
    let mut merged = MergeIterator::create(vec![Box::new(i0), Box::new(i1), Box::new(i2)]);
    let mut seen: Vec<(Vec<u8>, Vec<u8>)> = Vec::new();
    while merged.is_valid() {
        seen.push((merged.key().to_vec(), merged.value().to_vec()));
        merged.next().unwrap();
    }
    let expected: Vec<(Vec<u8>, Vec<u8>)> = vec![
        (b"a".to_vec(), b"A0".to_vec()),
        (b"b".to_vec(), b"B1".to_vec()),
        (b"c".to_vec(), b"C0".to_vec()),
        (b"d".to_vec(), b"D2".to_vec()),
    ];
    assert_eq!(seen, expected);
}

#[test]
fn merge_iterator_empty_inputs() {
    let i0 = memtable_iter(&[]);
    let i1 = memtable_iter(&[]);
    let mut merged = MergeIterator::create(vec![Box::new(i0), Box::new(i1)]);
    assert!(!merged.is_valid());
    let none: Vec<Box<MemTableIterator>> = Vec::new();
    merged = MergeIterator::create(none);
    assert!(!merged.is_valid());
}

#[test]
fn two_merge_prefers_a() {
    let a = memtable_iter(&[(b"k", b"A")]);
    let b = memtable_iter(&[(b"k", b"B"), (b"m", b"Bm")]);
    let mut merged = TwoMergeIterator::create(a, b).unwrap();
    assert!(merged.is_valid());
    assert_eq!(merged.key(), b"k");
    assert_eq!(merged.value(), b"A");
    merged.next().unwrap();
    assert!(merged.is_valid());
    assert_eq!(merged.key(), b"m");
    assert_eq!(merged.value(), b"Bm");
    merged.next().unwrap();
    assert!(!merged.is_valid());
}

#[test]
fn two_merge_memtable_over_sst() {
    // A memtable scan stacked over an SST scan: the memtable wins on ties.
    let mut builder = SsTableBuilder::new(4096);
    builder.add(b"a", b"old");
    builder.add(b"b", b"keep");
    let sst = builder.build();
    let sst_iter = SsTableIterator::create_and_seek_to_first(Arc::new(sst)).unwrap();
    let mem_iter = memtable_iter(&[(b"a", b"new"), (b"c", b"fresh")]);
    let mut merged = TwoMergeIterator::create(mem_iter, sst_iter).unwrap();
    let mut seen: Vec<(Vec<u8>, Vec<u8>)> = Vec::new();
    while merged.is_valid() {
        seen.push((merged.key().to_vec(), merged.value().to_vec()));
        merged.next().unwrap();
    }
    let expected: Vec<(Vec<u8>, Vec<u8>)> = vec![
        (b"a".to_vec(), b"new".to_vec()),
        (b"b".to_vec(), b"keep".to_vec()),
        (b"c".to_vec(), b"fresh".to_vec()),
    ];
    assert_eq!(seen, expected);
}

#[test]
fn error_descriptions() {
    assert_eq!(LsmError::CorruptBlock.describe(), "corrupt block");
    assert_eq!(LsmError::CorruptMeta.describe(), "corrupt meta section");
    assert_eq!(LsmError::ShortRead.describe(), "short read");
    assert_eq!(LsmError::InvariantViolated.describe(), "invariant violated");
}
