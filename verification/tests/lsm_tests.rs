use mini_lsm::block::{Block, BlockBuilder, BlockIterator};
use mini_lsm::iterators::{IterSource, MemtableIterator, MergeIterator, StorageIterator};
use mini_lsm::lsm_storage::LsmStorage;
use mini_lsm::mem_table::{Bound, Memtable};
use mini_lsm::table::{BlockCache, SsTableBuilder};

fn build_block(entries: &[(&[u8], &[u8])], size: usize) -> Block {
    let mut b = BlockBuilder::new(size);
    for (k, v) in entries {
        assert!(b.add(k, v));
    }
    b.build()
}

#[test]
fn block_round_trip() {
    let b = build_block(&[(b"apple", b"1"), (b"banana", b"22"), (b"cherry", b"333")], 4096);
    let enc = b.encode();
    let d = Block::decode(enc.as_slice());
    assert_eq!(d.data, b.data);
    assert_eq!(d.offsets, b.offsets);
}

#[test]
fn builder_rejects_only_when_full() {
    // 2 (count) + per entry: 4 + key + value + 2 (offset)
    let mut b = BlockBuilder::new(30);
    assert!(b.add(b"aa", b"bb"));  // estimated: 2 + 10 = 12
    assert!(b.add(b"cc", b"dd"));  // estimated: 22
    assert!(!b.add(b"ee", b"ff"));  // would reach 32 > 30
    // the first entry is accepted no matter how large
    let mut small = BlockBuilder::new(16);
    let big_key = vec![b'k'; 100];
    let big_val = vec![b'v'; 200];
    assert!(small.add(&big_key, &big_val));
    assert!(!small.add(b"zz", b"q"));
}

#[test]
fn iterator_keeps_insertion_order() {
    let keys: Vec<Vec<u8>> = (0..10u8).map(|i| vec![b'k', b'0' + i]).collect();
    let mut b = BlockBuilder::new(4096);
    for k in &keys {
        assert!(b.add(k, b"v"));
    }
    let enc = b.build().encode();
    let block = Block::decode(enc.as_slice());
    let mut it = BlockIterator::create_and_seek_to_first(block);
    let mut seen: Vec<Vec<u8>> = Vec::new();
    while it.is_valid() {
        seen.push(it.key());
        it.next();
    }
    assert_eq!(seen, keys);
}

#[test]
fn block_seek_to_key() {
    let block = build_block(&[(b"b", b"1"), (b"d", b"2"), (b"f", b"3")], 4096);
    let mut it = BlockIterator::create_and_seek_to_key(block, b"c");
    assert!(it.is_valid());
    assert_eq!(it.key(), b"d".to_vec());
    assert_eq!(it.value(), b"2".to_vec());
    it.seek_to_key(b"g");
    assert!(!it.is_valid());
}

fn sample_table() -> mini_lsm::table::SsTable {
    // a tiny block size forces one block per entry
    let mut b = SsTableBuilder::new(16);
    b.add(b"aa", b"11");
    b.add(b"cc", b"22");
    b.add(b"ee", b"33");
    b.build(7, Some(BlockCache::new(64)))
}

#[test]
fn table_meta_matches_blocks() {
    let t = sample_table();
    assert_eq!(t.num_of_blocks(), 3);
    assert_eq!(t.metas.len(), 3);
    for i in 0..t.num_of_blocks() {
        let blk = t.read_block(i);
        let it = BlockIterator::create_and_seek_to_first(blk);
        assert_eq!(it.key(), t.metas[i].first_key);
    }
}

#[test]
fn table_find_block_idx() {
    let t = sample_table();
    assert_eq!(t.find_block_idx(b"a"), 0); // below every first key
    assert_eq!(t.find_block_idx(b"aa"), 0);
    assert_eq!(t.find_block_idx(b"bb"), 0);
    assert_eq!(t.find_block_idx(b"cc"), 1);
    assert_eq!(t.find_block_idx(b"zz"), 2);
}

#[test]
fn table_cached_read_matches() {
    let t = sample_table();
    for i in 0..t.num_of_blocks() {
        let a = t.read_block(i);
        let b = t.read_block_cached(i);
        let c = t.read_block_cached(i); // second read comes from the cache
        assert_eq!(a.data, b.data);
        assert_eq!(a.offsets, b.offsets);
        assert_eq!(a.data, c.data);
        assert_eq!(a.offsets, c.offsets);
    }
}

fn mem_src(entries: &[(&[u8], &[u8])]) -> IterSource {
    let v: Vec<(Vec<u8>, Vec<u8>)> =
        entries.iter().map(|(k, w)| (k.to_vec(), w.to_vec())).collect();
    IterSource::Mem(MemtableIterator::new(v))
}

#[test]
fn merge_output_is_ascending() {
    let s0 = mem_src(&[(b"b", b"0"), (b"d", b"0")]);
    let s1 = mem_src(&[(b"a", b"1"), (b"c", b"1"), (b"e", b"1")]);
    let m = MergeIterator::create(vec![s0, s1]);
    let mut m = m;
    let mut keys: Vec<Vec<u8>> = Vec::new();
    while m.is_valid() {
        keys.push(m.key());
        m.next();
    }
    assert_eq!(keys, vec![b"a".to_vec(), b"b".to_vec(), b"c".to_vec(), b"d".to_vec(), b"e".to_vec()]);
}

#[test]
fn merge_prefers_lower_index_on_ties() {
    let s0 = mem_src(&[(b"k", b"new"), (b"z", b"0")]);
    let s1 = mem_src(&[(b"k", b"old"), (b"y", b"1")]);
    let mut m = MergeIterator::create(vec![s0, s1]);
    let mut out: Vec<(Vec<u8>, Vec<u8>)> = Vec::new();
    while m.is_valid() {
        out.push((m.key(), m.value()));
        m.next();
    }
    assert_eq!(
        out,
        vec![
            (b"k".to_vec(), b"new".to_vec()),
            (b"y".to_vec(), b"1".to_vec()),
            (b"z".to_vec(), b"0".to_vec()),
        ]
    );
}

#[test]
fn memtable_put_get_scan() {
    let mut m = Memtable::create();
    m.put(b"b", b"2");
    m.put(b"a", b"1");
    m.put(b"c", b"3");
    m.put(b"b", b"22"); // replace
    assert_eq!(m.get(b"b"), Some(b"22".to_vec()));
    assert_eq!(m.get(b"x"), None);
    let r = m.scan(&Bound::Included(b"a".to_vec()), &Bound::Excluded(b"c".to_vec()));
    let keys: Vec<Vec<u8>> = r.iter().map(|e| e.0.clone()).collect();
    assert_eq!(keys, vec![b"a".to_vec(), b"b".to_vec()]);
}

fn collect(mut it: mini_lsm::lsm_iterator::FusedIterator) -> Vec<(Vec<u8>, Vec<u8>)> {
    let mut out = Vec::new();
    while it.is_valid() {
        out.push((it.key(), it.value()));
        it.next().unwrap();
    }
    out
}

#[test]
fn engine_put_get() {
    let mut db = LsmStorage::open();
    db.put(b"a", b"1").unwrap();
    db.put(b"b", b"2").unwrap();
    assert_eq!(db.get(b"a"), Some(b"1".to_vec()));
    assert_eq!(db.get(b"b"), Some(b"2".to_vec()));
    assert_eq!(db.get(b"c"), None);
}

#[test]
fn engine_delete_hides_key() {
    let mut db = LsmStorage::open();
    db.put(b"a", b"1").unwrap();
    db.delete(b"a").unwrap();
    assert_eq!(db.get(b"a"), None);
    let out = collect(db.scan(&Bound::Unbounded, &Bound::Unbounded));
    assert!(out.is_empty());
}

#[test]
fn engine_sync_keeps_latest_value() {
    let mut db = LsmStorage::open();
    db.put(b"a", b"1").unwrap();
    db.sync();
    db.put(b"a", b"2").unwrap();
    assert_eq!(db.get(b"a"), Some(b"2".to_vec()));
    db.sync();
    assert_eq!(db.get(b"a"), Some(b"2".to_vec()));
}

#[test]
fn engine_delete_after_sync() {
    let mut db = LsmStorage::open();
    db.put(b"a", b"1").unwrap();
    db.put(b"b", b"2").unwrap();
    db.sync();
    db.delete(b"a").unwrap();
    assert_eq!(db.get(b"a"), None);
    let out = collect(db.scan(&Bound::Unbounded, &Bound::Unbounded));
    assert_eq!(out, vec![(b"b".to_vec(), b"2".to_vec())]);
}

#[test]
fn engine_scan_range_after_sync() {
    let mut db = LsmStorage::open();
    for i in 0..100u32 {
        let key = format!("k{:02}", i).into_bytes();
        let val = format!("{}", i).into_bytes();
        db.put(&key, &val).unwrap();
    }
    db.sync();
    let out = collect(db.scan(
        &Bound::Included(b"k10".to_vec()),
        &Bound::Excluded(b"k15".to_vec()),
    ));
    let expect: Vec<(Vec<u8>, Vec<u8>)> = (10..15u32)
        .map(|i| (format!("k{:02}", i).into_bytes(), format!("{}", i).into_bytes()))
        .collect();
    assert_eq!(out, expect);
}

#[test]
fn engine_oversized_entry_single_block() {
    let mut db = LsmStorage::open();
    let key = vec![b'k'; 3000];
    let val = vec![b'v'; 3000];
    db.put(&key, &val).unwrap();
    let (id, image) = db.sync();
    assert_eq!(id, 1);
    assert!(!image.is_empty());
    assert_eq!(db.inner.l0_sstable[0].num_of_blocks(), 1);
    assert_eq!(db.get(&key), Some(val));
}
