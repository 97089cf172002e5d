use fluxdb::buffer_pool::manager::BufferPoolManager;
use fluxdb::constants::{MAX_PAGE_SIZE, MAX_VALUE_SIZE};
use fluxdb::disk::DiskManager;
use fluxdb::error::IndexError;
use fluxdb::index::range::KeyBound;
use fluxdb::index::BTreeIndex;
use fluxdb::page::internal::InternalPageAccessor;
use fluxdb::page::leaf::LeafPageAccessor;
use fluxdb::page::{is_incomplete_split, page_lsn, set_incomplete_split, LEAF};
use fluxdb::transaction::{Snapshot, Transaction};
use fluxdb::transaction_manager::TransactionManager;
use fluxdb::wal::record::WalRecordType;
use fluxdb::wal::segment::WalIterator;
use fluxdb::wal::Wal;

type Idx = BTreeIndex<&'static [u8], &'static [u8]>;
type Rows = Vec<(Vec<u8>, Vec<u8>)>;
type Bound = KeyBound<&'static [u8]>;

fn new_pool() -> BufferPoolManager {
    BufferPoolManager::new(
        DiskManager::new(MAX_PAGE_SIZE),
        Wal::new(Vec::new()).unwrap(),
    )
}

fn make_index() -> Idx {
    match BTreeIndex::create(new_pool()) {
        Ok((index, _)) => index,
        Err((e, _)) => panic!("create failed: {:?}", e),
    }
}

/// An index with transactions that each take everything before them as committed.
struct Auto {
    idx: Idx,
    tm: TransactionManager,
    next_id: u64,
}

impl Auto {
    fn new() -> Self {
        Auto {
            idx: make_index(),
            tm: TransactionManager::new(),
            next_id: 1,
        }
    }

    fn auto(&mut self) -> Transaction {
        let id = self.next_id;
        self.next_id += 1;
        Transaction::new(id, Snapshot::latest())
    }

    fn get(&mut self, key: &[u8]) -> Result<Option<Vec<u8>>, IndexError> {
        let txn = self.auto();
        self.idx.get(&key, &txn, &self.tm)
    }

    fn insert(&mut self, key: &[u8], value: &[u8]) -> Result<(), IndexError> {
        let txn = self.auto();
        self.idx.insert(&key, &value, &txn, &self.tm)
    }

    fn update(&mut self, key: &[u8], value: &[u8]) -> Result<(), IndexError> {
        let txn = self.auto();
        self.idx.update(&key, &value, &txn, &self.tm)
    }

    fn delete(&mut self, key: &[u8]) -> Result<(), IndexError> {
        let txn = self.auto();
        self.idx.delete(&key, &txn, &self.tm)
    }

    fn range(&mut self, start: Bound, end: Bound) -> Rows {
        let txn = self.auto();
        scan(&mut self.idx, start, end, &txn, &self.tm)
    }

    fn range_backward(&mut self, start: Bound, end: Bound) -> Rows {
        let txn = self.auto();
        let mut it = match self.idx.range_backward(&start, &end, &txn, &self.tm) {
            Ok(it) => it,
            Err(e) => panic!("scan failed: {:?}", e),
        };
        let mut rows = Vec::new();
        while let Some(row) = it.next() {
            rows.push(row);
        }
        rows
    }
}

fn scan(
    idx: &mut Idx,
    start: Bound,
    end: Bound,
    txn: &Transaction,
    tm: &TransactionManager,
) -> Rows {
    let mut it = match idx.range(&start, &end, txn, tm) {
        Ok(it) => it,
        Err(e) => panic!("scan failed: {:?}", e),
    };
    let mut rows = Vec::new();
    while let Some(row) = it.next() {
        rows.push(row.unwrap());
    }
    rows
}

fn all() -> (Bound, Bound) {
    (KeyBound::Unbounded, KeyBound::Unbounded)
}

fn leak_bytes(b: &[u8]) -> &'static [u8] {
    Box::leak(b.to_vec().into_boxed_slice())
}

fn page_bytes(idx: &mut Idx, id: u64) -> Vec<u8> {
    let guard = idx.pool.fetch_page(id).unwrap();
    let bytes = guard.memory().to_vec();
    idx.pool.release(guard);
    bytes
}

#[test]
fn index_get_missing_key_returns_none() {
    let mut idx = Auto::new();
    assert!(idx.get(b"hello").unwrap().is_none());
}

#[test]
fn index_insert_and_get_single_entry() {
    let mut idx = Auto::new();
    idx.insert(b"key", b"value").unwrap();
    let got = idx.get(b"key").unwrap().unwrap();
    assert_eq!(got, b"value");
}

#[test]
fn index_insert_duplicate_returns_error() {
    let mut idx = Auto::new();
    idx.insert(b"k", b"v1").unwrap();
    match idx.insert(b"k", b"v2") {
        Err(IndexError::DuplicateKey) => {}
        other => panic!("expected DuplicateKey, got {:?}", other),
    }
}

#[test]
fn index_update_returns_new_value() {
    let mut idx = Auto::new();
    idx.insert(b"k", b"v1").unwrap();
    idx.update(b"k", b"v2").unwrap();
    let got = idx.get(b"k").unwrap().unwrap();
    assert_eq!(got, b"v2");
}

#[test]
fn index_update_missing_key_returns_error() {
    let mut idx = Auto::new();
    match idx.update(b"nope", b"v") {
        Err(IndexError::KeyNotFound) => {}
        other => panic!("expected KeyNotFound, got {:?}", other),
    }
}

#[test]
fn index_delete_missing_key_returns_error() {
    let mut idx = Auto::new();
    match idx.delete(b"nope") {
        Err(IndexError::KeyNotFound) => {}
        other => panic!("expected KeyNotFound, got {:?}", other),
    }
}

#[test]
fn index_insert_then_delete() {
    let mut idx = Auto::new();
    idx.insert(b"k", b"v").unwrap();
    idx.delete(b"k").unwrap();
    assert!(idx.get(b"k").unwrap().is_none());
}

#[test]
fn index_insert_after_delete() {
    let mut idx = Auto::new();
    idx.insert(b"k", b"v1").unwrap();
    idx.delete(b"k").unwrap();
    let r = idx.insert(b"k", b"v2");
    assert!(r.is_ok(), "insert after delete failed: {:?}", r.err());
    let got = idx.get(b"k").unwrap();
    assert!(got.is_some(), "get returned None after insert-after-delete");
    assert_eq!(got.unwrap(), b"v2");
}

#[test]
fn index_sequential_inserts_all_readable() {
    let mut idx = Auto::new();
    for i in 0u64..200 {
        let k = i.to_be_bytes();
        let v = (i * 10).to_be_bytes();
        idx.insert(&k, &v).unwrap();
    }
    for i in 0u64..200 {
        let k = i.to_be_bytes();
        let expected = (i * 10).to_be_bytes();
        let got = idx
            .get(&k)
            .unwrap()
            .unwrap_or_else(|| panic!("key {} missing", i));
        assert_eq!(got, expected);
    }
}

#[test]
fn index_large_insert_all_keys_readable() {
    let mut idx = Auto::new();
    for i in 0u32..2000 {
        let k = i.to_be_bytes();
        let v = (i + 1).to_be_bytes();
        idx.insert(&k, &v).unwrap();
    }
    for i in 0u32..2000 {
        let k = i.to_be_bytes();
        let expected = (i + 1).to_be_bytes();
        let got = idx
            .get(&k)
            .unwrap()
            .unwrap_or_else(|| panic!("key {} missing", i));
        assert_eq!(got, expected);
    }
}

#[test]
fn index_reverse_order_inserts_all_readable() {
    let mut idx = Auto::new();
    for i in (0u32..500).rev() {
        let k = i.to_be_bytes();
        idx.insert(&k, &k).unwrap();
    }
    for i in 0u32..500 {
        let k = i.to_be_bytes();
        let got = idx
            .get(&k)
            .unwrap()
            .unwrap_or_else(|| panic!("key {} missing", i));
        assert_eq!(got, k);
    }
}

#[test]
fn index_delete_half_keys_remaining_readable() {
    let mut idx = Auto::new();
    for i in 0u32..200 {
        let k = i.to_be_bytes();
        idx.insert(&k, &k).unwrap();
    }
    for i in (0u32..200).filter(|x| x % 2 == 0) {
        let k = i.to_be_bytes();
        idx.delete(&k).unwrap();
    }
    for i in (0u32..200).filter(|x| x % 2 == 1) {
        let k = i.to_be_bytes();
        idx.get(&k)
            .unwrap()
            .unwrap_or_else(|| panic!("odd key {} missing", i));
    }
    for i in (0u32..200).filter(|x| x % 2 == 0) {
        let k = i.to_be_bytes();
        assert!(idx.get(&k).unwrap().is_none());
    }
}

#[test]
fn index_stress_update_all_keys() {
    let mut idx = Auto::new();
    let n = 200u32;
    for i in 0..n {
        let k = i.to_be_bytes();
        idx.insert(&k, &k).unwrap();
    }
    for i in 0..n {
        let k = i.to_be_bytes();
        let v = (i + 1000).to_be_bytes();
        idx.update(&k, &v).unwrap();
    }
    for i in 0..n {
        let k = i.to_be_bytes();
        let expected = (i + 1000).to_be_bytes();
        let got = idx
            .get(&k)
            .unwrap()
            .unwrap_or_else(|| panic!("key {} missing after update", i));
        assert_eq!(got, expected);
    }
}

#[test]
fn index_range_scan_full() {
    let mut idx = Auto::new();
    for i in 0u32..100 {
        let k = i.to_be_bytes();
        idx.insert(&k, &k).unwrap();
    }
    let (start, end) = all();
    let results = idx.range(start, end);
    assert_eq!(results.len(), 100);
}

#[test]
fn index_range_scan_skips_deleted() {
    let mut idx = Auto::new();
    for i in 0u32..10 {
        let k = i.to_be_bytes();
        idx.insert(&k, &k).unwrap();
    }
    for &i in &[3u32, 5, 7] {
        let k = i.to_be_bytes();
        idx.delete(&k).unwrap();
    }
    let (start, end) = all();
    let results = idx.range(start, end);
    assert_eq!(results.len(), 7);
}

#[test]
fn index_range_scan_bounded() {
    let mut idx = Auto::new();
    for i in 0u32..100 {
        let k = i.to_be_bytes();
        idx.insert(&k, &k).unwrap();
    }
    let start: &'static [u8] = leak_bytes(&10u32.to_be_bytes());
    let end: &'static [u8] = leak_bytes(&20u32.to_be_bytes());
    let results = idx.range(KeyBound::Included(start), KeyBound::Excluded(end));
    assert_eq!(results.len(), 10);
}

#[test]
fn index_write_conflict_on_concurrent_delete() {
    let mut tm = TransactionManager::new();
    let mut idx = make_index();
    let k = &b"k"[..];

    let insert_txn = tm.begin();
    idx.insert(&k, &(&b"v"[..]), &insert_txn, &tm).unwrap();
    tm.commit(insert_txn.txn_id);

    let txn10 = tm.begin();
    idx.delete(&k, &txn10, &tm).unwrap();

    let txn20 = tm.begin();

    match idx.delete(&k, &txn20, &tm) {
        Err(IndexError::WriteConflict) => {}
        other => panic!("expected WriteConflict, got {:?}", other),
    }
}

#[test]
fn index_vacuum_reclaims_space() {
    let mut tm = TransactionManager::new();
    let mut idx = make_index();

    for i in 0u32..100 {
        let k = i.to_be_bytes();
        let txn = tm.begin();
        idx.insert(&(&k[..]), &(&k[..]), &txn, &tm).unwrap();
        tm.commit(txn.txn_id);
    }

    for i in 0u32..50 {
        let k = i.to_be_bytes();
        let txn = tm.begin();
        idx.delete(&(&k[..]), &txn, &tm).unwrap();
        tm.commit(txn.txn_id);
    }

    let removed = idx.vacuum(&mut tm).unwrap();
    assert_eq!(removed, 50);

    let reader = tm.begin();
    let (start, end) = all();
    let results = scan(&mut idx, start, end, &reader, &tm);
    assert_eq!(results.len(), 50);
}

#[test]
fn tests_get_missing_key_returns_none() {
    let mut idx = Auto::new();
    assert!(idx.get(b"hello").unwrap().is_none());
}

#[test]
fn tests_insert_and_get_single_entry() {
    let mut idx = Auto::new();
    idx.insert(b"key", b"value").unwrap();
    let got = idx.get(b"key").unwrap().unwrap();
    assert_eq!(got, b"value");
}

#[test]
fn tests_insert_duplicate_returns_error() {
    let mut idx = Auto::new();
    idx.insert(b"k", b"v1").unwrap();
    match idx.insert(b"k", b"v2") {
        Err(IndexError::DuplicateKey) => {}
        other => panic!("expected DuplicateKey, got {:?}", other),
    }
}

#[test]
fn tests_update_returns_new_value() {
    let mut idx = Auto::new();
    idx.insert(b"k", b"v1").unwrap();
    idx.update(b"k", b"v2").unwrap();
    let got = idx.get(b"k").unwrap().unwrap();
    assert_eq!(got, b"v2");
}

#[test]
fn tests_update_missing_key_returns_error() {
    let mut idx = Auto::new();
    match idx.update(b"nope", b"v") {
        Err(IndexError::KeyNotFound) => {}
        other => panic!("expected KeyNotFound, got {:?}", other),
    }
}

#[test]
fn tests_delete_missing_key_returns_error() {
    let mut idx = Auto::new();
    match idx.delete(b"nope") {
        Err(IndexError::KeyNotFound) => {}
        other => panic!("expected KeyNotFound, got {:?}", other),
    }
}

#[test]
fn tests_insert_then_delete() {
    let mut idx = Auto::new();
    idx.insert(b"k", b"v").unwrap();
    idx.delete(b"k").unwrap();
    assert!(idx.get(b"k").unwrap().is_none());
}

#[test]
fn tests_insert_after_delete() {
    let mut idx = Auto::new();
    idx.insert(b"k", b"v1").unwrap();
    idx.delete(b"k").unwrap();
    let r = idx.insert(b"k", b"v2");
    assert!(r.is_ok(), "insert after delete failed: {:?}", r.err());
    let got = idx.get(b"k").unwrap();
    assert!(got.is_some(), "get returned None after insert-after-delete");
    assert_eq!(got.unwrap(), b"v2");
}

#[test]
fn tests_sequential_inserts_all_readable() {
    let mut idx = Auto::new();
    for i in 0u64..200 {
        let k = i.to_be_bytes();
        let v = (i * 10).to_be_bytes();
        idx.insert(&k, &v).unwrap();
    }
    for i in 0u64..200 {
        let k = i.to_be_bytes();
        let expected = (i * 10).to_be_bytes();
        let got = idx
            .get(&k)
            .unwrap()
            .unwrap_or_else(|| panic!("key {} missing", i));
        assert_eq!(got, expected);
    }
}

#[test]
fn tests_large_insert_all_keys_readable() {
    let mut idx = Auto::new();
    for i in 0u32..2000 {
        let k = i.to_be_bytes();
        let v = (i + 1).to_be_bytes();
        idx.insert(&k, &v).unwrap();
    }
    for i in 0u32..2000 {
        let k = i.to_be_bytes();
        let expected = (i + 1).to_be_bytes();
        let got = idx
            .get(&k)
            .unwrap()
            .unwrap_or_else(|| panic!("key {} missing", i));
        assert_eq!(got, expected);
    }
}

#[test]
fn tests_reverse_order_inserts_all_readable() {
    let mut idx = Auto::new();
    for i in (0u32..500).rev() {
        let k = i.to_be_bytes();
        idx.insert(&k, &k).unwrap();
    }
    for i in 0u32..500 {
        let k = i.to_be_bytes();
        let got = idx
            .get(&k)
            .unwrap()
            .unwrap_or_else(|| panic!("key {} missing", i));
        assert_eq!(got, k);
    }
}

#[test]
fn tests_delete_half_keys_remaining_readable() {
    let mut idx = Auto::new();
    for i in 0u32..200 {
        let k = i.to_be_bytes();
        idx.insert(&k, &k).unwrap();
    }
    for i in (0u32..200).filter(|x| x % 2 == 0) {
        let k = i.to_be_bytes();
        idx.delete(&k).unwrap();
    }
    for i in (0u32..200).filter(|x| x % 2 == 1) {
        let k = i.to_be_bytes();
        idx.get(&k)
            .unwrap()
            .unwrap_or_else(|| panic!("odd key {} missing", i));
    }
    for i in (0u32..200).filter(|x| x % 2 == 0) {
        let k = i.to_be_bytes();
        assert!(idx.get(&k).unwrap().is_none());
    }
}

#[test]
fn tests_stress_update_all_keys() {
    let mut idx = Auto::new();
    let n = 200u32;
    for i in 0..n {
        let k = i.to_be_bytes();
        idx.insert(&k, &k).unwrap();
    }
    for i in 0..n {
        let k = i.to_be_bytes();
        let v = (i + 1000).to_be_bytes();
        idx.update(&k, &v).unwrap();
    }
    for i in 0..n {
        let k = i.to_be_bytes();
        let expected = (i + 1000).to_be_bytes();
        let got = idx
            .get(&k)
            .unwrap()
            .unwrap_or_else(|| panic!("key {} missing after update", i));
        assert_eq!(got, expected);
    }
}

#[test]
fn tests_range_scan_full() {
    let mut idx = Auto::new();
    for i in 0u32..100 {
        let k = i.to_be_bytes();
        idx.insert(&k, &k).unwrap();
    }
    let (start, end) = all();
    let results = idx.range(start, end);
    assert_eq!(results.len(), 100);
}

#[test]
fn tests_range_scan_skips_deleted() {
    let mut idx = Auto::new();
    for i in 0u32..10 {
        let k = i.to_be_bytes();
        idx.insert(&k, &k).unwrap();
    }
    for &i in &[3u32, 5, 7] {
        let k = i.to_be_bytes();
        idx.delete(&k).unwrap();
    }
    let (start, end) = all();
    let results = idx.range(start, end);
    assert_eq!(results.len(), 7);
}

#[test]
fn tests_range_scan_bounded() {
    let mut idx = Auto::new();
    for i in 0u32..100 {
        let k = i.to_be_bytes();
        idx.insert(&k, &k).unwrap();
    }
    let start: &'static [u8] = leak_bytes(&10u32.to_be_bytes());
    let end: &'static [u8] = leak_bytes(&20u32.to_be_bytes());
    let results = idx.range(KeyBound::Included(start), KeyBound::Excluded(end));
    assert_eq!(results.len(), 10);
}

#[test]
fn tests_write_conflict_on_concurrent_delete() {
    let mut tm = TransactionManager::new();
    let mut idx = make_index();
    let k = &b"k"[..];

    let insert_txn = tm.begin();
    idx.insert(&k, &(&b"v"[..]), &insert_txn, &tm).unwrap();
    tm.mark_committed(insert_txn.txn_id);

    let txn10 = tm.begin();
    idx.delete(&k, &txn10, &tm).unwrap();

    let txn20 = tm.begin();

    match idx.delete(&k, &txn20, &tm) {
        Err(IndexError::WriteConflict) => {}
        other => panic!("expected WriteConflict, got {:?}", other),
    }
}

#[test]
fn tests_vacuum_reclaims_space() {
    let mut tm = TransactionManager::new();
    let mut idx = make_index();

    for i in 0u32..100 {
        let k = i.to_be_bytes();
        let txn = tm.begin();
        idx.insert(&(&k[..]), &(&k[..]), &txn, &tm).unwrap();
        tm.mark_committed(txn.txn_id);
    }

    for i in 0u32..50 {
        let k = i.to_be_bytes();
        let txn = tm.begin();
        idx.delete(&(&k[..]), &txn, &tm).unwrap();
        tm.mark_committed(txn.txn_id);
    }

    assert_eq!(tm.vacuum_horizon(), 0);

    let expected_horizon = tm.global_xmin();

    let removed = idx.vacuum(&mut tm).unwrap();
    assert_eq!(removed, 50);

    assert_eq!(tm.vacuum_horizon(), expected_horizon);

    let reader = tm.begin();
    let (start, end) = all();
    let results = scan(&mut idx, start, end, &reader, &tm);
    assert_eq!(results.len(), 50);
}

#[test]
fn reopen_recovers_root_and_data() {
    let mut db = Auto::new();
    for k in 0u32..300 {
        let key = k.to_be_bytes();
        let val = (k * 7).to_be_bytes();
        db.insert(&key, &val).unwrap();
    }
    db.idx.pool.flush_all_pages().unwrap();
    let old = db.idx.pool;

    let wal = Wal::new(old.wal.writer.segments).unwrap();
    let index: Idx = match BTreeIndex::open(BufferPoolManager::new(old.disk, wal)) {
        Ok(index) => index,
        Err((e, _)) => panic!("open failed: {:?}", e),
    };
    let mut reopened = Auto {
        idx: index,
        tm: db.tm,
        next_id: db.next_id,
    };
    for k in 0u32..300 {
        let key = k.to_be_bytes();
        let expected = (k * 7).to_be_bytes();
        let got = reopened.get(&key).unwrap();
        assert_eq!(
            got.as_deref(),
            Some(&expected[..]),
            "key {k} wrong after reopen"
        );
    }
}

#[test]
fn reopen_after_create_makes_root_durable() {
    let index = make_index();
    let pool = BufferPoolManager::new(index.pool.disk, Wal::new(Vec::new()).unwrap());
    let mut index: Idx = match BTreeIndex::open(pool) {
        Ok(index) => index,
        Err((e, _)) => panic!("open failed: {:?}", e),
    };
    let tm = TransactionManager::new();
    let reader = Transaction::new(1, Snapshot::latest());
    assert!(index
        .get(&(&b"anything"[..]), &reader, &tm)
        .unwrap()
        .is_none());
}

#[test]
fn descent_finishes_incomplete_split() {
    let mut db = Auto::new();
    for i in (0u32..2000).step_by(2) {
        let k = i.to_be_bytes();
        db.insert(&k, &k).unwrap();
    }

    let mut pid = db.idx.root_page_id();
    let leftmost = loop {
        let page = page_bytes(&mut db.idx, pid);
        if page[0] == LEAF {
            break pid;
        }
        pid = InternalPageAccessor::<&[u8]>::new(&page[..]).child_page_at(0);
    };
    let page = page_bytes(&mut db.idx, leftmost);
    assert!(
        LeafPageAccessor::<&[u8], &[u8]>::new(&page[..])
            .rightlink()
            .is_some(),
        "test needs a split tree",
    );

    let mut guard = db.idx.pool.fetch_page_mut(leftmost).unwrap();
    set_incomplete_split(guard.memory_mut());
    db.idx.pool.release_mut(guard);
    assert!(is_incomplete_split(&page_bytes(&mut db.idx, leftmost)));

    let k1 = 1u32.to_be_bytes();
    db.insert(&k1, &k1).unwrap();

    assert!(
        !is_incomplete_split(&page_bytes(&mut db.idx, leftmost)),
        "descent should have cleared the flag",
    );

    assert_eq!(db.get(&k1).unwrap().unwrap(), k1);
    for i in (0u32..2000).step_by(2) {
        let k = i.to_be_bytes();
        assert!(db.get(&k).unwrap().is_some(), "key {} missing", i);
    }
}

#[test]
fn backward_range_scan_full() {
    let mut idx = Auto::new();
    for i in 0u32..100 {
        let k = i.to_be_bytes();
        idx.insert(&k, &k).unwrap();
    }
    let (start, end) = all();
    let results = idx.range_backward(start, end);

    assert_eq!(results.len(), 100);

    for w in results.windows(2) {
        assert!(
            w[0].0 > w[1].0,
            "expected descending order, got {:?} then {:?}",
            w[0].0,
            w[1].0
        );
    }
}

#[test]
fn backward_range_scan_skips_deleted() {
    let mut idx = Auto::new();
    for i in 0u32..10 {
        let k = i.to_be_bytes();
        idx.insert(&k, &k).unwrap();
    }
    for &i in &[3u32, 5, 7] {
        let k = i.to_be_bytes();
        idx.delete(&k).unwrap();
    }
    let (start, end) = all();
    let results = idx.range_backward(start, end);

    assert_eq!(results.len(), 7);

    let keys: Vec<u32> = results
        .iter()
        .map(|(k, _)| u32::from_be_bytes(k[..4].try_into().unwrap()))
        .collect();
    assert!(!keys.contains(&3));
    assert!(!keys.contains(&5));
    assert!(!keys.contains(&7));

    for w in results.windows(2) {
        assert!(w[0].0 > w[1].0);
    }
}

#[test]
fn backward_range_scan_bounded() {
    let mut idx = Auto::new();
    for i in 0u32..100 {
        let k = i.to_be_bytes();
        idx.insert(&k, &k).unwrap();
    }
    let start: &'static [u8] = leak_bytes(&10u32.to_be_bytes());
    let end: &'static [u8] = leak_bytes(&20u32.to_be_bytes());
    let results = idx.range_backward(KeyBound::Included(start), KeyBound::Excluded(end));

    assert_eq!(results.len(), 10);

    let first = u32::from_be_bytes(results.first().unwrap().0[..4].try_into().unwrap());
    let last = u32::from_be_bytes(results.last().unwrap().0[..4].try_into().unwrap());
    assert_eq!(first, 19);
    assert_eq!(last, 10);
}

#[test]
fn range_scan_included_start_can_miss_only_visible_duplicate_before_position_result() {
    let mut tm = TransactionManager::new();
    let mut idx = make_index();

    let duplicate_key: &'static [u8] = leak_bytes(&40u32.to_be_bytes());
    let after_duplicate_key: &'static [u8] = leak_bytes(&50u32.to_be_bytes());
    let after_duplicate_value: &'static [u8] = leak_bytes(&50u32.to_be_bytes());
    let value_1: &'static [u8] = leak_bytes(&1u32.to_be_bytes());
    let value_2: &'static [u8] = leak_bytes(&2u32.to_be_bytes());
    let value_3: &'static [u8] = leak_bytes(&3u32.to_be_bytes());

    let seed_txn = tm.begin();
    idx.insert(&after_duplicate_key, &after_duplicate_value, &seed_txn, &tm)
        .unwrap();
    tm.mark_committed(seed_txn.txn_id);

    let txn1 = tm.begin();
    idx.insert(&duplicate_key, &value_1, &txn1, &tm).unwrap();
    tm.mark_committed(txn1.txn_id);

    let txn2 = tm.begin();
    idx.update(&duplicate_key, &value_2, &txn2, &tm).unwrap();
    tm.mark_committed(txn2.txn_id);

    let reader = tm.begin();

    let txn3 = tm.begin();
    idx.update(&duplicate_key, &value_3, &txn3, &tm).unwrap();

    {
        let root = idx.root_page_id();
        let leaf = page_bytes(&mut idx, root);
        let acc = LeafPageAccessor::<&'static [u8], &'static [u8]>::new(&leaf[..]);

        assert_eq!(acc.num_pairs(), 4);
        assert_eq!(acc.get_value(0), value_2);
        assert_eq!(acc.get_value(1), value_3);
        assert_eq!(acc.get_value(2), value_1);
        assert_eq!(acc.get_value(3), after_duplicate_value);

        assert!(reader.is_visible(acc.get_xmin(0), acc.get_xmax(0), &tm));
        assert!(!reader.is_visible(acc.get_xmin(1), acc.get_xmax(1), &tm));
        assert!(!reader.is_visible(acc.get_xmin(2), acc.get_xmax(2), &tm));

        assert_eq!(
            acc.position(&duplicate_key).0,
            2,
            "test setup expects position(40) to land after the visible duplicate"
        );
    }

    let results = scan(
        &mut idx,
        KeyBound::Included(duplicate_key),
        KeyBound::Included(duplicate_key),
        &reader,
        &tm,
    );

    assert_eq!(
        results,
        vec![(duplicate_key.to_vec(), value_2.to_vec())],
        "range scan should return the only visible physical record for key 40"
    );
}

#[test]
fn compact_prevents_split() {
    let mut tm = TransactionManager::new();
    let mut idx = make_index();

    for i in 0u32..80 {
        let k = i.to_be_bytes();
        let v = vec![0xAA; 40];
        let txn = tm.begin();
        idx.insert(&(&k[..]), &(&v[..]), &txn, &tm).unwrap();
        tm.mark_committed(txn.txn_id);
    }

    let root_before = idx.root_page_id();

    for i in 0u32..40 {
        let k = i.to_be_bytes();
        let txn = tm.begin();
        idx.delete(&(&k[..]), &txn, &tm).unwrap();
        tm.mark_committed(txn.txn_id);
    }

    let txn = tm.begin();
    let k = 999u32.to_be_bytes();
    let v = vec![0xBB; 40];
    idx.insert(&(&k[..]), &(&v[..]), &txn, &tm).unwrap();
    tm.mark_committed(txn.txn_id);

    let root_after = idx.root_page_id();
    assert_eq!(
        root_before, root_after,
        "Split should have been avoided via compaction"
    );

    let reader = tm.begin();
    let result = idx.get(&(&k[..]), &reader, &tm).unwrap();
    assert!(result.is_some(), "Inserted record should be readable");
}

#[test]
fn insert_and_update_reject_oversized_value() {
    let mut idx = Auto::new();
    let k: &[u8] = b"key";
    let oversized = vec![0xFFu8; MAX_VALUE_SIZE + 1];

    let err = idx.insert(k, &oversized).unwrap_err();
    assert!(
        matches!(err, IndexError::ValueTooLarge { size, max }
        if size == MAX_VALUE_SIZE + 1 && max == MAX_VALUE_SIZE)
    );

    idx.insert(k, b"small").unwrap();

    let err = idx.update(k, &oversized).unwrap_err();
    assert!(
        matches!(err, IndexError::ValueTooLarge { size, max }
        if size == MAX_VALUE_SIZE + 1 && max == MAX_VALUE_SIZE)
    );
}

#[test]
fn insert_logs_record_stamps_page_lsn_and_gate_flushes() {
    let mut db = Auto::new();
    let root = db.idx.root_page_id();

    assert_eq!(db.idx.pool.wal.next_lsn(), 1);

    db.insert(b"a", b"1").unwrap();
    db.insert(b"b", b"2").unwrap();
    assert_eq!(db.idx.pool.wal.next_lsn(), 3, "each insert appends a record");

    let leaf = page_bytes(&mut db.idx, root);
    assert_eq!(page_lsn(&leaf), 2, "page LSN stamped");

    db.idx.pool.flush_all_pages().unwrap();
    assert_eq!(
        db.idx.pool.wal.flushed_lsn(),
        Some(2),
        "gate flushed WAL to page LSN"
    );
}

#[test]
fn delete_emits_one_setxmax() {
    let mut db = Auto::new();
    let root = db.idx.root_page_id();

    let txn = db.auto();
    let key: &[u8] = b"a";
    db.insert(key, b"1").unwrap();

    let n = db.idx.pool.wal.next_lsn();
    assert_eq!(n, 2);
    db.idx.delete(&key, &txn, &db.tm).unwrap();
    assert!(
        db.idx.pool.wal.next_lsn() == n + 1,
        "delete appends one record"
    );

    let leaf = page_bytes(&mut db.idx, root);
    assert_eq!(page_lsn(&leaf), 2, "page LSN stamped");

    db.idx.pool.flush_all_pages().unwrap();
    let mut it = WalIterator::new(&db.idx.pool.wal.writer.segments);
    it.next_record();
    let rec = it.next_record().unwrap().unwrap();
    assert!(rec.entry_type == WalRecordType::SetXMax);
    assert!(rec.txn_id == txn.txn_id);
    assert!(rec.blocks.len() == 1);
    assert!(rec.blocks[0].page_id == root);
    let data = rec.blocks[0].data.unwrap();
    assert!(u16::from_le_bytes(data[0..2].try_into().unwrap()) == 0);
    assert!(u64::from_le_bytes(data[2..10].try_into().unwrap()) == txn.txn_id);
}

#[test]
fn update_emits_setxmax_then_insert_in_lsn_order() {
    let mut db = Auto::new();
    let root = db.idx.root_page_id();

    let txn = db.auto();
    let key: &[u8] = b"a";
    let new_val: &[u8] = b"2";
    db.insert(key, b"1").unwrap();

    let n = db.idx.pool.wal.next_lsn();
    assert_eq!(n, 2);

    db.idx.update(&key, &new_val, &txn, &db.tm).unwrap();
    assert!(
        db.idx.pool.wal.next_lsn() == n + 2,
        "update appends two records"
    );

    let leaf = page_bytes(&mut db.idx, root);
    assert_eq!(page_lsn(&leaf), n + 1, "page LSN stamped");

    db.idx.pool.flush_all_pages().unwrap();
    let mut it = WalIterator::new(&db.idx.pool.wal.writer.segments);
    it.next_record();

    let rec = it.next_record().unwrap().unwrap();
    assert_eq!(rec.entry_type, WalRecordType::SetXMax);
    assert_eq!(rec.txn_id, txn.txn_id);
    let xmax_lsn = rec.lsn;

    let rec = it.next_record().unwrap().unwrap();
    assert_eq!(rec.entry_type, WalRecordType::Insert);
    let ins_lsn = rec.lsn;

    assert!(
        xmax_lsn < ins_lsn,
        "SetXmax must be logged before the new Insert"
    );
}
