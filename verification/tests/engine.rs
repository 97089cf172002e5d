use fluxdb::constants::MAX_PAGE_SIZE;
use fluxdb::disk::DiskManager;
use fluxdb::engine::txn::TxnHandle;
use fluxdb::engine::Engine;
use fluxdb::error::{EngineError, IndexError, IoError, LogDamage, WalError};
use fluxdb::index::range::KeyBound;
use fluxdb::index::BTreeIndex;
use fluxdb::page::internal::InternalPageAccessor;
use fluxdb::page::leaf::LeafPageAccessor;
use fluxdb::page::meta::read_root;
use fluxdb::page::{is_incomplete_split, set_incomplete_split, INTERNAL, LEAF};
use fluxdb::transaction_manager::TransactionStatus;
use fluxdb::types::{Key, Value};
use fluxdb::wal::record::WalRecordType;
use fluxdb::wal::segment::{Segment, WalIterator};
use fluxdb::wal::Wal;
use std::cmp::Ordering;
use std::collections::{BTreeMap, BTreeSet};

type TestEngine = Engine<&'static [u8], &'static [u8]>;
type NumEngine = Engine<u32, u32>;

fn created<K: Key, V: Value>() -> Engine<K, V> {
    let disk = DiskManager::new(MAX_PAGE_SIZE);
    let wal = Wal::new(Vec::new()).unwrap();
    match Engine::create(disk, wal) {
        Ok(engine) => engine,
        Err((e, _)) => panic!("create failed: {:?}", e),
    }
}

fn opened<K: Key, V: Value>(disk: DiskManager, segments: Vec<Segment>) -> Engine<K, V> {
    let wal = Wal::new(segments).unwrap();
    match Engine::open(disk, wal) {
        Ok(engine) => engine,
        Err((e, _)) => panic!("open failed: {:?}", e),
    }
}

/// Only what reached the data file and the segments is there afterwards.
fn crashed<K: Key, V: Value>(engine: Engine<K, V>) -> (DiskManager, Vec<Segment>) {
    let pool = engine.index.pool;
    (pool.disk, pool.wal.writer.segments)
}

fn reopened<K: Key, V: Value>(engine: Engine<K, V>) -> Engine<K, V> {
    let (disk, segments) = crashed(engine);
    opened(disk, segments)
}

fn page_bytes<K: Key, V: Value>(index: &mut BTreeIndex<K, V>, id: u64) -> Vec<u8> {
    let guard = index.pool.fetch_page(id).unwrap();
    let bytes = guard.memory().to_vec();
    index.pool.release(guard);
    bytes
}

fn decode(o: Option<Vec<u8>>) -> Option<u32> {
    o.map(|b| u32::from_le_bytes(b.try_into().unwrap()))
}

fn conflict<T>(r: Result<T, EngineError>) -> bool {
    matches!(r, Err(EngineError::TransactionConflict))
}

/// The pages of the tree, as the walk from the root finds them.
struct Walk {
    reached: BTreeSet<u64>,
    leaf_depths: Vec<usize>,
    leaves: Vec<u64>,
}

fn same_high<K: Key>(stored: Option<&[u8]>, expected: Option<&[u8]>) -> bool {
    match (stored, expected) {
        (None, None) => true,
        (Some(s), Some(e)) => K::compare(s, e) == Ordering::Equal,
        _ => false,
    }
}

fn walk<K: Key, V: Value>(
    index: &mut BTreeIndex<K, V>,
    id: u64,
    depth: usize,
    low: Option<&[u8]>,
    high: Option<&[u8]>,
    found: &mut Walk,
) {
    assert!(found.reached.insert(id), "page {id} reached more than once");
    let page = page_bytes(index, id);
    assert!(!is_incomplete_split(&page), "page {id} has an open split");
    if page[0] == LEAF {
        found.leaf_depths.push(depth);
        found.leaves.push(id);
        let acc = LeafPageAccessor::<K, V>::new(&page);
        let mut last: Option<&[u8]> = None;
        for i in 0..acc.num_pairs() as usize {
            let k = acc.key_bytes_at(i);
            if let Some(lo) = low {
                assert_ne!(K::compare(k, lo), Ordering::Less, "leaf {id}: key below");
            }
            if let Some(hi) = high {
                assert_ne!(K::compare(k, hi), Ordering::Greater, "leaf {id}: key above");
            }
            if let Some(l) = last {
                assert_ne!(K::compare(l, k), Ordering::Greater, "leaf {id}: keys descend");
            }
            last = Some(k);
        }
        assert!(same_high::<K>(acc.high_key_bytes(), high), "leaf {id}: high key");
    } else {
        assert_eq!(page[0], INTERNAL, "page {id}: unexpected type");
        let acc = InternalPageAccessor::<K>::new(&page);
        let n = acc.num_keys() as usize;
        assert!(same_high::<K>(acc.high_key_bytes(), high), "page {id}: high key");
        for i in 1..n {
            assert_ne!(
                K::compare(acc.key_bytes_at(i - 1), acc.key_bytes_at(i)),
                Ordering::Greater,
                "page {id}: separators descend"
            );
        }
        for i in 0..=n {
            let child_low = if i == 0 { low } else { Some(acc.key_bytes_at(i - 1)) };
            let child_high = if i == n { high } else { Some(acc.key_bytes_at(i)) };
            walk(index, acc.child_page_at(i), depth + 1, child_low, child_high, found);
        }
    }
}

/// The tree is balanced, its pages are reached once, keys lie within their bounds, the links
/// between leaves go both ways, and the metadata page names the root.
fn check_invariants<K: Key, V: Value>(index: &mut BTreeIndex<K, V>) {
    let root = index.root_page_id();
    let mut found = Walk {
        reached: BTreeSet::new(),
        leaf_depths: Vec::new(),
        leaves: Vec::new(),
    };
    walk(index, root, 0, None, None, &mut found);
    assert!(found.leaf_depths.iter().all(|d| *d == found.leaf_depths[0]));

    let mut chain = Vec::new();
    let mut next = Some(found.leaves[0]);
    while let Some(id) = next {
        chain.push(id);
        let page = page_bytes(index, id);
        next = LeafPageAccessor::<K, V>::new(&page).rightlink();
    }
    assert_eq!(chain, found.leaves, "links to the right");

    let mut back = Vec::new();
    let mut prev = chain.last().copied();
    while let Some(id) = prev {
        back.push(id);
        let page = page_bytes(index, id);
        prev = LeafPageAccessor::<K, V>::new(&page).prev_page();
    }
    back.reverse();
    assert_eq!(back, chain, "links to the left");

    assert_eq!(read_root(&page_bytes(index, 0)), Some(root));
}

/// Number of levels above the leaves.
fn tree_height<K: Key, V: Value>(index: &mut BTreeIndex<K, V>) -> usize {
    let mut id = index.root_page_id();
    let mut height = 0;
    loop {
        let page = page_bytes(index, id);
        if page[0] != INTERNAL {
            return height;
        }
        id = InternalPageAccessor::<K>::new(&page).child_page_at(0);
        height += 1;
    }
}

fn scan_raw<K: Key, V: Value>(
    engine: &mut Engine<K, V>,
    start: &KeyBound<K::SelfType<'_>>,
    end: &KeyBound<K::SelfType<'_>>,
) -> Vec<(Vec<u8>, Vec<u8>)> {
    let txn = engine.transaction_manager.begin();
    let mut rows = Vec::new();
    {
        let tm = &engine.transaction_manager;
        let mut it = match engine.index.range(start, end, &txn, tm) {
            Ok(it) => it,
            Err(e) => panic!("range: {:?}", e),
        };
        while let Some(row) = it.next() {
            rows.push(row.unwrap());
        }
    }
    engine.transaction_manager.mark_committed(txn.txn_id);
    rows
}

fn numbers(rows: Vec<(Vec<u8>, Vec<u8>)>) -> Vec<(u32, u32)> {
    rows.into_iter()
        .map(|(k, v)| (decode(Some(k)).unwrap(), decode(Some(v)).unwrap()))
        .collect()
}

fn scan_forward(engine: &mut NumEngine) -> Vec<(u32, u32)> {
    numbers(scan_raw(engine, &KeyBound::Unbounded, &KeyBound::Unbounded))
}

fn scan_backward(
    engine: &mut NumEngine,
    start: &KeyBound<u32>,
    end: &KeyBound<u32>,
) -> Vec<(u32, u32)> {
    let txn = engine.transaction_manager.begin();
    let mut it = match engine
        .index
        .range_backward(start, end, &txn, &engine.transaction_manager)
    {
        Ok(it) => it,
        Err(e) => panic!("range_backward: {:?}", e),
    };
    engine.transaction_manager.mark_committed(txn.txn_id);
    let mut rows = Vec::new();
    while let Some(row) = it.next() {
        rows.push(row);
    }
    numbers(rows)
}

#[test]
fn create_twice_fails_with_already_exists() {
    let engine: TestEngine = created();
    let (disk, segments) = crashed(engine);
    let wal = Wal::new(segments).unwrap();
    assert!(matches!(
        TestEngine::create(disk, wal),
        Err((EngineError::AlreadyExists, None))
    ));
}

#[test]
fn open_without_database_fails_with_not_found() {
    let disk = DiskManager::new(MAX_PAGE_SIZE);
    let wal = Wal::new(Vec::new()).unwrap();
    assert!(matches!(
        TestEngine::open(disk, wal),
        Err((EngineError::NotFound, None))
    ));
}

#[test]
fn reopen_sees_committed_data() {
    let mut engine: TestEngine = created();
    engine.insert(&b"k1".as_slice(), &b"v1".as_slice()).unwrap();
    let mut engine = reopened(engine);
    assert_eq!(engine.get(&b"k1".as_slice()).unwrap(), Some(b"v1".to_vec()));
}

#[test]
fn insert_then_get_roundtrip() {
    let mut engine: TestEngine = created();
    engine.insert(&b"k1".as_slice(), &b"v1".as_slice()).unwrap();
    assert_eq!(engine.get(&b"k1".as_slice()).unwrap(), Some(b"v1".to_vec()));
    assert_eq!(engine.get(&b"missing".as_slice()).unwrap(), None);
}

#[test]
fn update_replaces_value() {
    let mut engine: TestEngine = created();
    engine.insert(&b"k1".as_slice(), &b"v1".as_slice()).unwrap();
    engine.update(&b"k1".as_slice(), &b"v2".as_slice()).unwrap();
    assert_eq!(engine.get(&b"k1".as_slice()).unwrap(), Some(b"v2".to_vec()));
}

#[test]
fn delete_makes_key_invisible() {
    let mut engine: TestEngine = created();
    engine.insert(&b"k1".as_slice(), &b"v1".as_slice()).unwrap();
    engine.delete(&b"k1".as_slice()).unwrap();
    assert_eq!(engine.get(&b"k1".as_slice()).unwrap(), None);
}

#[test]
fn duplicate_insert_fails_and_aborts_cleanly() {
    let mut engine: TestEngine = created();
    engine.insert(&b"k1".as_slice(), &b"v1".as_slice()).unwrap();
    let err = engine
        .insert(&b"k1".as_slice(), &b"v2".as_slice())
        .unwrap_err();
    assert!(matches!(err, EngineError::Index(IndexError::DuplicateKey)));
    assert_eq!(engine.get(&b"k1".as_slice()).unwrap(), Some(b"v1".to_vec()));
}

#[test]
fn handle_groups_writes_atomically() {
    let mut engine: TestEngine = created();
    let mut txn = engine.begin();
    txn.insert(&mut engine, &b"k1".as_slice(), &b"v1".as_slice())
        .unwrap();
    txn.insert(&mut engine, &b"k2".as_slice(), &b"v2".as_slice())
        .unwrap();
    txn.commit(&mut engine).unwrap();
    assert_eq!(engine.get(&b"k1".as_slice()).unwrap(), Some(b"v1".to_vec()));
    assert_eq!(engine.get(&b"k2".as_slice()).unwrap(), Some(b"v2".to_vec()));
}

#[test]
fn dropped_handle_aborts_everything() {
    let mut engine: TestEngine = created();
    let mut txn = engine.begin();
    txn.insert(&mut engine, &b"k1".as_slice(), &b"v1".as_slice())
        .unwrap();
    txn.insert(&mut engine, &b"k2".as_slice(), &b"v2".as_slice())
        .unwrap();
    txn.abort(&mut engine);
    assert_eq!(engine.get(&b"k1".as_slice()).unwrap(), None);
    assert_eq!(engine.get(&b"k2".as_slice()).unwrap(), None);
}

#[test]
fn reads_own_writes_but_invisible_to_others_until_commit() {
    let mut engine: TestEngine = created();
    let mut txn = engine.begin();
    txn.insert(&mut engine, &b"k1".as_slice(), &b"v1".as_slice())
        .unwrap();

    assert_eq!(
        txn.get(&mut engine, &b"k1".as_slice()).unwrap(),
        Some(b"v1".to_vec())
    );
    assert_eq!(engine.get(&b"k1".as_slice()).unwrap(), None);

    txn.commit(&mut engine).unwrap();
    assert_eq!(engine.get(&b"k1".as_slice()).unwrap(), Some(b"v1".to_vec()));
}

#[test]
fn younger_conflicting_txn_dies_and_handle_is_poisoned() {
    let mut engine: TestEngine = created();

    let mut older = engine.begin();
    let mut younger = engine.begin();

    older
        .insert(&mut engine, &b"k1".as_slice(), &b"v_old".as_slice())
        .unwrap();

    assert!(conflict(younger.insert(
        &mut engine,
        &b"k1".as_slice(),
        &b"v_young".as_slice()
    )));
    assert!(conflict(younger.insert(
        &mut engine,
        &b"k2".as_slice(),
        &b"v2".as_slice()
    )));
    assert!(conflict(younger.commit(&mut engine)));

    older.commit(&mut engine).unwrap();
    assert_eq!(
        engine.get(&b"k1".as_slice()).unwrap(),
        Some(b"v_old".to_vec())
    );
    assert_eq!(engine.get(&b"k2".as_slice()).unwrap(), None);
}

#[test]
fn retry_after_conflict_succeeds_with_fresh_txn() {
    let mut engine: TestEngine = created();

    let mut older = engine.begin();
    let mut younger = engine.begin();
    older
        .insert(&mut engine, &b"k1".as_slice(), &b"v1".as_slice())
        .unwrap();

    assert!(conflict(younger.insert(
        &mut engine,
        &b"k1".as_slice(),
        &b"v2".as_slice()
    )));
    younger.abort(&mut engine);

    older.commit(&mut engine).unwrap();

    let mut retry = engine.begin();
    retry
        .update(&mut engine, &b"k1".as_slice(), &b"v2".as_slice())
        .unwrap();
    retry.commit(&mut engine).unwrap();
    assert_eq!(engine.get(&b"k1".as_slice()).unwrap(), Some(b"v2".to_vec()));
}

#[test]
fn snapshot_isolation_observed_keys() {
    let mut engine: NumEngine = created();

    engine.insert(&1, &10).unwrap();
    engine.insert(&2, &20).unwrap();

    let mut r1 = engine.begin();
    assert_eq!(decode(r1.get(&mut engine, &1).unwrap()), Some(10));
    assert_eq!(decode(r1.get(&mut engine, &2).unwrap()), Some(20));
    assert_eq!(decode(r1.get(&mut engine, &3).unwrap()), None);

    engine.update(&1, &11).unwrap();
    engine.delete(&2).unwrap();
    engine.insert(&3, &30).unwrap();

    assert_eq!(
        decode(r1.get(&mut engine, &1).unwrap()),
        Some(10),
        "SI: update leaked to old reader"
    );
    assert_eq!(
        decode(r1.get(&mut engine, &2).unwrap()),
        Some(20),
        "SI: delete leaked to old reader"
    );
    assert_eq!(
        decode(r1.get(&mut engine, &3).unwrap()),
        None,
        "SI: insert leaked to old reader"
    );
    r1.commit(&mut engine).unwrap();

    let mut r2 = engine.begin();
    assert_eq!(decode(r2.get(&mut engine, &1).unwrap()), Some(11));
    assert_eq!(decode(r2.get(&mut engine, &2).unwrap()), None);
    assert_eq!(decode(r2.get(&mut engine, &3).unwrap()), Some(30));
    r2.commit(&mut engine).unwrap();
}

#[test]
fn single_key_version_chain_spans_pages() {
    let mut engine: NumEngine = created();
    engine.insert(&7, &0).unwrap();

    let keeper = engine.begin();

    for v in 1..=300u32 {
        engine.update(&7, &v).unwrap();
    }

    let h = tree_height(&mut engine.index);
    assert!(
        h >= 1,
        "expected the version chain to split into multiple leaves, height={h}"
    );

    check_invariants(&mut engine.index);

    let mut r = engine.begin();
    let got = decode(r.get(&mut engine, &7).unwrap());
    assert_eq!(got, Some(300), "latest version must be visible");
    r.commit(&mut engine).unwrap();
    assert_eq!(
        scan_forward(&mut engine),
        vec![(7u32, 300u32)],
        "exactly one visible key+value"
    );

    keeper.abort(&mut engine);
}

fn read_now(engine: &mut NumEngine, key: u32) -> Option<u32> {
    let mut r = engine.begin();
    let got = decode(r.get(engine, &key).unwrap());
    r.commit(engine).unwrap();
    got
}

#[test]
fn old_snapshot_reads_its_version_from_a_leaf_further_left() {
    let mut engine: NumEngine = created();
    for k in [6, 7, 8u32] {
        engine.insert(&k, &0).unwrap();
    }
    let mut keeper = engine.begin();
    for v in 1..=600u32 {
        engine.update(&7, &v).unwrap();
    }
    assert!(tree_height(&mut engine.index) >= 1);
    check_invariants(&mut engine.index);

    assert_eq!(decode(keeper.get(&mut engine, &7).unwrap()), Some(0));
    assert_eq!(decode(keeper.get(&mut engine, &6).unwrap()), Some(0));
    assert_eq!(decode(keeper.get(&mut engine, &8).unwrap()), Some(0));
    assert!(conflict(keeper.update(&mut engine, &7, &1)));
    keeper.abort(&mut engine);
    assert_eq!(read_now(&mut engine, 7), Some(600));
}

#[test]
fn aborted_updates_of_many_leaves_leave_the_first_version() {
    let mut engine: NumEngine = created();
    engine.insert(&7, &0).unwrap();

    let mut w = engine.begin();
    for v in 1..=600u32 {
        w.update(&mut engine, &7, &v).unwrap();
        assert_eq!(decode(w.get(&mut engine, &7).unwrap()), Some(v));
    }
    assert!(tree_height(&mut engine.index) >= 1);
    assert_eq!(read_now(&mut engine, 7), Some(0));
    w.abort(&mut engine);

    assert_eq!(read_now(&mut engine, 7), Some(0));
    assert_eq!(
        engine.insert(&7, &9),
        Err(EngineError::Index(IndexError::DuplicateKey))
    );
    assert_eq!(scan_forward(&mut engine), vec![(7, 0)]);

    engine.update(&7, &1).unwrap();
    assert_eq!(read_now(&mut engine, 7), Some(1));
    engine.delete(&7).unwrap();
    assert_eq!(read_now(&mut engine, 7), None);
    engine.insert(&7, &5).unwrap();
    assert_eq!(read_now(&mut engine, 7), Some(5));
    assert_eq!(scan_forward(&mut engine), vec![(7, 5)]);
    check_invariants(&mut engine.index);
}

#[test]
fn deep_tree_internal_splits() {
    const N: u32 = 25_000;
    let ascending: Vec<u32> = (0..N).collect();
    let descending: Vec<u32> = (0..N).rev().collect();
    let scattered: Vec<u32> = (0..N).map(|i| i.wrapping_mul(7919) % N).collect();

    for (name, order) in [
        ("ascending", ascending),
        ("descending", descending),
        ("scattered", scattered),
    ] {
        let mut engine: NumEngine = created();
        let mut w = engine.begin();
        for k in &order {
            w.insert(&mut engine, k, k)
                .unwrap_or_else(|e| panic!("{name}: insert {k}: {e:?}"));
        }
        w.commit(&mut engine)
            .unwrap_or_else(|e| panic!("{name}: commit: {e:?}"));

        let height = tree_height(&mut engine.index);
        assert!(
            height >= 2,
            "{name}: expected 3-level tree, got height {height}"
        );
        check_invariants(&mut engine.index);

        let expected: Vec<(u32, u32)> = (0..N).map(|k| (k, k)).collect();
        assert_eq!(scan_forward(&mut engine), expected, "{name}: forward scan");
        let bwd = scan_backward(&mut engine, &KeyBound::Unbounded, &KeyBound::Unbounded);
        let rev: Vec<(u32, u32)> = (0..N).rev().map(|k| (k, k)).collect();
        assert_eq!(bwd, rev, "{name}: backward scan");
    }
}

#[test]
fn read_your_own_writes() {
    let mut engine: NumEngine = created();

    engine.insert(&1, &10).unwrap();

    let mut w = engine.begin();
    w.insert(&mut engine, &2, &20).unwrap();
    w.update(&mut engine, &1, &11).unwrap();
    w.insert(&mut engine, &3, &30).unwrap();
    w.delete(&mut engine, &3).unwrap();

    assert_eq!(
        decode(w.get(&mut engine, &2).unwrap()),
        Some(20),
        "RYOW: own insert not visible"
    );
    assert_eq!(
        decode(w.get(&mut engine, &1).unwrap()),
        Some(11),
        "RYOW: own update not visible"
    );
    assert_eq!(
        decode(w.get(&mut engine, &3).unwrap()),
        None,
        "RYOW: own delete not applied"
    );

    {
        let mut r = engine.begin();
        assert_eq!(
            decode(r.get(&mut engine, &1).unwrap()),
            Some(10),
            "isolation: saw uncommitted update"
        );
        assert_eq!(
            decode(r.get(&mut engine, &2).unwrap()),
            None,
            "isolation: saw uncommitted insert"
        );
        r.commit(&mut engine).unwrap();
    }

    w.commit(&mut engine).unwrap();

    let mut r = engine.begin();
    assert_eq!(decode(r.get(&mut engine, &1).unwrap()), Some(11));
    assert_eq!(decode(r.get(&mut engine, &2).unwrap()), Some(20));
    assert_eq!(decode(r.get(&mut engine, &3).unwrap()), None);
    r.commit(&mut engine).unwrap();
}

#[test]
fn txn_sees_own_modify_of_committed_row() {
    let mut engine: NumEngine = created();

    engine.insert(&1, &10).unwrap();

    let mut t = engine.begin();
    t.delete(&mut engine, &1).unwrap();

    assert_eq!(
        decode(t.get(&mut engine, &1).unwrap()),
        None,
        "own delete of a committed row must be visible within the txn"
    );
    t.insert(&mut engine, &1, &20).unwrap();
    assert_eq!(decode(t.get(&mut engine, &1).unwrap()), Some(20));
    t.commit(&mut engine).unwrap();

    let mut r = engine.begin();
    assert_eq!(
        decode(r.get(&mut engine, &1).unwrap()),
        Some(20),
        "post-commit: replacement row is visible"
    );
    r.commit(&mut engine).unwrap();
}

#[test]
fn split_sized_survival() {
    let mut e: TestEngine = created();
    for i in 0u32..500 {
        let k = i.to_be_bytes();
        let v = (i * 7).to_be_bytes();
        e.insert(&k.as_slice(), &v.as_slice()).unwrap();
    }
    let mut e = reopened(e);
    check_invariants(&mut e.index);
    for i in 0u32..500 {
        let k = i.to_be_bytes();
        assert_eq!(
            e.get(&k.as_slice()).unwrap().as_deref(),
            Some(&(i * 7).to_be_bytes()[..])
        );
    }
}

#[test]
fn delete_survives_crash() {
    let mut e: TestEngine = created();
    e.insert(&b"k".as_slice(), &b"v".as_slice()).unwrap();
    e.delete(&b"k".as_slice()).unwrap();
    let mut e = reopened(e);
    check_invariants(&mut e.index);
    assert_eq!(e.get(&b"k".as_slice()).unwrap(), None);
}

#[test]
fn update_survives_crash() {
    let mut e: TestEngine = created();
    e.insert(&b"k".as_slice(), &b"v1".as_slice()).unwrap();
    e.update(&b"k".as_slice(), &b"v2".as_slice()).unwrap();
    let mut e = reopened(e);
    check_invariants(&mut e.index);
    assert_eq!(e.get(&b"k".as_slice()).unwrap(), Some(b"v2".to_vec()));
}

#[test]
fn double_recovery_is_idempotent() {
    let mut e: TestEngine = created();
    for i in 0u32..300 {
        let k = i.to_be_bytes();
        e.insert(&k.as_slice(), &k.as_slice()).unwrap();
    }
    let mut e = reopened(e);
    check_invariants(&mut e.index);
    for i in 0u32..300 {
        let k = i.to_be_bytes();
        assert_eq!(
            e.get(&k.as_slice()).unwrap().as_deref(),
            Some(&i.to_be_bytes()[..])
        );
    }
    let mut e = reopened(e);
    check_invariants(&mut e.index);
    for i in 0u32..300 {
        let k = i.to_be_bytes();
        assert_eq!(
            e.get(&k.as_slice()).unwrap().as_deref(),
            Some(&i.to_be_bytes()[..])
        );
    }
}

#[test]
fn torn_tail_truncates_last_record() {
    let mut e: TestEngine = created();
    for i in 0u32..20 {
        let k = i.to_be_bytes();
        e.insert(&k.as_slice(), &k.as_slice()).unwrap();
    }
    let (disk, mut segments) = crashed(e);
    segments.last_mut().unwrap().bytes.pop();

    let mut e: TestEngine = opened(disk, segments);
    check_invariants(&mut e.index);
    for i in 0u32..19 {
        let k = i.to_be_bytes();
        assert!(e.get(&k.as_slice()).unwrap().is_some());
    }
    assert!(e.get(&19u32.to_be_bytes().as_slice()).unwrap().is_none());
}

#[test]
fn proptests_crash_victim_uncommitted_insert_invisible_after_reopen() {
    let mut e: TestEngine = created();
    let victim = e.transaction_manager.begin();
    let victim_id = victim.txn_id;
    e.index
        .insert(
            &b"ghost".as_slice(),
            &b"boo".as_slice(),
            &victim,
            &e.transaction_manager,
        )
        .unwrap();
    e.index.pool.flush_all_pages().unwrap();

    let mut e = reopened(e);
    check_invariants(&mut e.index);
    assert!(e.transaction_manager.is_aborted(victim_id));

    assert!(e.get(&b"ghost".as_slice()).unwrap().is_none());
    let all = scan_raw(&mut e, &KeyBound::Unbounded, &KeyBound::Unbounded);
    assert!(all.is_empty());
}

#[test]
fn tests_crash_victim_uncommitted_insert_invisible_after_reopen() {
    let mut e: TestEngine = created();
    let victim = e.transaction_manager.begin();
    e.index
        .insert(
            &b"ghost".as_slice(),
            &b"boo".as_slice(),
            &victim,
            &e.transaction_manager,
        )
        .unwrap();
    e.index.pool.flush_all_pages().unwrap();

    let mut e = reopened(e);
    let reader = e.transaction_manager.begin();
    assert!(e
        .index
        .get(&b"ghost".as_slice(), &reader, &e.transaction_manager)
        .unwrap()
        .is_none());
    let all = scan_raw(&mut e, &KeyBound::Unbounded, &KeyBound::Unbounded);
    assert!(all.is_empty());
}

#[test]
fn restart_reads_what_a_new_transaction_reads() {
    let mut e: NumEngine = created();
    for i in 0u32..600 {
        e.insert(&i, &(i * 2)).unwrap();
    }
    for i in (0u32..600).step_by(7) {
        e.update(&i, &(i + 1)).unwrap();
    }
    for i in (0u32..600).step_by(11) {
        e.delete(&i).unwrap();
    }
    let mut pending = e.begin();
    pending.insert(&mut e, &1000, &1).unwrap();
    pending.update(&mut e, &5, &55).unwrap();
    pending.delete(&mut e, &6).unwrap();
    let mut given_up = e.begin();
    given_up.insert(&mut e, &1001, &2).unwrap();
    given_up.abort(&mut e);
    e.insert(&1002, &3).unwrap();
    let before: Vec<Option<u32>> = (0u32..1010).map(|k| decode(e.get(&k).unwrap())).collect();
    assert_eq!(before[5], Some(10));
    assert_eq!(before[6], Some(12));
    assert_eq!(before[7], Some(8));
    assert_eq!(before[11], None);
    assert_eq!(before[1000], None);
    assert_eq!(before[1001], None);
    assert_eq!(before[1002], Some(3));

    let mut e = reopened(e);
    check_invariants(&mut e.index);
    let after: Vec<Option<u32>> = (0u32..1010).map(|k| decode(e.get(&k).unwrap())).collect();
    assert_eq!(after, before);
}

#[test]
fn crash_falls_back_to_the_last_flush() {
    let mut e: NumEngine = created();
    for i in 0u32..40 {
        e.insert(&i, &i).unwrap();
    }
    let before = scan_forward(&mut e);
    let mut pending = e.begin();
    for i in 40u32..60 {
        pending.insert(&mut e, &i, &i).unwrap();
    }
    let flushed = e.index.pool.wal.flushed_lsn();
    assert!(flushed < Some(e.index.pool.wal.next_lsn() - 1));

    let mut e = reopened(e);
    check_invariants(&mut e.index);
    assert_eq!(scan_forward(&mut e), before);
    assert_eq!(e.index.pool.wal.next_lsn(), flushed.unwrap() + 1);
}

/// Committed rows first, and then the first `steps` steps of a transaction that is cut off.
/// Also gives the data file as it was when the transaction began, and whether the log was
/// flushed since.
fn cut_off_after(steps: u32) -> (Engine<u32, &'static [u8]>, Vec<Vec<u8>>, bool) {
    const ROW: [u8; 900] = [7; 900];
    const OTHER: [u8; 900] = [8; 900];
    let mut e: Engine<u32, &'static [u8]> = created();
    for i in 0u32..60 {
        e.insert(&(i * 20), &ROW.as_slice()).unwrap();
    }
    let earlier = file_pages(&e.index.pool.disk);
    let mut pending = e.begin();
    let flushed = e.index.pool.wal.flushed_lsn();
    for i in 0u32..steps {
        match i % 5 {
            0 => {
                let _ = pending.update(&mut e, &((i % 60) * 20), &OTHER.as_slice());
            }
            1 => {
                let _ = pending.delete(&mut e, &((i % 60) * 20));
            }
            _ => {
                let _ = pending.insert(&mut e, &(i * 7 + 1), &OTHER.as_slice());
            }
        }
    }
    let wrote_on = e.index.pool.wal.flushed_lsn() > flushed;
    (e, earlier, wrote_on)
}

fn file_pages(disk: &DiskManager) -> Vec<Vec<u8>> {
    (0..disk.num_pages().unwrap())
        .map(|id| {
            let mut page = vec![0u8; MAX_PAGE_SIZE];
            disk.read_page(id, &mut page).unwrap();
            page
        })
        .collect()
}

#[test]
fn crash_at_any_step_keeps_what_was_committed() {
    const ROW: [u8; 900] = [7; 900];
    let mut flushed_on_the_way: usize = 0;
    for steps in [1u32, 40, 160, 271, 402, 533] {
        let (mut e, _earlier, wrote_on) = cut_off_after(steps);
        if wrote_on {
            flushed_on_the_way += 1;
        }
        let keys: Vec<u32> = (0u32..1200).step_by(20).chain((1u32..700).step_by(7)).collect();
        let before: Vec<Option<Vec<u8>>> = keys.iter().map(|k| e.get(k).unwrap()).collect();

        let mut e = reopened(e);
        check_invariants(&mut e.index);
        let after: Vec<Option<Vec<u8>>> = keys.iter().map(|k| e.get(k).unwrap()).collect();
        assert_eq!(after, before);
        for i in 0u32..60 {
            assert_eq!(e.get(&(i * 20)).unwrap(), Some(ROW.to_vec()));
        }
        assert_eq!(e.get(&1).unwrap(), None);
        e.insert(&1, &ROW.as_slice()).unwrap();
        assert_eq!(e.get(&1).unwrap(), Some(ROW.to_vec()));
    }
    assert!(flushed_on_the_way > 0);
}

#[test]
fn crash_while_pages_are_saved_keeps_what_was_committed() {
    const ROW: [u8; 900] = [7; 900];
    for every in 1usize..5 {
        let (mut e, earlier, wrote_on) = cut_off_after(533);
        assert!(wrote_on);
        let before: Vec<Option<Vec<u8>>> = (0u32..1200).map(|k| e.get(&k).unwrap()).collect();

        let (disk, segments) = crashed(e);
        let now = file_pages(&disk);
        assert_ne!(now, earlier);
        let mut saved = DiskManager::new(MAX_PAGE_SIZE);
        for (id, page) in now.iter().enumerate() {
            if id < earlier.len() && id % every != 0 {
                saved.write_page(id as u64, &earlier[id]).unwrap();
            } else {
                saved.write_page(id as u64, page).unwrap();
            }
        }

        let mut e: Engine<u32, &'static [u8]> = opened(saved, segments);
        check_invariants(&mut e.index);
        let after: Vec<Option<Vec<u8>>> = (0u32..1200).map(|k| e.get(&k).unwrap()).collect();
        assert_eq!(after, before);
        assert_eq!(after[20], Some(ROW.to_vec()));
        assert_eq!(after[15], None);
    }
}

#[test]
fn clog_reconstructed_after_crash() {
    let mut e: TestEngine = created();

    let c = e.transaction_manager.begin();
    let committed_id = c.txn_id;
    e.index
        .insert(&b"c".as_slice(), &b"1".as_slice(), &c, &e.transaction_manager)
        .unwrap();
    e.index.pool.wal.log_commit(c.txn_id).unwrap();
    e.transaction_manager.mark_committed(c.txn_id);

    let a = e.transaction_manager.begin();
    let aborted_id = a.txn_id;
    e.index
        .insert(&b"a".as_slice(), &b"2".as_slice(), &a, &e.transaction_manager)
        .unwrap();
    e.index.pool.wal.log_abort(a.txn_id).unwrap();
    e.transaction_manager.mark_aborted(a.txn_id);

    let v = e.transaction_manager.begin();
    let inflight_id = v.txn_id;
    e.index
        .insert(&b"v".as_slice(), &b"3".as_slice(), &v, &e.transaction_manager)
        .unwrap();

    let next = e.index.pool.wal.next_lsn();
    e.index.pool.wal.flush_up_to(next).unwrap();
    e.index.pool.flush_all_pages().unwrap();

    let e = reopened(e);
    let tm = &e.transaction_manager;

    assert!(tm.is_committed(committed_id));
    assert!(tm.is_aborted(aborted_id));
    assert!(tm.is_aborted(inflight_id));
    assert!(!tm.is_committed(inflight_id));

    assert_eq!(
        tm.settled_status(committed_id),
        TransactionStatus::Committed
    );
    assert_eq!(tm.settled_status(inflight_id), TransactionStatus::Aborted);
}

fn log_has(segments: &Vec<Segment>, t: WalRecordType) -> bool {
    let mut it = WalIterator::new(segments);
    while let Some(r) = it.next_record() {
        if r.unwrap().entry_type == t {
            return true;
        }
    }
    false
}

#[test]
fn mid_split_crash_searches_via_rightlink_then_completes() {
    let mut e: TestEngine = created();
    let mut k = 0u32;
    loop {
        let key = k.to_be_bytes();
        let t = e.transaction_manager.begin();
        e.index
            .insert(&key.as_slice(), &key.as_slice(), &t, &e.transaction_manager)
            .unwrap();
        e.index.pool.wal.log_commit(t.txn_id).unwrap();
        e.transaction_manager.mark_committed(t.txn_id);
        let next = e.index.pool.wal.next_lsn();
        e.index.pool.wal.flush_up_to(next).unwrap();
        let segments = &e.index.pool.wal.writer.segments;
        if log_has(segments, WalRecordType::InsertDownLink) {
            break;
        }
        k += 1;
    }
    let trigger = k;
    let (disk, mut segments) = crashed(e);
    assert!(Wal::truncate_wal_after(
        &mut segments,
        WalRecordType::LeafSplit
    ));

    let mut e: TestEngine = opened(disk, segments);

    for j in 0..trigger {
        assert!(e.get(&j.to_be_bytes().as_slice()).unwrap().is_some());
    }
    assert!(e.get(&trigger.to_be_bytes().as_slice()).unwrap().is_none());

    let nk = 9_999u32.to_be_bytes();
    let writer = e.transaction_manager.begin();
    e.index
        .insert(&nk.as_slice(), &nk.as_slice(), &writer, &e.transaction_manager)
        .unwrap();
    e.index.pool.wal.log_commit(writer.txn_id).unwrap();
    e.transaction_manager.mark_committed(writer.txn_id);

    check_invariants(&mut e.index);

    let got = scan_raw(&mut e, &KeyBound::Unbounded, &KeyBound::Unbounded);
    let mut want: Vec<(Vec<u8>, Vec<u8>)> = (0..trigger)
        .map(|j| (j.to_be_bytes().to_vec(), j.to_be_bytes().to_vec()))
        .collect();
    want.push((
        9_999u32.to_be_bytes().to_vec(),
        9_999u32.to_be_bytes().to_vec(),
    ));
    want.sort();
    assert_eq!(got, want);
}

#[test]
fn engine_vacuum_advances_horizon() {
    let mut engine: NumEngine = created();

    assert_eq!(engine.transaction_manager.vacuum_horizon(), 0);

    for i in 0u32..100 {
        engine.insert(&i, &i).unwrap();
    }

    for i in 0u32..50 {
        engine.delete(&i).unwrap();
    }

    let removed = engine.vacuum().unwrap();
    assert_eq!(removed, 50);
    assert!(
        engine.transaction_manager.vacuum_horizon() > 0,
        "completed sweep must advance vacuum_horizon past 0",
    );
}

/// A sequence of numbers that looks random and is the same in every run.
struct Dice(u64);

impl Dice {
    fn roll(&mut self, n: u32) -> u32 {
        self.0 = self
            .0
            .wrapping_mul(6364136223846793005)
            .wrapping_add(1442695040888963407);
        ((self.0 >> 33) as u32) % n
    }
}

fn step(
    t: &mut TxnHandle<u32, u32>,
    engine: &mut NumEngine,
    model: &mut BTreeMap<u32, u32>,
    dice: &mut Dice,
    keys: u32,
) {
    let k = dice.roll(keys);
    let v = dice.roll(1000);
    let present = model.contains_key(&k);
    match dice.roll(4) {
        0 => {
            let r = t.insert(engine, &k, &v);
            if present {
                assert_eq!(r, Err(EngineError::Index(IndexError::DuplicateKey)));
            } else {
                assert_eq!(r, Ok(()));
                model.insert(k, v);
            }
        }
        1 => {
            let r = t.update(engine, &k, &v);
            if present {
                assert_eq!(r, Ok(()));
                model.insert(k, v);
            } else {
                assert_eq!(r, Err(EngineError::Index(IndexError::KeyNotFound)));
            }
        }
        2 => {
            let r = t.delete(engine, &k);
            if present {
                assert_eq!(r, Ok(()));
                model.remove(&k);
            } else {
                assert_eq!(r, Err(EngineError::Index(IndexError::KeyNotFound)));
            }
        }
        _ => assert_eq!(decode(t.get(engine, &k).unwrap()), model.get(&k).copied()),
    }
}

#[test]
fn random_transactions_agree_with_a_map() {
    let mut dice = Dice(7);
    for keys in [16, 300] {
        let mut engine: NumEngine = created();
        let mut model: BTreeMap<u32, u32> = BTreeMap::new();
        for _ in 0..150 {
            let mut own = model.clone();
            let mut t = engine.begin();
            for _ in 0..1 + dice.roll(8) {
                step(&mut t, &mut engine, &mut own, &mut dice, keys);
            }
            match dice.roll(3) {
                0 => t.abort(&mut engine),
                _ => {
                    t.commit(&mut engine).unwrap();
                    model = own;
                }
            }
            match dice.roll(30) {
                0 => {
                    engine.vacuum().unwrap();
                }
                1 => engine = reopened(engine),
                _ => {}
            }
        }
        check_invariants(&mut engine.index);
        let expected: Vec<(u32, u32)> = model.iter().map(|(k, v)| (*k, *v)).collect();
        assert_eq!(scan_forward(&mut engine), expected);
    }
}

#[test]
fn bounded_ranges_agree_with_a_map() {
    let mut dice = Dice(3);
    let mut engine: NumEngine = created();
    let mut model: BTreeMap<u32, u32> = BTreeMap::new();
    for _ in 0..40 {
        let k = dice.roll(64);
        if engine.insert(&k, &(k * 7)).is_ok() {
            model.insert(k, k * 7);
        }
    }
    for _ in 0..60 {
        let (a, b) = (dice.roll(64), dice.roll(64));
        let (lo, hi) = (a.min(b), a.max(b));
        let start = match dice.roll(3) {
            0 => KeyBound::Unbounded,
            1 => KeyBound::Included(lo),
            _ => KeyBound::Excluded(lo),
        };
        let end = match dice.roll(3) {
            0 => KeyBound::Unbounded,
            1 => KeyBound::Included(hi),
            _ => KeyBound::Excluded(hi),
        };
        let mut expected: Vec<(u32, u32)> = model
            .iter()
            .filter(|(k, _)| match &start {
                KeyBound::Unbounded => true,
                KeyBound::Included(x) => *k >= x,
                KeyBound::Excluded(x) => *k > x,
            })
            .filter(|(k, _)| match &end {
                KeyBound::Unbounded => true,
                KeyBound::Included(x) => *k <= x,
                KeyBound::Excluded(x) => *k < x,
            })
            .map(|(k, v)| (*k, *v))
            .collect();
        assert_eq!(numbers(scan_raw(&mut engine, &start, &end)), expected);
        expected.reverse();
        assert_eq!(scan_backward(&mut engine, &start, &end), expected);
    }
}

#[test]
fn older_writer_is_told_whom_to_wait_for() {
    let mut engine: NumEngine = created();
    let mut older = engine.begin();
    let mut younger = engine.begin();
    let waited_for = younger.txn.txn_id;
    younger.insert(&mut engine, &1, &10).unwrap();
    assert_eq!(
        older.insert(&mut engine, &1, &11),
        Err(EngineError::Index(IndexError::WaitFor(waited_for)))
    );
    younger.abort(&mut engine);
    older.insert(&mut engine, &1, &11).unwrap();
    older.commit(&mut engine).unwrap();
    assert_eq!(decode(engine.get(&1).unwrap()), Some(11));
}

#[test]
fn oversized_key_is_refused() {
    let mut engine: TestEngine = created();
    let key = vec![1u8; 2000];
    assert!(matches!(
        engine.insert(&key.as_slice(), &b"v".as_slice()),
        Err(EngineError::Index(IndexError::KeyTooLarge { size: 2000, .. }))
    ));
}

#[test]
fn log_that_does_not_fit_the_pages_is_refused() {
    let mut engine: NumEngine = created();
    engine.insert(&1, &10).unwrap();
    let (disk, segments) = crashed(engine);
    let mut wal = Wal::new(segments).unwrap();
    let lsn = wal.log_set_xmax(9, 1, 500, 9).unwrap();
    wal.flush_up_to(lsn).unwrap();
    let wal = Wal::new(wal.writer.segments).unwrap();
    assert!(matches!(
        NumEngine::open(disk, wal),
        Err((
            EngineError::Wal(WalError::CorruptedLog(LogDamage::RecordContents { lsn: l })),
            Some(_)
        )) if l == lsn
    ));
}

#[test]
fn data_file_of_another_format_is_refused() {
    let mut disk = DiskManager::new(MAX_PAGE_SIZE);
    disk.write_page(0, &vec![0u8; MAX_PAGE_SIZE]).unwrap();
    let wal = Wal::new(Vec::new()).unwrap();
    assert!(matches!(
        NumEngine::open(disk, wal),
        Err((EngineError::Index(IndexError::CorruptMetadata), Some(_)))
    ));
}

#[test]
fn prepared_commit_counts_once_settled() {
    let mut engine: NumEngine = created();
    let mut txn = engine.begin();
    txn.insert(&mut engine, &1, &10).unwrap();
    let ending = txn.prepare(&mut engine);
    assert_eq!(decode(engine.get(&1).unwrap()), None);
    ending.settle(&mut engine, Ok(())).unwrap();
    assert_eq!(decode(engine.get(&1).unwrap()), Some(10));

    let mut txn = engine.begin();
    txn.insert(&mut engine, &2, &20).unwrap();
    let id = txn.txn.txn_id;
    let ending = txn.prepare(&mut engine);
    assert!(matches!(
        ending.settle(&mut engine, Err(IoError::Failed)),
        Err(EngineError::Wal(WalError::FlushFailed(IoError::Failed)))
    ));
    assert!(engine.transaction_manager.is_aborted(id));
    assert_eq!(decode(engine.get(&2).unwrap()), None);
    assert_eq!(decode(engine.get(&1).unwrap()), Some(10));
}

#[test]
fn prepared_conflict_is_a_conflict() {
    let mut engine: NumEngine = created();
    engine.insert(&1, &10).unwrap();
    let mut loser = engine.begin();
    engine.update(&1, &11).unwrap();
    assert!(conflict(loser.update(&mut engine, &1, &12)));
    let ending = loser.prepare(&mut engine);
    assert!(conflict(ending.settle(&mut engine, Ok(()))));
    assert_eq!(decode(engine.get(&1).unwrap()), Some(11));
}

#[test]
fn failed_commit_loses_nothing() {
    let mut engine: NumEngine = created();
    engine.insert(&1, &10).unwrap();
    let before = engine.index.pool.wal.writer.segments.len();
    let bytes: usize = engine.index.pool.wal.writer.segments[before - 1].bytes.len();

    let mut txn = engine.begin();
    txn.update(&mut engine, &1, &11).unwrap();
    txn.insert(&mut engine, &2, &20).unwrap();
    engine.index.pool.wal.writer.broken = Some(IoError::Failed);
    assert!(matches!(
        txn.commit(&mut engine),
        Err(EngineError::Wal(WalError::FlushFailed(IoError::Failed)))
    ));
    assert_eq!(engine.index.pool.wal.writer.segments.len(), before);
    assert_eq!(engine.index.pool.wal.writer.segments[before - 1].bytes.len(), bytes);

    let mut engine = reopened(engine);
    assert_eq!(decode(engine.get(&1).unwrap()), Some(10));
    assert_eq!(decode(engine.get(&2).unwrap()), None);
}

#[test]
fn aborted_transaction_sees_none_of_its_rows() {
    let mut engine: NumEngine = created();
    let mut txn = engine.begin();
    txn.insert(&mut engine, &5, &50).unwrap();
    assert_eq!(decode(txn.get(&mut engine, &5).unwrap()), Some(50));
    engine.transaction_manager.mark_aborted(txn.txn.txn_id);
    assert_eq!(decode(txn.get(&mut engine, &5).unwrap()), None);
}

#[test]
fn every_page_is_reached_and_links_run_both_ways() {
    let mut engine: NumEngine = created();
    // Upwards, downwards and in between, so that leaves are split at every place.
    for k in 0..3000u32 {
        let key = match k % 3 {
            0 => 100_000 + k,
            1 => 100_000 - k,
            _ => k * 7919 % 100_000 + 200_000,
        };
        engine.insert(&key, &k).unwrap();
    }
    let mut first = engine.index.root;
    loop {
        let bytes = page_bytes(&mut engine.index, first);
        if bytes[0] == LEAF {
            break;
        }
        // Every page of the level, by its right links, and the children of all of them.
        let mut children = Vec::new();
        let mut next = Some(first);
        while let Some(id) = next {
            let bytes = page_bytes(&mut engine.index, id);
            let acc = InternalPageAccessor::<u32>::new(&bytes);
            for i in 0..=acc.num_keys() as usize {
                children.push(acc.child_page_at(i));
            }
            next = acc.rightlink();
        }
        // The right links of the level below lead to the same pages.
        let mut below = Vec::new();
        let mut next = Some(children[0]);
        while let Some(id) = next {
            below.push(id);
            let bytes = page_bytes(&mut engine.index, id);
            assert!(!is_incomplete_split(&bytes));
            next = if bytes[0] == LEAF {
                LeafPageAccessor::<u32, u32>::new(&bytes).rightlink()
            } else {
                InternalPageAccessor::<u32>::new(&bytes).rightlink()
            };
        }
        assert_eq!(children, below);
        first = children[0];
    }
    let mut before = None;
    let mut next = Some(first);
    let mut leaves = 0;
    while let Some(id) = next {
        let bytes = page_bytes(&mut engine.index, id);
        let acc = LeafPageAccessor::<u32, u32>::new(&bytes);
        assert_eq!(acc.prev_page(), before);
        before = Some(id);
        next = acc.rightlink();
        leaves += 1;
    }
    assert!(leaves > 10);
}

#[test]
fn vacuum_keeps_the_mark_of_a_split() {
    let mut engine: NumEngine = created();
    for k in 0..4u32 {
        engine.insert(&k, &k).unwrap();
    }
    engine.delete(&1).unwrap();
    let leaf = engine.index.root;
    let mut guard = engine.index.pool.fetch_page_mut(leaf).unwrap();
    set_incomplete_split(guard.memory_mut());
    engine.index.pool.release_mut(guard);

    assert_eq!(engine.vacuum().unwrap(), 1);
    assert!(is_incomplete_split(&page_bytes(&mut engine.index, leaf)));

    // The next descent finds no right neighbour, and takes the mark off.
    engine.insert(&9, &9).unwrap();
    assert!(!is_incomplete_split(&page_bytes(&mut engine.index, leaf)));
}
