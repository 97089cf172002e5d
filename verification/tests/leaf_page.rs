use fluxdb::error::PageError;
use fluxdb::page::leaf::{LeafPageAccessor, LeafPageBuilder, LeafPageMutator};
use fluxdb::page::PageBuffer;
use fluxdb::transaction_manager::TransactionManager;

type K = &'static [u8];
type V = &'static [u8];

fn build_page(page_id: u64, pairs: &[(&[u8], &[u8])]) -> PageBuffer {
    let mut buf = PageBuffer::new();
    let mut b = LeafPageBuilder::<K, V>::new(page_id, buf.memory_mut());
    for (k, v) in pairs {
        b.push_with_mvcc(k, v, 0, 0);
    }
    b.finish();
    buf
}


#[test]
fn build_and_read_entries() {
    let pairs: &[(&[u8], &[u8])] =
        &[(b"apple", b"AAA"), (b"banana", b"BBB"), (b"cherry", b"CCC")];
    let buf = build_page(42, pairs);
    let acc = LeafPageAccessor::<K, V>::new(buf.memory());

    assert_eq!(acc.page_id(), 42);
    assert_eq!(acc.num_pairs(), 3);
    assert_eq!(acc.get_key(0), b"apple".as_ref());
    assert_eq!(acc.get_value(0), b"AAA".as_ref());
    assert_eq!(acc.get_key(2), b"cherry".as_ref());
    assert_eq!(acc.get_value(2), b"CCC".as_ref());
}

#[test]
fn entry_returns_key_and_value_tuple() {
    let buf = build_page(1, &[(b"k1", b"v1"), (b"k2", b"v2")]);
    let acc = LeafPageAccessor::<K, V>::new(buf.memory());
    assert_eq!(acc.entry(1), (b"k2".as_ref(), b"v2".as_ref()));
}


#[test]
fn leaf_rightlink_none_when_zero() {
    let buf = build_page(1, &[]);
    let acc = LeafPageAccessor::<K, V>::new(buf.memory());
    assert_eq!(acc.rightlink(), None);
}

#[test]
fn leaf_rightlink_round_trip() {
    let mut buf = build_page(1, &[]);
    {
        let mut m = LeafPageMutator::<K, V>::new(buf.memory_mut());
        m.set_rightlink(Some(42));
    }
    let acc = LeafPageAccessor::<K, V>::new(buf.memory());
    assert_eq!(acc.rightlink(), Some(42));
}

#[test]
fn prev_page_round_trip() {
    let mut buf = build_page(1, &[]);
    {
        let mut m = LeafPageMutator::<K, V>::new(buf.memory_mut());
        m.set_prev_page(Some(10));
    }
    let acc = LeafPageAccessor::<K, V>::new(buf.memory());
    assert_eq!(acc.prev_page(), Some(10));
}

#[test]
fn leaf_high_key_round_trip() {
    let mut buf = PageBuffer::new();
    {
        let mut b = LeafPageBuilder::<K, V>::new(1, buf.memory_mut());
        b.set_high_key(&[42, 43, 44]);
        b.push_with_mvcc(&b"a".as_ref(), &b"A".as_ref(), 0, 0);
        b.finish();
    }
    let acc = LeafPageAccessor::<K, V>::new(buf.memory());
    assert_eq!(acc.high_key_len(), 3);
    assert_eq!(acc.high_key_bytes(), Some(&[42u8, 43, 44][..]));
    // Entry is still readable with non-zero high_key_len.
    assert_eq!(acc.get_key(0), b"a".as_ref());
    assert_eq!(acc.get_value(0), b"A".as_ref());
}

#[test]
fn leaf_high_key_none_when_rightmost() {
    let buf = build_page(1, &[]);
    let acc = LeafPageAccessor::<K, V>::new(buf.memory());
    assert_eq!(acc.high_key_len(), 0);
    assert_eq!(acc.high_key_bytes(), None);
}


#[test]
fn leaf_lsn_round_trip() {
    let mut buf = build_page(1, &[]);
    LeafPageMutator::<K, V>::new(buf.memory_mut()).set_lsn(12345);
    assert_eq!(LeafPageAccessor::<K, V>::new(buf.memory()).lsn(), 12345);
}


#[test]
fn xmin_xmax_default_to_zero() {
    let buf = build_page(1, &[(b"k", b"v")]);
    let acc = LeafPageAccessor::<K, V>::new(buf.memory());
    assert_eq!(acc.get_xmin(0), 0);
    assert_eq!(acc.get_xmax(0), 0);
    assert!(!acc.is_deleted(0));
}

#[test]
fn xmin_round_trip() {
    let mut buf = build_page(1, &[(b"k", b"v")]);
    LeafPageMutator::<K, V>::new(buf.memory_mut()).set_xmin(0, 42);
    assert_eq!(LeafPageAccessor::<K, V>::new(buf.memory()).get_xmin(0), 42);
}

#[test]
fn xmax_round_trip() {
    let mut buf = build_page(1, &[(b"k", b"v")]);
    LeafPageMutator::<K, V>::new(buf.memory_mut()).set_xmax(0, 99);
    assert_eq!(LeafPageAccessor::<K, V>::new(buf.memory()).get_xmax(0), 99);
}

#[test]
fn is_deleted_when_xmax_nonzero() {
    let mut buf = build_page(1, &[(b"k", b"v")]);
    LeafPageMutator::<K, V>::new(buf.memory_mut()).set_xmax(0, 5);
    let acc = LeafPageAccessor::<K, V>::new(buf.memory());
    assert!(acc.is_deleted(0));
    // Key and value are still readable (tombstone, not erased).
    assert_eq!(acc.get_key(0), b"k".as_ref());
}

#[test]
fn is_deleted_false_when_xmax_zero() {
    let buf = build_page(1, &[(b"k", b"v")]);
    assert!(!LeafPageAccessor::<K, V>::new(buf.memory()).is_deleted(0));
}

#[test]
fn push_with_mvcc_preserves_xmin_xmax() {
    let mut buf = PageBuffer::new();
    {
        let mut b = LeafPageBuilder::<K, V>::new(1, buf.memory_mut());
        b.push_with_mvcc(&b"k".as_ref(), &b"v".as_ref(), 10, 20);
        b.finish();
    }
    let acc = LeafPageAccessor::<K, V>::new(buf.memory());
    assert_eq!(acc.num_pairs(), 1);
    assert_eq!(acc.get_xmin(0), 10);
    assert_eq!(acc.get_xmax(0), 20);
    assert_eq!(acc.get_key(0), b"k".as_ref());
    assert_eq!(acc.get_value(0), b"v".as_ref());
}


#[test]
fn position_finds_exact_match() {
    let buf = build_page(1, &[(b"a", b"1"), (b"b", b"2"), (b"c", b"3")]);
    let acc = LeafPageAccessor::<K, V>::new(buf.memory());
    assert_eq!(acc.position(&b"b".as_ref()), (1, true));
}

#[test]
fn position_returns_insertion_point_when_absent() {
    let buf = build_page(1, &[(b"a", b"1"), (b"c", b"3")]);
    let acc = LeafPageAccessor::<K, V>::new(buf.memory());
    assert_eq!(acc.position(&b"b".as_ref()), (1, false));
}

#[test]
fn find_key_some_and_none() {
    let buf = build_page(1, &[(b"x", b"X"), (b"y", b"Y")]);
    let acc = LeafPageAccessor::<K, V>::new(buf.memory());
    assert_eq!(acc.find_key(&b"x".as_ref()), Some(0));
    assert_eq!(acc.find_key(&b"z".as_ref()), None);
}


#[test]
fn insert_maintains_sorted_order() {
    let mut buf = build_page(1, &[(b"a", b"A"), (b"c", b"C")]);
    {
        let mut m = LeafPageMutator::<K, V>::new(buf.memory_mut());
        let pos = m.as_accessor().position(&b"b".as_ref()).0;
        m.insert(pos, &b"b".as_ref(), &b"B".as_ref()).unwrap();
    }
    let acc = LeafPageAccessor::<K, V>::new(buf.memory());
    assert_eq!(acc.num_pairs(), 3);
    assert_eq!(acc.get_key(1), b"b".as_ref());
    assert_eq!(acc.get_value(1), b"B".as_ref());
    assert_eq!(acc.get_key(0), b"a".as_ref());
    assert_eq!(acc.get_key(2), b"c".as_ref());
}

#[test]
fn insert_at_beginning() {
    let mut buf = build_page(1, &[(b"b", b"B"), (b"c", b"C")]);
    LeafPageMutator::<K, V>::new(buf.memory_mut())
        .insert(0, &b"a".as_ref(), &b"A".as_ref())
        .unwrap();
    let acc = LeafPageAccessor::<K, V>::new(buf.memory());
    assert_eq!(acc.get_key(0), b"a".as_ref());
    assert_eq!(acc.num_pairs(), 3);
}

#[test]
fn insert_at_end() {
    let mut buf = build_page(1, &[(b"a", b"A"), (b"b", b"B")]);
    LeafPageMutator::<K, V>::new(buf.memory_mut())
        .insert(2, &b"c".as_ref(), &b"C".as_ref())
        .unwrap();
    let acc = LeafPageAccessor::<K, V>::new(buf.memory());
    assert_eq!(acc.get_key(2), b"c".as_ref());
    assert_eq!(acc.num_pairs(), 3);
}

#[test]
fn insert_returns_err_when_no_space() {
    let mut buf = PageBuffer::new();
    LeafPageBuilder::<K, V>::new(1, buf.memory_mut()).finish();
    let big_key = vec![0u8; 100];
    let big_val = vec![0u8; 100];
    loop {
        let mut m = LeafPageMutator::<K, V>::new(buf.memory_mut());
        if m.as_accessor().can_fit_direct(big_key.len(), big_val.len()) {
            let n = m.as_accessor().num_pairs() as usize;
            m.insert(n, &big_key.as_slice(), &big_val.as_slice())
                .unwrap();
        } else {
            let result = m.insert(0, &big_key.as_slice(), &big_val.as_slice());
            assert!(matches!(result, Err(PageError::InsufficientSpace { .. })));
            break;
        }
    }
}


#[test]
fn remove_middle_entry() {
    let mut buf = build_page(1, &[(b"a", b"A"), (b"b", b"B"), (b"c", b"C")]);
    LeafPageMutator::<K, V>::new(buf.memory_mut()).remove(1);
    let acc = LeafPageAccessor::<K, V>::new(buf.memory());
    assert_eq!(acc.num_pairs(), 2);
    assert_eq!(acc.get_key(0), b"a".as_ref());
    assert_eq!(acc.get_key(1), b"c".as_ref());
}

#[test]
fn remove_first_entry() {
    let mut buf = build_page(1, &[(b"a", b"A"), (b"b", b"B")]);
    LeafPageMutator::<K, V>::new(buf.memory_mut()).remove(0);
    let acc = LeafPageAccessor::<K, V>::new(buf.memory());
    assert_eq!(acc.num_pairs(), 1);
    assert_eq!(acc.get_key(0), b"b".as_ref());
}

#[test]
fn remove_last_entry() {
    let mut buf = build_page(1, &[(b"a", b"A"), (b"b", b"B")]);
    LeafPageMutator::<K, V>::new(buf.memory_mut()).remove(1);
    let acc = LeafPageAccessor::<K, V>::new(buf.memory());
    assert_eq!(acc.num_pairs(), 1);
    assert_eq!(acc.get_key(0), b"a".as_ref());
}



#[test]
fn can_fit_direct_true_on_empty_page() {
    let buf = build_page(1, &[]);
    let acc = LeafPageAccessor::<K, V>::new(buf.memory());
    assert!(acc.can_fit_direct(10, 10));
}

#[test]
fn compact_removes_dead_records() {
    let mut tm = TransactionManager::new();
    tm.commit(10); // deleter of record 1
    tm.abort(20); // creator of record 2 (never valid)

    let mut buf = PageBuffer::new();
    {
        let mut b = LeafPageBuilder::<K, V>::new(1, buf.memory_mut());
        // 0: Live (xmin=1, xmax=0)
        b.push_with_mvcc(&b"k0".as_ref(), &b"v0".as_ref(), 1, 0);
        // 1: Dead (xmin=1, xmax=10, horizon=15)
        b.push_with_mvcc(&b"k1".as_ref(), &b"v1".as_ref(), 1, 10);
        // 2: Dead (xmin=20, xmax=0) -> creator aborted
        b.push_with_mvcc(&b"k2".as_ref(), &b"v2".as_ref(), 20, 0);
        b.finish();
    }

    let removed = LeafPageMutator::<K, V>::compact(1, buf.memory_mut(), 15, &tm);
    assert_eq!(removed, 2);

    let acc = LeafPageAccessor::<K, V>::new(buf.memory());
    assert_eq!(acc.num_pairs(), 1);
    assert_eq!(acc.get_key(0), b"k0".as_ref());
}

#[test]
fn compact_no_dead_records_is_noop() {
    let tm = TransactionManager::new();
    let mut buf = PageBuffer::new();
    {
        let mut b = LeafPageBuilder::<K, V>::new(1, buf.memory_mut());
        b.push_with_mvcc(&b"k0".as_ref(), &b"v0".as_ref(), 1, 0);
        b.finish();
    }

    let removed = LeafPageMutator::<K, V>::compact(1, buf.memory_mut(), 100, &tm);
    assert_eq!(removed, 0);
    assert_eq!(LeafPageAccessor::<K, V>::new(buf.memory()).num_pairs(), 1);
}

#[test]
fn free_space_counts_slot_header_and_even_lengths() {
    let mut buf = build_page(1, &[]);
    let start = LeafPageAccessor::<K, V>::new(buf.memory()).free_space();
    {
        let mut m = LeafPageMutator::<K, V>::new(buf.memory_mut());
        m.insert(0, &b"abc".as_ref(), &b"wxyz".as_ref()).unwrap();
    }
    let acc = LeafPageAccessor::<K, V>::new(buf.memory());
    assert_eq!(acc.free_space(), start - (28 + 4 + 4));
    LeafPageMutator::<K, V>::new(buf.memory_mut()).remove(0);
    let acc = LeafPageAccessor::<K, V>::new(buf.memory());
    assert_eq!(acc.free_space(), start - (28 + 4 + 4) + 4);
}
