use fluxdb::error::PageError;
use fluxdb::page::internal::{InternalPageAccessor, InternalPageBuilder, InternalPageMutator};
use fluxdb::page::{ChildSide, PageBuffer};

/// Build an internal page from a slice of (key_bytes, right_child) pairs
/// with an explicit leftmost child.
fn build_page(page_id: u64, first_child: u64, entries: &[(&[u8], u64)]) -> PageBuffer {
    let mut buf = PageBuffer::new();
    let mut builder = InternalPageBuilder::<&[u8]>::new(page_id, buf.memory_mut());
    builder.push_first_child(first_child);
    for (key, child) in entries {
        builder.push_key_and_right_child(key, *child);
    }
    builder.finish();
    buf
}

#[test]
fn build_and_read_keys_and_children() {
    let buf = build_page(1, 10, &[(&[5], 20), (&[10], 30), (&[15], 40)]);
    let acc = InternalPageAccessor::<&[u8]>::new(buf.memory());

    assert_eq!(acc.page_id(), 1);
    assert_eq!(acc.num_keys(), 3);
    assert_eq!(acc.child_page_at(0), 10);
    assert_eq!(acc.child_page_at(1), 20);
    assert_eq!(acc.child_page_at(2), 30);
    assert_eq!(acc.child_page_at(3), 40);
    assert_eq!(acc.key_at(0), &[5u8][..]);
    assert_eq!(acc.key_at(1), &[10u8][..]);
    assert_eq!(acc.key_at(2), &[15u8][..]);
}

#[test]
fn internal_rightlink_round_trip() {
    let mut buf = build_page(7, 1, &[(&[42], 2)]);
    {
        let mut m = InternalPageMutator::<&[u8]>::new(buf.memory_mut());
        m.set_rightlink(Some(99));
    }
    let acc = InternalPageAccessor::<&[u8]>::new(buf.memory());
    assert_eq!(acc.rightlink(), Some(99));
}

#[test]
fn internal_rightlink_none_when_zero() {
    let buf = build_page(1, 10, &[]);
    let acc = InternalPageAccessor::<&[u8]>::new(buf.memory());
    assert_eq!(acc.rightlink(), None);
}

#[test]
fn internal_high_key_round_trip() {
    let mut buf = PageBuffer::new();
    {
        let mut builder = InternalPageBuilder::<&[u8]>::new(1, buf.memory_mut());
        builder.push_first_child(10);
        builder.push_key_and_right_child(&(&[5][..]), 20);
        builder.set_high_key(&[42, 43]);
        builder.set_rightlink(Some(99));
        builder.finish();
    }
    let acc = InternalPageAccessor::<&[u8]>::new(buf.memory());
    assert_eq!(acc.high_key_len(), 2);
    assert_eq!(acc.high_key_bytes(), Some(&[42u8, 43][..]));
    assert_eq!(acc.high_key(), Some(&[42u8, 43][..]));
    assert_eq!(acc.rightlink(), Some(99));
}

#[test]
fn internal_high_key_none_when_rightmost() {
    let buf = build_page(1, 10, &[]);
    let acc = InternalPageAccessor::<&[u8]>::new(buf.memory());
    assert_eq!(acc.high_key_len(), 0);
    assert_eq!(acc.high_key_bytes(), None);
    assert_eq!(acc.high_key(), None);
}

#[test]
fn internal_lsn_round_trip() {
    let mut buf = build_page(7, 1, &[(&[42], 2)]);
    InternalPageMutator::<&[u8]>::new(buf.memory_mut()).set_lsn(99);
    let acc = InternalPageAccessor::<&[u8]>::new(buf.memory());
    assert_eq!(acc.lsn(), 99);
}

#[test]
fn find_child_binary_search() {
    let buf = build_page(1, 1, &[(&[10], 2), (&[20], 3), (&[30], 4)]);
    let acc = InternalPageAccessor::<&[u8]>::new(buf.memory());

    let (idx, pid) = acc.find_child(&(&[5][..]));
    assert_eq!(idx, 0);
    assert_eq!(pid, 1);

    let (idx, pid) = acc.find_child(&(&[10][..]));
    assert_eq!(idx, 1);
    assert_eq!(pid, 2);

    let (idx, pid) = acc.find_child(&(&[15][..]));
    assert_eq!(idx, 1);
    assert_eq!(pid, 2);

    let (idx, pid) = acc.find_child(&(&[30][..]));
    assert_eq!(idx, 3);
    assert_eq!(pid, 4);

    let (idx, pid) = acc.find_child(&(&[99][..]));
    assert_eq!(idx, 3);
    assert_eq!(pid, 4);
}

#[test]
fn insert_key_and_right_child() {
    let mut buf = build_page(1, 10, &[(&[10], 20), (&[30], 40)]);
    {
        let mut m = InternalPageMutator::<&[u8]>::new(buf.memory_mut());
        m.insert_key_and_right_child(1, &(&[20][..]), 30).unwrap();
    }
    let acc = InternalPageAccessor::<&[u8]>::new(buf.memory());
    assert_eq!(acc.num_keys(), 3);
    assert_eq!(acc.key_at(0), &[10u8][..]);
    assert_eq!(acc.key_at(1), &[20u8][..]);
    assert_eq!(acc.key_at(2), &[30u8][..]);
    assert_eq!(acc.child_page_at(2), 30);
    assert_eq!(acc.child_page_at(3), 40);
}

#[test]
fn insert_returns_err_when_full() {
    let mut buf = PageBuffer::new();
    {
        let mut b = InternalPageBuilder::<&[u8]>::new(1, buf.memory_mut());
        b.push_first_child(1);
        b.finish();
    }
    let big_key = vec![0u8; 200];
    let mut child_id = 2u64;
    loop {
        let mut m = InternalPageMutator::<&[u8]>::new(buf.memory_mut());
        if m.as_accessor().can_fit(big_key.len()) {
            let n = m.as_accessor().num_keys() as usize;
            m.insert_key_and_right_child(n, &big_key.as_slice(), child_id)
                .unwrap();
            child_id += 1;
        } else {
            let result = m.insert_key_and_right_child(0, &big_key.as_slice(), 999);
            assert!(matches!(result, Err(PageError::InsufficientSpace { .. })));
            break;
        }
    }
}

#[test]
fn remove_key_keep_left_child() {
    let mut buf = build_page(1, 1, &[(&[10], 2), (&[20], 3)]);
    InternalPageMutator::<&[u8]>::new(buf.memory_mut()).remove_key_at(0, ChildSide::Left);

    let acc = InternalPageAccessor::<&[u8]>::new(buf.memory());
    assert_eq!(acc.num_keys(), 1);
    assert_eq!(acc.key_at(0), &[20u8][..]);
    assert_eq!(acc.child_page_at(0), 1);
    assert_eq!(acc.child_page_at(1), 3);
}

#[test]
fn remove_key_keep_right_child() {
    let mut buf = build_page(1, 1, &[(&[10], 2), (&[20], 3)]);
    InternalPageMutator::<&[u8]>::new(buf.memory_mut()).remove_key_at(0, ChildSide::Right);

    let acc = InternalPageAccessor::<&[u8]>::new(buf.memory());
    assert_eq!(acc.num_keys(), 1);
    assert_eq!(acc.key_at(0), &[20u8][..]);
    assert_eq!(acc.child_page_at(0), 2);
    assert_eq!(acc.child_page_at(1), 3);
}

#[test]
fn set_child_at_updates_pointer() {
    let mut buf = build_page(1, 100, &[(&[5], 200)]);
    InternalPageMutator::<&[u8]>::new(buf.memory_mut()).set_child_at(1, 999);
    let acc = InternalPageAccessor::<&[u8]>::new(buf.memory());
    assert_eq!(acc.child_page_at(1), 999);
}

#[test]
fn free_bytes_decreases_after_insert() {
    let mut buf = build_page(1, 1, &[]);
    let free_before = InternalPageAccessor::<&[u8]>::new(buf.memory()).free_bytes();
    InternalPageMutator::<&[u8]>::new(buf.memory_mut())
        .insert_key_and_right_child(0, &(&[42u8][..]), 2)
        .unwrap();
    let free_after = InternalPageAccessor::<&[u8]>::new(buf.memory()).free_bytes();
    assert_eq!(free_before - free_after, 8 + 4 + 1);
}

#[test]
fn free_bytes_accounts_for_high_key() {
    let mut buf = PageBuffer::new();
    {
        let mut b = InternalPageBuilder::<&[u8]>::new(1, buf.memory_mut());
        b.push_first_child(10);
        b.set_high_key(&[1, 2, 3, 4, 5]); // 5 bytes
        b.finish();
    }
    let free_with_hk = InternalPageAccessor::<&[u8]>::new(buf.memory()).free_bytes();

    let mut buf2 = PageBuffer::new();
    {
        let mut b = InternalPageBuilder::<&[u8]>::new(1, buf2.memory_mut());
        b.push_first_child(10);
        b.finish();
    }
    let free_without_hk = InternalPageAccessor::<&[u8]>::new(buf2.memory()).free_bytes();

    assert_eq!(free_without_hk - free_with_hk, 5);
}

#[test]
fn separators_are_replaced_prepended_and_cut() {
    let mut buf = build_page(1, 10, &[(&[5], 20), (&[10], 30), (&[15], 40)]);
    {
        let mut m = InternalPageMutator::<&[u8]>::new(buf.memory_mut());
        m.update_separator_at(1, &&[11u8, 12][..]);
        m.prepend_separator(&&[2u8][..], 9);
    }
    let acc = InternalPageAccessor::<&[u8]>::new(buf.memory());
    let keys: Vec<&[u8]> = (0..4).map(|i| acc.key_at(i)).collect();
    assert_eq!(keys, vec![&[2u8][..], &[5], &[11, 12], &[15]]);
    let children: Vec<u64> = (0..5).map(|i| acc.child_page_at(i)).collect();
    assert_eq!(children, vec![9, 10, 20, 30, 40]);

    InternalPageMutator::<&[u8]>::new(buf.memory_mut()).truncate_to(2);
    let acc = InternalPageAccessor::<&[u8]>::new(buf.memory());
    assert_eq!(acc.num_keys(), 2);
    assert_eq!(acc.key_at(1), &[5u8][..]);
    assert_eq!(acc.child_page_at(2), 20);

    InternalPageMutator::<&[u8]>::new(buf.memory_mut()).truncate_to(7);
    assert_eq!(
        InternalPageAccessor::<&[u8]>::new(buf.memory()).num_keys(),
        2
    );
}
