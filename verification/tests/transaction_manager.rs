use fluxdb::transaction_manager::{TransactionManager, TransactionStatus};

#[test]
fn test_begin_transaction() {
    let mut tm = TransactionManager::new();
    let txn = tm.begin();

    assert_eq!(txn.snapshot.active.len(), 1);
    assert_eq!(txn.snapshot.active[0], txn.txn_id);
    assert!(tm.is_active(txn.txn_id));
    assert!(!tm.is_committed(txn.txn_id));
    assert!(!tm.is_aborted(txn.txn_id));
}

#[test]
fn test_commit_transaction() {
    let mut tm = TransactionManager::new();
    let txn = tm.begin();

    tm.commit(txn.txn_id);

    assert!(!tm.is_active(txn.txn_id));
    assert!(tm.is_committed(txn.txn_id));
    assert!(!tm.is_aborted(txn.txn_id));
}

#[test]
fn test_abort_transaction() {
    let mut tm = TransactionManager::new();
    let txn = tm.begin();

    tm.abort(txn.txn_id);

    assert!(!tm.is_active(txn.txn_id));
    assert!(!tm.is_committed(txn.txn_id));
    assert!(tm.is_aborted(txn.txn_id));
}

#[test]
fn test_snapshot_empty_active() {
    let tm = TransactionManager::new();
    let snap = tm.get_snapshot();

    // When empty, xmin should equal xmax
    assert_eq!(snap.xmin, snap.xmax);
    assert!(snap.active.is_empty());
}

#[test]
fn test_snapshot_with_multiple_active() {
    let mut tm = TransactionManager::new();
    let txn1 = tm.begin();
    let txn2 = tm.begin();

    let snap = tm.get_snapshot();

    assert_eq!(snap.xmin, txn1.txn_id); // txn1 is the oldest active
    assert!(snap.xmax > txn2.txn_id);
    assert!(snap.active.contains(&txn1.txn_id));
    assert!(snap.active.contains(&txn2.txn_id));
    assert_eq!(snap.active.len(), 2);
}

#[test]
fn test_snapshot_with_commits_in_middle() {
    let mut tm = TransactionManager::new();
    let txn1 = tm.begin();
    let txn2 = tm.begin();
    let txn3 = tm.begin();

    // Commit txn2 in the middle
    tm.commit(txn2.txn_id);

    let snap = tm.get_snapshot();

    assert_eq!(snap.xmin, txn1.txn_id); // txn1 is still oldest
    assert!(!snap.active.contains(&txn2.txn_id)); // txn2 committed
    assert!(snap.active.contains(&txn1.txn_id));
    assert!(snap.active.contains(&txn3.txn_id));
    assert_eq!(snap.active.len(), 2);
}


#[test]
fn wait_until_settled_returns_immediately_if_already_committed() {
    let mut tm = TransactionManager::new();
    let txn = tm.begin();
    tm.commit(txn.txn_id);
    // Must return without blocking — transaction already settled.
    assert!(tm.wait_until_settled(txn.txn_id));
}

#[test]
fn wait_until_settled_returns_immediately_if_already_aborted() {
    let mut tm = TransactionManager::new();
    let txn = tm.begin();
    tm.abort(txn.txn_id);
    assert!(tm.wait_until_settled(txn.txn_id));
}

#[test]
fn truncation_keeps_what_vacuum_has_not_swept() {
    let mut tm = TransactionManager::new();
    let committed = tm.begin().txn_id;
    let aborted = tm.begin().txn_id;
    let open = tm.begin().txn_id;
    tm.commit(committed);
    tm.abort(aborted);

    tm.truncate_clog(open);
    assert!(!tm.is_committed(committed));
    assert_eq!(
        tm.settled_status(committed),
        TransactionStatus::Committed
    );
    assert!(tm.is_aborted(aborted));
    assert_eq!(tm.settled_status(open), TransactionStatus::Active);

    tm.publish_vacuum_horizon(open);
    tm.truncate_clog(open);
    assert!(!tm.is_aborted(aborted));
}

#[test]
fn snapshot_lists_the_active_transactions() {
    let mut tm = TransactionManager::new();
    let first = tm.begin();
    let second = tm.begin();
    let snap = tm.get_snapshot();
    assert_eq!(snap.active, vec![first.txn_id, second.txn_id]);
    assert_eq!(snap.xmin, first.txn_id);
    assert_eq!(snap.xmax, second.txn_id + 1);
    assert!(!tm.wait_until_settled(first.txn_id));
    tm.abort(first.txn_id);
    assert!(tm.wait_until_settled(first.txn_id));
}
