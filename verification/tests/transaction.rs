use fluxdb::transaction::{is_vacuumable, is_visible, Snapshot};
use fluxdb::transaction_manager::TransactionManager;

fn snap(xmin: u64, xmax: u64, active: &[u64]) -> Snapshot {
    Snapshot {
        xmin,
        xmax,
        active: active.to_vec(),
    }
}

fn is_vis(xmin: u64, xmax: u64, s: &Snapshot) -> bool {
    let tm = TransactionManager::new();
    is_visible(xmin, xmax, s, &tm)
}

fn is_com(s: &Snapshot, txn_id: u64) -> bool {
    let tm = TransactionManager::new();
    s.is_committed(txn_id, &tm)
}

fn is_prog(s: &Snapshot, txn_id: u64) -> bool {
    let tm = TransactionManager::new();
    s.is_in_progress(txn_id, &tm)
}


#[test]
fn latest_sees_live_record() {
    let s = Snapshot::latest();
    // xmin=5 committed (5 < MAX), xmax=0 → visible
    assert!(is_vis(5, 0, &s));
}

#[test]
fn latest_hides_deleted_record() {
    let s = Snapshot::latest();
    // xmin=5 committed, xmax=10 committed (10 < MAX) → invisible
    assert!(!is_vis(5, 10, &s));
}

#[test]
fn latest_auto_txn_visible() {
    let s = Snapshot::latest();
    // xmin=0 (auto txn), xmax=0 → visible
    assert!(is_vis(0, 0, &s));
}


#[test]
fn committed_creator_visible() {
    let s = snap(10, 20, &[12, 15]);
    // xmin=5 < 10 → committed → visible
    assert!(is_vis(5, 0, &s));
}

#[test]
fn in_progress_creator_invisible() {
    let s = snap(10, 20, &[12, 15]);
    // xmin=12 in active list → not committed → invisible
    assert!(!is_vis(12, 0, &s));
}

#[test]
fn future_creator_invisible() {
    let s = snap(10, 20, &[]);
    // xmin=25 >= xmax=20 → not started → invisible
    assert!(!is_vis(25, 0, &s));
}

#[test]
fn committed_between_xmin_xmax_visible() {
    let s = snap(10, 20, &[12, 15]);
    // xmin=13: between 10 and 20, NOT in active → committed → visible
    assert!(is_vis(13, 0, &s));
}


#[test]
fn committed_deletion_hides_record() {
    let s = snap(10, 20, &[12, 15]);
    // xmin=5 committed, xmax=8 committed (8 < 10) → deleted → invisible
    assert!(!is_vis(5, 8, &s));
}

#[test]
fn in_progress_deletion_keeps_record_visible() {
    let s = snap(10, 20, &[12, 15]);
    // xmin=5 committed, xmax=15 in active → deletion not final → visible
    assert!(is_vis(5, 15, &s));
}

#[test]
fn future_deletion_keeps_record_visible() {
    let s = snap(10, 20, &[]);
    // xmin=5 committed, xmax=25 >= xmax → future → visible
    assert!(is_vis(5, 25, &s));
}


#[test]
fn is_committed_below_xmin() {
    let s = snap(10, 20, &[]);
    assert!(is_com(&s, 5));
}

#[test]
fn is_committed_in_active() {
    let s = snap(10, 20, &[12]);
    assert!(!is_com(&s, 12));
}

#[test]
fn is_committed_between_not_active() {
    let s = snap(10, 20, &[12]);
    assert!(is_com(&s, 15)); // between 10 and 20, not in active
}

#[test]
fn is_in_progress_in_active() {
    let s = snap(10, 20, &[12]);
    assert!(is_prog(&s, 12));
}

#[test]
fn is_in_progress_future() {
    let s = snap(10, 20, &[]);
    assert!(is_prog(&s, 25)); // >= xmax → treat as in-progress
}

#[test]
fn is_in_progress_committed() {
    let s = snap(10, 20, &[]);
    assert!(!is_prog(&s, 5)); // < xmin → finished
}


#[test]
fn vacuumable_aborted_creator() {
    let mut tm = TransactionManager::new();
    tm.abort(5); // xmin=5 aborted
    // Creator aborted -> always dead
    assert!(is_vacuumable(5, 0, 100, &tm));
    assert!(is_vacuumable(5, 15, 10, &tm));
}

#[test]
fn vacuumable_not_deleted_is_live() {
    let tm = TransactionManager::new();
    // xmin=5 committed, xmax=0 -> live
    assert!(!is_vacuumable(5, 0, 100, &tm));
}

#[test]
fn vacuumable_committed_deleter_below_horizon() {
    let mut tm = TransactionManager::new();
    tm.commit(15); // xmax=15 committed
    // xmax=15 < horizon=20 -> dead
    assert!(is_vacuumable(5, 15, 20, &tm));
}

#[test]
fn vacuumable_committed_deleter_above_horizon_is_live() {
    let mut tm = TransactionManager::new();
    tm.commit(15); // xmax=15 committed
    // xmax=15 >= horizon=10 -> live (someone might still see the old version)
    assert!(!is_vacuumable(5, 15, 10, &tm));
}

#[test]
fn vacuumable_in_progress_deleter_is_live() {
    let tm = TransactionManager::new();
    // xmax=15 in-progress -> live
    assert!(!is_vacuumable(5, 15, 100, &tm));
}
