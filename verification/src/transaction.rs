//! Snapshot visibility of record versions.
//!
//! A version carries the id of the transaction that created it (`xmin`) and of the
//! one that deleted or replaced it (`xmax`, 0 while none has). A transaction sees a
//! version whose creator committed before the transaction's snapshot was taken and
//! whose deleter did not. Until it aborts it also sees its own writes, and not what it
//! deleted.

use crate::transaction_manager::{TmView, TransactionManager, TransactionStatus};
use vstd::prelude::*;

verus! {

/// The id under which changes are logged that belong to no transaction.
pub const SYSTEM_TXN_ID: u64 = 0;

/// A transaction's identity and its point-in-time view of the database.
#[derive(Debug, Clone)]
pub struct Transaction {
    /// The transaction's id.
    pub txn_id: u64,
    /// The snapshot taken when the transaction began.
    pub snapshot: Snapshot,
    /// Whether the transaction has changed anything.
    pub wrote: bool,
}

/// Which transactions had settled when the snapshot was taken.
///
/// Every id below `xmin` had settled, no id from `xmax` on had started, and of the
/// ids between them those in `active` were in progress.
#[derive(Debug, Clone)]
pub struct Snapshot {
    pub xmin: u64,
    pub xmax: u64,
    pub active: Vec<u64>,
}

impl Snapshot {
    /// `id` had settled when the snapshot was taken.
    pub open spec fn had_settled(&self, id: u64) -> bool {
        id < self.xmin || (id < self.xmax && !self.active@.contains(id))
    }

    /// `id` counts as committed: it had settled, and not by an abort.
    pub open spec fn committed(&self, id: u64, tm: TmView) -> bool {
        id == 0 || (!tm.is_aborted(id) && self.had_settled(id))
    }

    /// `id` counts as in progress: it had not settled, and has not settled since.
    pub open spec fn in_progress(&self, id: u64, tm: TmView) -> bool {
        tm.status(id) == TransactionStatus::Active && !self.had_settled(id)
    }

    /// A version is visible when its creator committed and its deleter did not.
    pub open spec fn sees(&self, xmin: u64, xmax: u64, tm: TmView) -> bool {
        self.committed(xmin, tm) && !(xmax != 0 && self.committed(xmax, tm))
    }
}

impl Transaction {
    /// The writes of `id` count: it committed before this transaction's snapshot, or it is
    /// this transaction and has not aborted.
    pub open spec fn reckons(&self, id: u64, tm: TmView) -> bool {
        (id == self.txn_id && !tm.is_aborted(id)) || self.snapshot.committed(id, tm)
    }

    /// A version is visible when this transaction or a committed one created it, and
    /// neither this transaction nor a committed one deleted it. Once this transaction has
    /// aborted, its own writes count no more.
    pub open spec fn sees(&self, xmin: u64, xmax: u64, tm: TmView) -> bool {
        self.reckons(xmin, tm) && !(xmax != 0 && self.reckons(xmax, tm))
    }
}

/// The version's creator aborted, or its deleter committed before `horizon`.
pub open spec fn vacuumable(xmin: u64, xmax: u64, horizon: u64, tm: TmView) -> bool {
    ||| tm.status(xmin) == TransactionStatus::Aborted
    ||| xmax != 0 && tm.status(xmax) == TransactionStatus::Committed && xmax < horizon
}

/// What a snapshot sees does not change as transactions settle later: as long as the
/// commit log keeps what it said of the transactions that had settled when the
/// snapshot was taken, every version stays visible or stays invisible.
pub proof fn law_snapshot_is_stable(
    snap: Snapshot,
    before: TmView,
    after: TmView,
    xmin: u64,
    xmax: u64,
)
    requires
        forall|id: u64| snap.had_settled(id) ==> before.is_aborted(id) == after.is_aborted(id),
    ensures
        snap.sees(xmin, xmax, before) == snap.sees(xmin, xmax, after),
{
}

/// A transaction that commits or aborts after the snapshot was taken leaves what the
/// snapshot sees as it was.
pub proof fn law_later_settling_is_invisible(
    snap: Snapshot,
    tm: TmView,
    id: u64,
    status: TransactionStatus,
    xmin: u64,
    xmax: u64,
)
    requires
        !snap.had_settled(id),
    ensures
        snap.sees(xmin, xmax, tm) == snap.sees(xmin, xmax, tm.settled(id, status)),
{
    law_snapshot_is_stable(snap, tm, tm.settled(id, status), xmin, xmax);
}

/// The snapshot of a transaction that begins sees nothing of a transaction that is
/// still active, and everything that a settled, unaborted transaction wrote.
pub proof fn law_begin_snapshot(tm: TmView, snap: Snapshot, id: u64)
    requires
        tm.wf(),
        tm.next < u64::MAX,
        snap.xmin == tm.begun().active[0],
        snap.xmax == tm.begun().next,
        snap.active@ == tm.begun().active,
        id != 0,
    ensures
        tm.active.contains(id) ==> !snap.committed(id, tm.begun()),
        id >= tm.next ==> !snap.committed(id, tm.begun()),
        id < tm.next && !tm.active.contains(id) ==> snap.committed(id, tm.begun())
            == !tm.is_aborted(id),
{
    let act = tm.begun().active;
    crate::transaction_manager::law_begin(tm);
    if tm.active.contains(id) {
        let k = choose|k: int| 0 <= k < tm.active.len() && tm.active[k] == id;
        assert(act[k] == id);
        assert(act[0] <= act[k]);
    }
    if id == tm.next {
        assert(act[tm.active.len() as int] == id);
        assert(act[0] <= act[tm.active.len() as int]);
    }
    if id < tm.next && !tm.active.contains(id) {
        if act.contains(id) {
            let k = choose|k: int| 0 <= k < act.len() && act[k] == id;
            assert(tm.active[k] == id);
        }
    }
}

/// A version that vacuum may remove is invisible to every snapshot in which its
/// deleter had settled.
pub proof fn law_vacuumable_is_invisible(
    snap: Snapshot,
    tm: TmView,
    xmin: u64,
    xmax: u64,
    horizon: u64,
)
    requires
        vacuumable(xmin, xmax, horizon, tm),
        tm.status(xmin) != TransactionStatus::Aborted ==> snap.had_settled(xmax),
    ensures
        !snap.sees(xmin, xmax, tm),
{
}

/// A transaction that has not aborted sees what it wrote and has not deleted, and nothing
/// that it deleted.
pub proof fn law_own_writes(txn: Transaction, tm: TmView, xmin: u64)
    requires
        txn.txn_id != 0,
        !tm.is_aborted(txn.txn_id),
    ensures
        txn.sees(txn.txn_id, 0, tm),
        !txn.sees(xmin, txn.txn_id, tm),
{
}

/// An aborted transaction leaves no trace: no transaction, itself included, sees a version
/// that it created, and a version that it deleted is seen as if it had not been deleted.
pub proof fn law_aborted_leaves_no_trace(
    txn: Transaction,
    tm: TmView,
    id: u64,
    xmin: u64,
    xmax: u64,
)
    requires
        id != 0,
        tm.is_aborted(id),
    ensures
        !txn.sees(id, xmax, tm),
        txn.sees(xmin, id, tm) == txn.sees(xmin, 0, tm),
{
}

/// The same of a snapshot that no transaction holds.
pub proof fn law_aborted_is_not_in_a_snapshot(
    snap: Snapshot,
    tm: TmView,
    id: u64,
    xmin: u64,
    xmax: u64,
)
    requires
        id != 0,
        tm.clog.contains_key(id),
        tm.clog[id] == TransactionStatus::Aborted,
    ensures
        !snap.sees(id, xmax, tm),
        snap.sees(xmin, id, tm) == snap.sees(xmin, 0, tm),
{
}

/// The snapshot is what there was of the transactions at that time.
pub open spec fn taken_of(snap: Snapshot, tm: TmView) -> bool {
    &&& snap.xmax == tm.next
    &&& snap.active@ == tm.active
    &&& tm.active.len() > 0 ==> snap.xmin == tm.active[0]
    &&& tm.active.len() == 0 ==> snap.xmin == tm.next
}

/// What a snapshot tells of a transaction: whether it had begun and ended by then.
pub proof fn lemma_taken(snap: Snapshot, taken: TmView, id: u64)
    requires
        taken.wf(),
        taken_of(snap, taken),
    ensures
        snap.had_settled(id) == (id < taken.next && !taken.active.contains(id)),
{
    if taken.active.contains(id) {
        let i = choose|i: int| 0 <= i < taken.active.len() && taken.active[i] == id;
        assert(taken.active[0] <= taken.active[i]);
    }
    if taken.active.len() > 0 {
        assert(taken.active[0] < taken.next);
    }
}

/// A snapshot sees a version that a transaction created which had ended by then, and not by an
/// abort, unless a transaction deleted it of which the same is true. It makes no difference who
/// ended, or how, after the snapshot was taken.
pub proof fn law_snapshot_sees_what_had_committed(
    snap: Snapshot,
    taken: TmView,
    now: TmView,
    xmin: u64,
    xmax: u64,
)
    requires
        taken.wf(),
        snap.xmax == taken.next,
        snap.active@ == taken.active,
        taken.active.len() > 0 ==> snap.xmin == taken.active[0],
        taken.active.len() == 0 ==> snap.xmin == taken.next,
    ensures
        ({
            let gone = |id: u64| now.clog.contains_key(id) && now.clog[id]
                == TransactionStatus::Aborted;
            let open = |id: u64| id >= taken.next || taken.active.contains(id);
            &&& xmin != 0 && (gone(xmin) || open(xmin)) ==> !snap.sees(xmin, xmax, now)
            &&& (xmin == 0 || !gone(xmin) && !open(xmin)) ==> {
                &&& snap.sees(xmin, 0, now)
                &&& xmax != 0 && (gone(xmax) || open(xmax)) ==> snap.sees(xmin, xmax, now)
                &&& xmax != 0 && !gone(xmax) && !open(xmax) ==> !snap.sees(xmin, xmax, now)
            }
        }),
{
    lemma_taken(snap, taken, xmin);
    lemma_taken(snap, taken, xmax);
}

/// A transaction sees what those created that had ended, and not by an abort, when it began, and
/// what it created itself, as long as none of them, nor itself, has deleted it. Once it has
/// aborted, what it did counts no more.
pub proof fn law_transaction_sees_what_had_committed(
    txn: Transaction,
    before: TmView,
    now: TmView,
    xmin: u64,
    xmax: u64,
)
    requires
        before.wf(),
        0 < before.next < u64::MAX,
        txn.txn_id == before.next,
        txn.snapshot.xmax == before.next + 1,
        txn.snapshot.active@ == before.active.push(before.next),
        txn.snapshot.xmin == before.active.push(before.next)[0],
    ensures
        ({
            let gone = |id: u64| now.clog.contains_key(id) && now.clog[id]
                == TransactionStatus::Aborted;
            let open = |id: u64|
                id != txn.txn_id && (id >= before.next || before.active.contains(id));
            &&& xmin != 0 && (gone(xmin) || open(xmin)) ==> !txn.sees(xmin, xmax, now)
            &&& (xmin == 0 || !gone(xmin) && !open(xmin)) ==> {
                &&& txn.sees(xmin, 0, now)
                &&& xmax != 0 && (gone(xmax) || open(xmax)) ==> txn.sees(xmin, xmax, now)
                &&& xmax != 0 && !gone(xmax) && !open(xmax) ==> !txn.sees(xmin, xmax, now)
            }
        }),
{
    let taken = before.begun();
    crate::transaction_manager::law_begin(before);
    assert(taken.active =~= before.active.push(before.next));
    lemma_taken(txn.snapshot, taken, xmin);
    lemma_taken(txn.snapshot, taken, xmax);
    assert forall|id: u64| #[trigger] taken.active.contains(id) == (before.active.contains(id) || id
        == before.next) by {
        if before.active.contains(id) {
            let i = choose|i: int| 0 <= i < before.active.len() && before.active[i] == id;
            assert(taken.active[i] == id);
        }
        if taken.active.contains(id) {
            let i = choose|i: int| 0 <= i < taken.active.len() && taken.active[i] == id;
            if i < before.active.len() {
                assert(before.active[i] == id);
            }
        }
    }
}

/// To a snapshot a transaction is in progress that had not ended by then and has not ended since.
pub proof fn law_in_progress(snap: Snapshot, taken: TmView, now: TmView, id: u64)
    requires
        taken.wf(),
        snap.xmax == taken.next,
        snap.active@ == taken.active,
        taken.active.len() > 0 ==> snap.xmin == taken.active[0],
        taken.active.len() == 0 ==> snap.xmin == taken.next,
        id != 0,
    ensures
        now.clog.contains_key(id) ==> snap.in_progress(id, now) == (now.clog[id]
            == TransactionStatus::Active && (id >= taken.next || taken.active.contains(id))),
        id < taken.next && !taken.active.contains(id) ==> !snap.in_progress(id, now),
{
    lemma_taken(snap, taken, id);
}

/// Every snapshot counts a transaction as committed, as in progress, or as neither; never as
/// both.
pub proof fn law_committed_is_not_in_progress(snap: Snapshot, tm: TmView, id: u64)
    ensures
        !(snap.committed(id, tm) && snap.in_progress(id, tm)),
        snap.committed(0, tm),
{
}

/// Vacuum may remove a version whose creator aborted, or whose deleter committed and is older
/// than every active transaction; and no other.
pub proof fn law_vacuumable_is_dead(xmin: u64, xmax: u64, tm: TmView)
    requires
        tm.wf(),
        xmin != 0,
    ensures
        ({
            let aborted = |id: u64| tm.clog.contains_key(id) && tm.clog[id]
                == TransactionStatus::Aborted;
            let oldest = |id: u64|
                id < tm.next && forall|i: int|
                    0 <= i < tm.active.len() ==> id < #[trigger] tm.active[i];
            let committed = |id: u64|
                if tm.clog.contains_key(id) {
                    tm.clog[id] == TransactionStatus::Committed
                } else {
                    oldest(id)
                };
            vacuumable(xmin, xmax, tm.global_xmin(), tm) == (aborted(xmin) || xmax != 0
                && committed(xmax) && oldest(xmax))
        }),
{
    crate::transaction_manager::law_global_xmin_is_oldest(tm);
}

/// What vacuum may remove nobody who begins from then on sees.
pub proof fn law_vacuumable_is_not_missed(txn: Transaction, tm: TmView, xmin: u64, xmax: u64)
    requires
        tm.wf(),
        0 < tm.next < u64::MAX,
        forall|i: int| 0 <= i < tm.active.len() ==> #[trigger] tm.active[i] != 0,
        !tm.clog.contains_key(tm.next),
        vacuumable(xmin, xmax, tm.global_xmin(), tm),
        txn.txn_id == tm.next,
        txn.snapshot.xmax == tm.next + 1,
        txn.snapshot.active@ == tm.active.push(tm.next),
        txn.snapshot.xmin == tm.active.push(tm.next)[0],
    ensures
        !txn.sees(xmin, xmax, tm.begun()),
{
    crate::transaction_manager::law_global_xmin_is_oldest(tm);
    law_transaction_sees_what_had_committed(txn, tm, tm.begun(), xmin, xmax);
    if tm.active.contains(xmax) {
        let i = choose|i: int| 0 <= i < tm.active.len() && tm.active[i] == xmax;
        assert(tm.global_xmin() <= tm.active[i]);
    }
}

/// Whether `ids` holds `id`.
pub fn holds(ids: &Vec<u64>, id: u64) -> (b: bool)
    ensures
        b == ids@.contains(id),
{
    let mut i: usize = 0;
    while i < ids.len()
        invariant
            i <= ids@.len(),
            forall|j: int| 0 <= j < i ==> ids@[j] != id,
        decreases ids@.len() - i,
    {
        if ids[i] == id {
            return true;
        }
        i = i + 1;
    }
    false
}

impl Transaction {
    /// A transaction that has written nothing yet.
    pub fn new(txn_id: u64, snapshot: Snapshot) -> (txn: Self)
        ensures
            txn.txn_id == txn_id,
            txn.snapshot == snapshot,
            !txn.wrote,
    {
        Transaction { txn_id, snapshot, wrote: false }
    }

    /// Whether a version with these ids is visible to this transaction.
    pub fn is_visible(&self, rec_xmin: u64, rec_xmax: u64, tm: &TransactionManager) -> (b: bool)
        ensures
            b == self.sees(rec_xmin, rec_xmax, tm@),
    {
        if !self.counts(rec_xmin, tm) {
            return false;
        }
        if rec_xmax == 0 {
            return true;
        }
        !self.counts(rec_xmax, tm)
    }

    /// Whether the writes of the given transaction count for this one.
    fn counts(&self, id: u64, tm: &TransactionManager) -> (b: bool)
        ensures
            b == self.reckons(id, tm@),
    {
        (id == self.txn_id && !tm.is_aborted(id)) || self.snapshot.is_committed(id, tm)
    }

    /// Whether the given transaction counts as committed.
    pub fn is_committed(&self, txn_id: u64, tm: &TransactionManager) -> (b: bool)
        ensures
            b == self.snapshot.committed(txn_id, tm@),
    {
        self.snapshot.is_committed(txn_id, tm)
    }

    /// Whether the given transaction counts as in progress.
    pub fn is_in_progress(&self, txn_id: u64, tm: &TransactionManager) -> (b: bool)
        ensures
            b == self.snapshot.in_progress(txn_id, tm@),
    {
        self.snapshot.is_in_progress(txn_id, tm)
    }

    /// Notes that the transaction changes something.
    pub fn note_write(&mut self)
        ensures
            final(self).wrote,
            final(self).txn_id == old(self).txn_id,
            final(self).snapshot == old(self).snapshot,
    {
        self.wrote = true;
    }

    /// Whether the transaction has changed anything.
    pub fn wrote_anything(&self) -> (b: bool)
        ensures
            b == self.wrote,
    {
        self.wrote
    }
}

impl Snapshot {
    /// A snapshot in which every transaction but the aborted ones has committed.
    pub fn latest() -> (snap: Self)
        ensures
            snap.xmin == u64::MAX,
            snap.xmax == u64::MAX,
            snap.active@ == Seq::<u64>::empty(),
            forall|id: u64, tm: TmView|
                id < u64::MAX ==> #[trigger] snap.committed(id, tm) == (id == 0 || !tm.is_aborted(
                    id,
                )),
    {
        Snapshot { xmin: u64::MAX, xmax: u64::MAX, active: Vec::new() }
    }

    /// Whether the given transaction counts as committed.
    pub fn is_committed(&self, txn_id: u64, tm: &TransactionManager) -> (b: bool)
        ensures
            b == self.committed(txn_id, tm@),
    {
        if txn_id == 0 {
            return true;
        }
        if tm.is_aborted(txn_id) {
            return false;
        }
        if txn_id < self.xmin {
            return true;
        }
        if txn_id >= self.xmax {
            return false;
        }
        !holds(&self.active, txn_id)
    }

    /// Whether the given transaction counts as in progress.
    pub fn is_in_progress(&self, txn_id: u64, tm: &TransactionManager) -> (b: bool)
        ensures
            b == self.in_progress(txn_id, tm@),
    {
        if tm.settled_status(txn_id) != TransactionStatus::Active {
            return false;
        }
        if txn_id < self.xmin {
            return false;
        }
        if txn_id >= self.xmax {
            return true;
        }
        holds(&self.active, txn_id)
    }
}

/// Whether a version with these ids is visible to a reader that holds `snap`.
pub fn is_visible(rec_xmin: u64, rec_xmax: u64, snap: &Snapshot, tm: &TransactionManager) -> (b:
    bool)
    ensures
        b == snap.sees(rec_xmin, rec_xmax, tm@),
{
    if !snap.is_committed(rec_xmin, tm) {
        return false;
    }
    if rec_xmax == 0 {
        return true;
    }
    !snap.is_committed(rec_xmax, tm)
}

/// Whether a version with these ids can be removed from storage.
pub fn is_vacuumable(xmin: u64, xmax: u64, horizon: u64, tm: &TransactionManager) -> (b: bool)
    ensures
        b == vacuumable(xmin, xmax, horizon, tm@),
{
    if tm.settled_status(xmin) == TransactionStatus::Aborted {
        return true;
    }
    if xmax == 0 || tm.settled_status(xmax) != TransactionStatus::Committed {
        return false;
    }
    xmax < horizon
}

} // verus!
