//! Transaction lifecycle: ids, snapshots and the commit log.
//!
//! A transaction starts `Active`: it receives an id and a snapshot and stands in
//! the active set. It then settles as `Committed` or `Aborted`, which the commit
//! log records and which takes it out of the active set.

use crate::transaction::{Snapshot, Transaction};
use std::collections::HashMap;
use vstd::prelude::*;

verus! {

broadcast use vstd::std_specs::hash::group_hash_axioms;

/// The state of a transaction as the commit log records it.
#[derive(Debug, Clone, Copy, PartialEq, Eq, Structural)]
pub enum TransactionStatus {
    Active,
    Committed,
    Aborted,
}

/// Issues transaction ids and snapshots and keeps the commit log.
#[derive(Debug)]
pub struct TransactionManager {
    /// The id of the next transaction.
    pub next_txn_id: u64,
    /// The recorded status of every transaction that is not forgotten.
    pub clog: HashMap<u64, TransactionStatus>,
    /// The ids of the transactions that have not settled, in ascending order.
    pub active_txns: Vec<u64>,
    /// The horizon of the last vacuum sweep that reached the last leaf.
    pub swept_horizon: u64,
}

/// The part of a transaction manager that decides visibility.
pub ghost struct TmView {
    pub next: u64,
    pub clog: Map<u64, TransactionStatus>,
    pub active: Seq<u64>,
    pub swept: u64,
}

/// The commit log records `id` as `status`.
pub open spec fn has_status(
    clog: Map<u64, TransactionStatus>,
    id: u64,
    status: TransactionStatus,
) -> bool {
    clog.contains_key(id) && clog[id] == status
}

/// `ids` is in strictly ascending order.
pub open spec fn ascending(ids: Seq<u64>) -> bool {
    forall|i: int, j: int| 0 <= i < j < ids.len() ==> ids[i] < ids[j]
}

/// The ids of `ids` other than `id`, in the same order.
pub open spec fn without(ids: Seq<u64>, id: u64) -> Seq<u64> {
    ids.filter(|x: u64| x != id)
}

impl TmView {
    /// The active ids are in ascending order and were all issued.
    pub open spec fn wf(self) -> bool {
        &&& ascending(self.active)
        &&& forall|i: int| 0 <= i < self.active.len() ==> #[trigger] self.active[i] < self.next
    }

    /// The smallest active id, or the next id where no transaction is active.
    pub open spec fn global_xmin(self) -> u64 {
        if self.active.len() > 0 {
            self.active[0]
        } else {
            self.next
        }
    }

    pub open spec fn is_committed(self, id: u64) -> bool {
        id == 0 || has_status(self.clog, id, TransactionStatus::Committed)
    }

    pub open spec fn is_aborted(self, id: u64) -> bool {
        has_status(self.clog, id, TransactionStatus::Aborted)
    }

    /// The status of a transaction, with the rule that an id below every active one
    /// that the commit log does not hold has committed.
    pub open spec fn status(self, id: u64) -> TransactionStatus {
        if id == 0 {
            TransactionStatus::Committed
        } else if self.clog.contains_key(id) {
            self.clog[id]
        } else if id < self.global_xmin() {
            TransactionStatus::Committed
        } else {
            TransactionStatus::Active
        }
    }

    /// The commit log must hold the transaction: it is active, or it aborted and vacuum
    /// may not have removed its versions.
    pub open spec fn must_keep(self, id: u64) -> bool {
        ||| self.clog[id] == TransactionStatus::Active
        ||| self.clog[id] == TransactionStatus::Aborted && id >= self.swept
    }

    /// The manager after the next transaction has begun.
    pub open spec fn begun(self) -> TmView {
        TmView {
            next: (self.next + 1) as u64,
            clog: self.clog.insert(self.next, TransactionStatus::Active),
            active: self.active.push(self.next),
            swept: self.swept,
        }
    }

    /// The manager after transaction `id` has settled as `status`.
    pub open spec fn settled(self, id: u64, status: TransactionStatus) -> TmView {
        TmView {
            next: self.next,
            clog: self.clog.insert(id, status),
            active: without(self.active, id),
            swept: self.swept,
        }
    }
}

/// Taking an id out of an ascending sequence leaves it ascending, and takes out
/// nothing else.
proof fn lemma_without(ids: Seq<u64>, id: u64)
    requires
        ascending(ids),
    ensures
        ascending(without(ids, id)),
        forall|x: u64| #[trigger] without(ids, id).contains(x) <==> ids.contains(x) && x != id,
        forall|i: int|
            0 <= i < without(ids, id).len() ==> ids.contains(#[trigger] without(ids, id)[i]),
    decreases ids.len(),
{
    let f = |x: u64| x != id;
    reveal(Seq::filter);
    if ids.len() > 0 {
        let init = ids.drop_last();
        lemma_without(init, id);
        let rest = without(init, id);
        assert(without(ids, id) == if f(ids.last()) {
            rest.push(ids.last())
        } else {
            rest
        });
        assert forall|i: int| 0 <= i < rest.len() implies #[trigger] rest[i] < ids.last() by {
            assert(init.contains(rest[i]));
            let k = choose|k: int| 0 <= k < init.len() && init[k] == rest[i];
            assert(ids[k] < ids[ids.len() - 1]);
        }
        assert forall|x: u64| #[trigger] without(ids, id).contains(x) <==> ids.contains(x) && x
            != id by {
            if ids.contains(x) && x != id {
                let k = choose|k: int| 0 <= k < ids.len() && ids[k] == x;
                if k < init.len() {
                    assert(init[k] == x);
                    assert(rest.contains(x));
                    let m = choose|m: int| 0 <= m < rest.len() && rest[m] == x;
                    assert(without(ids, id)[m] == x);
                } else {
                    assert(without(ids, id)[rest.len() as int] == x);
                }
            }
            if without(ids, id).contains(x) {
                let k = choose|k: int|
                    0 <= k < without(ids, id).len() && without(ids, id)[k] == x;
                if k < rest.len() {
                    assert(rest.contains(x));
                    let m = choose|m: int| 0 <= m < init.len() && init[m] == x;
                    assert(ids[m] == x);
                }
            }
        }
        assert forall|i: int| 0 <= i < without(ids, id).len() implies ids.contains(
            #[trigger] without(ids, id)[i],
        ) by {
            assert(without(ids, id).contains(without(ids, id)[i]));
        }
    }
}

/// Beginning a transaction keeps the manager well formed, issues an id above every
/// active one, and leaves every earlier status as it was.
pub proof fn law_begin(tm: TmView)
    requires
        tm.wf(),
        tm.next < u64::MAX,
    ensures
        tm.begun().wf(),
        tm.begun().active.contains(tm.next),
        !tm.active.contains(tm.next),
        tm.begun().next > tm.next,
        forall|id: u64| id != tm.next ==> (#[trigger] tm.begun().is_committed(id)
            == tm.is_committed(id)) && tm.begun().is_aborted(id) == tm.is_aborted(id),
{
    assert(tm.begun().active[tm.active.len() as int] == tm.next);
}

/// Settling a transaction keeps the manager well formed and removes exactly that id
/// from the active set.
pub proof fn law_settle(tm: TmView, id: u64, status: TransactionStatus)
    requires
        tm.wf(),
    ensures
        tm.settled(id, status).wf(),
        !tm.settled(id, status).active.contains(id),
        forall|x: u64|
            x != id ==> (#[trigger] tm.settled(id, status).active.contains(x)
                == tm.active.contains(x)),
        has_status(tm.settled(id, status).clog, id, status),
        tm.settled(id, status).next == tm.next,
{
    lemma_without(tm.active, id);
    let after = tm.settled(id, status);
    assert forall|i: int| 0 <= i < after.active.len() implies #[trigger] after.active[i]
        < after.next by {
        assert(tm.active.contains(after.active[i]));
    }
}

/// The horizon never moves back: neither beginning nor settling a transaction
/// lowers the smallest id that is still active.
pub proof fn law_global_xmin_monotone(tm: TmView, id: u64, status: TransactionStatus)
    requires
        tm.wf(),
        tm.next < u64::MAX,
    ensures
        tm.global_xmin() <= tm.begun().global_xmin(),
        tm.global_xmin() <= tm.settled(id, status).global_xmin(),
{
    law_settle(tm, id, status);
    lemma_without(tm.active, id);
    let after = tm.settled(id, status);
    if after.active.len() > 0 {
        assert(tm.active.contains(after.active[0]));
        let k = choose|k: int| 0 <= k < tm.active.len() && tm.active[k] == after.active[0];
        assert(tm.active[0] <= tm.active[k]);
    } else if tm.active.len() > 0 {
        assert(tm.active[0] < tm.next);
    }
}

/// Forgetting transactions below the smallest active id changes no status, but for aborted
/// ones below the horizon of a completed sweep, whose versions are gone.
pub proof fn law_truncation_keeps_status(before: TmView, after: TmView, horizon: u64, id: u64)
    requires
        horizon <= before.global_xmin(),
        after.active == before.active,
        after.next == before.next,
        forall|x: u64| #[trigger]
            after.clog.contains_key(x) <==> before.clog.contains_key(x) && (x >= horizon
                || before.must_keep(x)),
        forall|x: u64|
            after.clog.contains_key(x) ==> #[trigger] after.clog[x] == before.clog[x],
    ensures
        after.status(id) == before.status(id) || before.status(id) == TransactionStatus::Aborted
            && id < before.swept,
{
    assert(after.clog.contains_key(id) <==> before.clog.contains_key(id) && (id >= horizon
        || before.must_keep(id)));
}

/// What is forgotten are the committed transactions below the horizon, and of the aborted ones
/// there those that a completed sweep has reached. All others stay as they are recorded.
pub proof fn law_what_truncation_forgets(before: TmView, after: TmView, horizon: u64, id: u64)
    requires
        before.clog.contains_key(id),
        forall|x: u64| #[trigger]
            after.clog.contains_key(x) <==> before.clog.contains_key(x) && (x >= horizon
                || before.must_keep(x)),
        forall|x: u64|
            after.clog.contains_key(x) ==> #[trigger] after.clog[x] == before.clog[x],
    ensures
        after.clog.contains_key(id) ==> after.clog[id] == before.clog[id],
        id >= horizon ==> after.clog.contains_key(id),
        id < horizon ==> (after.clog.contains_key(id) <==> match before.clog[id] {
            TransactionStatus::Active => true,
            TransactionStatus::Committed => false,
            TransactionStatus::Aborted => id >= before.swept,
        }),
{
}

/// The horizon is an active id that no other is below, or where no transaction is active, the
/// id that will be issued next.
pub proof fn law_global_xmin_is_oldest(tm: TmView)
    requires
        tm.wf(),
    ensures
        forall|i: int| 0 <= i < tm.active.len() ==> tm.global_xmin() <= #[trigger] tm.active[i],
        tm.active.len() > 0 ==> tm.active.contains(tm.global_xmin()),
        tm.active.len() == 0 ==> tm.global_xmin() == tm.next,
        tm.global_xmin() <= tm.next,
{
    if tm.active.len() > 0 {
        assert(tm.active[0] < tm.next);
    }
}

/// What the commit log records of a transaction is its status. One that it does not hold has
/// committed where every active transaction is younger, else it is active.
pub proof fn law_status(tm: TmView, id: u64)
    requires
        tm.wf(),
        id != 0,
    ensures
        tm.clog.contains_key(id) ==> tm.status(id) == tm.clog[id],
        !tm.clog.contains_key(id) && id < tm.next && (forall|i: int|
            0 <= i < tm.active.len() ==> id < #[trigger] tm.active[i]) ==> tm.status(id)
            == TransactionStatus::Committed,
        !tm.clog.contains_key(id) && (exists|i: int|
            0 <= i < tm.active.len() && #[trigger] tm.active[i] <= id) ==> tm.status(id)
            == TransactionStatus::Active,
        !tm.clog.contains_key(id) && id >= tm.next ==> tm.status(id) == TransactionStatus::Active,
        tm.is_aborted(id) == (tm.clog.contains_key(id) && tm.clog[id]
            == TransactionStatus::Aborted),
        tm.is_committed(id) == (tm.clog.contains_key(id) && tm.clog[id]
            == TransactionStatus::Committed),
{
    law_global_xmin_is_oldest(tm);
}

/// Changes that belong to no transaction count as committed.
pub proof fn law_system_has_committed(tm: TmView)
    ensures
        tm.status(0) == TransactionStatus::Committed,
        tm.is_committed(0),
{
}

/// A transaction that begins receives the id that was next, is active and has not settled. When
/// it settles, it is recorded as it settled, and only that; and no other transaction's record
/// changes.
pub proof fn law_life_of_a_transaction(tm: TmView, status: TransactionStatus, other: u64)
    requires
        tm.wf(),
        0 < tm.next < u64::MAX,
        other != tm.next,
    ensures
        ({
            let id = tm.next;
            let begun = tm.begun();
            let ended = begun.settled(id, status);
            &&& begun.next == id + 1
            &&& begun.status(id) == TransactionStatus::Active
            &&& !begun.is_committed(id)
            &&& !begun.is_aborted(id)
            &&& begun.active.contains(id)
            &&& !ended.active.contains(id)
            &&& ended.status(id) == status
            &&& ended.is_committed(id) == (status == TransactionStatus::Committed)
            &&& ended.is_aborted(id) == (status == TransactionStatus::Aborted)
            &&& ended.next == id + 1
            &&& begun.active.contains(other) == tm.active.contains(other)
            &&& ended.active.contains(other) == tm.active.contains(other)
            &&& ended.clog.contains_key(other) == tm.clog.contains_key(other)
            &&& tm.clog.contains_key(other) ==> ended.clog[other] == tm.clog[other]
            &&& ended.swept == tm.swept
        }),
{
    let begun = tm.begun();
    law_begin(tm);
    law_settle(begun, tm.next, status);
    if tm.active.contains(other) {
        let i = choose|i: int| 0 <= i < tm.active.len() && tm.active[i] == other;
        assert(begun.active[i] == other);
    }
    if begun.active.contains(other) {
        let i = choose|i: int| 0 <= i < begun.active.len() && begun.active[i] == other;
        assert(tm.active[i] == other);
    }
}

impl View for TransactionManager {
    type V = TmView;

    open spec fn view(&self) -> TmView {
        TmView {
            next: self.next_txn_id,
            clog: self.clog@,
            active: self.active_txns@,
            swept: self.swept_horizon,
        }
    }
}

impl Default for TransactionManager {
    fn default() -> (tm: Self)
        ensures
            tm@.wf(),
            tm@.next == 1,
            tm@.clog == Map::<u64, TransactionStatus>::empty(),
            tm@.active == Seq::<u64>::empty(),
            tm@.swept == 0,
    {
        Self::new()
    }
}

impl TransactionManager {
    /// A manager that has issued no id.
    pub fn new() -> (tm: Self)
        ensures
            tm@.wf(),
            tm@.next == 1,
            tm@.clog == Map::<u64, TransactionStatus>::empty(),
            tm@.active == Seq::<u64>::empty(),
            tm@.swept == 0,
    {
        Self { next_txn_id: 1, clog: HashMap::new(), active_txns: Vec::new(), swept_horizon: 0 }
    }

    /// The smallest active id, or the next id where no transaction is active.
    pub fn global_xmin(&self) -> (xmin: u64)
        ensures
            xmin == self@.global_xmin(),
    {
        if self.active_txns.len() > 0 {
            self.active_txns[0]
        } else {
            self.next_txn_id
        }
    }

    /// Forgets the settled transactions below `horizon`, but for the aborted ones that the
    /// last sweep of vacuum did not reach: their versions may still be there.
    pub fn truncate_clog(&mut self, horizon: u64)
        ensures
            final(self)@.next == old(self)@.next,
            final(self)@.active == old(self)@.active,
            final(self)@.swept == old(self)@.swept,
            forall|id: u64| #[trigger]
                final(self)@.clog.contains_key(id) <==> old(self)@.clog.contains_key(id) && (id
                    >= horizon || old(self)@.must_keep(id)),
            forall|id: u64|
                final(self)@.clog.contains_key(id) ==> #[trigger] final(self)@.clog[id]
                    == old(self)@.clog[id],
    {
        let ghost before = self.clog@;
        let ghost keys = vstd::std_specs::hash::spec_keys_iter(&self.clog);
        let ghost listed = vstd::std_specs::iter::IteratorSpec::remaining(&keys).unref();
        assert(listed.to_set() == before.dom());
        let mut ids: Vec<u64> = Vec::new();
        for id in it: self.clog.keys()
            invariant
                before == self.clog@,
                it.seq().unref() == listed,
                ids@ =~= it.seq().unref().take(it.index() as int),
        {
            ids.push(*id);
        }
        assert(ids@ =~= listed);
        assert forall|id: u64| before.contains_key(id) implies ids@.contains(id) by {
            assert(before.dom().contains(id));
            assert(listed.to_set().contains(id));
        }
        let mut i: usize = 0;
        while i < ids.len()
            invariant
                i <= ids@.len(),
                self@.next == old(self)@.next,
                self@.active == old(self)@.active,
                self@.swept == old(self)@.swept,
                before == old(self)@.clog,
                forall|id: u64| before.contains_key(id) ==> ids@.contains(id),
                forall|id: u64| #[trigger]
                    self.clog@.contains_key(id) <==> before.contains_key(id) && (id >= horizon
                        || old(self)@.must_keep(id) || !ids@.take(i as int).contains(id)),
                forall|id: u64|
                    self.clog@.contains_key(id) ==> #[trigger] self.clog@[id] == before[id],
            decreases ids@.len() - i,
        {
            let id: u64 = ids[i];
            let ghost earlier = ids@.take(i as int);
            assert(ids@.take(i + 1) =~= earlier.push(id));
            assert forall|x: u64| #[trigger]
                ids@.take(i + 1).contains(x) <==> earlier.contains(x) || x == id by {
                if earlier.contains(x) {
                    let k = choose|k: int| 0 <= k < earlier.len() && earlier[k] == x;
                    assert(ids@.take(i + 1)[k] == x);
                }
                if x == id {
                    assert(ids@.take(i + 1)[i as int] == x);
                }
            }
            if id < horizon {
                let ghost held = self.clog@;
                let kept: bool = match self.clog.get(&id) {
                    Some(status) => *status == TransactionStatus::Active || (*status
                        == TransactionStatus::Aborted && id >= self.swept_horizon),
                    None => false,
                };
                if !kept {
                    self.clog.remove(&id);
                    assert(self.clog@ == held.remove(id));
                }
            }
            i = i + 1;
        }
        assert(ids@.take(ids@.len() as int) =~= ids@);
    }

    /// Begins a transaction: it receives the next id and a snapshot of the active set
    /// in which its own id stands.
    pub fn begin(&mut self) -> (txn: Transaction)
        requires
            old(self)@.wf(),
            old(self)@.next < u64::MAX,
        ensures
            final(self)@ == old(self)@.begun(),
            final(self)@.wf(),
            txn.txn_id == old(self)@.next,
            !txn.wrote,
            txn.snapshot.xmin == final(self)@.active[0],
            txn.snapshot.xmax == final(self)@.next,
            txn.snapshot.active@ == final(self)@.active,
    {
        proof {
            law_begin(self@);
        }
        let txn_id: u64 = self.next_txn_id;
        self.next_txn_id = txn_id + 1;
        self.active_txns.push(txn_id);
        self.clog.insert(txn_id, TransactionStatus::Active);
        let active: Vec<u64> = self.active_txns.clone();
        assert(active@ =~= self.active_txns@);
        Transaction {
            txn_id,
            snapshot: Snapshot { xmin: active[0], xmax: self.next_txn_id, active },
            wrote: false,
        }
    }

    /// Records `txn_id` as `status` and takes it out of the active set.
    fn settle(&mut self, txn_id: u64, status: TransactionStatus)
        requires
            old(self)@.wf(),
        ensures
            final(self)@ == old(self)@.settled(txn_id, status),
            final(self)@.wf(),
    {
        proof {
            law_settle(self@, txn_id, status);
        }
        self.clog.insert(txn_id, status);
        let mut rest: Vec<u64> = Vec::new();
        let mut i: usize = 0;
        while i < self.active_txns.len()
            invariant
                i <= self.active_txns@.len(),
                rest@ == without(self.active_txns@.take(i as int), txn_id),
            decreases self.active_txns@.len() - i,
        {
            let ghost ids = self.active_txns@.take(i + 1);
            proof {
                assert(ids.drop_last() =~= self.active_txns@.take(i as int));
                reveal(Seq::filter);
            }
            if self.active_txns[i] != txn_id {
                rest.push(self.active_txns[i]);
            }
            i = i + 1;
        }
        proof {
            assert(self.active_txns@.take(i as int) =~= self.active_txns@);
        }
        self.active_txns = rest;
    }

    /// Records the transaction as committed and takes it out of the active set.
    pub fn commit(&mut self, txn_id: u64)
        requires
            old(self)@.wf(),
        ensures
            final(self)@ == old(self)@.settled(txn_id, TransactionStatus::Committed),
            final(self)@.wf(),
    {
        self.settle(txn_id, TransactionStatus::Committed);
    }

    /// Records the transaction as aborted and takes it out of the active set.
    pub fn abort(&mut self, txn_id: u64)
        requires
            old(self)@.wf(),
        ensures
            final(self)@ == old(self)@.settled(txn_id, TransactionStatus::Aborted),
            final(self)@.wf(),
    {
        self.settle(txn_id, TransactionStatus::Aborted);
    }

    /// Settles a transaction whose commit record is durable.
    pub fn mark_committed(&mut self, txn_id: u64)
        requires
            old(self)@.wf(),
        ensures
            final(self)@ == old(self)@.settled(txn_id, TransactionStatus::Committed),
            final(self)@.wf(),
    {
        self.commit(txn_id);
    }

    /// Settles a transaction that was rolled back.
    pub fn mark_aborted(&mut self, txn_id: u64)
        requires
            old(self)@.wf(),
        ensures
            final(self)@ == old(self)@.settled(txn_id, TransactionStatus::Aborted),
            final(self)@.wf(),
    {
        self.abort(txn_id);
    }

    /// Whether a caller that waits for `blocking_txn` may go on: `true` once that
    /// transaction has left the active set. The caller sleeps and asks again.
    pub fn wait_until_settled(&self, blocking_txn: u64) -> (settled: bool)
        ensures
            settled == !self@.active.contains(blocking_txn),
    {
        !self.is_active(blocking_txn)
    }

    /// Whether the commit log records the transaction as committed.
    pub fn is_committed(&self, txn_id: u64) -> (b: bool)
        ensures
            b == self@.is_committed(txn_id),
    {
        if txn_id == 0 {
            return true;
        }
        match self.clog.get(&txn_id) {
            Some(TransactionStatus::Committed) => true,
            _ => false,
        }
    }

    /// Whether the commit log records the transaction as aborted.
    pub fn is_aborted(&self, txn_id: u64) -> (b: bool)
        ensures
            b == self@.is_aborted(txn_id),
    {
        match self.clog.get(&txn_id) {
            Some(TransactionStatus::Aborted) => true,
            _ => false,
        }
    }

    /// Whether the transaction is in the active set.
    pub fn is_active(&self, txn_id: u64) -> (b: bool)
        ensures
            b == self@.active.contains(txn_id),
    {
        crate::transaction::holds(&self.active_txns, txn_id)
    }

    /// A snapshot of the current state, taken outside any transaction.
    pub fn get_snapshot(&self) -> (snap: Snapshot)
        ensures
            snap.xmin == self@.global_xmin(),
            snap.xmax == self@.next,
            snap.active@ == self@.active,
            self@.wf() ==> forall|id: u64| #[trigger]
                snap.had_settled(id) == (id < self@.next && !self@.active.contains(id)),
    {
        let active: Vec<u64> = self.active_txns.clone();
        assert(active@ =~= self.active_txns@);
        let snap = Snapshot { xmin: self.global_xmin(), xmax: self.next_txn_id, active };
        proof {
            if self@.wf() {
                assert forall|id: u64| #[trigger] snap.had_settled(id) == (id < self@.next
                    && !self@.active.contains(id)) by {
                    crate::transaction::lemma_taken(snap, self@, id);
                }
            }
        }
        snap
    }

    /// The status of a transaction, with the rule that an id below every active one
    /// that the commit log does not hold has committed.
    pub fn settled_status(&self, txn_id: u64) -> (status: TransactionStatus)
        ensures
            status == self@.status(txn_id),
    {
        if txn_id == 0 {
            return TransactionStatus::Committed;
        }
        match self.clog.get(&txn_id) {
            Some(status) => *status,
            None => if txn_id < self.global_xmin() {
                TransactionStatus::Committed
            } else {
                TransactionStatus::Active
            },
        }
    }

    /// The horizon that the last completed vacuum sweep captured at its start, or 0.
    pub fn vacuum_horizon(&self) -> (horizon: u64)
        ensures
            horizon == self@.swept,
    {
        self.swept_horizon
    }

    /// Publishes the horizon of a completed sweep; a smaller one changes nothing.
    pub fn publish_vacuum_horizon(&mut self, horizon: u64)
        ensures
            final(self)@ == (TmView {
                swept: if horizon > old(self)@.swept {
                    horizon
                } else {
                    old(self)@.swept
                },
                ..old(self)@
            }),
    {
        if horizon > self.swept_horizon {
            self.swept_horizon = horizon;
        }
    }
}

} // verus!
