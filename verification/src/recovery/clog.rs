//! The commit log, rebuilt from the records of the log.

use crate::recovery::{records_of, LoggedRecord};
use crate::transaction_manager::{TmView, TransactionManager, TransactionStatus};
use crate::wal::record::{RecordView, WalRecordType};
use std::collections::HashMap;
use vstd::prelude::*;

verus! {

broadcast use vstd::std_specs::hash::group_hash_axioms;

/// A record names the transaction.
pub open spec fn names(recs: Seq<RecordView>, id: u64) -> bool {
    exists|i: int| 0 <= i < recs.len() && (#[trigger] recs[i]).txn_id == id
}

/// How the transaction ended: what the last commit or abort record of it says, or by an
/// abort where there is none.
pub open spec fn verdict(recs: Seq<RecordView>, id: u64) -> TransactionStatus
    decreases recs.len(),
{
    if recs.len() == 0 {
        TransactionStatus::Aborted
    } else if recs.last().txn_id == id && recs.last().kind == WalRecordType::Commit {
        TransactionStatus::Committed
    } else if recs.last().txn_id == id && recs.last().kind == WalRecordType::Abort {
        TransactionStatus::Aborted
    } else {
        verdict(recs.drop_last(), id)
    }
}

/// After a restart no transaction is in progress.
pub proof fn lemma_verdict(recs: Seq<RecordView>, id: u64)
    ensures
        verdict(recs, id) != TransactionStatus::Active,
    decreases recs.len(),
{
    if recs.len() > 0 {
        lemma_verdict(recs.drop_last(), id);
    }
}

/// The highest id that a record names.
pub open spec fn highest(recs: Seq<RecordView>) -> u64
    decreases recs.len(),
{
    if recs.len() == 0 {
        0
    } else if recs.last().txn_id > highest(recs.drop_last()) {
        recs.last().txn_id
    } else {
        highest(recs.drop_last())
    }
}

/// The commit log after a restart.
pub open spec fn rebuilt_clog(recs: Seq<RecordView>) -> Map<u64, TransactionStatus> {
    Map::new(|id: u64| id != 0 && names(recs, id), |id: u64| verdict(recs, id))
}

/// The transactions after a restart: none is active, and no id that the log names is given
/// out again.
pub open spec fn rebuilt(recs: Seq<RecordView>) -> TmView {
    TmView {
        next: (highest(recs) + 1) as u64,
        clog: rebuilt_clog(recs),
        active: Seq::empty(),
        swept: 0,
    }
}

/// One more record names one more transaction, and settles no other.
pub proof fn lemma_one_more(recs: Seq<RecordView>, r: RecordView, id: u64)
    ensures
        names(recs.push(r), id) == (names(recs, id) || r.txn_id == id),
        r.txn_id != id ==> verdict(recs.push(r), id) == verdict(recs, id),
        r.txn_id == id && r.kind == WalRecordType::Commit ==> verdict(recs.push(r), id)
            == TransactionStatus::Committed,
        r.txn_id == id && r.kind == WalRecordType::Abort ==> verdict(recs.push(r), id)
            == TransactionStatus::Aborted,
        r.txn_id == id && r.kind != WalRecordType::Commit && r.kind != WalRecordType::Abort
            ==> verdict(recs.push(r), id) == verdict(recs, id),
        highest(recs.push(r)) == (if r.txn_id > highest(recs) {
            r.txn_id
        } else {
            highest(recs)
        }),
{
    let more = recs.push(r);
    assert(more.drop_last() =~= recs);
    assert(more.last() == r);
    if names(recs, id) {
        let i = choose|i: int| 0 <= i < recs.len() && (#[trigger] recs[i]).txn_id == id;
        assert(more[i].txn_id == id);
    }
    if r.txn_id == id {
        assert(more[recs.len() as int].txn_id == id);
    }
    if names(more, id) {
        let i = choose|i: int| 0 <= i < more.len() && (#[trigger] more[i]).txn_id == id;
        if i < recs.len() {
            assert(recs[i].txn_id == id);
        }
    }
}

/// A transaction that no record names has no verdict but the default one.
pub proof fn lemma_unnamed(recs: Seq<RecordView>, id: u64)
    requires
        !names(recs, id),
    ensures
        verdict(recs, id) == TransactionStatus::Aborted,
    decreases recs.len(),
{
    if recs.len() > 0 {
        let rest = recs.drop_last();
        assert(recs[recs.len() - 1].txn_id != id);
        assert(!names(rest, id)) by {
            if names(rest, id) {
                let i = choose|i: int| 0 <= i < rest.len() && (#[trigger] rest[i]).txn_id == id;
                assert(recs[i].txn_id == id);
            }
        }
        lemma_unnamed(rest, id);
    }
}

/// Rebuilds the commit log. Gives `None` where a record names the last id that there is.
pub fn rebuild(records: &Vec<LoggedRecord>) -> (r: Option<TransactionManager>)
    ensures
        match r {
            Some(tm) => names(records_of(records@), u64::MAX) == false && tm@ == rebuilt(
                records_of(records@),
            ) && tm@.wf(),
            None => names(records_of(records@), u64::MAX),
        },
{
    let ghost recs = records_of(records@);
    let mut clog: HashMap<u64, TransactionStatus> = HashMap::new();
    let mut top: u64 = 0;
    let mut i: usize = 0;
    assert(recs.take(0) =~= Seq::<RecordView>::empty());
    assert(clog@ =~= rebuilt_clog(recs.take(0)));
    while i < records.len()
        invariant
            i <= records@.len(),
            recs == records_of(records@),
            clog@ == rebuilt_clog(recs.take(i as int)),
            top == highest(recs.take(i as int)),
            top < u64::MAX,
            !names(recs.take(i as int), u64::MAX),
        decreases records@.len() - i,
    {
        let ghost seen = recs.take(i as int);
        let ghost rv = recs[i as int];
        let ghost before = clog@;
        let id: u64 = records[i].txn_id;
        let kind: WalRecordType = records[i].kind;
        assert(rv == records@[i as int].record());
        assert(recs.take(i + 1) =~= seen.push(rv));
        if id == u64::MAX {
            assert(recs[i as int].txn_id == u64::MAX);
            return None;
        }
        if id != 0 {
            if kind == WalRecordType::Commit {
                clog.insert(id, TransactionStatus::Committed);
            } else if kind == WalRecordType::Abort {
                clog.insert(id, TransactionStatus::Aborted);
            } else if !clog.contains_key(&id) {
                clog.insert(id, TransactionStatus::Aborted);
            }
        }
        if id > top {
            top = id;
        }
        proof {
            lemma_one_more(seen, rv, id);
            lemma_one_more(seen, rv, u64::MAX);
            assert forall|x: u64| #[trigger]
                clog@.dom().contains(x) == rebuilt_clog(seen.push(rv)).dom().contains(x) by {
                lemma_one_more(seen, rv, x);
                assert(before.dom().contains(x) == (x != 0 && names(seen, x)));
            }
            assert forall|x: u64| #[trigger] clog@.dom().contains(x) implies clog@[x]
                == rebuilt_clog(seen.push(rv))[x] by {
                lemma_one_more(seen, rv, x);
                if x == id && !names(seen, x) {
                    lemma_unnamed(seen, x);
                }
            }
            assert(clog@ =~= rebuilt_clog(seen.push(rv)));
        }
        i = i + 1;
    }
    assert(recs.take(recs.len() as int) =~= recs);
    let tm = TransactionManager {
        next_txn_id: top + 1,
        clog,
        active_txns: Vec::new(),
        swept_horizon: 0,
    };
    assert(tm@.active =~= rebuilt(recs).active);
    Some(tm)
}

/// A transaction whose last word in the log is a commit record has committed.
pub proof fn law_logged_commit_survives(recs: Seq<RecordView>, id: u64)
    requires
        id != 0,
        names(recs, id),
        verdict(recs, id) == TransactionStatus::Committed,
    ensures
        rebuilt(recs).is_committed(id),
        rebuilt(recs).status(id) == TransactionStatus::Committed,
{
}

/// A transaction that the log names without a commit record is aborted: what it wrote stays
/// unseen.
pub proof fn law_crash_victim_is_aborted(recs: Seq<RecordView>, id: u64)
    requires
        id != 0,
        names(recs, id),
        forall|i: int|
            0 <= i < recs.len() && (#[trigger] recs[i]).txn_id == id ==> recs[i].kind
                != WalRecordType::Commit,
    ensures
        rebuilt(recs).is_aborted(id),
        rebuilt(recs).status(id) == TransactionStatus::Aborted,
{
    lemma_no_commit(recs, id);
}

/// What the last commit or abort record of a transaction says is how it ended.
pub proof fn law_last_word_counts(recs: Seq<RecordView>, id: u64, i: int)
    requires
        id != 0,
        0 <= i < recs.len(),
        recs[i].txn_id == id,
        recs[i].kind == WalRecordType::Commit || recs[i].kind == WalRecordType::Abort,
        forall|j: int|
            i < j < recs.len() && (#[trigger] recs[j]).txn_id == id ==> recs[j].kind
                != WalRecordType::Commit && recs[j].kind != WalRecordType::Abort,
    ensures
        rebuilt(recs).clog.contains_key(id),
        rebuilt(recs).clog[id] == (if recs[i].kind == WalRecordType::Commit {
            TransactionStatus::Committed
        } else {
            TransactionStatus::Aborted
        }),
{
    lemma_last_word(recs, id, i);
    assert(recs[i].txn_id == id);
}

proof fn lemma_last_word(recs: Seq<RecordView>, id: u64, i: int)
    requires
        0 <= i < recs.len(),
        recs[i].txn_id == id,
        recs[i].kind == WalRecordType::Commit || recs[i].kind == WalRecordType::Abort,
        forall|j: int|
            i < j < recs.len() && (#[trigger] recs[j]).txn_id == id ==> recs[j].kind
                != WalRecordType::Commit && recs[j].kind != WalRecordType::Abort,
    ensures
        verdict(recs, id) == (if recs[i].kind == WalRecordType::Commit {
            TransactionStatus::Committed
        } else {
            TransactionStatus::Aborted
        }),
    decreases recs.len(),
{
    assert(recs[recs.len() - 1] == recs.last());
    if i < recs.len() - 1 {
        let rest = recs.drop_last();
        assert forall|j: int| i < j < rest.len() && (#[trigger] rest[j]).txn_id
            == id implies rest[j].kind != WalRecordType::Commit && rest[j].kind
            != WalRecordType::Abort by {
            assert(recs[j].txn_id == id);
        }
        lemma_last_word(rest, id, i);
    }
}

/// After a restart the commit log holds the transactions that a record names, and only those; none
/// is active, none is in progress, and the next id follows the highest that is named.
pub proof fn law_restart_knows_the_named(recs: Seq<RecordView>, id: u64)
    requires
        forall|i: int| 0 <= i < recs.len() ==> (#[trigger] recs[i]).txn_id < u64::MAX,
    ensures
        rebuilt(recs).clog.contains_key(id) <==> id != 0 && exists|i: int|
            0 <= i < recs.len() && (#[trigger] recs[i]).txn_id == id,
        rebuilt(recs).clog.contains_key(id) ==> rebuilt(recs).clog[id]
            != TransactionStatus::Active,
        rebuilt(recs).active.len() == 0,
        rebuilt(recs).swept == 0,
        forall|i: int| 0 <= i < recs.len() ==> (#[trigger] recs[i]).txn_id < rebuilt(recs).next,
        rebuilt(recs).next == 1 || exists|i: int|
            0 <= i < recs.len() && (#[trigger] recs[i]).txn_id + 1 == rebuilt(recs).next,
{
    lemma_verdict(recs, id);
    assert(!names(recs, u64::MAX));
    lemma_next_id(recs);
    assert forall|i: int| 0 <= i < recs.len() implies (#[trigger] recs[i]).txn_id < rebuilt(
        recs,
    ).next by {
        lemma_highest(recs, i);
    }
    lemma_highest_is_named(recs);
}

proof fn lemma_highest_is_named(recs: Seq<RecordView>)
    ensures
        highest(recs) == 0 || exists|i: int|
            0 <= i < recs.len() && (#[trigger] recs[i]).txn_id == highest(recs),
    decreases recs.len(),
{
    if recs.len() > 0 {
        let rest = recs.drop_last();
        lemma_highest_is_named(rest);
        if recs.last().txn_id > highest(rest) {
            assert(recs[recs.len() - 1].txn_id == highest(recs));
        } else if highest(rest) != 0 {
            let i = choose|i: int|
                0 <= i < rest.len() && (#[trigger] rest[i]).txn_id == highest(rest);
            assert(recs[i].txn_id == highest(recs));
        }
    }
}

proof fn lemma_no_commit(recs: Seq<RecordView>, id: u64)
    requires
        forall|i: int|
            0 <= i < recs.len() && (#[trigger] recs[i]).txn_id == id ==> recs[i].kind
                != WalRecordType::Commit,
    ensures
        verdict(recs, id) == TransactionStatus::Aborted,
    decreases recs.len(),
{
    if recs.len() > 0 {
        assert(recs[recs.len() - 1] == recs.last());
        let rest = recs.drop_last();
        assert forall|i: int| 0 <= i < rest.len() && (#[trigger] rest[i]).txn_id
            == id implies rest[i].kind != WalRecordType::Commit by {
            assert(recs[i].txn_id == id);
        }
        lemma_no_commit(rest, id);
    }
}

/// No id that the log names is given out again.
pub proof fn law_no_id_is_reused(recs: Seq<RecordView>, id: u64)
    requires
        names(recs, id),
        !names(recs, u64::MAX),
    ensures
        id < rebuilt(recs).next,
{
    let i = choose|i: int| 0 <= i < recs.len() && (#[trigger] recs[i]).txn_id == id;
    lemma_highest(recs, i);
}

/// There is an id to give out after a restart.
pub proof fn lemma_next_id(recs: Seq<RecordView>)
    requires
        !names(recs, u64::MAX),
    ensures
        highest(recs) < u64::MAX,
        0 < rebuilt(recs).next,
{
    if recs.len() > 0 {
        lemma_highest(recs, 0);
    }
}

proof fn lemma_highest(recs: Seq<RecordView>, i: int)
    requires
        0 <= i < recs.len(),
        !names(recs, u64::MAX),
    ensures
        recs[i].txn_id <= highest(recs) < u64::MAX,
    decreases recs.len(),
{
    reveal_with_fuel(highest, 2);
    let rest = recs.drop_last();
    assert(recs[recs.len() - 1].txn_id != u64::MAX);
    if rest.len() > 0 {
        assert(!names(rest, u64::MAX)) by {
            if names(rest, u64::MAX) {
                let k = choose|k: int|
                    0 <= k < rest.len() && (#[trigger] rest[k]).txn_id == u64::MAX;
                assert(recs[k].txn_id == u64::MAX);
            }
        }
        if i < rest.len() {
            lemma_highest(rest, i);
            assert(rest[i] == recs[i]);
        } else {
            lemma_highest(rest, 0);
        }
    }
}

} // verus!
