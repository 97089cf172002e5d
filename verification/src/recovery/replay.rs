//! Repeating the log on the pages.

use crate::buffer_pool::manager::{
    lemma_page_len, lemma_storage_chain, pinned, same_contents, same_storage, written_as_held,
    BufferPoolManager, PageWriteGuard,
};
use crate::bytes::u64_at;
use crate::disk::DiskView;
use crate::error::{BufferPoolError, EngineError, LogDamage, WalError};
use crate::index::{held, lemma_hold, lemma_unhold};
use crate::page::meta::with_root;
use crate::page::{plain, with_lsn, PageId, PAGE_SIZE};
use crate::recovery::redo::{
    law_redo_moves_forward, lemma_state, redo_page, redone, state_of, LoggedBlock, PageState,
};
use crate::recovery::{records_of, LoggedRecord};
use crate::wal::{lemma_log_chain, lemma_log_still, log_step};
use crate::wal::record::{BlockView, RecordView, WalRecordType};
use vstd::prelude::*;

verus! {

/// What a page holds after the first `n` blocks of a record were repeated.
pub open spec fn replayed_blocks(r: RecordView, n: int, id: PageId, st: PageState) -> Option<
    PageState,
>
    decreases n,
{
    if n <= 0 {
        Some(st)
    } else {
        match replayed_blocks(r, n - 1, id, st) {
            Some(s) => if r.blocks[n - 1].page_id == id {
                redone(r.kind, r.blocks[n - 1], r.lsn, s)
            } else {
                Some(s)
            },
            None => None,
        }
    }
}

/// What a page holds after the first `n` records were repeated. `None` where a record does
/// not fit the page that it names.
pub open spec fn replayed(recs: Seq<RecordView>, n: int, id: PageId, st: PageState) -> Option<
    PageState,
>
    decreases n,
{
    if n <= 0 {
        Some(st)
    } else {
        match replayed(recs, n - 1, id, st) {
            Some(s) => replayed_blocks(recs[n - 1], recs[n - 1].blocks.len() as int, id, s),
            None => None,
        }
    }
}

/// The page as the log leaves it.
pub open spec fn after_log(a: BufferPoolManager, recs: Seq<RecordView>, id: PageId) -> Option<
    PageState,
> {
    replayed(recs, recs.len() as int, id, state_of(a.page(id)))
}

/// What a page of the data file holds once the log was repeated on it. `None` where a
/// record does not fit.
pub open spec fn recovered(disk: DiskView, recs: Seq<RecordView>, id: PageId) -> Option<PageState> {
    replayed(recs, recs.len() as int, id, state_of(plain(disk.content(id))))
}

/// The step pinned nothing and logged nothing, and a pool that was able still is.
pub open spec fn quiet(a: BufferPoolManager, b: BufferPoolManager) -> bool {
    &&& b.wf()
    &&& held(b, Set::empty(), 0)
    &&& a.next_page_id <= b.next_page_id
    &&& log_step(a.wal@, b.wal@)
    &&& b.disk@.broken == a.disk@.broken
    &&& a.able() ==> b.able()
}

/// What was written to the data file meanwhile are pages as the record or a part of it
/// left them.
pub open spec fn written_between(a: BufferPoolManager, b: BufferPoolManager, r: RecordView) -> bool {
    forall|id: u64| #[trigger] written_page(a, b, r, r.blocks.len() as int, id)
}

/// The pool holds the pages as the data file does.
pub open spec fn unread(p: BufferPoolManager) -> bool {
    forall|id: u64| #[trigger] p.page(id) == plain(p.disk@.content(id))
}

/// The same, of one page and the first `n` blocks.
pub open spec fn written_page(
    a: BufferPoolManager,
    b: BufferPoolManager,
    r: RecordView,
    n: int,
    id: u64,
) -> bool {
    ||| plain(b.disk@.content(id)) == plain(a.disk@.content(id))
    ||| exists|m: int|
        0 <= m <= n && Some(state_of(plain(b.disk@.content(id)))) == #[trigger] replayed_blocks(
            r,
            m,
            id,
            state_of(a.page(id)),
        )
}

/// The number is a record's, or none was ever given.
pub open spec fn named(recs: Seq<RecordView>, lsn: u64) -> bool {
    lsn == 0 || exists|i: int| 0 <= i < recs.len() && (#[trigger] recs[i]).lsn == lsn
}

/// A second pass over the log would leave the page as this one does, and the data file
/// holds the page with a number from the log.
pub open spec fn leads(
    a: BufferPoolManager,
    b: BufferPoolManager,
    recs: Seq<RecordView>,
    id: u64,
) -> bool {
    &&& after_log(a, recs, id) is Some ==> recovered(b.disk@, recs, id) == after_log(a, recs, id)
    &&& named(recs, state_of(a.page(id)).lsn()) ==> named(
        recs,
        state_of(plain(b.disk@.content(id))).lsn(),
    )
}

/// Fetches a page for writing. Where the data file ends before it, the file is extended by
/// pages of zeros.
fn fetch_for_redo(pool: &mut BufferPoolManager, id: PageId) -> (r: Result<
    PageWriteGuard,
    BufferPoolError,
>)
    requires
        old(pool).wf(),
        held(*old(pool), Set::empty(), 0),
    ensures
        final(pool).wf(),
        same_contents(*old(pool), *final(pool)),
        old(pool).next_page_id <= final(pool).next_page_id,
        same_storage(*old(pool), *final(pool)),
        old(pool).able() ==> final(pool).able(),
        match r {
            Ok(g) => {
                &&& g.page_id == id
                &&& g@.len() == PAGE_SIZE
                &&& plain(g@) == old(pool).page(id)
                &&& held(*final(pool), Set::empty().insert(id), 1)
            },
            Err(_) => final(pool).faulty() && held(*final(pool), Set::empty(), 0),
        },
{
    let ghost a = *pool;
    proof {
        lemma_log_still(a.wal@);
    }
    while pool.next_page_id <= id
        invariant
            a == *old(pool),
            pool.wf(),
            held(*pool, Set::empty(), 0),
            same_contents(a, *pool),
            a.next_page_id <= pool.next_page_id,
            same_storage(a, *pool),
            a.able() ==> pool.able(),
        decreases u64::MAX - pool.next_page_id,
    {
        let ghost p0 = *pool;
        let mut g = match pool.new_page() {
            Ok(g) => g,
            Err(e) => {
                proof {
                    lemma_storage_chain(a, p0, *pool);
                    assert forall|x: u64| #[trigger] pool.page(x) == a.page(x) by {
                        assert(pool.page(x) == p0.page(x));
                    }
                    assert forall|x: u64| #[trigger] pool.pins(x) == 0 by {
                        assert(p0.pins(x) == 0);
                    }
                }
                return Err(e);
            },
        };
        let ghost p1 = *pool;
        let ghost at = g.page_id;
        proof {
            lemma_hold(p0, p1, Set::empty(), 0, at);
        }
        let _ = g.memory_mut();
        pool.release_mut(g);
        proof {
            lemma_unhold(p1, *pool, Set::empty().insert(at), 1, at);
            assert(Set::<u64>::empty().insert(at).remove(at) =~= Set::empty());
            assert forall|x: u64| #[trigger] pool.page(x) == a.page(x) by {
                assert(p1.page(x) == p0.page(x));
                assert(p0.page(x) == a.page(x));
            }
            lemma_storage_chain(a, p0, *pool);
        }
    }
    let ghost p0 = *pool;
    match pool.fetch_page_mut(id) {
        Ok(g) => {
            proof {
                lemma_storage_chain(a, p0, *pool);
                lemma_hold(p0, *pool, Set::empty(), 0, id);
                assert(p0.page(id) == a.page(id));
                assert forall|x: u64| #[trigger] pool.page(x) == a.page(x) by {
                    assert(pool.page(x) == p0.page(x));
                }
            }
            Ok(g)
        },
        Err(e) => {
            proof {
                lemma_storage_chain(a, p0, *pool);
                assert forall|x: u64| #[trigger] pool.page(x) == a.page(x) by {
                    assert(pool.page(x) == p0.page(x));
                }
                assert forall|x: u64| #[trigger] pool.pins(x) == 0 by {
                    assert(p0.pins(x) == 0);
                }
            }
            Err(e)
        },
    }
}

/// The record with this log sequence number does not fit the pages.
pub open spec fn misfit(lsn: u64) -> EngineError {
    EngineError::Wal(WalError::CorruptedLog(LogDamage::RecordContents { lsn }))
}

/// Repeats a block of a record on the page that it names.
fn redo_block(pool: &mut BufferPoolManager, kind: WalRecordType, block: &LoggedBlock, lsn: u64) -> (r:
    Result<(), EngineError>)
    requires
        old(pool).wf(),
        held(*old(pool), Set::empty(), 0),
    ensures
        quiet(*old(pool), *final(pool)),
        written_as_held(*old(pool), *final(pool)),
        match r {
            Ok(()) => {
                &&& redone(kind, block.block(), lsn, state_of(old(pool).page(block.page_id)))
                    == Some(state_of(final(pool).page(block.page_id)))
                &&& forall|x: u64|
                    x != block.page_id ==> #[trigger] final(pool).page(x) == old(pool).page(x)
            },
            Err(e) => {
                ||| e is BufferPool && final(pool).faulty()
                ||| e == misfit(lsn) && redone(
                    kind,
                    block.block(),
                    lsn,
                    state_of(old(pool).page(block.page_id)),
                ) is None
            },
        },
{
    let ghost a = *pool;
    let id: PageId = block.page_id;
    let mut g = match fetch_for_redo(pool, id) {
        Ok(g) => g,
        Err(e) => {
            return Err(EngineError::BufferPool(e));
        },
    };
    let ghost p1 = *pool;
    proof {
        lemma_state(g@);
    }
    let ghost st = state_of(g@);
    let done: bool = redo_page(g.memory_mut(), kind, block, lsn);
    proof {
        lemma_state(g@);
    }
    pool.release_mut(g);
    proof {
        lemma_unhold(p1, *pool, Set::empty().insert(id), 1, id);
        assert(Set::<u64>::empty().insert(id).remove(id) =~= Set::empty());
        assert(p1.page(id) == a.page(id));
        assert forall|x: u64| x != id implies #[trigger] pool.page(x) == a.page(x) by {
            assert(p1.page(x) == a.page(x));
        }
    }
    if done {
        Ok(())
    } else {
        Err(EngineError::Wal(WalError::CorruptedLog(LogDamage::RecordContents { lsn })))
    }
}

/// A record that does not fit is not made up for by what follows.
proof fn lemma_blocks_stuck(r: RecordView, n: int, m: int, id: PageId, st: PageState)
    requires
        n <= m,
        replayed_blocks(r, n, id, st) is None,
    ensures
        replayed_blocks(r, m, id, st) is None,
    decreases m - n,
{
    if n < m {
        lemma_blocks_stuck(r, n, m - 1, id, st);
    }
}

/// What does not fit at a record does not fit later.
pub proof fn lemma_stuck(recs: Seq<RecordView>, n: int, m: int, id: PageId, st: PageState)
    requires
        n <= m,
        replayed(recs, n, id, st) is None,
    ensures
        replayed(recs, m, id, st) is None,
    decreases m - n,
{
    if n < m {
        lemma_stuck(recs, n, m - 1, id, st);
    }
}

/// Repeats the blocks of a record.
fn redo_record(pool: &mut BufferPoolManager, r: &LoggedRecord) -> (out: Result<(), EngineError>)
    requires
        old(pool).wf(),
        held(*old(pool), Set::empty(), 0),
    ensures
        quiet(*old(pool), *final(pool)),
        ({
            let rv = r.record();
            let n = rv.blocks.len() as int;
            match out {
                Ok(()) => {
                    &&& written_between(*old(pool), *final(pool), rv)
                    &&& forall|x: u64|
                        Some(state_of(#[trigger] final(pool).page(x))) == replayed_blocks(
                            rv,
                            n,
                            x,
                            state_of(old(pool).page(x)),
                        )
                },
                Err(e) => {
                    ||| e is BufferPool && final(pool).faulty()
                    ||| e == misfit(r.lsn) && exists|x: u64|
                        replayed_blocks(rv, n, x, state_of(#[trigger] old(pool).page(x))) is None
                },
            }
        }),
{
    let ghost a = *pool;
    let ghost rv = r.record();
    let ghost n = rv.blocks.len() as int;
    let mut i: usize = 0;
    proof {
        lemma_log_still(a.wal@);
    }
    while i < r.blocks.len()
        invariant
            a == *old(pool),
            rv == r.record(),
            n == rv.blocks.len(),
            n == r.blocks@.len(),
            i <= n,
            quiet(a, *pool),
            forall|x: u64| #[trigger] written_page(a, *pool, rv, i as int, x),
            forall|x: u64|
                Some(state_of(#[trigger] pool.page(x))) == replayed_blocks(
                    rv,
                    i as int,
                    x,
                    state_of(a.page(x)),
                ),
        decreases n - i,
    {
        let ghost p0 = *pool;
        let ghost id = r.blocks@[i as int].page_id;
        assert(rv.blocks[i as int] == r.blocks@[i as int].block());
        let done = redo_block(pool, r.kind, &r.blocks[i], r.lsn);
        proof {
            lemma_log_chain(a.wal@, p0.wal@, pool.wal@);
        }
        match done {
            Ok(()) => {},
            Err(e) => {
                proof {
                    assert(Some(state_of(p0.page(id))) == replayed_blocks(
                        rv,
                        i as int,
                        id,
                        state_of(a.page(id)),
                    ));
                    if !(e is BufferPool) {
                        lemma_blocks_stuck(rv, i + 1, n, id, state_of(a.page(id)));
                        assert(replayed_blocks(rv, n, id, state_of(old(pool).page(id))) is None);
                    }
                }
                return Err(e);
            },
        }
        proof {
            assert forall|x: u64| #[trigger] written_page(a, *pool, rv, i + 1, x) by {
                assert(written_page(a, p0, rv, i as int, x));
                if plain(pool.disk@.content(x)) == plain(p0.disk@.content(x)) {
                    if plain(pool.disk@.content(x)) != plain(a.disk@.content(x)) {
                        let m = choose|m: int|
                            0 <= m <= i && Some(state_of(plain(p0.disk@.content(x))))
                                == #[trigger] replayed_blocks(rv, m, x, state_of(a.page(x)));
                        assert(Some(state_of(plain(pool.disk@.content(x)))) == replayed_blocks(
                            rv,
                            m,
                            x,
                            state_of(a.page(x)),
                        ));
                    }
                } else {
                    assert(Some(state_of(p0.page(x))) == replayed_blocks(
                        rv,
                        i as int,
                        x,
                        state_of(a.page(x)),
                    ));
                    assert(plain(pool.disk@.content(x)) == p0.page(x));
                }
            }
            assert forall|x: u64|
                Some(state_of(#[trigger] pool.page(x))) == replayed_blocks(
                    rv,
                    i + 1,
                    x,
                    state_of(a.page(x)),
                ) by {
                assert(Some(state_of(p0.page(x))) == replayed_blocks(
                    rv,
                    i as int,
                    x,
                    state_of(a.page(x)),
                ));
            }
        }
        i = i + 1;
    }
    Ok(())
}

/// Repeats the log on the pages. Refuses a record that does not fit the page that it names.
pub fn replay(pool: &mut BufferPoolManager, records: &Vec<LoggedRecord>) -> (out: Result<
    (),
    EngineError,
>)
    requires
        old(pool).wf(),
        held(*old(pool), Set::empty(), 0),
    ensures
        quiet(*old(pool), *final(pool)),
        ({
            let recs = records_of(records@);
            match out {
                Ok(()) => {
                    &&& forall|x: u64|
                        Some(state_of(#[trigger] final(pool).page(x))) == after_log(
                            *old(pool),
                            recs,
                            x,
                        )
                    &&& unread(*old(pool)) ==> forall|x: u64| #[trigger]
                        leads(*old(pool), *final(pool), recs, x)
                },
                Err(e) => {
                    ||| e is BufferPool && final(pool).faulty()
                    ||| e is Wal && exists|x: u64| #[trigger]
                        after_log(*old(pool), recs, x) is None
                },
            }
        }),
{
    let ghost a = *pool;
    let ghost recs = records_of(records@);
    proof {
        lemma_log_still(a.wal@);
        if unread(a) {
            assert forall|x: u64| #[trigger] leads(a, *pool, recs, x) by {
                assert(a.page(x) == plain(a.disk@.content(x)));
            }
        }
    }
    let mut i: usize = 0;
    while i < records.len()
        invariant
            a == *old(pool),
            recs == records_of(records@),
            i <= records@.len(),
            a.wf(),
            quiet(a, *pool),
            unread(a) ==> forall|x: u64| #[trigger]
                leads(a, *pool, recs, x),
            forall|x: u64|
                Some(state_of(#[trigger] pool.page(x))) == replayed(
                    recs,
                    i as int,
                    x,
                    state_of(a.page(x)),
                ),
        decreases records@.len() - i,
    {
        let ghost p0 = *pool;
        assert(recs[i as int] == records@[i as int].record());
        let done = redo_record(pool, &records[i]);
        proof {
            lemma_log_chain(a.wal@, p0.wal@, pool.wal@);
        }
        match done {
            Ok(()) => {},
            Err(e) => {
                proof {
                    if !(e is BufferPool) {
                        let rv = recs[i as int];
                        let x = choose|x: u64|
                            replayed_blocks(
                                rv,
                                rv.blocks.len() as int,
                                x,
                                state_of(#[trigger] p0.page(x)),
                            ) is None;
                        assert(Some(state_of(p0.page(x))) == replayed(
                            recs,
                            i as int,
                            x,
                            state_of(a.page(x)),
                        ));
                        lemma_stuck(recs, i + 1, recs.len() as int, x, state_of(a.page(x)));
                        assert(after_log(a, recs, x) is None);
                    }
                }
                return Err(e);
            },
        }
        proof {
            if unread(a) {
                assert forall|x: u64| #[trigger] leads(a, *pool, recs, x) by {
                    assert(leads(a, p0, recs, x));
                    assert(written_page(p0, *pool, recs[i as int], recs[i as int].blocks.len() as int, x));
                    assert(Some(state_of(p0.page(x))) == replayed(
                        recs,
                        i as int,
                        x,
                        state_of(a.page(x)),
                    ));
                    lemma_page_len(a, x);
                    crate::page::lemma_plain(a.page(x));
                    lemma_leads(recs, i as int, x, state_of(a.page(x)), a, p0, *pool);
                }
            }
            assert forall|x: u64|
                Some(state_of(#[trigger] pool.page(x))) == replayed(
                    recs,
                    i + 1,
                    x,
                    state_of(a.page(x)),
                ) by {
                assert(Some(state_of(p0.page(x))) == replayed(
                    recs,
                    i as int,
                    x,
                    state_of(a.page(x)),
                ));
            }
        }
        i = i + 1;
    }
    Ok(())
}

/// The page's bytes have the size of a page, where they stand for themselves.
pub open spec fn sized(st: PageState) -> bool {
    st matches PageState::Raw(p) ==> p.len() == PAGE_SIZE
}

/// What a record did to a page leaves the page with no lower number than the record's.
proof fn lemma_blocks_forward(r: RecordView, n: int, id: PageId, st: PageState)
    requires
        0 <= n <= r.blocks.len(),
        sized(st),
        replayed_blocks(r, n, id, st) is Some,
    ensures
        sized(replayed_blocks(r, n, id, st)->0),
        replayed_blocks(r, n, id, st)->0.lsn() >= st.lsn(),
        forall|k: int|
            0 <= k < n && (#[trigger] r.blocks[k]).page_id == id ==> replayed_blocks(
                r,
                n,
                id,
                st,
            )->0.lsn() >= r.lsn,
    decreases n,
{
    if n > 0 {
        lemma_blocks_forward(r, n - 1, id, st);
        let s = replayed_blocks(r, n - 1, id, st)->0;
        if r.blocks[n - 1].page_id == id {
            law_redo_moves_forward(r.kind, r.blocks[n - 1], r.lsn, s);
        }
    }
}

/// Every record that names the page has at most the page's number.
pub open spec fn seen_all(recs: Seq<RecordView>, n: int, id: PageId, lsn: u64) -> bool {
    forall|j: int, k: int|
        0 <= j < n && 0 <= k < recs[j].blocks.len() && (#[trigger] recs[j].blocks[k]).page_id == id
            ==> recs[j].lsn <= lsn
}

/// Repeating records leaves a page with no lower number than those of the records.
pub proof fn lemma_forward(recs: Seq<RecordView>, n: int, id: PageId, st: PageState)
    requires
        0 <= n <= recs.len(),
        sized(st),
        replayed(recs, n, id, st) is Some,
    ensures
        sized(replayed(recs, n, id, st)->0),
        replayed(recs, n, id, st)->0.lsn() >= st.lsn(),
        seen_all(recs, n, id, replayed(recs, n, id, st)->0.lsn()),
    decreases n,
{
    if n > 0 {
        lemma_forward(recs, n - 1, id, st);
        let s = replayed(recs, n - 1, id, st)->0;
        lemma_blocks_forward(recs[n - 1], recs[n - 1].blocks.len() as int, id, s);
    }
}

proof fn lemma_nothing_new(r: RecordView, n: int, id: PageId, st: PageState)
    requires
        0 <= n <= r.blocks.len(),
        forall|k: int|
            0 <= k < n && (#[trigger] r.blocks[k]).page_id == id ==> r.lsn <= st.lsn(),
    ensures
        replayed_blocks(r, n, id, st) == Some(st),
    decreases n,
{
    if n > 0 {
        lemma_nothing_new(r, n - 1, id, st);
        assert(r.blocks[n - 1].page_id == id ==> r.lsn <= st.lsn());
    }
}

/// A page that has seen all records stays as it is.
pub proof fn lemma_all_seen(recs: Seq<RecordView>, n: int, id: PageId, st: PageState)
    requires
        0 <= n <= recs.len(),
        seen_all(recs, n, id, st.lsn()),
    ensures
        replayed(recs, n, id, st) == Some(st),
    decreases n,
{
    if n > 0 {
        lemma_all_seen(recs, n - 1, id, st);
        lemma_nothing_new(recs[n - 1], recs[n - 1].blocks.len() as int, id, st);
    }
}

/// The log can be repeated again: a second pass over it, or a pass after one that was cut
/// off at any record, leaves each page as a single pass does.
pub proof fn law_replay_twice_is_once(
    recs: Seq<RecordView>,
    cut: int,
    id: PageId,
    st: PageState,
)
    requires
        0 <= cut <= recs.len(),
        sized(st),
        replayed(recs, recs.len() as int, id, st) is Some,
    ensures
        replayed(recs, cut, id, st) is Some,
        replayed(recs, recs.len() as int, id, replayed(recs, cut, id, st)->0) == replayed(
            recs,
            recs.len() as int,
            id,
            st,
        ),
{
    let n = recs.len() as int;
    if replayed(recs, cut, id, st) is None {
        lemma_stuck(recs, cut, n, id, st);
    }
    lemma_forward(recs, cut, id, st);
    lemma_resumed(recs, cut, n, id, st);
}

proof fn lemma_resumed(recs: Seq<RecordView>, cut: int, n: int, id: PageId, st: PageState)
    requires
        0 <= cut <= n <= recs.len(),
        sized(st),
        replayed(recs, cut, id, st) is Some,
        seen_all(recs, cut, id, replayed(recs, cut, id, st)->0.lsn()),
    ensures
        replayed(recs, n, id, replayed(recs, cut, id, st)->0) == replayed(recs, n, id, st),
    decreases n - cut,
{
    if n == cut {
        lemma_all_seen(recs, cut, id, replayed(recs, cut, id, st)->0);
    } else {
        lemma_resumed(recs, cut, n - 1, id, st);
    }
}

/// What a record makes of a page carries the record's number or the page's own.
pub proof fn lemma_redone_lsn(kind: WalRecordType, b: BlockView, lsn: u64, st: PageState)
    requires
        sized(st),
        redone(kind, b, lsn, st) is Some,
    ensures
        redone(kind, b, lsn, st)->0.lsn() == lsn || redone(kind, b, lsn, st)->0.lsn() == st.lsn(),
        sized(redone(kind, b, lsn, st)->0),
{
    law_redo_moves_forward(kind, b, lsn, st);
    if lsn > st.lsn() {
        match b.fpi {
            Some(image) => {
                lemma_state(with_lsn(image, lsn));
                crate::page::law_lsn(image, lsn);
            },
            None => {
                if st is Raw {
                    let q = with_root(st->Raw_0, u64_at(b.data->0, 0));
                    crate::page::law_lsn(q, lsn);
                }
            },
        }
    }
}

proof fn lemma_blocks_named(recs: Seq<RecordView>, j: int, n: int, id: PageId, st: PageState)
    requires
        0 <= j < recs.len(),
        0 <= n <= recs[j].blocks.len(),
        named(recs, st.lsn()),
        sized(st),
        replayed_blocks(recs[j], n, id, st) is Some,
    ensures
        named(recs, replayed_blocks(recs[j], n, id, st)->0.lsn()),
        sized(replayed_blocks(recs[j], n, id, st)->0),
    decreases n,
{
    if n > 0 {
        lemma_blocks_named(recs, j, n - 1, id, st);
        let s = replayed_blocks(recs[j], n - 1, id, st)->0;
        if recs[j].blocks[n - 1].page_id == id {
            lemma_redone_lsn(recs[j].kind, recs[j].blocks[n - 1], recs[j].lsn, s);
        }
    }
}

/// What records make of a page carries the number of one of them or the page's own.
pub proof fn lemma_named(recs: Seq<RecordView>, n: int, id: PageId, st: PageState)
    requires
        0 <= n <= recs.len(),
        named(recs, st.lsn()),
        sized(st),
        replayed(recs, n, id, st) is Some,
    ensures
        named(recs, replayed(recs, n, id, st)->0.lsn()),
        sized(replayed(recs, n, id, st)->0),
    decreases n,
{
    if n > 0 {
        lemma_named(recs, n - 1, id, st);
        let s = replayed(recs, n - 1, id, st)->0;
        lemma_blocks_named(recs, n - 1, recs[n - 1].blocks.len() as int, id, s);
    }
}

/// A page that was written in the midst of a pass over the log: the next pass leaves it as
/// this one does.
proof fn lemma_leads(
    recs: Seq<RecordView>,
    i: int,
    id: u64,
    st: PageState,
    a: BufferPoolManager,
    p0: BufferPoolManager,
    b: BufferPoolManager,
)
    requires
        0 <= i < recs.len(),
        sized(st),
        st == state_of(a.page(id)),
        replayed(recs, i, id, st) == Some(state_of(p0.page(id))),
        leads(a, p0, recs, id),
        written_page(p0, b, recs[i], recs[i].blocks.len() as int, id),
    ensures
        leads(a, b, recs, id),
{
    let n = recs.len() as int;
    let r = recs[i];
    let nb = r.blocks.len() as int;
    let s = state_of(p0.page(id));
    let now = state_of(plain(b.disk@.content(id)));
    if plain(b.disk@.content(id)) != plain(p0.disk@.content(id)) {
        let m = choose|m: int|
            0 <= m <= nb && Some(state_of(plain(b.disk@.content(id))))
                == #[trigger] replayed_blocks(r, m, id, s);
        lemma_forward(recs, i, id, st);
        lemma_blocks_forward(r, m, id, s);
        if named(recs, st.lsn()) {
            lemma_named(recs, i, id, st);
            lemma_blocks_named(recs, i, m, id, s);
        }
        if after_log(a, recs, id) is None {
        } else if exists|k: int| 0 <= k < m && (#[trigger] r.blocks[k]).page_id == id {
            let k = choose|k: int| 0 <= k < m && (#[trigger] r.blocks[k]).page_id == id;
            lemma_rest_skipped(r, m, nb, id, s);
            assert(replayed(recs, i + 1, id, st) == Some(now));
            law_replay_twice_is_once(recs, i + 1, id, st);
        } else {
            lemma_unnamed_blocks(r, m, id, s);
            law_replay_twice_is_once(recs, i, id, st);
        }
    }
}

/// Once a block of the record changed the page, the others of the record leave it alone.
proof fn lemma_rest_skipped(r: RecordView, m: int, n: int, id: PageId, st: PageState)
    requires
        m <= n,
        replayed_blocks(r, m, id, st) is Some,
        replayed_blocks(r, m, id, st)->0.lsn() >= r.lsn,
    ensures
        replayed_blocks(r, n, id, st) == replayed_blocks(r, m, id, st),
    decreases n - m,
{
    if m < n {
        lemma_rest_skipped(r, m, n - 1, id, st);
    }
}

proof fn lemma_unnamed_blocks(r: RecordView, m: int, id: PageId, st: PageState)
    requires
        forall|k: int| 0 <= k < m ==> (#[trigger] r.blocks[k]).page_id != id,
    ensures
        replayed_blocks(r, m, id, st) == Some(st),
    decreases m,
{
    if m > 0 {
        lemma_unnamed_blocks(r, m - 1, id, st);
    }
}

} // verus!
