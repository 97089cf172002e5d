//! What a restart keeps.

use crate::disk::DiskView;
use crate::page::{lemma_plain, plain, sealed, PageId, PAGE_SIZE};
use crate::recovery::redo::{lemma_state, state_of, PageState};
use crate::recovery::replay::{
    law_replay_twice_is_once, lemma_all_seen, lemma_forward, recovered, replayed, replayed_blocks,
    sized,
};
use crate::wal::record::RecordView;
use vstd::prelude::*;

verus! {

/// The data file and the records together hold the pages: a restart from them gives these.
pub open spec fn hold(disk: DiskView, recs: Seq<RecordView>, pages: spec_fn(PageId) -> PageState) -> bool {
    forall|id: PageId| #[trigger] recovered(disk, recs, id) == Some(pages(id))
}

proof fn lemma_same_records(a: Seq<RecordView>, b: Seq<RecordView>, n: int, id: PageId, st: PageState)
    requires
        0 <= n <= a.len(),
        n <= b.len(),
        forall|i: int| 0 <= i < n ==> a[i] == b[i],
    ensures
        replayed(a, n, id, st) == replayed(b, n, id, st),
    decreases n,
{
    if n > 0 {
        lemma_same_records(a, b, n - 1, id, st);
    }
}

/// A change that was logged is held: where each page became what the record makes of it, the
/// data file and the log with that record hold the pages after the change, though none of
/// them was written.
pub proof fn law_logged_change_is_held(
    disk: DiskView,
    recs: Seq<RecordView>,
    r: RecordView,
    before: spec_fn(PageId) -> PageState,
    after: spec_fn(PageId) -> PageState,
)
    requires
        hold(disk, recs, before),
        forall|id: PageId|
            replayed_blocks(r, r.blocks.len() as int, id, before(id)) == Some(
                #[trigger] after(id),
            ),
    ensures
        hold(disk, recs.push(r), after),
{
    let more = recs.push(r);
    assert forall|id: PageId| #[trigger] recovered(disk, more, id) == Some(after(id)) by {
        let st = state_of(plain(disk.content(id)));
        assert(recovered(disk, recs, id) == Some(before(id)));
        lemma_same_records(recs, more, recs.len() as int, id, st);
        assert(more[recs.len() as int] == r);
    }
}

/// A page may be written to the data file at any time after its changes were logged: the file
/// and the log hold the same pages as before.
pub proof fn law_page_may_be_written(
    disk: DiskView,
    recs: Seq<RecordView>,
    pages: spec_fn(PageId) -> PageState,
    id: PageId,
    page: Seq<u8>,
)
    requires
        disk.wf(),
        disk.page_size == PAGE_SIZE,
        id < u64::MAX,
        page.len() == PAGE_SIZE,
        state_of(page) == pages(id),
        hold(disk, recs, pages),
    ensures
        hold(disk.put(id, sealed(page)), recs, pages),
{
    let after = disk.put(id, sealed(page));
    let n = recs.len() as int;
    crate::page::law_sealed_is_same_page(page);
    lemma_state(page);
    assert forall|x: PageId| #[trigger] recovered(after, recs, x) == Some(pages(x)) by {
        assert(recovered(disk, recs, x) == Some(pages(x)));
        if x == id {
            lemma_plain(disk.content(id));
            let st = state_of(plain(disk.content(id)));
            assert(sized(st)) by {
                lemma_state(disk.content(id));
                lemma_plain(plain(disk.content(id)));
            }
            lemma_forward(recs, n, id, st);
            lemma_all_seen(recs, n, id, pages(id));
            assert(after.content(id) == sealed(page));
            assert(state_of(plain(sealed(page))) == state_of(page));
        } else {
            assert(after.content(x) == disk.content(x));
        }
    }
}

/// It does not matter which pages had reached the data file before a crash, nor in which
/// state between the first and the last record that the log keeps: a restart gives each page
/// the state that all these records give it.
pub proof fn law_any_page_may_have_been_written(
    recs: Seq<RecordView>,
    id: PageId,
    first: Seq<u8>,
    found: Seq<u8>,
    cut: int,
)
    requires
        first.len() == PAGE_SIZE,
        0 <= cut <= recs.len(),
        replayed(recs, cut, id, state_of(first)) == Some(state_of(found)),
        replayed(recs, recs.len() as int, id, state_of(first)) is Some,
    ensures
        replayed(recs, recs.len() as int, id, state_of(found)) == replayed(
            recs,
            recs.len() as int,
            id,
            state_of(first),
        ),
{
    lemma_plain(first);
    law_replay_twice_is_once(recs, cut, id, state_of(first));
}

} // verus!
