//! Creating an index in an empty data file, and opening one that is there.

use crate::buffer_pool::manager::{
    lemma_able, lemma_beyond, same_contents, shard_of, BufferPoolManager,
};
use crate::bytes::{u16_at, u32_at, u64_at};
use crate::error::{BufferPoolError, IndexError};
use crate::index::floor::{lemma_floor_here, starting};
use crate::index::trail::{
    calm, calmed, kept, lemma_backed, lemma_sound_step, lemma_starting, log_records, Trail,
};
use crate::index::tree::{
    leaf_parts, lemma_same_meta, lemma_same_view, lemma_tree_kept, marked_only, node_wf, tree_wf, upright, whole_tree,
    Part, Shape,
};
use crate::index::{held, lemma_hold, lemma_leftmost_child, lemma_unhold, BTreeIndex};
use crate::page::leaf::{leaf_view, LeafPageBuilder};
use crate::page::meta::{init, initialised, read_root, root_of};
use crate::page::{plain, zero_page, PageId, PAGE_SIZE};
use crate::recovery::redo::state_of;
use crate::recovery::replay::{named, recovered};
use crate::types::{Key, Value};
use crate::wal::segment::whole;
use crate::wal::{full, lemma_log_chain, lemma_log_still, log_step, WalView};
use std::marker::PhantomData;
use vstd::prelude::*;

verus! {

/// The metadata page.
pub const META_PAGE: PageId = 0;

/// The pages of a new index: a metadata page, and an empty leaf as the root.
pub open spec fn newly_created<K: Key, V: Value>(t: BTreeIndex<K, V>) -> bool {
    &&& t.root == 1
    &&& t.pool.next_page_id == 2
    &&& t.rooted()
    &&& whole_tree(t.pool, t.shape@)
    &&& t.shape@.levels == seq![seq![1u64]]
    &&& t.parts() == seq![Part { low: None, high: None, rows: Seq::empty() }]
}

/// The data file holds the page as the pool does.
pub open spec fn durable(p: BufferPoolManager, id: u64) -> bool {
    plain(p.disk@.content(id)) == p.page(id)
}

/// A page that is not dirty is on disk as it is.
proof fn lemma_clean_is_durable(p: BufferPoolManager, id: u64)
    requires
        p.wf(),
        !p.is_dirty(id),
    ensures
        durable(p, id),
{
    assert(p.shard_wf(shard_of(id)));
    let s = p.shards@[shard_of(id)];
    if s.inner.resident(id) {
        assert(s.inner.resident(id) && !s.inner.meta(id).is_dirty);
    }
}

/// The log is whole and holds no record.
pub open spec fn blank(w: WalView) -> bool {
    &&& w.waiting.len() == 0
    &&& whole(full(w))
    &&& full(w).len() > 0
    &&& log_records(w).len() == 0
}

/// A page of zeros and a new metadata page carry no number.
proof fn lemma_no_number(root: PageId)
    ensures
        state_of(plain(zero_page())).lsn() == 0,
        state_of(plain(initialised(zero_page(), root))).lsn() == 0,
{
    broadcast use crate::bytes::group_int_bytes;

    let z = zero_page();
    let m = initialised(z, root);
    reveal(u64_at);
    reveal(u32_at);
    reveal(u16_at);
    crate::recovery::redo::lemma_state(z);
    crate::recovery::redo::lemma_state(m);
    assert(forall|i: int| 16 <= i < 24 ==> #[trigger] m[i] == z[i]);
}

/// Every page is on disk as it is, and carries no number.
pub open spec fn untold(p: BufferPoolManager) -> bool {
    forall|id: u64| #[trigger] durable(p, id) && state_of(p.page(id)).lsn() == 0
}

/// The pages of a new index are what a restart would give.
proof fn lemma_untold(p: BufferPoolManager)
    requires
        p.wf(),
        untold(p),
        blank(p.wal@),
    ensures
        kept(p, Map::empty()),
{
    let recs = log_records(p.wal@);
    lemma_backed(p.wal@);
    assert forall|id: PageId|
        calmed(#[trigger] recovered(p.disk@, recs, id)) == Some(calm(state_of(p.page(id)))) by {
        assert(durable(p, id));
    }
    assert forall|id: PageId| named(
        recs,
        state_of(plain(#[trigger] p.disk@.content(id))).lsn(),
    ) by {
        assert(durable(p, id));
    }
    lemma_starting(p);
}

/// Writes the first two pages of an index.
fn first_pages<K: Key, V: Value>(pool: &mut BufferPoolManager) -> (r: Result<PageId, BufferPoolError>)
    requires
        old(pool).wf(),
        old(pool).next_page_id == 0,
        held(*old(pool), Set::empty(), 0),
    ensures
        final(pool).wf(),
        held(*final(pool), Set::empty(), 0),
        match r {
            Ok(root) => {
                &&& root == 1
                &&& final(pool).next_page_id == 2
                &&& final(pool).page(0).len() == PAGE_SIZE
                &&& root_of(final(pool).page(0)) == Some(root)
                &&& final(pool).page(root).len() == PAGE_SIZE
                &&& crate::page::leaf::leaf_wf(final(pool).page(root))
                &&& leaf_view(final(pool).page(root)) == crate::page::leaf::blank_leaf(root)
                &&& untold(*final(pool))
                &&& log_step(old(pool).wal@, final(pool).wal@)
            },
            Err(e) => final(pool).faulty(),
        },
        old(pool).able() ==> r is Ok && final(pool).able(),
{
    let ghost p0 = *pool;
    let mut meta_guard = match pool.new_page() {
        Ok(g) => g,
        Err(e) => {
            assert(held(*pool, Set::empty(), 0)) by {
                assert forall|id: u64| #[trigger] pool.pins(id) == 0int by {
                    assert(p0.pins(id) == 0);
                }
            }
            proof {
                if p0.able() {
                    lemma_able(*pool, None);
                }
            }
            return Err(e);
        },
    };
    let ghost p1 = *pool;
    let root: PageId = meta_guard.page_id + 1;
    init(meta_guard.memory_mut(), root);
    let ghost m = meta_guard@;
    pool.release_mut(meta_guard);
    let ghost p2 = *pool;
    proof {
        lemma_same_meta(m);
        lemma_same_view(m);
        lemma_hold(p0, p1, Set::empty(), 0, 0);
        lemma_unhold(p1, p2, Set::empty().insert(0), 1, 0);
        assert(Set::<u64>::empty().insert(0).remove(0) =~= Set::empty());
    }
    let mut root_guard = match pool.new_page() {
        Ok(g) => g,
        Err(e) => {
            assert(held(*pool, Set::empty(), 0)) by {
                assert forall|id: u64| #[trigger] pool.pins(id) == 0int by {
                    assert(p2.pins(id) == 0);
                }
            }
            proof {
                if p2.able() {
                    lemma_able(*pool, None);
                }
            }
            return Err(e);
        },
    };
    let ghost p3 = *pool;
    let _leaf = LeafPageBuilder::<K, V>::new(root, root_guard.memory_mut());
    let ghost r = root_guard@;
    pool.release_mut(root_guard);
    let ghost p4 = *pool;
    proof {
        lemma_same_view(r);
        lemma_hold(p2, p3, Set::empty(), 0, 1);
        lemma_unhold(p3, p4, Set::empty().insert(1), 1, 1);
        assert(Set::<u64>::empty().insert(1).remove(1) =~= Set::empty());
        assert(p4.page(0) == p3.page(0));
        assert(p3.page(0) == p2.page(0));
        lemma_log_chain(p0.wal@, p1.wal@, p3.wal@);
    }
    let flushed = pool.flush_all_pages();
    proof {
        assert forall|id: u64| #[trigger] pool.pins(id) == 0int by {
            assert(p4.pins(id) == 0);
        }
        assert(held(*pool, Set::empty(), 0));
        assert(pool.page(0) == p4.page(0));
        assert(pool.page(1) == p4.page(1));
        assert(pool.page(0) == plain(m) && pool.page(1) == plain(r));
        assert(crate::page::leaf::leaf_wf(pool.page(1)));
        assert(leaf_view(pool.page(1)) == crate::page::leaf::blank_leaf(root));
        assert(root_of(pool.page(0)) == Some(root));
        lemma_log_chain(p0.wal@, p4.wal@, pool.wal@);
        assert(log_step(p0.wal@, pool.wal@));
        if pool.able() {
            lemma_able(*pool, None);
        }
    }
    match flushed {
        Ok(()) => {
            proof {
                lemma_no_number(root);
                assert forall|id: u64| #[trigger] durable(*pool, id) && state_of(
                    pool.page(id),
                ).lsn() == 0 by {
                    lemma_clean_is_durable(*pool, id);
                    assert(pool.page(id) == p4.page(id));
                    if id > 1 {
                        assert(p4.page(id) == p3.page(id));
                        lemma_beyond(p3, id);
                    }
                }
                assert(untold(*pool));
            }
            Ok(root)
        },
        Err(e) => Err(e),
    }
}

impl<K: Key, V: Value> BTreeIndex<K, V> {
    /// Creates an index in an empty data file: the metadata page and the root are on disk
    /// when it returns. Gives the pool back where that fails.
    pub fn create(pool: BufferPoolManager) -> (r: Result<
        (Self, PageId),
        (IndexError, BufferPoolManager),
    >)
        requires
            K::width_fits(),
            V::width_fits(),
            pool.wf(),
            pool.next_page_id == 0,
            held(pool, Set::empty(), 0),
        ensures
            match r {
                Ok((t, root)) => {
                    &&& t.wf()
                    &&& newly_created(t)
                    &&& root == t.root
                    &&& durable(t.pool, 0)
                    &&& durable(t.pool, root)
                    &&& log_step(pool.wal@, t.pool.wal@)
                    &&& blank(pool.wal@) && t.pool.wal@.error is None ==> !t.trail@.parted
                    &&& t.trail@.floor == t.parts()
                },
                Err((e, p)) => e is BufferPool && p.wf() && p.faulty(),
            },
            pool.able() ==> (r matches Ok((t, _)) && t.pool.able()),
    {
        let ghost w = pool.wal@;
        let mut pool = pool;
        match first_pages::<K, V>(&mut pool) {
            Ok(root) => {
                let ghost sh = Shape {
                    levels: seq![seq![1u64]],
                    low: Map::empty().insert(1u64, None),
                    firm: true,
                };
                proof {
                    assert(upright(pool, sh)) by {
                        reveal(upright);
                    }
                    assert(marked_only(pool, sh, None)) by {
                        reveal(marked_only);
                        assert(0u8 & 1u8 == 0) by (bit_vector);
                    }
                    assert(sh.levels[0] == seq![1u64]);
                    assert(crate::page::leaf::rows_bytes(Seq::empty()) == 0);
                    assert(node_wf::<K, V>(pool, sh, 0, 0));
                    assert(tree_wf::<K, V>(pool, root, sh));
                    assert(leaf_parts(pool, sh) =~= seq![
                        Part { low: None, high: None, rows: Seq::empty() },
                    ]);
                }
                let ghost trail = starting::<K, V>(pool, root, leaf_parts(pool, sh));
                proof {
                    assert(durable(pool, 0) && durable(pool, root));
                    if blank(w) && pool.wal@.error is None {
                        lemma_untold(pool);
                        lemma_floor_here::<K, V>(
                            pool,
                            root,
                            sh,
                            Trail { parted: false, ..trail },
                        );
                    }
                }
                Ok(
                    (
                        BTreeIndex {
                            pool,
                            root,
                            shape: Ghost(sh),
                            trail: Ghost(trail),
                            _key: PhantomData,
                            _val: PhantomData,
                        },
                        root,
                    ),
                )
            },
            Err(e) => Err((IndexError::BufferPool(e), pool)),
        }
    }

    /// Opens the index whose root the metadata page names. Refuses a data file without a
    /// metadata page of this format, and gives the pool back. Whether the pages are those
    /// of an index is not looked at.
    pub fn open(pool: BufferPoolManager) -> (r: Result<Self, (IndexError, BufferPoolManager)>)
        requires
            K::width_fits(),
            V::width_fits(),
            pool.wf(),
            held(pool, Set::empty(), 0),
        ensures
            match r {
                Ok(t) => {
                    &&& t.pool.wf()
                    &&& held(t.pool, Set::empty(), 0)
                    &&& same_contents(pool, t.pool)
                    &&& t.pool.next_page_id == pool.next_page_id
                    &&& log_step(pool.wal@, t.pool.wal@)
                    &&& t.rooted()
                    &&& forall|sh: Shape| #[trigger]
                        tree_wf::<K, V>(pool, t.root, sh) ==> {
                            &&& t.wf()
                            &&& t.parts() == leaf_parts(pool, sh)
                            &&& t.trail@.floor == t.parts()
                            &&& kept(pool, Map::empty()) && pool.wal@.waiting.len() == 0
                                && t.pool.wal@.error is None ==> !t.trail@.parted
                        }
                },
                Err((e, p)) => {
                    &&& p.wf()
                    &&& {
                        ||| e is BufferPool && p.faulty()
                        ||| e is CorruptMetadata && (pool.next_page_id == 0 || root_of(
                            pool.page(0),
                        ) is None)
                    }
                },
            },
            pool.able() ==> match r {
                Ok(t) => t.pool.able(),
                Err((e, p)) => p.able() && (e is BufferPool ==> p.next_page_id == u64::MAX),
            },
    {
        let ghost p0 = pool;
        proof {
            lemma_log_still(p0.wal@);
        }
        let mut pool = pool;
        if pool.next_page_id == 0 {
            return Err((IndexError::CorruptMetadata, pool));
        }
        let guard = match pool.fetch_page(META_PAGE) {
            Ok(g) => g,
            Err(e) => {
                proof {
                    if pool.able() {
                        lemma_able(pool, None);
                    }
                }
                return Err((IndexError::BufferPool(e), pool));
            },
        };
        let ghost p1 = pool;
        proof {
            lemma_hold(p0, p1, Set::empty(), 0, 0);
            lemma_same_meta(guard@);
            crate::page::lemma_plain(guard@);
        }
        let found: Option<PageId> = read_root(guard.memory());
        pool.release(guard);
        proof {
            lemma_unhold(p1, pool, Set::empty().insert(0), 1, 0);
            assert(Set::<u64>::empty().insert(0).remove(0) =~= Set::empty());
            assert forall|id: u64| #[trigger] pool.page(id) == p0.page(id) by {
                assert(p1.page(id) == p0.page(id));
            }
        }
        match found {
            Some(root) => {
                let ghost sh = choose|sh: Shape| tree_wf::<K, V>(p0, root, sh);
                let ghost trail = starting::<K, V>(pool, root, leaf_parts(pool, sh));
                proof {
                    let calm_trail = Trail { parted: false, ..trail };
                    if kept(p0, Map::empty()) && p0.wal@.waiting.len() == 0 && pool.wal@.error is None
                        && tree_wf::<K, V>(p0, root, sh) {
                        lemma_sound_step(p0, pool, calm_trail);
                        lemma_tree_kept::<K, V>(p0, pool, root, sh);
                        lemma_floor_here::<K, V>(pool, root, sh, calm_trail);
                    }
                }
                let t = BTreeIndex {
                    pool,
                    root,
                    shape: Ghost(sh),
                    trail: Ghost(trail),
                    _key: PhantomData,
                    _val: PhantomData,
                };
                proof {
                    assert forall|s2: Shape| #[trigger] tree_wf::<K, V>(p0, root, s2) implies {
                        &&& t.wf()
                        &&& t.parts() == leaf_parts(p0, s2)
                        &&& t.trail@.floor == t.parts()
                        &&& kept(p0, Map::empty()) && p0.wal@.waiting.len() == 0
                            && t.pool.wal@.error is None ==> !t.trail@.parted
                    } by {
                        lemma_tree_kept::<K, V>(p0, t.pool, root, sh);
                        law_one_shape::<K, V>(p0, root, sh, s2);
                    }
                }
                Ok(t)
            },
            None => Err((IndexError::CorruptMetadata, pool)),
        }
    }

    /// The page that searches start at.
    pub fn root_page_id(&self) -> (root: PageId)
        ensures
            root == self.root,
    {
        self.root
    }
}

/// Going down the left edge from the root, two shapes of the same pages name the same
/// pages.
proof fn lemma_left_edge<K: Key, V: Value>(
    p: BufferPoolManager,
    root: PageId,
    a: Shape,
    b: Shape,
    d: int,
)
    requires
        tree_wf::<K, V>(p, root, a),
        tree_wf::<K, V>(p, root, b),
        0 <= d < a.levels.len(),
        d < b.levels.len(),
    ensures
        a.levels[a.levels.len() - 1 - d][0] == b.levels[b.levels.len() - 1 - d][0],
    decreases d,
{
    if d > 0 {
        lemma_left_edge::<K, V>(p, root, a, b, d - 1);
        lemma_leftmost_child::<K, V>(p, root, a, a.levels.len() - d);
        lemma_leftmost_child::<K, V>(p, root, b, b.levels.len() - d);
    }
}

/// Going right from the leftmost leaf, two shapes of the same pages name the same leaves.
proof fn lemma_same_chain<K: Key, V: Value>(
    p: BufferPoolManager,
    root: PageId,
    a: Shape,
    b: Shape,
    i: int,
)
    requires
        tree_wf::<K, V>(p, root, a),
        tree_wf::<K, V>(p, root, b),
        a.levels[0][0] == b.levels[0][0],
        0 <= i < a.levels[0].len(),
    ensures
        i < b.levels[0].len(),
        a.levels[0][i] == b.levels[0][i],
        a.low[a.levels[0][i]] == b.low[b.levels[0][i]],
    decreases i,
{
    assert(a.levels[0].len() > 0 && b.levels[0].len() > 0);
    if i > 0 {
        lemma_same_chain::<K, V>(p, root, a, b, i - 1);
        assert(node_wf::<K, V>(p, a, 0, i - 1));
        assert(node_wf::<K, V>(p, b, 0, i - 1));
    } else {
        assert(node_wf::<K, V>(p, a, 0, 0));
        assert(node_wf::<K, V>(p, b, 0, 0));
    }
}

/// The pages alone say what the index holds: however the tree in them is read, its leaves
/// are the same. So an index that is opened again from the same pages holds what it held.
pub proof fn law_one_shape<K: Key, V: Value>(p: BufferPoolManager, root: PageId, a: Shape, b: Shape)
    requires
        tree_wf::<K, V>(p, root, a),
        tree_wf::<K, V>(p, root, b),
    ensures
        leaf_parts(p, a) == leaf_parts(p, b),
{
    let n = a.levels.len() as int;
    let m = b.levels.len() as int;
    if n < m {
        lemma_left_edge::<K, V>(p, root, a, b, n - 1);
        assert(b.levels[m - n].len() > 0 && a.levels[0].len() > 0);
        assert(node_wf::<K, V>(p, a, 0, 0));
        assert(node_wf::<K, V>(p, b, m - n, 0));
    } else if m < n {
        lemma_left_edge::<K, V>(p, root, b, a, m - 1);
        assert(a.levels[n - m].len() > 0 && b.levels[0].len() > 0);
        assert(node_wf::<K, V>(p, b, 0, 0));
        assert(node_wf::<K, V>(p, a, n - m, 0));
    } else {
        lemma_left_edge::<K, V>(p, root, a, b, n - 1);
        let x = leaf_parts(p, a);
        let y = leaf_parts(p, b);
        assert forall|i: int| 0 <= i < x.len() implies i < y.len() && #[trigger] x[i] == y[i] by {
            lemma_same_chain::<K, V>(p, root, a, b, i);
        }
        assert(a.levels[0].len() > 0 && b.levels[0].len() > 0);
        lemma_same_chain::<K, V>(p, root, a, b, x.len() - 1);
        lemma_same_chain::<K, V>(p, root, b, a, y.len() - 1);
        assert(x =~= y);
    }
}

} // verus!
