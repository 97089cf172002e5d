//! The shape of the tree, and what keeps it.
//!
//! The pages of each level form a chain from left to right. A page's high key is the low
//! key of its right neighbour; a search whose key is not below the high key goes right. A
//! page can be reached through its left neighbour as soon as it is in the chain, also
//! while its parent does not know it yet: its left neighbour is marked until then. The back links of the leaves run against the
//! right links.

use crate::buffer_pool::manager::{same_contents, BufferPoolManager};
use crate::constants::MAX_KEY_SIZE;
use crate::page::internal::{
    child_index, int_view, int_wf, keys_sorted, keys_typed, lemma_int_stamp,
};
use crate::page::leaf::{
    leaf_view, leaf_wf, lemma_leaf_stamp, packed_room, rows_sorted, rows_typed, LeafView, Version,
};
use crate::page::{lemma_plain, plain, split_incomplete, stamped, PageId, PAGE_SIZE};
use crate::types::{canonical, key_before, Key, Value};
use vstd::prelude::*;

verus! {

/// The tree's pages, level by level from the leaves up, each level from left to right, the
/// low key of each page, and whether the tree is upright.
#[verifier::ext_equal]
pub ghost struct Shape {
    pub levels: Seq<Seq<PageId>>,
    pub low: Map<PageId, Option<Seq<u8>>>,
    pub firm: bool,
}

/// A leaf as a search sees it: the keys from `low` up to, but not including, `high`
/// belong to it.
#[verifier::ext_equal]
pub ghost struct Part {
    pub low: Option<Seq<u8>>,
    pub high: Option<Seq<u8>>,
    pub rows: Seq<Version>,
}

/// The key is not below the bound.
pub open spec fn at_least<K: Key>(k: Seq<u8>, low: Option<Seq<u8>>) -> bool {
    low matches Some(b) ==> K::le(b, k)
}

/// The key is below the bound.
pub open spec fn under<K: Key>(k: Seq<u8>, high: Option<Seq<u8>>) -> bool {
    high matches Some(h) ==> key_before::<K>(k, h)
}

/// The key is not above the bound.
pub open spec fn at_most<K: Key>(k: Seq<u8>, high: Option<Seq<u8>>) -> bool {
    high matches Some(h) ==> K::le(k, h)
}

/// The high key of a page of the given level.
pub open spec fn node_high(b: Seq<u8>, level: int) -> Option<Seq<u8>> {
    if level == 0 {
        leaf_view(b).high
    } else {
        int_view(b).high
    }
}

/// The right neighbour of a page of the given level.
pub open spec fn node_right(b: Seq<u8>, level: int) -> Option<PageId> {
    if level == 0 {
        leaf_view(b).right
    } else {
        int_view(b).right
    }
}

/// The key can stand in the tree.
pub open spec fn good_key<K: Key>(k: Seq<u8>) -> bool {
    canonical::<K>(k) && k.len() <= MAX_KEY_SIZE
}

/// The rows of a leaf: in order, of the right types, within the bounds.
pub open spec fn good_rows<K: Key, V: Value>(
    rows: Seq<Version>,
    low: Option<Seq<u8>>,
    high: Option<Seq<u8>>,
) -> bool {
    &&& rows_sorted::<K>(rows)
    &&& rows_typed::<K, V>(rows)
    &&& forall|i: int|
        0 <= i < rows.len() ==> {
            &&& (#[trigger] rows[i]).key.len() <= MAX_KEY_SIZE
            &&& at_least::<K>(rows[i].key, low)
            &&& at_most::<K>(rows[i].key, high)
        }
}

/// The page is a packed leaf with the given low key.
pub open spec fn good_leaf<K: Key, V: Value>(b: Seq<u8>, low: Option<Seq<u8>>) -> bool {
    let v = leaf_view(b);
    &&& leaf_wf(b)
    &&& v.free == packed_room(v.high, v.rows)
    &&& good_rows::<K, V>(v.rows, low, v.high)
}

/// The child is on the given level, and its low key is `sep`.
pub open spec fn linked(sh: Shape, level: int, child: PageId, sep: Option<Seq<u8>>) -> bool {
    sh.levels[level].contains(child) && sh.low[child] == sep
}

/// The separators and children of an internal page.
pub open spec fn good_children<K: Key>(
    sh: Shape,
    level: int,
    low: Option<Seq<u8>>,
    high: Option<Seq<u8>>,
    keys: Seq<Seq<u8>>,
    children: Seq<PageId>,
) -> bool {
    &&& children.len() == keys.len() + 1
    &&& keys_sorted::<K>(keys)
    &&& keys_typed::<K>(keys)
    &&& forall|j: int|
        0 <= j < keys.len() ==> {
            &&& 0 < (#[trigger] keys[j]).len() <= MAX_KEY_SIZE
            &&& at_least::<K>(keys[j], low)
            &&& at_most::<K>(keys[j], high)
            &&& linked(sh, level - 1, children[j + 1], Some(keys[j]))
        }
    &&& linked(sh, level - 1, children[0], low)
}

/// The page is an internal page with the given low key.
pub open spec fn good_internal<K: Key>(
    b: Seq<u8>,
    sh: Shape,
    level: int,
    low: Option<Seq<u8>>,
) -> bool {
    let v = int_view(b);
    &&& int_wf(b)
    &&& good_children::<K>(sh, level, low, v.high, v.keys, v.children)
}

/// The bounds of a page are in order.
pub open spec fn good_bounds<K: Key>(low: Option<Seq<u8>>, high: Option<Seq<u8>>) -> bool {
    &&& high matches Some(h) ==> good_key::<K>(h) && 0 < h.len()
    &&& low matches Some(l) ==> good_key::<K>(l)
    &&& low is Some && high is Some ==> K::le(low->0, high->0)
}

/// The page at position `i` of a level is in order, and so is its link to the next one.
pub open spec fn node_wf<K: Key, V: Value>(
    p: BufferPoolManager,
    sh: Shape,
    l: int,
    i: int,
) -> bool {
    let id = sh.levels[l][i];
    let b = p.page(id);
    let low = sh.low[id];
    let high = node_high(b, l);
    &&& 0 < id < p.next_page_id
    &&& b.len() == PAGE_SIZE
    &&& good_bounds::<K>(low, high)
    &&& i == 0 ==> low is None
    &&& if i + 1 < sh.levels[l].len() {
        &&& node_right(b, l) == Some(sh.levels[l][i + 1])
        &&& high is Some
        &&& sh.low[sh.levels[l][i + 1]] == high
    } else {
        &&& node_right(b, l) is None
        &&& high is None
    }
    &&& if l == 0 {
        good_leaf::<K, V>(b, low) && leaf_view(b).prev == before(sh.levels[0], i)
    } else {
        good_internal::<K>(b, sh, l, low)
    }
}

/// The left neighbour of position `i`.
pub open spec fn before(chain: Seq<PageId>, i: int) -> Option<PageId> {
    if i > 0 {
        Some(chain[i - 1])
    } else {
        None
    }
}

/// There is a page on every level, and no page occurs twice.
pub open spec fn shape_wf(sh: Shape) -> bool {
    &&& sh.levels.len() > 0
    &&& forall|l: int| 0 <= l < sh.levels.len() ==> (#[trigger] sh.levels[l]).len() > 0
    &&& forall|l: int, i: int, m: int, j: int|
        #![trigger sh.levels[l][i], sh.levels[m][j]]
        0 <= l < sh.levels.len() && 0 <= i < sh.levels[l].len() && 0 <= m < sh.levels.len() && 0
            <= j < sh.levels[m].len() && sh.levels[l][i] == sh.levels[m][j] ==> l == m && i == j
}

/// All pages of the tree are in order.
pub open spec fn nodes_wf<K: Key, V: Value>(p: BufferPoolManager, sh: Shape) -> bool {
    forall|l: int, i: int|
        0 <= l < sh.levels.len() && 0 <= i < sh.levels[l].len() ==> #[trigger] node_wf::<K, V>(
            p,
            sh,
            l,
            i,
        )
}

/// The tree is in order, and `root` is its entry.
pub open spec fn tree_wf<K: Key, V: Value>(p: BufferPoolManager, root: PageId, sh: Shape) -> bool {
    &&& shape_wf(sh)
    &&& nodes_wf::<K, V>(p, sh)
    &&& root == sh.levels.last()[0]
    &&& sh.firm ==> upright(p, sh)
}

/// Every page but the first of its level has a parent, unless its left neighbour is marked as
/// split. So the topmost level is one page, or the pages there are marked.
#[verifier::opaque]
pub open spec fn upright(p: BufferPoolManager, sh: Shape) -> bool {
    forall|l: int, i: int|
        0 <= l < sh.levels.len() && 0 < i < sh.levels[l].len() ==> #[trigger] propped(p, sh, l, i)
}

/// The page has a parent, or its left neighbour is marked as split.
pub open spec fn propped(p: BufferPoolManager, sh: Shape, l: int, i: int) -> bool {
    split_incomplete(p.page(sh.levels[l][i - 1])) || has_parent(p, sh, l, sh.levels[l][i])
}

/// No page is marked as split but the given one.
#[verifier::opaque]
pub open spec fn marked_only(p: BufferPoolManager, sh: Shape, pid: Option<PageId>) -> bool {
    forall|l: int, i: int|
        0 <= l < sh.levels.len() && 0 <= i < sh.levels[l].len() && split_incomplete(
            p.page(#[trigger] sh.levels[l][i]),
        ) ==> pid == Some(sh.levels[l][i])
}

/// Pages that get no mark leave the marks where they are.
pub proof fn lemma_marks_kept(
    a: BufferPoolManager,
    b: BufferPoolManager,
    sh: Shape,
    pid: Option<PageId>,
)
    requires
        marked_only(a, sh, pid),
        forall|l: int, i: int|
            0 <= l < sh.levels.len() && 0 <= i < sh.levels[l].len() && split_incomplete(
                b.page(#[trigger] sh.levels[l][i]),
            ) ==> split_incomplete(a.page(sh.levels[l][i])),
    ensures
        marked_only(b, sh, pid),
{
    reveal(marked_only);
}

/// The mark was taken off.
pub proof fn lemma_mark_cleared(a: BufferPoolManager, b: BufferPoolManager, sh: Shape, pid: PageId)
    requires
        marked_only(a, sh, Some(pid)),
        forall|o: u64| o != pid ==> #[trigger] b.page(o) == a.page(o),
        !split_incomplete(b.page(pid)),
    ensures
        marked_only(b, sh, None),
{
    reveal(marked_only);
}

/// A page was split, and is marked; the mark that there was is gone.
pub proof fn lemma_mark_split(
    a: BufferPoolManager,
    b: BufferPoolManager,
    sh: Shape,
    l: int,
    i: int,
    rid: PageId,
    sep: Seq<u8>,
    pid: Option<PageId>,
)
    requires
        marked_only(a, sh, pid),
        0 <= l < sh.levels.len(),
        0 <= i < sh.levels[l].len(),
        !split_incomplete(b.page(rid)),
        pid matches Some(x) ==> !split_incomplete(b.page(x)),
        forall|m: int, j: int|
            0 <= m < sh.levels.len() && 0 <= j < sh.levels[m].len() && sh.levels[m][j]
                != sh.levels[l][i] && split_incomplete(b.page(#[trigger] sh.levels[m][j]))
                ==> split_incomplete(a.page(sh.levels[m][j])),
    ensures
        marked_only(b, grown(sh, l, i, rid, sep), Some(sh.levels[l][i])),
{
    reveal(marked_only);
    let s2 = grown(sh, l, i, rid, sep);
    assert forall|m: int, j: int|
        0 <= m < s2.levels.len() && 0 <= j < s2.levels[m].len() && split_incomplete(
            b.page(#[trigger] s2.levels[m][j]),
        ) implies Some(sh.levels[l][i]) == Some(s2.levels[m][j]) by {
        if !(m == l && j == i + 1) {
            let j0 = if m == l && j > i + 1 {
                j - 1
            } else {
                j
            };
            assert(s2.levels[m][j] == sh.levels[m][j0]);
        }
    }
}

/// A root was put over the page that was marked.
pub proof fn lemma_mark_raised(
    a: BufferPoolManager,
    b: BufferPoolManager,
    sh: Shape,
    top: PageId,
    pid: PageId,
)
    requires
        marked_only(a, sh, Some(pid)),
        !split_incomplete(b.page(top)),
        !split_incomplete(b.page(pid)),
        forall|m: int, j: int|
            0 <= m < sh.levels.len() && 0 <= j < sh.levels[m].len() && sh.levels[m][j] != pid
                ==> b.page(#[trigger] sh.levels[m][j]) == a.page(sh.levels[m][j]),
    ensures
        marked_only(b, raised(sh, top), None),
{
    reveal(marked_only);
    let s2 = raised(sh, top);
    assert forall|m: int, j: int|
        0 <= m < s2.levels.len() && 0 <= j < s2.levels[m].len() implies !split_incomplete(
        b.page(#[trigger] s2.levels[m][j]),
    ) by {
        if m < sh.levels.len() {
            assert(s2.levels[m][j] == sh.levels[m][j]);
        }
    }
}

/// Every split is complete, the root is alone on its level, and every page has a parent.
pub open spec fn whole_tree(p: BufferPoolManager, sh: Shape) -> bool {
    &&& sh.firm
    &&& sh.levels.last().len() == 1
    &&& marked_only(p, sh, None)
}

/// In a whole tree every page below the root is a child of a page one level up.
pub proof fn law_every_page_has_a_parent<K: Key, V: Value>(
    p: BufferPoolManager,
    root: PageId,
    sh: Shape,
    l: int,
    i: int,
)
    requires
        tree_wf::<K, V>(p, root, sh),
        whole_tree(p, sh),
        0 <= l < sh.levels.len() - 1,
        0 <= i < sh.levels[l].len(),
    ensures
        has_parent(p, sh, l, sh.levels[l][i]),
{
    if i == 0 {
        lemma_descended::<K, V>(p, root, sh, l);
        lemma_descended::<K, V>(p, root, sh, l + 1);
        assert(node_wf::<K, V>(p, sh, l + 1, 0));
        assert(sh.levels[l + 1].len() > 0);
        let first = int_view(p.page(sh.levels[l + 1][0]));
        assert(first.children[0] == sh.levels[l][0]);
        assert(names_child(p.page(sh.levels[l + 1][0]), sh.levels[l][i]));
    } else {
        reveal(upright);
        reveal(marked_only);
        assert(propped(p, sh, l, i));
        assert(!split_incomplete(p.page(sh.levels[l][i - 1])));
    }
}

/// The shape, with nothing said of parents.
pub open spec fn loose(sh: Shape) -> Shape {
    Shape { firm: false, ..sh }
}

/// A tree stays one where nothing is said of parents.
pub proof fn lemma_loose<K: Key, V: Value>(p: BufferPoolManager, root: PageId, sh: Shape)
    requires
        tree_wf::<K, V>(p, root, sh),
    ensures
        tree_wf::<K, V>(p, root, loose(sh)),
        leaf_parts(p, loose(sh)) == leaf_parts(p, sh),
{
    let s2 = loose(sh);
    assert forall|l: int, i: int|
        0 <= l < s2.levels.len() && 0 <= i < s2.levels[l].len() implies #[trigger] node_wf::<K, V>(
        p,
        s2,
        l,
        i,
    ) by {
        assert(node_wf::<K, V>(p, sh, l, i));
        if l > 0 {
            let v = int_view(p.page(sh.levels[l][i]));
            assert forall|j: int| 0 <= j < v.keys.len() implies {
                &&& 0 < (#[trigger] v.keys[j]).len() <= MAX_KEY_SIZE
                &&& at_least::<K>(v.keys[j], sh.low[sh.levels[l][i]])
                &&& at_most::<K>(v.keys[j], v.high)
                &&& linked(s2, l - 1, v.children[j + 1], Some(v.keys[j]))
            } by {
                assert(linked(sh, l - 1, v.children[j + 1], Some(v.keys[j])));
            }
        }
    }
    assert(leaf_parts(p, s2) =~= leaf_parts(p, sh));
}

/// The page at position `i` keeps its children; it keeps its mark, unless its right neighbour
/// has a parent.
pub open spec fn mark_kept(
    a: BufferPoolManager,
    b: BufferPoolManager,
    sh: Shape,
    l: int,
    i: int,
) -> bool {
    let x = a.page(sh.levels[l][i]);
    let y = b.page(sh.levels[l][i]);
    &&& split_incomplete(x) && i + 1 < sh.levels[l].len() ==> split_incomplete(y) || has_parent(
        a,
        sh,
        l,
        sh.levels[l][i + 1],
    )
    &&& l > 0 ==> forall|c: PageId| #[trigger] names_child(x, c) ==> names_child(y, c)
}

/// Pages that keep their marks and children keep the tree upright.
pub proof fn lemma_upright_kept(a: BufferPoolManager, b: BufferPoolManager, sh: Shape)
    requires
        upright(a, sh),
        forall|l: int, i: int|
            0 <= l < sh.levels.len() && 0 <= i < sh.levels[l].len() ==> #[trigger] mark_kept(
                a,
                b,
                sh,
                l,
                i,
            ),
    ensures
        upright(b, sh),
{
    reveal(upright);
    assert forall|l: int, i: int|
        0 <= l < sh.levels.len() && 0 < i < sh.levels[l].len() implies #[trigger] propped(
        b,
        sh,
        l,
        i,
    ) by {
        assert(propped(a, sh, l, i));
        assert(mark_kept(a, b, sh, l, i - 1));
        let child = sh.levels[l][i];
        if has_parent(a, sh, l, child) {
            let q = choose|q: int|
                0 <= q < sh.levels[l + 1].len() && #[trigger] names_child(
                    a.page(sh.levels[l + 1][q]),
                    child,
                );
            assert(mark_kept(a, b, sh, l + 1, q));
            assert(names_child(b.page(sh.levels[l + 1][q]), child));
        }
    }
}

/// The same for pages that are the same.
pub proof fn lemma_upright_same(a: BufferPoolManager, b: BufferPoolManager, sh: Shape)
    requires
        upright(a, sh),
        forall|l: int, i: int|
            0 <= l < sh.levels.len() && 0 <= i < sh.levels[l].len() ==> b.page(
                #[trigger] sh.levels[l][i],
            ) == a.page(sh.levels[l][i]),
    ensures
        upright(b, sh),
{
    assert forall|l: int, i: int|
        0 <= l < sh.levels.len() && 0 <= i < sh.levels[l].len() implies #[trigger] mark_kept(
        a,
        b,
        sh,
        l,
        i,
    ) by {
        assert(b.page(sh.levels[l][i]) == a.page(sh.levels[l][i]));
    }
    lemma_upright_kept(a, b, sh);
}

/// The page that `n` right links lead to.
pub open spec fn walked(p: BufferPoolManager, id: PageId, l: int, n: int) -> Option<PageId>
    decreases n,
{
    if n <= 0 {
        Some(id)
    } else {
        match walked(p, id, l, n - 1) {
            Some(x) => node_right(p.page(x), l),
            None => None,
        }
    }
}

/// The page that the first children lead to, from a page of level `top` down to level `l`.
pub open spec fn descended(p: BufferPoolManager, id: PageId, top: int, l: int) -> PageId
    decreases top - l,
{
    if l >= top {
        id
    } else {
        int_view(p.page(descended(p, id, top, l + 1))).children[0]
    }
}

/// Every page of the tree is reached from the root: the first children lead to the first page
/// of each level, and from there the right links to every page of the level, one after the
/// other, and to no other. The back links of the leaves lead the same way back.
pub proof fn law_every_page_is_reached<K: Key, V: Value>(
    p: BufferPoolManager,
    root: PageId,
    sh: Shape,
    l: int,
    i: int,
)
    requires
        tree_wf::<K, V>(p, root, sh),
        0 <= l < sh.levels.len(),
        0 <= i < sh.levels[l].len(),
    ensures
        descended(p, root, sh.levels.len() - 1, l) == sh.levels[l][0],
        walked(p, sh.levels[l][0], l, i) == Some(sh.levels[l][i]),
        walked(p, sh.levels[l][0], l, sh.levels[l].len() as int) is None,
        l == 0 ==> leaf_view(p.page(sh.levels[0][i])).prev == (if i > 0 {
            walked(p, sh.levels[0][0], 0, i - 1)
        } else {
            None
        }),
{
    lemma_walked::<K, V>(p, root, sh, l, i);
    lemma_walked::<K, V>(p, root, sh, l, sh.levels[l].len() - 1);
    assert(node_wf::<K, V>(p, sh, l, sh.levels[l].len() - 1));
    assert(node_wf::<K, V>(p, sh, l, i));
    if i > 0 {
        lemma_walked::<K, V>(p, root, sh, l, i - 1);
    }
    lemma_descended::<K, V>(p, root, sh, l);
}

proof fn lemma_walked<K: Key, V: Value>(
    p: BufferPoolManager,
    root: PageId,
    sh: Shape,
    l: int,
    i: int,
)
    requires
        tree_wf::<K, V>(p, root, sh),
        0 <= l < sh.levels.len(),
        0 <= i < sh.levels[l].len(),
    ensures
        walked(p, sh.levels[l][0], l, i) == Some(sh.levels[l][i]),
    decreases i,
{
    if i > 0 {
        lemma_walked::<K, V>(p, root, sh, l, i - 1);
        assert(node_wf::<K, V>(p, sh, l, i - 1));
    }
}

proof fn lemma_descended<K: Key, V: Value>(p: BufferPoolManager, root: PageId, sh: Shape, l: int)
    requires
        tree_wf::<K, V>(p, root, sh),
        0 <= l < sh.levels.len(),
    ensures
        descended(p, root, sh.levels.len() - 1, l) == sh.levels[l][0],
    decreases sh.levels.len() - l,
{
    if l < sh.levels.len() - 1 {
        lemma_descended::<K, V>(p, root, sh, l + 1);
        assert(node_wf::<K, V>(p, sh, l + 1, 0));
        let child = int_view(p.page(sh.levels[l + 1][0])).children[0];
        assert(linked(sh, l, child, None));
        let j = choose|j: int| 0 <= j < sh.levels[l].len() && sh.levels[l][j] == child;
        if j > 0 {
            assert(node_wf::<K, V>(p, sh, l, j - 1));
        }
    }
}

/// The child is one of the page's.
pub open spec fn names_child(b: Seq<u8>, child: PageId) -> bool {
    int_view(b).children.contains(child)
}

/// A page one level up leads to this one.
pub open spec fn has_parent(p: BufferPoolManager, sh: Shape, l: int, child: PageId) -> bool {
    &&& l + 1 < sh.levels.len()
    &&& exists|q: int|
        0 <= q < sh.levels[l + 1].len() && #[trigger] names_child(
            p.page(sh.levels[l + 1][q]),
            child,
        )
}

/// Pages that lose no children lead where they led.
pub proof fn lemma_parent_kept(
    a: BufferPoolManager,
    sa: Shape,
    b: BufferPoolManager,
    sb: Shape,
    l: int,
    child: PageId,
)
    requires
        has_parent(a, sa, l, child),
        sa.levels.len() <= sb.levels.len(),
        sb.levels[l + 1] == sa.levels[l + 1],
        forall|q: int|
            0 <= q < sa.levels[l + 1].len() && names_child(
                #[trigger] a.page(sa.levels[l + 1][q]),
                child,
            ) ==> names_child(b.page(sa.levels[l + 1][q]), child),
    ensures
        has_parent(b, sb, l, child),
{
    let q = choose|q: int|
        0 <= q < sa.levels[l + 1].len() && #[trigger] names_child(
            a.page(sa.levels[l + 1][q]),
            child,
        );
    assert(names_child(b.page(sb.levels[l + 1][q]), child));
}

/// The leaves, from left to right.
pub open spec fn leaf_parts(p: BufferPoolManager, sh: Shape) -> Seq<Part> {
    Seq::new(
        sh.levels[0].len(),
        |i: int|
            Part {
                low: sh.low[sh.levels[0][i]],
                high: leaf_view(p.page(sh.levels[0][i])).high,
                rows: leaf_view(p.page(sh.levels[0][i])).rows,
            },
    )
}

/// A page and its plain form hold the same.
pub proof fn lemma_same_view(b: Seq<u8>)
    requires
        b.len() == PAGE_SIZE,
    ensures
        plain(b).len() == PAGE_SIZE,
        plain(b)[0] == b[0],
        plain(b)[1] == b[1],
        leaf_wf(plain(b)) == leaf_wf(b),
        leaf_wf(b) ==> leaf_view(plain(b)) == leaf_view(b),
        int_wf(plain(b)) == int_wf(b),
        int_wf(b) ==> int_view(plain(b)) == int_view(b),
{
    lemma_plain(b);
    let crc = choose|crc: u32| b == stamped(plain(b), crc);
    if leaf_wf(b) {
        lemma_leaf_stamp(b, 0);
    }
    if leaf_wf(plain(b)) {
        lemma_leaf_stamp(plain(b), crc);
    }
    if int_wf(b) {
        lemma_int_stamp(b, 0);
    }
    if int_wf(plain(b)) {
        lemma_int_stamp(plain(b), crc);
    }
}

/// The tree depends only on the pages.
pub proof fn lemma_tree_kept<K: Key, V: Value>(
    a: BufferPoolManager,
    b: BufferPoolManager,
    root: PageId,
    sh: Shape,
)
    requires
        tree_wf::<K, V>(a, root, sh),
        same_contents(a, b),
        a.next_page_id <= b.next_page_id,
    ensures
        tree_wf::<K, V>(b, root, sh),
        leaf_parts(b, sh) == leaf_parts(a, sh),
{
    assert forall|l: int, i: int|
        0 <= l < sh.levels.len() && 0 <= i < sh.levels[l].len() implies #[trigger] node_wf::<K, V>(
        b,
        sh,
        l,
        i,
    ) by {
        assert(node_wf::<K, V>(a, sh, l, i));
        assert(b.page(sh.levels[l][i]) == a.page(sh.levels[l][i]));
    }
    if sh.firm {
        lemma_upright_same(a, b, sh);
    }
    assert(leaf_parts(b, sh) =~= leaf_parts(a, sh)) by {
        assert forall|i: int| 0 <= i < sh.levels[0].len() implies leaf_parts(b, sh)[i]
            == leaf_parts(a, sh)[i] by {
            assert(b.page(sh.levels[0][i]) == a.page(sh.levels[0][i]));
        }
    }
}

/// One page was rewritten: its bounds, its links and, above the leaves, its children are
/// as before; its rows, where it is a leaf, are in order.
pub open spec fn node_edit<K: Key, V: Value>(
    a: BufferPoolManager,
    b: BufferPoolManager,
    sh: Shape,
    l: int,
    i: int,
) -> bool {
    let id = sh.levels[l][i];
    let x = a.page(id);
    let y = b.page(id);
    &&& 0 <= l < sh.levels.len()
    &&& 0 <= i < sh.levels[l].len()
    &&& a.next_page_id <= b.next_page_id
    &&& forall|o: u64| o != id ==> #[trigger] b.page(o) == a.page(o)
    &&& sh.firm && split_incomplete(x) && i + 1 < sh.levels[l].len() ==> split_incomplete(y)
        || has_parent(a, sh, l, sh.levels[l][i + 1])
    &&& if l == 0 {
        &&& good_leaf::<K, V>(y, sh.low[id])
        &&& leaf_view(y).high == leaf_view(x).high
        &&& leaf_view(y).right == leaf_view(x).right
        &&& leaf_view(y).prev == leaf_view(x).prev
    } else {
        &&& int_wf(y)
        &&& int_view(y).high == int_view(x).high
        &&& int_view(y).right == int_view(x).right
        &&& int_view(y).keys == int_view(x).keys
        &&& int_view(y).children == int_view(x).children
    }
}

/// Rewriting one page keeps the tree.
pub proof fn lemma_node_edit<K: Key, V: Value>(
    a: BufferPoolManager,
    b: BufferPoolManager,
    root: PageId,
    sh: Shape,
    l: int,
    i: int,
)
    requires
        tree_wf::<K, V>(a, root, sh),
        node_edit::<K, V>(a, b, sh, l, i),
    ensures
        tree_wf::<K, V>(b, root, sh),
        leaf_parts(b, sh) == (if l == 0 {
            leaf_parts(a, sh).update(
                i,
                Part {
                    rows: leaf_view(b.page(sh.levels[0][i])).rows,
                    ..leaf_parts(a, sh)[i]
                },
            )
        } else {
            leaf_parts(a, sh)
        }),
{
    let id = sh.levels[l][i];
    assert(node_wf::<K, V>(a, sh, l, i));
    assert forall|m: int, j: int|
        0 <= m < sh.levels.len() && 0 <= j < sh.levels[m].len() implies #[trigger] node_wf::<K, V>(
        b,
        sh,
        m,
        j,
    ) by {
        assert(node_wf::<K, V>(a, sh, m, j));
        if m == l && j == i {
        } else {
            assert(sh.levels[m][j] != id);
            assert(b.page(sh.levels[m][j]) == a.page(sh.levels[m][j]));
        }
    }
    if sh.firm {
        assert forall|m: int, j: int|
            0 <= m < sh.levels.len() && 0 <= j < sh.levels[m].len() implies #[trigger] mark_kept(
            a,
            b,
            sh,
            m,
            j,
        ) by {
            if !(m == l && j == i) {
                assert(sh.levels[m][j] != id);
                assert(b.page(sh.levels[m][j]) == a.page(sh.levels[m][j]));
            }
        }
        lemma_upright_kept(a, b, sh);
    }
    let want = if l == 0 {
        leaf_parts(a, sh).update(
            i,
            Part { rows: leaf_view(b.page(sh.levels[0][i])).rows, ..leaf_parts(a, sh)[i] },
        )
    } else {
        leaf_parts(a, sh)
    };
    assert forall|j: int| 0 <= j < sh.levels[0].len() implies leaf_parts(b, sh)[j] == want[j] by {
        if !(l == 0 && j == i) {
            assert(sh.levels[0][j] != id);
            assert(b.page(sh.levels[0][j]) == a.page(sh.levels[0][j]));
        }
    }
    assert(leaf_parts(b, sh) =~= want);
}

/// The shape after a page was put behind position `i` of a level.
pub open spec fn grown(sh: Shape, l: int, i: int, rid: PageId, sep: Seq<u8>) -> Shape {
    Shape {
        levels: sh.levels.update(l, sh.levels[l].insert(i + 1, rid)),
        low: sh.low.insert(rid, Some(sep)),
        firm: sh.firm,
    }
}

/// The page is not in the tree.
pub open spec fn fresh(sh: Shape, rid: PageId) -> bool {
    forall|l: int, i: int|
        #![trigger sh.levels[l][i]]
        0 <= l < sh.levels.len() && 0 <= i < sh.levels[l].len() ==> sh.levels[l][i] != rid
}

/// A page that no id was given out for is not in the tree.
pub proof fn lemma_fresh<K: Key, V: Value>(
    p: BufferPoolManager,
    root: PageId,
    sh: Shape,
    rid: PageId,
)
    requires
        tree_wf::<K, V>(p, root, sh),
        rid >= p.next_page_id || rid == 0,
    ensures
        fresh(sh, rid),
{
    assert forall|l: int, i: int|
        #![trigger sh.levels[l][i]]
        0 <= l < sh.levels.len() && 0 <= i < sh.levels[l].len() implies sh.levels[l][i] != rid by {
        assert(node_wf::<K, V>(p, sh, l, i));
    }
}

/// Links survive a level's growth.
proof fn lemma_link_kept(
    sh: Shape,
    l: int,
    i: int,
    rid: PageId,
    sep: Seq<u8>,
    m: int,
    child: PageId,
    key: Option<Seq<u8>>,
)
    requires
        0 <= l < sh.levels.len(),
        0 <= i < sh.levels[l].len(),
        0 <= m < sh.levels.len(),
        fresh(sh, rid),
        linked(sh, m, child, key),
    ensures
        linked(grown(sh, l, i, rid, sep), m, child, key),
{
    let s2 = grown(sh, l, i, rid, sep);
    let q = choose|q: int| 0 <= q < sh.levels[m].len() && sh.levels[m][q] == child;
    assert(sh.levels[m][q] != rid);
    if m == l {
        let q2 = if q <= i {
            q
        } else {
            q + 1
        };
        assert(s2.levels[m][q2] == child);
    } else {
        assert(s2.levels[m][q] == child);
    }
}

/// The children of a page survive a level's growth.
pub proof fn lemma_children_kept<K: Key>(
    sh: Shape,
    l: int,
    i: int,
    rid: PageId,
    sep: Seq<u8>,
    m: int,
    low: Option<Seq<u8>>,
    high: Option<Seq<u8>>,
    keys: Seq<Seq<u8>>,
    children: Seq<PageId>,
)
    requires
        0 <= l < sh.levels.len(),
        0 <= i < sh.levels[l].len(),
        0 < m <= sh.levels.len(),
        fresh(sh, rid),
        good_children::<K>(sh, m, low, high, keys, children),
    ensures
        good_children::<K>(grown(sh, l, i, rid, sep), m, low, high, keys, children),
{
    let s2 = grown(sh, l, i, rid, sep);
    assert forall|j: int| 0 <= j < keys.len() implies {
        &&& 0 < (#[trigger] keys[j]).len() <= MAX_KEY_SIZE
        &&& at_least::<K>(keys[j], low)
        &&& at_most::<K>(keys[j], high)
        &&& linked(s2, m - 1, children[j + 1], Some(keys[j]))
    } by {
        lemma_link_kept(sh, l, i, rid, sep, m - 1, children[j + 1], Some(keys[j]));
    }
    lemma_link_kept(sh, l, i, rid, sep, m - 1, children[0], low);
}

/// Nothing of the leaf was changed but its back link, which leads to `rid` now, and its log
/// sequence number.
pub open spec fn pointed_back(x: Seq<u8>, y: Seq<u8>, rid: PageId) -> bool {
    &&& leaf_wf(y)
    &&& leaf_view(y) == (LeafView { lsn: leaf_view(y).lsn, prev: Some(rid), ..leaf_view(x) })
}

/// The lower half is marked; the upper half took the mark over; and the children are in one
/// of them.
pub open spec fn marked_halves(
    old_page: Seq<u8>,
    left: Seq<u8>,
    right: Seq<u8>,
    l: int,
) -> bool {
    &&& split_incomplete(left)
    &&& split_incomplete(old_page) ==> split_incomplete(right)
    &&& l > 0 ==> forall|c: PageId| #[trigger]
        names_child(old_page, c) ==> names_child(left, c) || names_child(right, c)
}

/// A page gave its upper half to a new right neighbour. The one behind them, where there is
/// one and they are leaves, points back to the new page.
pub open spec fn node_split<K: Key, V: Value>(
    a: BufferPoolManager,
    b: BufferPoolManager,
    sh: Shape,
    l: int,
    i: int,
    rid: PageId,
    sep: Seq<u8>,
) -> bool {
    let id = sh.levels[l][i];
    let old_page = a.page(id);
    let left = b.page(id);
    let right = b.page(rid);
    let s2 = grown(sh, l, i, rid, sep);
    let next = node_right(old_page, l);
    &&& 0 <= l < sh.levels.len()
    &&& 0 <= i < sh.levels[l].len()
    &&& a.next_page_id <= b.next_page_id
    &&& 0 < rid < b.next_page_id
    &&& fresh(sh, rid)
    &&& forall|o: u64|
        o != id && o != rid && !(l == 0 && next == Some(o)) ==> #[trigger] b.page(o) == a.page(o)
    &&& l == 0 ==> (next matches Some(n) ==> pointed_back(a.page(n), b.page(n), rid))
    &&& sh.firm ==> marked_halves(old_page, left, right, l)
    &&& good_key::<K>(sep)
    &&& 0 < sep.len()
    &&& at_least::<K>(sep, sh.low[id])
    &&& at_most::<K>(sep, node_high(old_page, l))
    &&& left.len() == PAGE_SIZE
    &&& right.len() == PAGE_SIZE
    &&& node_high(left, l) == Some(sep)
    &&& node_right(left, l) == Some(rid)
    &&& node_high(right, l) == node_high(old_page, l)
    &&& node_right(right, l) == node_right(old_page, l)
    &&& if l == 0 {
        &&& good_leaf::<K, V>(left, sh.low[id])
        &&& good_leaf::<K, V>(right, Some(sep))
        &&& leaf_view(left).prev == leaf_view(old_page).prev
        &&& leaf_view(right).prev == Some(id)
    } else {
        good_internal::<K>(left, s2, l, sh.low[id]) && good_internal::<K>(right, s2, l, Some(sep))
    }
}

/// Splitting a page keeps the tree.
#[verifier::rlimit(60)]
pub proof fn lemma_node_split<K: Key, V: Value>(
    a: BufferPoolManager,
    b: BufferPoolManager,
    root: PageId,
    sh: Shape,
    l: int,
    i: int,
    rid: PageId,
    sep: Seq<u8>,
)
    requires
        tree_wf::<K, V>(a, root, sh),
        node_split::<K, V>(a, b, sh, l, i, rid, sep),
    ensures
        tree_wf::<K, V>(b, root, grown(sh, l, i, rid, sep)),
        leaf_parts(b, grown(sh, l, i, rid, sep)) == (if l == 0 {
            leaf_parts(a, sh).update(
                i,
                Part {
                    low: leaf_parts(a, sh)[i].low,
                    high: Some(sep),
                    rows: leaf_view(b.page(sh.levels[0][i])).rows,
                },
            ).insert(
                i + 1,
                Part {
                    low: Some(sep),
                    high: leaf_parts(a, sh)[i].high,
                    rows: leaf_view(b.page(rid)).rows,
                },
            )
        } else {
            leaf_parts(a, sh)
        }),
{
    let s2 = grown(sh, l, i, rid, sep);
    let id = sh.levels[l][i];
    assert(node_wf::<K, V>(a, sh, l, i));
    lemma_grown_shape(sh, l, i, rid, sep);
    assert forall|m: int, j: int|
        0 <= m < s2.levels.len() && 0 <= j < s2.levels[m].len() implies #[trigger] node_wf::<K, V>(
        b,
        s2,
        m,
        j,
    ) by {
        if m == l && j == i {
            assert(s2.levels[l][i] == id);
            assert(s2.levels[l][i + 1] == rid);
        } else if m == l && j == i + 1 {
            assert(s2.levels[l][i + 1] == rid);
            if i + 1 < sh.levels[l].len() {
                assert(s2.levels[l][i + 2] == sh.levels[l][i + 1]);
                assert(sh.levels[l][i + 1] != rid);
            }
        } else {
            let j0 = if m == l && j > i + 1 {
                j - 1
            } else {
                j
            };
            let o = sh.levels[m][j0];
            assert(s2.levels[m][j] == o);
            assert(node_wf::<K, V>(a, sh, m, j0));
            assert(o != id && o != rid);
            if m == 0 && l == 0 && j0 == i + 1 {
                assert(pointed_back(a.page(o), b.page(o), rid));
                assert(s2.levels[0][i + 1] == rid);
                crate::page::leaf::lemma_packed_room(b.page(o));
            } else {
                if l == 0 && i + 1 < sh.levels[0].len() {
                    assert(sh.levels[0][i + 1] != o);
                }
                assert(b.page(o) == a.page(o));
                if m == 0 && j0 > 0 {
                    assert(s2.levels[0][j - 1] == sh.levels[0][j0 - 1]);
                }
            }
            if j0 + 1 < sh.levels[m].len() {
                let nx = sh.levels[m][j0 + 1];
                assert(nx != rid);
                if m == l {
                    if j < i {
                        assert(s2.levels[m][j + 1] == nx);
                    } else {
                        assert(s2.levels[m][j + 1] == nx);
                    }
                } else {
                    assert(s2.levels[m][j + 1] == nx);
                }
            }
            if m > 0 {
                let v = int_view(b.page(o));
                lemma_children_kept::<K>(
                    sh,
                    l,
                    i,
                    rid,
                    sep,
                    m,
                    sh.low[o],
                    v.high,
                    v.keys,
                    v.children,
                );
            }
        }
    }
    assert(s2.levels.last()[0] == sh.levels.last()[0]);
    lemma_split_parts::<K, V>(a, b, sh, l, i, rid, sep);
    if sh.firm {
        lemma_split_upright::<K, V>(a, b, root, sh, l, i, rid, sep);
    }
}

/// Pages lead where they led, whatever page was split.
proof fn lemma_split_parent<K: Key, V: Value>(
    a: BufferPoolManager,
    b: BufferPoolManager,
    root: PageId,
    sh: Shape,
    l: int,
    i: int,
    rid: PageId,
    sep: Seq<u8>,
    m: int,
    c: PageId,
)
    requires
        tree_wf::<K, V>(a, root, sh),
        node_split::<K, V>(a, b, sh, l, i, rid, sep),
        sh.firm,
        0 <= m,
        has_parent(a, sh, m, c),
    ensures
        has_parent(b, grown(sh, l, i, rid, sep), m, c),
{
    let s2 = grown(sh, l, i, rid, sep);
    let id = sh.levels[l][i];
    let q = choose|q: int|
        0 <= q < sh.levels[m + 1].len() && #[trigger] names_child(a.page(sh.levels[m + 1][q]), c);
    let o = sh.levels[m + 1][q];
    assert(o != rid);
    assert(node_wf::<K, V>(a, sh, l, i));
    if l == 0 && i + 1 < sh.levels[0].len() {
        assert(sh.levels[0][i + 1] != o);
    }
    if m + 1 == l && q == i {
        assert(s2.levels[l][i] == id);
        assert(s2.levels[l][i + 1] == rid);
        if names_child(b.page(id), c) {
            assert(names_child(b.page(s2.levels[m + 1][i]), c));
        } else {
            assert(names_child(b.page(s2.levels[m + 1][i + 1]), c));
        }
    } else {
        assert(o != id);
        assert(b.page(o) == a.page(o));
        let q2 = if m + 1 == l && q > i {
            q + 1
        } else {
            q
        };
        assert(s2.levels[m + 1][q2] == o);
        assert(names_child(b.page(s2.levels[m + 1][q2]), c));
    }
}

proof fn lemma_split_upright<K: Key, V: Value>(
    a: BufferPoolManager,
    b: BufferPoolManager,
    root: PageId,
    sh: Shape,
    l: int,
    i: int,
    rid: PageId,
    sep: Seq<u8>,
)
    requires
        tree_wf::<K, V>(a, root, sh),
        node_split::<K, V>(a, b, sh, l, i, rid, sep),
        sh.firm,
    ensures
        upright(b, grown(sh, l, i, rid, sep)),
{
    reveal(upright);
    let s2 = grown(sh, l, i, rid, sep);
    let id = sh.levels[l][i];
    assert(node_wf::<K, V>(a, sh, l, i));
    assert forall|m: int, j: int|
        0 <= m < s2.levels.len() && 0 < j < s2.levels[m].len() implies #[trigger] propped(
        b,
        s2,
        m,
        j,
    ) by {
        if m == l && j == i + 1 {
            assert(s2.levels[l][j - 1] == id);
        } else {
            let j0 = if m == l && j > i + 1 {
                j - 1
            } else {
                j
            };
            let c = sh.levels[m][j0];
            let before = sh.levels[m][j0 - 1];
            assert(s2.levels[m][j] == c);
            assert(propped(a, sh, m, j0));
            if has_parent(a, sh, m, c) {
                lemma_split_parent::<K, V>(a, b, root, sh, l, i, rid, sep, m, c);
            } else if m == l && j0 == i + 1 {
                assert(before == id);
                assert(s2.levels[m][j - 1] == rid);
            } else {
                assert(s2.levels[m][j - 1] == before);
                assert(before != rid && before != id);
                if l == 0 && node_right(a.page(id), 0) == Some(before) {
                    assert(pointed_back(a.page(before), b.page(before), rid));
                    assert(leaf_view(b.page(before)).flags == leaf_view(a.page(before)).flags);
                } else {
                    assert(b.page(before) == a.page(before));
                }
            }
        }
    }
}

proof fn lemma_grown_shape(sh: Shape, l: int, i: int, rid: PageId, sep: Seq<u8>)
    requires
        shape_wf(sh),
        0 <= l < sh.levels.len(),
        0 <= i < sh.levels[l].len(),
        fresh(sh, rid),
    ensures
        shape_wf(grown(sh, l, i, rid, sep)),
{
    let s2 = grown(sh, l, i, rid, sep);
    assert forall|m: int| 0 <= m < s2.levels.len() implies (#[trigger] s2.levels[m]).len() > 0 by {
        assert(sh.levels[m].len() > 0);
    }
    assert forall|m: int, j: int, n: int, k: int|
        #![trigger s2.levels[m][j], s2.levels[n][k]]
        0 <= m < s2.levels.len() && 0 <= j < s2.levels[m].len() && 0 <= n < s2.levels.len() && 0
            <= k < s2.levels[n].len() && s2.levels[m][j] == s2.levels[n][k] implies m == n && j
        == k by {
        let j0 = if m == l && j > i {
            j - 1
        } else {
            j
        };
        let k0 = if n == l && k > i {
            k - 1
        } else {
            k
        };
        if m == l && j == i + 1 {
            if !(n == l && k == i + 1) {
                assert(sh.levels[n][k0] != rid);
            }
        } else if n == l && k == i + 1 {
            assert(sh.levels[m][j0] != rid);
        } else {
            assert(s2.levels[m][j] == sh.levels[m][j0]);
            assert(s2.levels[n][k] == sh.levels[n][k0]);
        }
    }
}

proof fn lemma_split_parts<K: Key, V: Value>(
    a: BufferPoolManager,
    b: BufferPoolManager,
    sh: Shape,
    l: int,
    i: int,
    rid: PageId,
    sep: Seq<u8>,
)
    requires
        shape_wf(sh),
        node_split::<K, V>(a, b, sh, l, i, rid, sep),
    ensures
        leaf_parts(b, grown(sh, l, i, rid, sep)) == (if l == 0 {
            leaf_parts(a, sh).update(
                i,
                Part {
                    low: leaf_parts(a, sh)[i].low,
                    high: Some(sep),
                    rows: leaf_view(b.page(sh.levels[0][i])).rows,
                },
            ).insert(
                i + 1,
                Part {
                    low: Some(sep),
                    high: leaf_parts(a, sh)[i].high,
                    rows: leaf_view(b.page(rid)).rows,
                },
            )
        } else {
            leaf_parts(a, sh)
        }),
{
    let s2 = grown(sh, l, i, rid, sep);
    let id = sh.levels[l][i];
    let pa = leaf_parts(a, sh);
    let pb = leaf_parts(b, s2);
    if l == 0 {
        let want = pa.update(
            i,
            Part { low: pa[i].low, high: Some(sep), rows: leaf_view(b.page(id)).rows },
        ).insert(
            i + 1,
            Part { low: Some(sep), high: pa[i].high, rows: leaf_view(b.page(rid)).rows },
        );
        assert forall|j: int| 0 <= j < pb.len() implies pb[j] == want[j] by {
            if j == i {
                assert(s2.levels[0][j] == id);
                assert(id != rid);
            } else if j == i + 1 {
                assert(s2.levels[0][j] == rid);
            } else {
                let j0 = if j > i {
                    j - 1
                } else {
                    j
                };
                let o = sh.levels[0][j0];
                assert(s2.levels[0][j] == o);
                assert(o != id && o != rid);
                if node_right(a.page(id), 0) == Some(o) {
                    assert(pointed_back(a.page(o), b.page(o), rid));
                } else {
                    assert(b.page(o) == a.page(o));
                }
            }
        }
        assert(pb =~= want);
    } else {
        assert forall|j: int| 0 <= j < pb.len() implies pb[j] == pa[j] by {
            let o = sh.levels[0][j];
            assert(s2.levels[0][j] == o);
            assert(o != id && o != rid);
            assert(b.page(o) == a.page(o));
        }
        assert(pb =~= pa);
    }
}

/// The shape after a new root was put over the old one.
pub open spec fn raised(sh: Shape, top: PageId) -> Shape {
    Shape { levels: sh.levels.push(seq![top]), low: sh.low.insert(top, None), firm: sh.firm }
}

/// A new root over the old root and its right neighbour.
pub open spec fn root_split<K: Key>(
    a: BufferPoolManager,
    b: BufferPoolManager,
    sh: Shape,
    top: PageId,
    sep: Seq<u8>,
    rid: PageId,
) -> bool {
    let y = b.page(top);
    &&& a.next_page_id <= b.next_page_id
    &&& 0 < top < b.next_page_id
    &&& fresh(sh, top)
    &&& forall|o: u64| o != top ==> #[trigger] b.page(o) == a.page(o)
    &&& y.len() == PAGE_SIZE
    &&& int_wf(y)
    &&& int_view(y).high is None
    &&& int_view(y).right is None
    &&& int_view(y).keys == seq![sep]
    &&& int_view(y).children == seq![sh.levels.last()[0], rid]
    &&& linked(sh, sh.levels.len() - 1, rid, Some(sep))
    &&& good_key::<K>(sep)
    &&& 0 < sep.len()
}

/// Putting a root over the tree keeps the tree.
pub proof fn lemma_root_split<K: Key, V: Value>(
    a: BufferPoolManager,
    b: BufferPoolManager,
    root: PageId,
    sh: Shape,
    top: PageId,
    sep: Seq<u8>,
    rid: PageId,
)
    requires
        tree_wf::<K, V>(a, root, sh),
        root_split::<K>(a, b, sh, top, sep, rid),
    ensures
        tree_wf::<K, V>(b, top, raised(sh, top)),
        leaf_parts(b, raised(sh, top)) == leaf_parts(a, sh),
{
    let s2 = raised(sh, top);
    let h = sh.levels.len() as int;
    assert(sh.levels[h - 1].len() > 0);
    assert(node_wf::<K, V>(a, sh, h - 1, 0));
    assert forall|m: int, j: int, n: int, k: int|
        #![trigger s2.levels[m][j], s2.levels[n][k]]
        0 <= m < s2.levels.len() && 0 <= j < s2.levels[m].len() && 0 <= n < s2.levels.len() && 0
            <= k < s2.levels[n].len() && s2.levels[m][j] == s2.levels[n][k] implies m == n && j
        == k by {
        if m < h {
            assert(sh.levels[m][j] != top);
        }
        if n < h {
            assert(sh.levels[n][k] != top);
        }
    }
    assert forall|m: int| 0 <= m < s2.levels.len() implies (#[trigger] s2.levels[m]).len() > 0 by {
        if m < h {
            assert(sh.levels[m].len() > 0);
        }
    }
    assert forall|m: int, child: PageId, key: Option<Seq<u8>>|
        0 <= m < h && #[trigger] linked(sh, m, child, key) implies linked(s2, m, child, key) by {
        let q = choose|q: int| 0 <= q < sh.levels[m].len() && sh.levels[m][q] == child;
        assert(sh.levels[m][q] != top);
        assert(s2.levels[m][q] == child);
    }
    assert forall|m: int, j: int|
        0 <= m < s2.levels.len() && 0 <= j < s2.levels[m].len() implies #[trigger] node_wf::<K, V>(
        b,
        s2,
        m,
        j,
    ) by {
        if m == h {
            assert(s2.levels[h][0] == top);
            let v = int_view(b.page(top));
            let r = sh.levels[h - 1][0];
            assert(sh.levels[h - 1].contains(r));
            assert(linked(sh, h - 1, r, None));
            assert(v.keys[0] == sep);
            assert(v.children[0] == r);
            assert(v.children[1] == rid);
            assert(linked(s2, h - 1, rid, Some(sep)));
            assert(linked(s2, h - 1, r, None));
        } else {
            let o = sh.levels[m][j];
            assert(o != top);
            assert(node_wf::<K, V>(a, sh, m, j));
            assert(b.page(o) == a.page(o));
            if j + 1 < sh.levels[m].len() {
                assert(sh.levels[m][j + 1] != top);
            }
            if m > 0 {
                let v = int_view(b.page(o));
                assert forall|k: int| 0 <= k < v.keys.len() implies {
                    &&& 0 < (#[trigger] v.keys[k]).len() <= MAX_KEY_SIZE
                    &&& at_least::<K>(v.keys[k], sh.low[o])
                    &&& at_most::<K>(v.keys[k], v.high)
                    &&& linked(s2, m - 1, v.children[k + 1], Some(v.keys[k]))
                } by {
                    assert(linked(sh, m - 1, v.children[k + 1], Some(v.keys[k])));
                }
                assert(linked(sh, m - 1, v.children[0], sh.low[o]));
            }
        }
    }
    assert forall|j: int| 0 <= j < sh.levels[0].len() implies leaf_parts(b, s2)[j] == leaf_parts(
        a,
        sh,
    )[j] by {
        let o = sh.levels[0][j];
        assert(o != top);
        assert(b.page(o) == a.page(o));
    }
    assert(leaf_parts(b, s2) =~= leaf_parts(a, sh));
    if sh.firm {
        lemma_raised_upright(a, b, sh, top);
    }
}

proof fn lemma_raised_upright(a: BufferPoolManager, b: BufferPoolManager, sh: Shape, top: PageId)
    requires
        upright(a, sh),
        fresh(sh, top),
        forall|o: u64| o != top ==> #[trigger] b.page(o) == a.page(o),
    ensures
        upright(b, raised(sh, top)),
{
    reveal(upright);
    let s2 = raised(sh, top);
    assert forall|m: int, j: int|
        0 <= m < s2.levels.len() && 0 < j < s2.levels[m].len() implies #[trigger] propped(
        b,
        s2,
        m,
        j,
    ) by {
        assert(s2.levels[m] == sh.levels[m]);
        assert(propped(a, sh, m, j));
        let c = sh.levels[m][j];
        assert(sh.levels[m][j - 1] != top);
        assert(b.page(sh.levels[m][j - 1]) == a.page(sh.levels[m][j - 1]));
        if has_parent(a, sh, m, c) {
            let q = choose|q: int|
                0 <= q < sh.levels[m + 1].len() && #[trigger] names_child(
                    a.page(sh.levels[m + 1][q]),
                    c,
                );
            assert(sh.levels[m + 1][q] != top);
            assert(s2.levels[m + 1] == sh.levels[m + 1]);
            assert(names_child(b.page(s2.levels[m + 1][q]), c));
        }
    }
}

/// A separator and its child may be inserted at the separator's place.
pub proof fn lemma_children_insert<K: Key>(
    sh: Shape,
    level: int,
    low: Option<Seq<u8>>,
    high: Option<Seq<u8>>,
    keys: Seq<Seq<u8>>,
    children: Seq<PageId>,
    at: int,
    key: Seq<u8>,
    child: PageId,
)
    requires
        good_children::<K>(sh, level, low, high, keys, children),
        child_index::<K>(keys, key, at),
        good_key::<K>(key),
        0 < key.len(),
        at_least::<K>(key, low),
        at_most::<K>(key, high),
        linked(sh, level - 1, child, Some(key)),
    ensures
        good_children::<K>(
            sh,
            level,
            low,
            high,
            keys.insert(at, key),
            children.insert(at + 1, child),
        ),
{
    let ks = keys.insert(at, key);
    let cs = children.insert(at + 1, child);
    assert forall|i: int, j: int| 0 <= i < j < ks.len() implies K::le(ks[i], ks[j]) by {
        if i == at {
            K::le_total(keys[j - 1], key);
        } else if j == at {
        } else {
            let i0 = if i < at {
                i
            } else {
                i - 1
            };
            let j0 = if j < at {
                j
            } else {
                j - 1
            };
            assert(K::le(keys[i0], keys[j0]));
        }
    }
    assert forall|j: int| 0 <= j < ks.len() implies {
        &&& 0 < (#[trigger] ks[j]).len() <= MAX_KEY_SIZE
        &&& at_least::<K>(ks[j], low)
        &&& at_most::<K>(ks[j], high)
        &&& linked(sh, level - 1, cs[j + 1], Some(ks[j]))
    } by {
        if j < at {
            assert(ks[j] == keys[j]);
            assert(cs[j + 1] == children[j + 1]);
        } else if j > at {
            assert(ks[j] == keys[j - 1]);
            assert(cs[j + 1] == children[j]);
        }
    }
    assert forall|j: int| 0 <= j < ks.len() implies canonical::<K>(#[trigger] ks[j]) by {
        if j < at {
            assert(ks[j] == keys[j]);
        } else if j > at {
            assert(ks[j] == keys[j - 1]);
        }
    }
    assert(cs[0] == children[0]);
}

/// The children on either side of a separator form two pages.
pub proof fn lemma_children_split<K: Key>(
    sh: Shape,
    level: int,
    low: Option<Seq<u8>>,
    high: Option<Seq<u8>>,
    keys: Seq<Seq<u8>>,
    children: Seq<PageId>,
    mid: int,
)
    requires
        good_children::<K>(sh, level, low, high, keys, children),
        0 <= mid < keys.len(),
    ensures
        good_children::<K>(
            sh,
            level,
            low,
            Some(keys[mid]),
            keys.take(mid),
            children.take(mid + 1),
        ),
        good_children::<K>(
            sh,
            level,
            Some(keys[mid]),
            high,
            keys.skip(mid + 1),
            children.skip(mid + 1),
        ),
{
    let sep = keys[mid];
    let kl = keys.take(mid);
    let cl = children.take(mid + 1);
    let kr = keys.skip(mid + 1);
    let cr = children.skip(mid + 1);
    assert forall|j: int| 0 <= j < kl.len() implies {
        &&& 0 < (#[trigger] kl[j]).len() <= MAX_KEY_SIZE
        &&& at_least::<K>(kl[j], low)
        &&& at_most::<K>(kl[j], Some(sep))
        &&& linked(sh, level - 1, cl[j + 1], Some(kl[j]))
    } by {
        assert(kl[j] == keys[j]);
        assert(cl[j + 1] == children[j + 1]);
        assert(K::le(keys[j], keys[mid]));
    }
    assert forall|j: int| 0 <= j < kr.len() implies {
        &&& 0 < (#[trigger] kr[j]).len() <= MAX_KEY_SIZE
        &&& at_least::<K>(kr[j], Some(sep))
        &&& at_most::<K>(kr[j], high)
        &&& linked(sh, level - 1, cr[j + 1], Some(kr[j]))
    } by {
        assert(kr[j] == keys[mid + 1 + j]);
        assert(cr[j + 1] == children[mid + 1 + j + 1]);
        assert(K::le(keys[mid], keys[mid + 1 + j]));
    }
    assert forall|j: int| 0 <= j < kl.len() implies canonical::<K>(#[trigger] kl[j]) by {
        assert(kl[j] == keys[j]);
    }
    assert forall|j: int| 0 <= j < kr.len() implies canonical::<K>(#[trigger] kr[j]) by {
        assert(kr[j] == keys[mid + 1 + j]);
    }
    assert(cl[0] == children[0]);
    assert(cr[0] == children[mid + 1]);
    assert(linked(sh, level - 1, children[mid + 1], Some(keys[mid])));
}

/// An internal page got a separator and a child.
pub open spec fn child_added<K: Key>(
    a: BufferPoolManager,
    b: BufferPoolManager,
    sh: Shape,
    l: int,
    i: int,
    at: int,
    key: Seq<u8>,
    child: PageId,
) -> bool {
    let id = sh.levels[l][i];
    let x = int_view(a.page(id));
    let y = int_view(b.page(id));
    &&& 0 < l < sh.levels.len()
    &&& 0 <= i < sh.levels[l].len()
    &&& a.next_page_id <= b.next_page_id
    &&& forall|o: u64| o != id ==> #[trigger] b.page(o) == a.page(o)
    &&& int_wf(b.page(id))
    &&& y.flags == x.flags
    &&& y.high == x.high
    &&& y.right == x.right
    &&& y.keys == x.keys.insert(at, key)
    &&& y.children == x.children.insert(at + 1, child)
    &&& child_index::<K>(x.keys, key, at)
    &&& good_key::<K>(key)
    &&& 0 < key.len()
    &&& at_least::<K>(key, sh.low[id])
    &&& at_most::<K>(key, x.high)
    &&& linked(sh, l - 1, child, Some(key))
}

/// Adding a child keeps the tree.
pub proof fn lemma_child_added<K: Key, V: Value>(
    a: BufferPoolManager,
    b: BufferPoolManager,
    root: PageId,
    sh: Shape,
    l: int,
    i: int,
    at: int,
    key: Seq<u8>,
    child: PageId,
)
    requires
        tree_wf::<K, V>(a, root, sh),
        child_added::<K>(a, b, sh, l, i, at, key, child),
    ensures
        tree_wf::<K, V>(b, root, sh),
        leaf_parts(b, sh) == leaf_parts(a, sh),
{
    let id = sh.levels[l][i];
    let x = int_view(a.page(id));
    assert(node_wf::<K, V>(a, sh, l, i));
    lemma_children_insert::<K>(
        sh,
        l,
        sh.low[id],
        x.high,
        x.keys,
        x.children,
        at,
        key,
        child,
    );
    assert forall|m: int, j: int|
        0 <= m < sh.levels.len() && 0 <= j < sh.levels[m].len() implies #[trigger] node_wf::<K, V>(
        b,
        sh,
        m,
        j,
    ) by {
        assert(node_wf::<K, V>(a, sh, m, j));
        if !(m == l && j == i) {
            assert(sh.levels[m][j] != id);
            assert(b.page(sh.levels[m][j]) == a.page(sh.levels[m][j]));
        }
    }
    if sh.firm {
        assert forall|m: int, j: int|
            0 <= m < sh.levels.len() && 0 <= j < sh.levels[m].len() implies #[trigger] mark_kept(
            a,
            b,
            sh,
            m,
            j,
        ) by {
            if m == l && j == i {
                assert forall|c: PageId| #[trigger] names_child(a.page(id), c) implies names_child(
                    b.page(id),
                    c,
                ) by {
                    let y = int_view(b.page(id));
                    let k = choose|k: int| 0 <= k < x.children.len() && x.children[k] == c;
                    let k2 = if k <= at {
                        k
                    } else {
                        k + 1
                    };
                    assert(y.children[k2] == c);
                }
            } else {
                assert(sh.levels[m][j] != id);
                assert(b.page(sh.levels[m][j]) == a.page(sh.levels[m][j]));
            }
        }
        lemma_upright_kept(a, b, sh);
    }
    assert forall|j: int| 0 <= j < sh.levels[0].len() implies leaf_parts(b, sh)[j] == leaf_parts(
        a,
        sh,
    )[j] by {
        assert(sh.levels[0][j] != id);
        assert(b.page(sh.levels[0][j]) == a.page(sh.levels[0][j]));
    }
    assert(leaf_parts(b, sh) =~= leaf_parts(a, sh));
}

/// Keys that are not greater come first, through any three keys.
pub proof fn lemma_le_chain<K: Key>(a: Seq<u8>, b: Seq<u8>, c: Seq<u8>)
    requires
        K::accepts(a),
        K::accepts(b),
        K::accepts(c),
    ensures
        K::le(a, b) && K::le(b, c) ==> K::le(a, c),
        K::le(a, b) && key_before::<K>(b, c) ==> key_before::<K>(a, c),
        key_before::<K>(a, b) && K::le(b, c) ==> key_before::<K>(a, c),
        key_before::<K>(a, b) ==> K::le(a, b),
{
    K::le_total(a, b);
    if K::le(a, b) && K::le(b, c) {
        K::le_transitive(a, b, c);
    }
    if K::le(a, b) && key_before::<K>(b, c) {
        if K::le(c, a) {
            K::le_transitive(c, a, b);
        }
    }
    if key_before::<K>(a, b) && K::le(b, c) {
        if K::le(c, a) {
            K::le_transitive(b, c, a);
        }
    }
}

/// Leaves from left to right: each begins where the one before it ends.
pub open spec fn parts_wf<K: Key>(parts: Seq<Part>) -> bool {
    &&& parts.len() > 0
    &&& parts[0].low is None
    &&& parts.last().high is None
    &&& forall|i: int|
        0 <= i < parts.len() ==> good_bounds::<K>(
            (#[trigger] parts[i]).low,
            parts[i].high,
        )
    &&& forall|i: int|
        #![trigger parts[i]]
        0 <= i < parts.len() - 1 ==> parts[i].high is Some && parts[i + 1].low == parts[i].high
}

/// The leaves of a tree are such a chain.
pub proof fn lemma_parts_wf<K: Key, V: Value>(p: BufferPoolManager, root: PageId, sh: Shape)
    requires
        tree_wf::<K, V>(p, root, sh),
    ensures
        parts_wf::<K>(leaf_parts(p, sh)),
        forall|i: int|
            0 <= i < leaf_parts(p, sh).len() ==> good_rows::<K, V>(
                (#[trigger] leaf_parts(p, sh)[i]).rows,
                leaf_parts(p, sh)[i].low,
                leaf_parts(p, sh)[i].high,
            ),
{
    let parts = leaf_parts(p, sh);
    assert(sh.levels[0].len() > 0);
    assert(node_wf::<K, V>(p, sh, 0, 0));
    assert(node_wf::<K, V>(p, sh, 0, sh.levels[0].len() - 1));
    assert forall|i: int| 0 <= i < parts.len() implies good_bounds::<K>(
        (#[trigger] parts[i]).low,
        parts[i].high,
    ) && good_rows::<K, V>(parts[i].rows, parts[i].low, parts[i].high) by {
        assert(node_wf::<K, V>(p, sh, 0, i));
    }
    assert forall|i: int|
        #![trigger parts[i]]
        0 <= i < parts.len() - 1 implies parts[i].high is Some && parts[i + 1].low
        == parts[i].high by {
        assert(node_wf::<K, V>(p, sh, 0, i));
    }
}

/// Bounds do not decrease from left to right.
pub proof fn lemma_bounds_ordered<K: Key>(parts: Seq<Part>, i: int, j: int)
    requires
        parts_wf::<K>(parts),
        0 <= i < j < parts.len(),
    ensures
        parts[i].high is Some,
        parts[j].low is Some,
        K::le(parts[i].high->0, parts[j].low->0),
        good_key::<K>(parts[i].high->0),
        good_key::<K>(parts[j].low->0),
    decreases j - i,
{
    assert(parts[i].high is Some);
    assert(good_bounds::<K>(parts[i].low, parts[i].high));
    assert(good_bounds::<K>(parts[j].low, parts[j].high));
    assert(parts[j - 1].high is Some && parts[j - 1 + 1].low == parts[j - 1].high);
    if i + 1 == j {
        K::le_total(parts[i].high->0, parts[i].high->0);
    } else {
        lemma_bounds_ordered::<K>(parts, i, j - 1);
        assert(good_bounds::<K>(parts[j - 1].low, parts[j - 1].high));
        lemma_le_chain::<K>(parts[i].high->0, parts[j - 1].low->0, parts[j - 1].high->0);
    }
}

/// A page and its plain form name the same root.
pub proof fn lemma_same_meta(b: Seq<u8>)
    requires
        b.len() == PAGE_SIZE,
    ensures
        crate::page::meta::is_meta(plain(b)) == crate::page::meta::is_meta(b),
        crate::page::meta::root_of(plain(b)) == crate::page::meta::root_of(b),
{
    lemma_plain(b);
    let c = plain(b);
    if b[0] == crate::page::META {
        crate::bytes::lemma_same_u32(b, c, 4);
        crate::bytes::lemma_same_u32(b, c, 24);
        crate::bytes::lemma_same_u64(b, c, 32);
    }
}

} // verus!
