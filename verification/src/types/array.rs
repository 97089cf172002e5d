//! Arrays as keys and values.
//!
//! Where the items' type has a fixed width, the items stand behind each other. Else a table
//! stands before them that says of each item where it ends, counted from the table's start,
//! in four bytes.

use crate::bytes::{push_u32, put, read_u32, u32_at, u32_bytes};
use crate::types::list::{
    all_accepted, all_encodable, item, item_at, items_at, items_bytes, items_le,
    lemma_items_le_encode, lemma_items_le_skip, lemma_items_le_total, lemma_items_le_transitive,
    lemma_items_len, lemma_items_read, lemma_next_item, models, models_le,
};
use crate::types::name::{decimal_text, digits, join, TypeName};
use crate::types::{
    bytes_le, bytes_order, key_order, key_same, lemma_bytes_le_antisymmetric, lemma_bytes_le_total,
    lemma_bytes_le_transitive, order_of_sign, Key, Value,
};
use std::cmp::Ordering;
use vstd::prelude::*;

verus! {

/// The array of the elements of a list.
///
/// This is `TryFrom<Vec<E>> for [E; N]`, which succeeds where the list has as many elements
/// as the array; the array has the same elements in the same order.
#[verifier::external_body]
fn array_of<E, const N: usize>(v: Vec<E>) -> (a: [E; N])
    requires
        v@.len() == N,
    ensures
        a@ == v@,
{
    v.try_into().ok().unwrap()
}

/// The slice as an array.
///
/// This is `TryFrom<&[u8]> for &[u8; N]`, which succeeds where the slice has as many bytes as
/// the array; the array is the slice.
#[verifier::external_body]
fn array_ref<const N: usize>(s: &[u8]) -> (a: &[u8; N])
    requires
        s@.len() == N,
    ensures
        a@ == s@,
{
    s.try_into().unwrap()
}

/// The bytes of the items behind each other.
pub open spec fn flat<T: Value>(ms: Seq<T::Model>) -> Seq<u8>
    decreases ms.len(),
{
    if ms.len() == 0 {
        Seq::empty()
    } else {
        T::encode(ms[0]) + flat::<T>(ms.drop_first())
    }
}

/// The table of where items end that start at `start`.
pub open spec fn ends<T: Value>(ms: Seq<T::Model>, start: int) -> Seq<u8>
    decreases ms.len(),
{
    if ms.len() == 0 {
        Seq::empty()
    } else {
        let end = start + T::encode(ms[0]).len();
        u32_bytes(end as u32) + ends::<T>(ms.drop_first(), end)
    }
}

/// The items from the one at place `i` of the table on, which starts at `start`. `None`
/// where they are not there.
pub open spec fn by_table(s: Seq<u8>, i: int, start: int, count: nat) -> Option<Seq<Seq<u8>>>
    decreases count,
{
    if count == 0 {
        Some(Seq::empty())
    } else if 4 * i + 4 > s.len() {
        None
    } else {
        let end = u32_at(s, 4 * i) as int;
        if start <= end <= s.len() {
            match by_table(s, i + 1, end, (count - 1) as nat) {
                Some(rest) => Some(seq![s.subrange(start, end)] + rest),
                None => None,
            }
        } else {
            None
        }
    }
}

/// The bytes of the `n` items of an array. `None` where they are not those of one.
pub open spec fn array_items<T: Value>(s: Seq<u8>, n: nat) -> Option<Seq<Seq<u8>>> {
    if T::width() is Some {
        items_at::<T>(s, 0, n)
    } else {
        by_table(s, 0, 4 * n as int, n)
    }
}

/// There are as many items as were asked for.
proof fn lemma_table_len(s: Seq<u8>, i: int, start: int, count: nat)
    ensures
        by_table(s, i, start, count) matches Some(items) ==> items.len() == count,
    decreases count,
{
    if count > 0 && 4 * i + 4 <= s.len() {
        lemma_table_len(s, i + 1, u32_at(s, 4 * i) as int, (count - 1) as nat);
    }
}

/// Items of a fixed width behind each other are what a list has behind its count.
proof fn lemma_flat_items<T: Value>(ms: Seq<T::Model>)
    requires
        T::width() is Some,
    ensures
        flat::<T>(ms) == items_bytes::<T>(ms),
    decreases ms.len(),
{
    if ms.len() > 0 {
        lemma_flat_items::<T>(ms.drop_first());
    } else {
        assert(flat::<T>(ms) =~= items_bytes::<T>(ms));
    }
}

/// Items of a fixed width take that many bytes each.
proof fn lemma_flat_len<T: Value>(ms: Seq<T::Model>, w: nat)
    requires
        T::width() == Some(w),
        all_encodable::<T>(ms),
    ensures
        flat::<T>(ms).len() == w * ms.len(),
    decreases ms.len(),
{
    if ms.len() > 0 {
        let rest = ms.drop_first();
        T::decode_of_encode(ms[0]);
        lemma_rest_encodable::<T>(ms);
        lemma_flat_len::<T>(rest, w);
        assert(w + w * rest.len() == w * ms.len()) by (nonlinear_arith)
            requires
                ms.len() == rest.len() + 1,
        ;
    } else {
        assert(w * 0 == 0);
    }
}

proof fn lemma_rest_encodable<T: Value>(ms: Seq<T::Model>)
    requires
        all_encodable::<T>(ms),
        ms.len() > 0,
    ensures
        all_encodable::<T>(ms.drop_first()),
        T::encodable(ms[0]),
{
    let rest = ms.drop_first();
    assert forall|i: int| 0 <= i < rest.len() implies T::encodable(#[trigger] rest[i]) by {
        assert(rest[i] == ms[i + 1]);
    }
}

proof fn lemma_ends_len<T: Value>(ms: Seq<T::Model>, start: int)
    ensures
        ends::<T>(ms, start).len() == 4 * ms.len(),
    decreases ms.len(),
{
    broadcast use crate::bytes::group_int_bytes;

    if ms.len() > 0 {
        lemma_ends_len::<T>(ms.drop_first(), start + T::encode(ms[0]).len());
    }
}

/// Items that were written behind their table are read back.
proof fn lemma_table_read<T: Value>(s: Seq<u8>, i: int, start: int, ms: Seq<T::Model>)
    requires
        0 <= i,
        4 * (i + ms.len()) <= start <= s.len(),
        s.len() <= u32::MAX,
        s.subrange(4 * i, 4 * (i + ms.len())) == ends::<T>(ms, start),
        s.skip(start) == flat::<T>(ms),
    ensures
        by_table(s, i, start, ms.len()) == Some(ms.map_values(|m: T::Model| T::encode(m))),
    decreases ms.len(),
{
    broadcast use crate::bytes::group_int_bytes;

    let out = ms.map_values(|m: T::Model| T::encode(m));
    if ms.len() == 0 {
        assert(out =~= Seq::empty());
    } else {
        let e = T::encode(ms[0]);
        let rest = ms.drop_first();
        let end = start + e.len();
        let table = ends::<T>(ms, start);
        let tail = flat::<T>(rest);
        assert(s.skip(start) == e + tail);
        assert(s.len() == start + e.len() + tail.len()) by {
            assert(s.skip(start).len() == (e + tail).len());
        }
        lemma_ends_len::<T>(ms, start);
        lemma_ends_len::<T>(rest, end);
        assert(put(s, 4 * i, u32_bytes(end as u32)) =~= s) by {
            assert forall|j: int| 4 * i <= j < 4 * i + 4 implies s[j] == u32_bytes(
                end as u32,
            )[j - 4 * i] by {
                assert(s.subrange(4 * i, 4 * (i + ms.len()))[j - 4 * i] == table[j - 4 * i]);
            }
        }
        crate::bytes::lemma_put_u32(s, 4 * i, end as u32);
        assert(u32_at(s, 4 * i) == end);
        assert(s.subrange(start, end) =~= e) by {
            assert forall|j: int| 0 <= j < e.len() implies s[start + j] == e[j] by {
                assert(s.skip(start)[j] == (e + tail)[j]);
            }
        }
        assert(s.skip(end) =~= tail) by {
            assert forall|j: int| 0 <= j < tail.len() implies s[end + j] == tail[j] by {
                assert(s.skip(start)[e.len() + j] == (e + tail)[e.len() + j]);
            }
        }
        let i2 = i + 1;
        assert(s.subrange(4 * i2, 4 * (i2 + rest.len())) =~= ends::<T>(rest, end)) by {
            assert forall|j: int| 0 <= j < 4 * rest.len() implies s[4 * i2 + j] == ends::<T>(
                rest,
                end,
            )[j] by {
                assert(s.subrange(4 * i, 4 * (i + ms.len()))[4 + j] == table[4 + j]);
            }
        }
        lemma_table_read::<T>(s, i2, end, rest);
        assert(out =~= seq![e] + rest.map_values(|m: T::Model| T::encode(m)));
    }
}

/// The bytes of an array.
pub open spec fn array_bytes<T: Value>(ms: Seq<T::Model>) -> Seq<u8> {
    if T::width() is Some {
        flat::<T>(ms)
    } else {
        ends::<T>(ms, 4 * ms.len() as int) + flat::<T>(ms)
    }
}

/// The array can be encoded: all items can, and the table can say where each ends.
pub open spec fn array_encodable<T: Value>(ms: Seq<T::Model>, n: nat) -> bool {
    &&& ms.len() == n
    &&& all_encodable::<T>(ms)
    &&& T::width() is None ==> 4 * n + flat::<T>(ms).len() <= u32::MAX
}

/// The bytes of an array give back its items.
proof fn lemma_array_read<T: Value>(ms: Seq<T::Model>, n: nat)
    requires
        array_encodable::<T>(ms, n),
    ensures
        array_items::<T>(array_bytes::<T>(ms), n) == Some(
            ms.map_values(|m: T::Model| T::encode(m)),
        ),
{
    let s = array_bytes::<T>(ms);
    if T::width() is Some {
        lemma_flat_items::<T>(ms);
        assert(s.skip(0) =~= items_bytes::<T>(ms));
        lemma_items_read::<T>(s, 0, ms);
    } else {
        lemma_ends_len::<T>(ms, 4 * n as int);
        assert(s.subrange(0, 4 * n as int) =~= ends::<T>(ms, 4 * n as int));
        assert(s.skip(4 * n as int) =~= flat::<T>(ms));
        lemma_table_read::<T>(s, 0, 4 * n as int, ms);
    }
}

/// One item more.
proof fn lemma_flat_push<T: Value>(ms: Seq<T::Model>, m: T::Model, start: int)
    ensures
        flat::<T>(ms.push(m)) == flat::<T>(ms) + T::encode(m),
        ends::<T>(ms.push(m), start) == ends::<T>(ms, start) + u32_bytes(
            (start + flat::<T>(ms).len() + T::encode(m).len()) as u32,
        ),
    decreases ms.len(),
{
    let out = ms.push(m);
    if ms.len() == 0 {
        assert(out.drop_first() =~= Seq::empty());
        assert(flat::<T>(out.drop_first()) =~= Seq::empty());
        assert(flat::<T>(out) =~= T::encode(m));
        assert(flat::<T>(ms) =~= Seq::empty());
        assert(ends::<T>(out.drop_first(), start + T::encode(m).len()) =~= Seq::empty());
        assert(ends::<T>(out, start) =~= u32_bytes((start + T::encode(m).len()) as u32));
        assert(ends::<T>(ms, start) =~= Seq::empty());
    } else {
        let rest = ms.drop_first();
        let e = T::encode(ms[0]);
        lemma_flat_push::<T>(rest, m, start + e.len());
        assert(out.drop_first() =~= rest.push(m));
        assert(e + (flat::<T>(rest) + T::encode(m)) =~= flat::<T>(ms) + T::encode(m));
        let x = u32_bytes((start + flat::<T>(ms).len() + T::encode(m).len()) as u32);
        assert(ends::<T>(out, start) =~= ends::<T>(ms, start) + x);
    }
}

/// Where the bytes of the item at place `i` are, which starts at `p`.
fn array_item<T: Value>(data: &[u8], i: usize, p: usize, count: Ghost<nat>) -> (r: (usize, usize))
    requires
        T::width_fits(),
        count@ > 0,
        T::width() is Some ==> items_at::<T>(data@, p as int, count@) is Some,
        T::width() is None ==> by_table(data@, i as int, p as int, count@) is Some,
    ensures
        T::width() is Some ==> item_at::<T>(data@, p as int) == Some((r.0 as int, r.1 as int)),
        T::width() is None ==> r.0 == p && r.1 == u32_at(data@, 4 * i),
        p <= r.0 <= r.1 <= data@.len(),
{
    let size: usize = data.len();
    match T::fixed_width() {
        Some(_) => item::<T>(data, p),
        None => {
            let end: u32 = read_u32(data, 4 * i);
            (p, end as usize)
        },
    }
}

/// The items from place `i` on, the first of which starts at `p`.
pub open spec fn items_left<T: Value>(s: Seq<u8>, i: int, p: int, count: nat) -> Option<
    Seq<Seq<u8>>,
> {
    if T::width() is Some {
        items_at::<T>(s, p, count)
    } else {
        by_table(s, i, p, count)
    }
}

/// What the place of an item says of the items from it on.
proof fn lemma_next<T: Value>(s: Seq<u8>, p: int, items: Seq<Seq<u8>>, i: int, lo: int, hi: int)
    requires
        0 <= i < items.len(),
        items_left::<T>(s, i, p, (items.len() - i) as nat) == Some(items.skip(i)),
        T::width() is Some ==> item_at::<T>(s, p) == Some((lo, hi)),
        T::width() is None ==> lo == p && hi == u32_at(s, 4 * i),
    ensures
        s.subrange(lo, hi) == items[i],
        items_left::<T>(s, i + 1, hi, (items.len() - i - 1) as nat) == Some(items.skip(i + 1)),
{
    if T::width() is Some {
        lemma_next_item::<T>(s, p, items, i, lo, hi);
    } else {
        let rest = items.skip(i);
        let tail = by_table(s, i + 1, hi, (items.len() - i - 1) as nat)->0;
        assert(rest[0] == items[i]);
        assert(rest == seq![s.subrange(lo, hi)] + tail);
        assert(rest[0] == s.subrange(lo, hi));
        assert(tail =~= rest.skip(1));
        assert(rest.skip(1) =~= items.skip(i + 1));
    }
}

proof fn lemma_items_left_len<T: Value>(s: Seq<u8>, i: int, p: int, count: nat)
    ensures
        items_left::<T>(s, i, p, count) matches Some(items) ==> items.len() == count,
{
    lemma_items_len::<T>(s, p, count);
    lemma_table_len(s, i, p, count);
}

/// The product of a width and a number of items.
fn total_width(w: usize, n: usize) -> (t: usize)
    requires
        (w as nat) * (n as nat) <= usize::MAX,
    ensures
        t == (w as nat) * (n as nat),
{
    assert((w as nat) * (n as nat) == w * n) by (nonlinear_arith);
    w * n
}

impl<const N: usize, T: Value> Value for [T; N] {
    type SelfType<'a> = [T::SelfType<'a>; N];

    type Model = Seq<T::Model>;

    open spec fn model<'a>(v: [T::SelfType<'a>; N]) -> Seq<T::Model> {
        models::<T>(v@)
    }

    open spec fn encode(m: Seq<T::Model>) -> Seq<u8> {
        array_bytes::<T>(m)
    }

    open spec fn encodable(m: Seq<T::Model>) -> bool {
        array_encodable::<T>(m, N as nat)
    }

    open spec fn accepts(b: Seq<u8>) -> bool {
        array_items::<T>(b, N as nat) matches Some(items) && all_accepted::<T>(items)
    }

    open spec fn decode(b: Seq<u8>) -> Seq<T::Model> {
        (array_items::<T>(b, N as nat)->0).map_values(|x: Seq<u8>| T::decode(x))
    }

    open spec fn width() -> Option<nat> {
        match T::width() {
            Some(w) => Some(w * (N as nat)),
            None => None,
        }
    }

    open spec fn width_fits() -> bool {
        &&& T::width_fits()
        &&& T::width() matches Some(w) ==> w * (N as nat) <= usize::MAX
        &&& 4 * N <= usize::MAX
    }

    open spec fn origin() -> crate::types::name::TypeClassification {
        crate::types::name::TypeClassification::Internal
    }

    open spec fn label() -> Seq<char> {
        "["@ + T::label() + ";"@ + digits(N as nat) + "]"@
    }

    proof fn decode_of_encode(m: Seq<T::Model>) {
        lemma_array_read::<T>(m, N as nat);
        let items = m.map_values(|x: T::Model| T::encode(x));
        assert forall|i: int| 0 <= i < items.len() implies T::accepts(#[trigger] items[i])
            && T::decode(items[i]) == m[i] by {
            T::decode_of_encode(m[i]);
        }
        assert(items.map_values(|x: Seq<u8>| T::decode(x)) =~= m);
        if T::width() is Some {
            lemma_flat_len::<T>(m, T::width()->0);
        }
    }

    fn fixed_width() -> (w: Option<usize>) {
        match T::fixed_width() {
            Some(w) => Some(total_width(w, N)),
            None => None,
        }
    }

    fn from_bytes<'a>(data: &'a [u8]) -> (v: [T::SelfType<'a>; N]) {
        let ghost items = array_items::<T>(data@, N as nat)->0;
        let mut result: Vec<T::SelfType<'a>> = Vec::new();
        let mut p: usize = if T::fixed_width().is_some() {
            0
        } else {
            4 * N
        };
        let mut i: usize = 0;
        proof {
            lemma_items_left_len::<T>(data@, 0, p as int, N as nat);
            assert(items.skip(0) =~= items);
        }
        while i < N
            invariant
                i <= N == items.len(),
                T::width_fits(),
                4 * N <= usize::MAX,
                all_accepted::<T>(items),
                items_left::<T>(data@, i as int, p as int, (items.len() - i) as nat) == Some(
                    items.skip(i as int),
                ),
                result@.len() == i,
                forall|j: int|
                    0 <= j < i ==> T::model(#[trigger] result@[j]) == T::decode(items[j]),
            decreases N - i,
        {
            let (lo, hi) = array_item::<T>(data, i, p, Ghost((items.len() - i) as nat));
            let part: &'a [u8] = vstd::slice::slice_subrange(data, lo, hi);
            proof {
                lemma_next::<T>(data@, p as int, items, i as int, lo as int, hi as int);
            }
            result.push(T::from_bytes(part));
            p = hi;
            i = i + 1;
        }
        proof {
            assert(models::<T>(result@) =~= items.map_values(|x: Seq<u8>| T::decode(x)));
        }
        array_of(result)
    }

    fn as_bytes<'a, 'b: 'a>(value: &'a [T::SelfType<'b>; N]) -> (b: Vec<u8>) {
        let ghost ms = models::<T>(value@);
        let mut table: Vec<u8> = Vec::new();
        let mut data: Vec<u8> = Vec::new();
        let mut i: usize = 0;
        let has_table: bool = T::fixed_width().is_none();
        proof {
            assert(ms.take(0) =~= Seq::empty());
            assert(flat::<T>(ms.take(0)) =~= Seq::empty());
            assert(ends::<T>(ms.take(0), 4 * N as int) =~= Seq::empty());
        }
        while i < N
            invariant
                i <= N,
                ms == models::<T>(value@),
                value@.len() == N,
                T::width_fits(),
                4 * N <= usize::MAX,
                array_encodable::<T>(ms, N as nat),
                has_table == T::width() is None,
                data@ == flat::<T>(ms.take(i as int)),
                has_table ==> table@ == ends::<T>(ms.take(i as int), 4 * N as int),
            decreases N - i,
        {
            let ghost before = data@;
            assert(T::encodable(ms[i as int]));
            let bytes: Vec<u8> = T::as_bytes(&value[i]);
            data.extend_from_slice(bytes.as_slice());
            proof {
                assert(data@ =~= before + bytes@);
                lemma_flat_push::<T>(ms.take(i as int), ms[i as int], 4 * N as int);
                assert(ms.take(i + 1) =~= ms.take(i as int).push(ms[i as int]));
                lemma_flat_prefix::<T>(ms, i + 1);
            }
            if has_table {
                let end: u32 = (4 * N + data.len()) as u32;
                push_u32(&mut table, end);
            }
            i = i + 1;
        }
        assert(ms.take(ms.len() as int) =~= ms);
        if has_table {
            let ghost head = table@;
            table.extend_from_slice(data.as_slice());
            assert(table@ =~= head + data@);
            table
        } else {
            data
        }
    }

    fn name_of_type() -> (t: TypeName) {
        let inner = T::name_of_type();
        let left: String = join("[", inner.name(), ";");
        let right: String = decimal_text(N);
        TypeName::internal(join(left.as_str(), right.as_str(), "]").as_str())
    }
}

/// The first items take no more bytes than all.
proof fn lemma_flat_prefix<T: Value>(ms: Seq<T::Model>, k: int)
    requires
        0 <= k <= ms.len(),
    ensures
        flat::<T>(ms.take(k)).len() <= flat::<T>(ms).len(),
    decreases ms.len() - k,
{
    if k < ms.len() {
        lemma_flat_push::<T>(ms.take(k), ms[k], 0);
        assert(ms.take(k + 1) =~= ms.take(k).push(ms[k]));
        lemma_flat_prefix::<T>(ms, k + 1);
    } else {
        assert(ms.take(k) =~= ms);
    }
}

/// How two arrays compare: below 0 for before, 0 for same, above 0 for after.
fn array_order<T: Key>(data1: &[u8], data2: &[u8], n: usize) -> (c: i8)
    requires
        T::width_fits(),
        4 * n <= usize::MAX,
        array_items::<T>(data1@, n as nat) matches Some(items) && all_accepted::<T>(items),
        array_items::<T>(data2@, n as nat) matches Some(items) && all_accepted::<T>(items),
    ensures
        ({
            let x = array_items::<T>(data1@, n as nat)->0;
            let y = array_items::<T>(data2@, n as nat)->0;
            &&& c < 0 <==> !items_le::<T>(y, x)
            &&& c == 0 <==> items_le::<T>(x, y) && items_le::<T>(y, x)
            &&& c > 0 <==> !items_le::<T>(x, y)
        }),
{
    let ghost x = array_items::<T>(data1@, n as nat)->0;
    let ghost y = array_items::<T>(data2@, n as nat)->0;
    let start: usize = if T::fixed_width().is_some() {
        0
    } else {
        4 * n
    };
    let mut p1: usize = start;
    let mut p2: usize = start;
    let mut i: usize = 0;
    proof {
        lemma_items_left_len::<T>(data1@, 0, start as int, n as nat);
        lemma_items_left_len::<T>(data2@, 0, start as int, n as nat);
        assert(x.skip(0) =~= x);
        assert(y.skip(0) =~= y);
    }
    while i < n
        invariant
            T::width_fits(),
            4 * n <= usize::MAX,
            all_accepted::<T>(x),
            all_accepted::<T>(y),
            x.len() == n,
            y.len() == n,
            i <= n,
            items_left::<T>(data1@, i as int, p1 as int, (x.len() - i) as nat) == Some(
                x.skip(i as int),
            ),
            items_left::<T>(data2@, i as int, p2 as int, (y.len() - i) as nat) == Some(
                y.skip(i as int),
            ),
            forall|j: int| 0 <= j < i ==> key_same::<T>(#[trigger] x[j], y[j]),
            x == array_items::<T>(data1@, n as nat)->0,
            y == array_items::<T>(data2@, n as nat)->0,
        decreases n - i,
    {
        let (lo1, hi1) = array_item::<T>(data1, i, p1, Ghost((x.len() - i) as nat));
        let (lo2, hi2) = array_item::<T>(data2, i, p2, Ghost((y.len() - i) as nat));
        let a: &[u8] = vstd::slice::slice_subrange(data1, lo1, hi1);
        let b: &[u8] = vstd::slice::slice_subrange(data2, lo2, hi2);
        proof {
            lemma_next::<T>(data1@, p1 as int, x, i as int, lo1 as int, hi1 as int);
            lemma_next::<T>(data2@, p2 as int, y, i as int, lo2 as int, hi2 as int);
            assert(a@ == x[i as int] && b@ == y[i as int]);
        }
        let first: i8 = key_order::<T>(a, b);
        if first != 0 {
            proof {
                lemma_items_le_skip::<T>(x, y, i as int);
                assert(x.skip(i as int)[0] == x[i as int]);
                assert(y.skip(i as int)[0] == y[i as int]);
                T::le_total(a@, b@);
            }
            return first;
        }
        p1 = hi1;
        p2 = hi2;
        i = i + 1;
    }
    proof {
        lemma_items_le_skip::<T>(x, y, i as int);
    }
    0
}

impl<const N: usize, T: Key> Key for [T; N] {
    open spec fn le(a: Seq<u8>, b: Seq<u8>) -> bool {
        items_le::<T>(array_items::<T>(a, N as nat)->0, array_items::<T>(b, N as nat)->0)
    }

    open spec fn model_le(m: Seq<T::Model>, n: Seq<T::Model>) -> bool {
        models_le::<T>(m, n)
    }

    proof fn le_total(a: Seq<u8>, b: Seq<u8>) {
        lemma_items_le_total::<T>(
            array_items::<T>(a, N as nat)->0,
            array_items::<T>(b, N as nat)->0,
        );
    }

    proof fn le_transitive(a: Seq<u8>, b: Seq<u8>, c: Seq<u8>) {
        lemma_items_le_transitive::<T>(
            array_items::<T>(a, N as nat)->0,
            array_items::<T>(b, N as nat)->0,
            array_items::<T>(c, N as nat)->0,
        );
    }

    proof fn le_of_encode(m: Seq<T::Model>, n: Seq<T::Model>) {
        lemma_array_read::<T>(m, N as nat);
        lemma_array_read::<T>(n, N as nat);
        lemma_items_le_encode::<T>(m, n);
    }

    fn compare(data1: &[u8], data2: &[u8]) -> (o: Ordering) {
        order_of_sign(array_order::<T>(data1, data2, N))
    }
}

impl<const N: usize> Value for &[u8; N] {
    type SelfType<'a> = &'a [u8; N];

    type Model = Seq<u8>;

    open spec fn model<'a>(v: &'a [u8; N]) -> Seq<u8> {
        v@
    }

    open spec fn encode(m: Seq<u8>) -> Seq<u8> {
        m
    }

    open spec fn encodable(m: Seq<u8>) -> bool {
        m.len() == N
    }

    open spec fn accepts(b: Seq<u8>) -> bool {
        b.len() == N
    }

    open spec fn decode(b: Seq<u8>) -> Seq<u8> {
        b
    }

    open spec fn width() -> Option<nat> {
        Some(N as nat)
    }

    open spec fn width_fits() -> bool {
        true
    }

    open spec fn origin() -> crate::types::name::TypeClassification {
        crate::types::name::TypeClassification::Internal
    }

    open spec fn label() -> Seq<char> {
        "["@ + "u8"@ + ";"@ + digits(N as nat) + "]"@
    }

    proof fn decode_of_encode(m: Seq<u8>) {
    }

    fn fixed_width() -> (w: Option<usize>) {
        Some(N)
    }

    fn from_bytes<'a>(data: &'a [u8]) -> (v: &'a [u8; N]) {
        array_ref(data)
    }

    fn as_bytes<'a, 'b: 'a>(value: &'a Self::SelfType<'b>) -> (b: Vec<u8>) {
        vstd::slice::slice_to_vec(value.as_slice())
    }

    fn name_of_type() -> (t: TypeName) {
        let left: String = join("[", "u8", ";");
        let right: String = decimal_text(N);
        TypeName::internal(join(left.as_str(), right.as_str(), "]").as_str())
    }
}

impl<const N: usize> Key for &[u8; N] {
    open spec fn le(a: Seq<u8>, b: Seq<u8>) -> bool {
        bytes_le(a, b)
    }

    open spec fn model_le(m: Seq<u8>, n: Seq<u8>) -> bool {
        bytes_le(m, n)
    }

    proof fn le_total(a: Seq<u8>, b: Seq<u8>) {
        lemma_bytes_le_total(a, b);
    }

    proof fn le_transitive(a: Seq<u8>, b: Seq<u8>, c: Seq<u8>) {
        lemma_bytes_le_transitive(a, b, c);
    }

    proof fn le_of_encode(m: Seq<u8>, n: Seq<u8>) {
    }

    fn compare(data1: &[u8], data2: &[u8]) -> (o: Ordering) {
        proof {
            lemma_bytes_le_total(data1@, data2@);
            if bytes_le(data1@, data2@) && bytes_le(data2@, data1@) {
                lemma_bytes_le_antisymmetric(data1@, data2@);
            }
        }
        order_of_sign(bytes_order(data1, data2))
    }
}

} // verus!
