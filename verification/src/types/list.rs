//! Lists as keys and values: the number of items, and the items. Where the items' type has
//! no fixed width, the length of each item stands before it.
//!
//! Lists are ordered by the first items that differ; a list that another one starts with
//! comes first.

use crate::types::name::{join, TypeName};
use crate::types::varint::{
    decode_usize_varint, encode_usize_varint, law_varint_is_read, lemma_varint_ends, varint,
    varint_at,
};
use crate::types::{key_order, key_same, order_of_sign, Key, Value};
use std::cmp::Ordering;
use vstd::prelude::*;

verus! {

/// The bytes of one item.
pub open spec fn item_bytes<T: Value>(m: T::Model) -> Seq<u8> {
    if T::width() is Some {
        T::encode(m)
    } else {
        varint(T::encode(m).len()) + T::encode(m)
    }
}

/// The bytes of items behind each other.
pub open spec fn items_bytes<T: Value>(ms: Seq<T::Model>) -> Seq<u8>
    decreases ms.len(),
{
    if ms.len() == 0 {
        Seq::empty()
    } else {
        item_bytes::<T>(ms[0]) + items_bytes::<T>(ms.drop_first())
    }
}

/// Where the bytes of the item that starts at `p` are. `None` where there is none.
pub open spec fn item_at<T: Value>(s: Seq<u8>, p: int) -> Option<(int, int)> {
    match T::width() {
        Some(w) => if 0 <= p && p + w <= s.len() {
            Some((p, p + w))
        } else {
            None
        },
        None => match varint_at(s, p) {
            Some((n, q)) => if q + n <= s.len() {
                Some((q, q + n))
            } else {
                None
            },
            None => None,
        },
    }
}

/// The bytes of `count` items from `p` on. `None` where there are not so many.
pub open spec fn items_at<T: Value>(s: Seq<u8>, p: int, count: nat) -> Option<Seq<Seq<u8>>>
    decreases count,
{
    if count == 0 {
        Some(Seq::empty())
    } else {
        match item_at::<T>(s, p) {
            Some((lo, hi)) => match items_at::<T>(s, hi, (count - 1) as nat) {
                Some(rest) => Some(seq![s.subrange(lo, hi)] + rest),
                None => None,
            },
            None => None,
        }
    }
}

/// The bytes of the items of a list. `None` where the bytes are not those of a list.
pub open spec fn items_of<T: Value>(s: Seq<u8>) -> Option<Seq<Seq<u8>>> {
    match varint_at(s, 0) {
        Some((n, p)) => if n <= usize::MAX {
            items_at::<T>(s, p, n)
        } else {
            None
        },
        None => None,
    }
}

/// All items can be decoded.
pub open spec fn all_accepted<T: Value>(items: Seq<Seq<u8>>) -> bool {
    forall|i: int| 0 <= i < items.len() ==> T::accepts(#[trigger] items[i])
}

/// All items can be encoded.
pub open spec fn all_encodable<T: Value>(ms: Seq<T::Model>) -> bool {
    forall|i: int| 0 <= i < ms.len() ==> T::encodable(#[trigger] ms[i])
}

/// An item ends behind its start, within the bytes.
pub proof fn lemma_item_ends<T: Value>(s: Seq<u8>, p: int)
    ensures
        item_at::<T>(s, p) matches Some((lo, hi)) ==> p <= lo <= hi <= s.len() && 0 <= lo,
{
    lemma_varint_ends(s, p);
}

/// There are as many items as were asked for.
pub proof fn lemma_items_len<T: Value>(s: Seq<u8>, p: int, count: nat)
    ensures
        items_at::<T>(s, p, count) matches Some(items) ==> items.len() == count,
    decreases count,
{
    if count > 0 {
        if let Some((lo, hi)) = item_at::<T>(s, p) {
            lemma_items_len::<T>(s, hi, (count - 1) as nat);
        }
    }
}

/// Items that were written are read back.
pub proof fn lemma_items_read<T: Value>(s: Seq<u8>, p: int, ms: Seq<T::Model>)
    requires
        0 <= p,
        all_encodable::<T>(ms),
        p + items_bytes::<T>(ms).len() == s.len(),
        s.skip(p) == items_bytes::<T>(ms),
    ensures
        items_at::<T>(s, p, ms.len()) == Some(ms.map_values(|m: T::Model| T::encode(m))),
    decreases ms.len(),
{
    let out = ms.map_values(|m: T::Model| T::encode(m));
    if ms.len() == 0 {
        assert(out =~= Seq::empty());
    } else {
        let m = ms[0];
        let rest = ms.drop_first();
        let e = T::encode(m);
        let b = item_bytes::<T>(m);
        let tail = items_bytes::<T>(rest);
        T::decode_of_encode(m);
        assert(s.skip(p) == b + tail);
        assert forall|i: int| 0 <= i < b.len() implies s[p + i] == b[i] by {
            assert(s.skip(p)[i] == (b + tail)[i]);
        }
        let hi = p + b.len();
        assert(s.skip(hi) =~= tail) by {
            assert forall|i: int| 0 <= i < tail.len() implies s[hi + i] == tail[i] by {
                assert(s.skip(p)[b.len() + i] == (b + tail)[b.len() + i]);
            }
        }
        if T::width() is None {
            let n = varint(e.len());
            assert(s.subrange(p, p + n.len()) =~= n);
            law_varint_is_read(s, p, e.len());
        }
        assert(item_at::<T>(s, p) == Some((hi - e.len(), hi)));
        assert(s.subrange(hi - e.len(), hi) =~= e) by {
            assert forall|i: int| 0 <= i < e.len() implies s[hi - e.len() + i] == e[i] by {
                assert(s[p + (b.len() - e.len() + i)] == b[b.len() - e.len() + i]);
            }
        }
        assert(all_encodable::<T>(rest)) by {
            assert forall|i: int| 0 <= i < rest.len() implies T::encodable(#[trigger] rest[i]) by {
                assert(rest[i] == ms[i + 1]);
            }
        }
        lemma_items_read::<T>(s, hi, rest);
        assert(out =~= seq![e] + rest.map_values(|m: T::Model| T::encode(m)));
    }
}

/// The bytes of a list give back its items.
proof fn lemma_list_read<T: Value>(ms: Seq<T::Model>)
    requires
        ms.len() <= usize::MAX,
        all_encodable::<T>(ms),
    ensures
        ({
            let s = varint(ms.len()) + items_bytes::<T>(ms);
            items_of::<T>(s) == Some(ms.map_values(|m: T::Model| T::encode(m)))
        }),
{
    let n = varint(ms.len());
    let s = n + items_bytes::<T>(ms);
    assert(s.subrange(0, n.len() as int) =~= n);
    law_varint_is_read(s, 0, ms.len());
    assert(s.skip(n.len() as int) =~= items_bytes::<T>(ms));
    lemma_items_read::<T>(s, n.len() as int, ms);
}

/// What the elements of a list stand for.
pub open spec fn models<'a, T: Value>(v: Seq<T::SelfType<'a>>) -> Seq<T::Model> {
    Seq::new(v.len(), |i: int| T::model(v[i]))
}

/// One item more.
pub proof fn lemma_items_push<T: Value>(ms: Seq<T::Model>, m: T::Model)
    ensures
        items_bytes::<T>(ms.push(m)) == items_bytes::<T>(ms) + item_bytes::<T>(m),
    decreases ms.len(),
{
    let out = ms.push(m);
    if ms.len() == 0 {
        assert(out.drop_first() =~= Seq::empty());
        assert(items_bytes::<T>(out.drop_first()) =~= Seq::empty());
        assert(items_bytes::<T>(out) =~= item_bytes::<T>(m));
        assert(items_bytes::<T>(ms) =~= Seq::empty());
    } else {
        let rest = ms.drop_first();
        lemma_items_push::<T>(rest, m);
        assert(out.drop_first() =~= rest.push(m));
        assert(item_bytes::<T>(ms[0]) + (items_bytes::<T>(rest) + item_bytes::<T>(m))
            =~= items_bytes::<T>(ms) + item_bytes::<T>(m));
    }
}

/// Where the bytes of the item that starts at `p` are.
pub(crate) fn item<T: Value>(data: &[u8], p: usize) -> (r: (usize, usize))
    requires
        T::width_fits(),
        item_at::<T>(data@, p as int) is Some,
    ensures
        item_at::<T>(data@, p as int) == Some((r.0 as int, r.1 as int)),
        p <= r.0 <= r.1 <= data@.len(),
{
    let size: usize = data.len();
    proof {
        lemma_item_ends::<T>(data@, p as int);
        assert(size == data@.len());
    }
    match T::fixed_width() {
        Some(w) => (p, p + w),
        None => {
            let (n, q) = decode_usize_varint(data, p);
            (q, q + n)
        },
    }
}

impl<T: Value> Value for Vec<T> {
    type SelfType<'a> = Vec<T::SelfType<'a>>;

    type Model = Seq<T::Model>;

    open spec fn model<'a>(v: Vec<T::SelfType<'a>>) -> Seq<T::Model> {
        models::<T>(v@)
    }

    open spec fn encode(m: Seq<T::Model>) -> Seq<u8> {
        varint(m.len()) + items_bytes::<T>(m)
    }

    open spec fn encodable(m: Seq<T::Model>) -> bool {
        m.len() <= usize::MAX && all_encodable::<T>(m)
    }

    open spec fn accepts(b: Seq<u8>) -> bool {
        items_of::<T>(b) matches Some(items) && all_accepted::<T>(items)
    }

    open spec fn decode(b: Seq<u8>) -> Seq<T::Model> {
        (items_of::<T>(b)->0).map_values(|x: Seq<u8>| T::decode(x))
    }

    open spec fn width() -> Option<nat> {
        None
    }

    open spec fn width_fits() -> bool {
        T::width_fits()
    }

    open spec fn origin() -> crate::types::name::TypeClassification {
        crate::types::name::TypeClassification::Internal
    }

    open spec fn label() -> Seq<char> {
        "Vec<"@ + T::label() + ">"@
    }

    proof fn decode_of_encode(m: Seq<T::Model>) {
        lemma_list_read::<T>(m);
        let items = m.map_values(|x: T::Model| T::encode(x));
        assert forall|i: int| 0 <= i < items.len() implies T::accepts(#[trigger] items[i])
            && T::decode(items[i]) == m[i] by {
            T::decode_of_encode(m[i]);
        }
        assert(items.map_values(|x: Seq<u8>| T::decode(x)) =~= m);
    }

    fn fixed_width() -> (w: Option<usize>) {
        None
    }

    fn from_bytes<'a>(data: &'a [u8]) -> (v: Vec<T::SelfType<'a>>) {
        let (count, start) = decode_usize_varint(data, 0);
        let ghost items = items_of::<T>(data@)->0;
        let mut result: Vec<T::SelfType<'a>> = Vec::new();
        let mut p: usize = start;
        let mut i: usize = 0;
        proof {
            lemma_items_len::<T>(data@, start as int, count as nat);
            assert(items.skip(0) =~= items);
        }
        while i < count
            invariant
                i <= count == items.len(),
                T::width_fits(),
                all_accepted::<T>(items),
                items_at::<T>(data@, p as int, (count - i) as nat) == Some(items.skip(i as int)),
                result@.len() == i,
                forall|j: int|
                    0 <= j < i ==> T::model(#[trigger] result@[j]) == T::decode(items[j]),
            decreases count - i,
        {
            let ghost rest = items.skip(i as int);
            let (lo, hi) = item::<T>(data, p);
            let part: &'a [u8] = vstd::slice::slice_subrange(data, lo, hi);
            proof {
                assert(rest[0] == items[i as int]);
                assert(part@ == rest[0]);
                assert(rest.skip(1) =~= items.skip(i + 1));
                assert(items_at::<T>(data@, hi as int, (count - i - 1) as nat)->0 =~= rest.skip(1));
            }
            result.push(T::from_bytes(part));
            p = hi;
            i = i + 1;
        }
        proof {
            assert(models::<T>(result@) =~= items.map_values(|x: Seq<u8>| T::decode(x)));
        }
        result
    }

    fn as_bytes<'a, 'b: 'a>(value: &'a Vec<T::SelfType<'b>>) -> (b: Vec<u8>) {
        let ghost ms = models::<T>(value@);
        let mut result: Vec<u8> = Vec::new();
        encode_usize_varint(value.len(), &mut result);
        let ghost head = varint(ms.len());
        let mut i: usize = 0;
        proof {
            assert(ms.take(0) =~= Seq::empty());
            assert(items_bytes::<T>(ms.take(0)) =~= Seq::empty());
            assert(result@ =~= head + items_bytes::<T>(ms.take(0)));
        }
        while i < value.len()
            invariant
                i <= value@.len(),
                ms == models::<T>(value@),
                T::width_fits(),
                all_encodable::<T>(ms),
                result@ == head + items_bytes::<T>(ms.take(i as int)),
            decreases value@.len() - i,
        {
            let ghost before = result@;
            assert(T::encodable(ms[i as int]));
            let bytes: Vec<u8> = T::as_bytes(&value[i]);
            if T::fixed_width().is_none() {
                encode_usize_varint(bytes.len(), &mut result);
            }
            let ghost mid = result@;
            result.extend_from_slice(bytes.as_slice());
            proof {
                assert(result@ =~= mid + bytes@);
                assert(result@ =~= before + item_bytes::<T>(ms[i as int]));
                lemma_items_push::<T>(ms.take(i as int), ms[i as int]);
                assert(ms.take(i + 1) =~= ms.take(i as int).push(ms[i as int]));
                assert(head + items_bytes::<T>(ms.take(i as int)) + item_bytes::<T>(ms[i as int])
                    =~= head + items_bytes::<T>(ms.take(i + 1)));
            }
            i = i + 1;
        }
        assert(ms.take(ms.len() as int) =~= ms);
        result
    }

    fn name_of_type() -> (t: TypeName) {
        let inner = T::name_of_type();
        TypeName::internal(join("Vec<", inner.name(), ">").as_str())
    }
}

/// Lists of encoded items by the first that differ; a list that another one starts with
/// comes first.
pub open spec fn items_le<T: Key>(x: Seq<Seq<u8>>, y: Seq<Seq<u8>>) -> bool
    decreases x.len(),
{
    if x.len() == 0 {
        true
    } else if y.len() == 0 {
        false
    } else if key_same::<T>(x[0], y[0]) {
        items_le::<T>(x.drop_first(), y.drop_first())
    } else {
        T::le(x[0], y[0])
    }
}

/// Lists of values in the same order.
pub open spec fn models_le<T: Key>(m: Seq<T::Model>, n: Seq<T::Model>) -> bool
    decreases m.len(),
{
    if m.len() == 0 {
        true
    } else if n.len() == 0 {
        false
    } else if T::model_le(m[0], n[0]) && T::model_le(n[0], m[0]) {
        models_le::<T>(m.drop_first(), n.drop_first())
    } else {
        T::model_le(m[0], n[0])
    }
}

/// The items behind the first one.
pub proof fn lemma_rest_accepted<T: Value>(x: Seq<Seq<u8>>)
    requires
        all_accepted::<T>(x),
        x.len() > 0,
    ensures
        all_accepted::<T>(x.drop_first()),
        T::accepts(x[0]),
{
    let rest = x.drop_first();
    assert forall|i: int| 0 <= i < rest.len() implies T::accepts(#[trigger] rest[i]) by {
        assert(rest[i] == x[i + 1]);
    }
}

pub proof fn lemma_items_le_total<T: Key>(x: Seq<Seq<u8>>, y: Seq<Seq<u8>>)
    requires
        all_accepted::<T>(x),
        all_accepted::<T>(y),
    ensures
        items_le::<T>(x, y) || items_le::<T>(y, x),
    decreases x.len(),
{
    if x.len() > 0 && y.len() > 0 {
        lemma_rest_accepted::<T>(x);
        lemma_rest_accepted::<T>(y);
        T::le_total(x[0], y[0]);
        if key_same::<T>(x[0], y[0]) {
            lemma_items_le_total::<T>(x.drop_first(), y.drop_first());
        }
    }
}

pub proof fn lemma_items_le_transitive<T: Key>(
    x: Seq<Seq<u8>>,
    y: Seq<Seq<u8>>,
    z: Seq<Seq<u8>>,
)
    requires
        all_accepted::<T>(x),
        all_accepted::<T>(y),
        all_accepted::<T>(z),
        items_le::<T>(x, y),
        items_le::<T>(y, z),
    ensures
        items_le::<T>(x, z),
    decreases x.len(),
{
    if x.len() > 0 {
        lemma_rest_accepted::<T>(x);
        lemma_rest_accepted::<T>(y);
        lemma_rest_accepted::<T>(z);
        T::le_transitive(x[0], y[0], z[0]);
        if key_same::<T>(x[0], z[0]) {
            if T::le(z[0], x[0]) {
                T::le_transitive(y[0], z[0], x[0]);
                T::le_transitive(z[0], x[0], y[0]);
            }
            lemma_items_le_transitive::<T>(x.drop_first(), y.drop_first(), z.drop_first());
        }
    }
}

/// Encoded items are ordered as the values are.
pub proof fn lemma_items_le_encode<T: Key>(m: Seq<T::Model>, n: Seq<T::Model>)
    requires
        all_encodable::<T>(m),
        all_encodable::<T>(n),
    ensures
        items_le::<T>(
            m.map_values(|x: T::Model| T::encode(x)),
            n.map_values(|x: T::Model| T::encode(x)),
        ) == models_le::<T>(m, n),
    decreases m.len(),
{
    let f = |x: T::Model| T::encode(x);
    let a = m.map_values(f);
    let b = n.map_values(f);
    if m.len() > 0 && n.len() > 0 {
        let m2 = m.drop_first();
        let n2 = n.drop_first();
        T::le_of_encode(m[0], n[0]);
        T::le_of_encode(n[0], m[0]);
        assert(a[0] == T::encode(m[0]) && b[0] == T::encode(n[0]));
        assert(all_encodable::<T>(m2)) by {
            assert forall|i: int| 0 <= i < m2.len() implies T::encodable(#[trigger] m2[i]) by {
                assert(m2[i] == m[i + 1]);
            }
        }
        assert(all_encodable::<T>(n2)) by {
            assert forall|i: int| 0 <= i < n2.len() implies T::encodable(#[trigger] n2[i]) by {
                assert(n2[i] == n[i + 1]);
            }
        }
        lemma_items_le_encode::<T>(m2, n2);
        assert(a.drop_first() =~= m2.map_values(f));
        assert(b.drop_first() =~= n2.map_values(f));
    }
}

/// Equal items at the front do not count.
pub proof fn lemma_items_le_skip<T: Key>(x: Seq<Seq<u8>>, y: Seq<Seq<u8>>, i: int)
    requires
        0 <= i <= x.len(),
        i <= y.len(),
        forall|j: int| 0 <= j < i ==> key_same::<T>(#[trigger] x[j], y[j]),
    ensures
        items_le::<T>(x, y) == items_le::<T>(x.skip(i), y.skip(i)),
        items_le::<T>(y, x) == items_le::<T>(y.skip(i), x.skip(i)),
    decreases i,
{
    if i > 0 {
        let x2 = x.drop_first();
        let y2 = y.drop_first();
        assert(key_same::<T>(x[0], y[0]));
        assert forall|j: int| 0 <= j < i - 1 implies key_same::<T>(#[trigger] x2[j], y2[j]) by {
            assert(key_same::<T>(x[j + 1], y[j + 1]));
        }
        lemma_items_le_skip::<T>(x2, y2, i - 1);
        assert(x2.skip(i - 1) =~= x.skip(i));
        assert(y2.skip(i - 1) =~= y.skip(i));
    } else {
        assert(x.skip(0) =~= x);
        assert(y.skip(0) =~= y);
    }
}

/// What the place of the next item says of the items from it on.
pub proof fn lemma_next_item<T: Value>(
    s: Seq<u8>,
    p: int,
    items: Seq<Seq<u8>>,
    i: int,
    lo: int,
    hi: int,
)
    requires
        0 <= i < items.len(),
        items_at::<T>(s, p, (items.len() - i) as nat) == Some(items.skip(i)),
        item_at::<T>(s, p) == Some((lo, hi)),
    ensures
        s.subrange(lo, hi) == items[i],
        items_at::<T>(s, hi, (items.len() - i - 1) as nat) == Some(items.skip(i + 1)),
{
    let rest = items.skip(i);
    let tail = items_at::<T>(s, hi, (items.len() - i - 1) as nat)->0;
    assert(rest[0] == items[i]);
    assert(rest == seq![s.subrange(lo, hi)] + tail);
    assert(rest[0] == s.subrange(lo, hi));
    assert(tail =~= rest.skip(1));
    assert(rest.skip(1) =~= items.skip(i + 1));
}

impl<T: Key> Key for Vec<T> {
    open spec fn le(a: Seq<u8>, b: Seq<u8>) -> bool {
        items_le::<T>(items_of::<T>(a)->0, items_of::<T>(b)->0)
    }

    open spec fn model_le(m: Seq<T::Model>, n: Seq<T::Model>) -> bool {
        models_le::<T>(m, n)
    }

    proof fn le_total(a: Seq<u8>, b: Seq<u8>) {
        lemma_items_le_total::<T>(items_of::<T>(a)->0, items_of::<T>(b)->0);
    }

    proof fn le_transitive(a: Seq<u8>, b: Seq<u8>, c: Seq<u8>) {
        lemma_items_le_transitive::<T>(
            items_of::<T>(a)->0,
            items_of::<T>(b)->0,
            items_of::<T>(c)->0,
        );
    }

    proof fn le_of_encode(m: Seq<T::Model>, n: Seq<T::Model>) {
        lemma_list_read::<T>(m);
        lemma_list_read::<T>(n);
        lemma_items_le_encode::<T>(m, n);
    }

    fn compare(data1: &[u8], data2: &[u8]) -> (o: Ordering) {
        order_of_sign(list_order::<T>(data1, data2))
    }
}

/// How two lists compare: below 0 for before, 0 for same, above 0 for after.
fn list_order<T: Key>(data1: &[u8], data2: &[u8]) -> (c: i8)
    requires
        T::width_fits(),
        items_of::<T>(data1@) matches Some(items) && all_accepted::<T>(items),
        items_of::<T>(data2@) matches Some(items) && all_accepted::<T>(items),
    ensures
        ({
            let x = items_of::<T>(data1@)->0;
            let y = items_of::<T>(data2@)->0;
            &&& c < 0 <==> !items_le::<T>(y, x)
            &&& c == 0 <==> items_le::<T>(x, y) && items_le::<T>(y, x)
            &&& c > 0 <==> !items_le::<T>(x, y)
        }),
{
    let ghost x = items_of::<T>(data1@)->0;
    let ghost y = items_of::<T>(data2@)->0;
    let (count1, start1) = decode_usize_varint(data1, 0);
    let (count2, start2) = decode_usize_varint(data2, 0);
    let mut p1: usize = start1;
    let mut p2: usize = start2;
    let mut i: usize = 0;
    proof {
        lemma_items_len::<T>(data1@, start1 as int, count1 as nat);
        lemma_items_len::<T>(data2@, start2 as int, count2 as nat);
        assert(x.skip(0) =~= x);
        assert(y.skip(0) =~= y);
    }
    while i < count1 && i < count2
        invariant
            T::width_fits(),
            all_accepted::<T>(x),
            all_accepted::<T>(y),
            x.len() == count1,
            y.len() == count2,
            i <= count1,
            i <= count2,
            items_at::<T>(data1@, p1 as int, (x.len() - i) as nat) == Some(x.skip(i as int)),
            items_at::<T>(data2@, p2 as int, (y.len() - i) as nat) == Some(y.skip(i as int)),
            forall|j: int| 0 <= j < i ==> key_same::<T>(#[trigger] x[j], y[j]),
            x == items_of::<T>(data1@)->0,
            y == items_of::<T>(data2@)->0,
        decreases count1 - i,
    {
        let (lo1, hi1) = item::<T>(data1, p1);
        let (lo2, hi2) = item::<T>(data2, p2);
        let a: &[u8] = vstd::slice::slice_subrange(data1, lo1, hi1);
        let b: &[u8] = vstd::slice::slice_subrange(data2, lo2, hi2);
        proof {
            lemma_next_item::<T>(data1@, p1 as int, x, i as int, lo1 as int, hi1 as int);
            lemma_next_item::<T>(data2@, p2 as int, y, i as int, lo2 as int, hi2 as int);
            assert(a@ == x[i as int] && b@ == y[i as int]);
        }
        let first: i8 = key_order::<T>(a, b);
        if first != 0 {
            proof {
                lemma_items_le_skip::<T>(x, y, i as int);
                assert(x.skip(i as int)[0] == x[i as int]);
                assert(y.skip(i as int)[0] == y[i as int]);
                T::le_total(a@, b@);
            }
            return first;
        }
        p1 = hi1;
        p2 = hi2;
        i = i + 1;
    }
    proof {
        lemma_items_le_skip::<T>(x, y, i as int);
    }
    if count1 < count2 {
        -1
    } else if count1 == count2 {
        0
    } else {
        1
    }
}

} // verus!
