//! Typed keys and values and their byte encodings.

pub mod name;
pub mod array;
pub mod list;
pub mod num;
pub mod option;
pub mod orders;
pub mod text;
pub mod varint;

use crate::types::name::{TypeClassification, TypeName};
use std::cmp::Ordering;
use vstd::prelude::*;

verus! {

/// A type whose values can be stored as bytes.
pub trait Value: Sized {
    /// The decoded form; it may borrow from the bytes that it was decoded from.
    type SelfType<'a>;

    /// What a decoded form stands for.
    type Model;

    /// The value that a decoded form stands for.
    spec fn model<'a>(v: Self::SelfType<'a>) -> Self::Model;

    /// The bytes of a value.
    spec fn encode(m: Self::Model) -> Seq<u8>;

    /// The value has an encoding that can be read back.
    spec fn encodable(m: Self::Model) -> bool;

    /// The bytes can be decoded.
    spec fn accepts(b: Seq<u8>) -> bool;

    /// The value that the bytes encode.
    spec fn decode(b: Seq<u8>) -> Self::Model;

    /// The number of bytes of every encoding, or `None` where encodings differ in
    /// length.
    spec fn width() -> Option<nat>;

    /// The width, and those of the types that this one is made of, fit in a `usize`.
    spec fn width_fits() -> bool;

    /// Whether the type is the engine's or a user's.
    spec fn origin() -> TypeClassification;

    /// The type's name.
    spec fn label() -> Seq<char>;

    /// Decoding gives back what was encoded, and an encoding has the type's width.
    proof fn decode_of_encode(m: Self::Model)
        requires
            Self::encodable(m),
        ensures
            Self::accepts(Self::encode(m)),
            Self::decode(Self::encode(m)) == m,
            Self::width() matches Some(w) ==> Self::encode(m).len() == w,
    ;

    /// Width of a fixed-width type, or `None` for a variable-width one.
    fn fixed_width() -> (w: Option<usize>)
        requires
            Self::width_fits(),
        ensures
            w is Some <==> Self::width() is Some,
            w matches Some(n) ==> n == Self::width()->0,
    ;

    /// Decodes `data`.
    fn from_bytes<'a>(data: &'a [u8]) -> (v: Self::SelfType<'a>)
        requires
            Self::width_fits(),
            Self::accepts(data@),
        ensures
            Self::model(v) == Self::decode(data@),
    ;

    /// Encodes `value`.
    fn as_bytes<'a, 'b: 'a>(value: &'a Self::SelfType<'b>) -> (b: Vec<u8>)
        requires
            Self::width_fits(),
            Self::encodable(Self::model(*value)),
        ensures
            b@ == Self::encode(Self::model(*value)),
    ;

    /// A name that no other type has.
    fn name_of_type() -> (t: TypeName)
        ensures
            t.classification == Self::origin(),
            t.name@ == Self::label(),
    ;
}

/// A value type whose encodings are ordered.
pub trait Key: Value {
    /// The first bytes stand for a key no greater than the second.
    spec fn le(a: Seq<u8>, b: Seq<u8>) -> bool;

    /// The order of the values themselves.
    spec fn model_le(m: Self::Model, n: Self::Model) -> bool;

    /// Any two keys are ordered one way or the other.
    proof fn le_total(a: Seq<u8>, b: Seq<u8>)
        requires
            Self::accepts(a),
            Self::accepts(b),
        ensures
            Self::le(a, b) || Self::le(b, a),
    ;

    /// The order is transitive.
    proof fn le_transitive(a: Seq<u8>, b: Seq<u8>, c: Seq<u8>)
        requires
            Self::accepts(a),
            Self::accepts(b),
            Self::accepts(c),
            Self::le(a, b),
            Self::le(b, c),
        ensures
            Self::le(a, c),
    ;

    /// Encodings are ordered as the values are.
    proof fn le_of_encode(m: Self::Model, n: Self::Model)
        requires
            Self::encodable(m),
            Self::encodable(n),
        ensures
            Self::le(Self::encode(m), Self::encode(n)) == Self::model_le(m, n),
    ;

    /// Compares two encoded keys.
    fn compare(data1: &[u8], data2: &[u8]) -> (o: Ordering)
        requires
            Self::width_fits(),
            Self::accepts(data1@),
            Self::accepts(data2@),
        ensures
            o is Less <==> !Self::le(data2@, data1@),
            o is Greater <==> !Self::le(data1@, data2@),
            o is Equal <==> Self::le(data1@, data2@) && Self::le(data2@, data1@),
    ;
}

/// The bytes are those of an encodable value.
pub open spec fn canonical<T: Value>(b: Seq<u8>) -> bool {
    &&& T::accepts(b)
    &&& T::encodable(T::decode(b))
    &&& T::encode(T::decode(b)) == b
}

/// An encoding is canonical.
pub proof fn lemma_encoding_is_canonical<T: Value>(m: T::Model)
    requires
        T::encodable(m),
    ensures
        canonical::<T>(T::encode(m)),
{
    T::decode_of_encode(m);
}

/// Strictly before, in key order.
pub open spec fn key_before<K: Key>(a: Seq<u8>, b: Seq<u8>) -> bool {
    !K::le(b, a)
}

/// Equal, in key order.
pub open spec fn key_same<K: Key>(a: Seq<u8>, b: Seq<u8>) -> bool {
    K::le(a, b) && K::le(b, a)
}

/// How two keys compare: below 0 for before, 0 for same, above 0 for after.
pub fn key_order<K: Key>(a: &[u8], b: &[u8]) -> (c: i8)
    requires
        K::width_fits(),
        K::accepts(a@),
        K::accepts(b@),
    ensures
        c < 0 <==> key_before::<K>(a@, b@),
        c == 0 <==> key_same::<K>(a@, b@),
        c > 0 <==> key_before::<K>(b@, a@),
{
    match K::compare(a, b) {
        Ordering::Less => -1,
        Ordering::Equal => 0,
        Ordering::Greater => 1,
    }
}

/// Byte strings in lexicographic order: the first difference decides, and a proper
/// prefix comes first.
pub open spec fn bytes_le(a: Seq<u8>, b: Seq<u8>) -> bool
    decreases a.len(),
{
    if a.len() == 0 {
        true
    } else if b.len() == 0 {
        false
    } else if a[0] != b[0] {
        a[0] < b[0]
    } else {
        bytes_le(a.drop_first(), b.drop_first())
    }
}

pub proof fn lemma_bytes_le_total(a: Seq<u8>, b: Seq<u8>)
    ensures
        bytes_le(a, b) || bytes_le(b, a),
    decreases a.len(),
{
    if a.len() > 0 && b.len() > 0 && a[0] == b[0] {
        lemma_bytes_le_total(a.drop_first(), b.drop_first());
    }
}

pub proof fn lemma_bytes_le_transitive(a: Seq<u8>, b: Seq<u8>, c: Seq<u8>)
    requires
        bytes_le(a, b),
        bytes_le(b, c),
    ensures
        bytes_le(a, c),
    decreases a.len(),
{
    if a.len() > 0 && b.len() > 0 && c.len() > 0 && a[0] == b[0] && b[0] == c[0] {
        lemma_bytes_le_transitive(a.drop_first(), b.drop_first(), c.drop_first());
    }
}

/// Only equal byte strings precede each other.
pub proof fn lemma_bytes_le_antisymmetric(a: Seq<u8>, b: Seq<u8>)
    requires
        bytes_le(a, b),
        bytes_le(b, a),
    ensures
        a == b,
    decreases a.len(),
{
    if a.len() > 0 && b.len() > 0 {
        lemma_bytes_le_antisymmetric(a.drop_first(), b.drop_first());
        assert(a =~= seq![a[0]] + a.drop_first());
        assert(b =~= seq![b[0]] + b.drop_first());
    } else {
        assert(a =~= b);
    }
}

/// Removing a common prefix does not change the order.
proof fn lemma_bytes_le_skip(a: Seq<u8>, b: Seq<u8>, i: int)
    requires
        0 <= i <= a.len(),
        i <= b.len(),
        forall|j: int| 0 <= j < i ==> a[j] == b[j],
    ensures
        bytes_le(a, b) == bytes_le(a.skip(i), b.skip(i)),
    decreases i,
{
    if i > 0 {
        lemma_bytes_le_skip(a.drop_first(), b.drop_first(), i - 1);
        assert(a.drop_first().skip(i - 1) =~= a.skip(i));
        assert(b.drop_first().skip(i - 1) =~= b.skip(i));
    } else {
        assert(a.skip(0) =~= a);
        assert(b.skip(0) =~= b);
    }
}

/// How two byte strings compare: below 0 for before, 0 for same, above 0 for after.
pub fn bytes_order(a: &[u8], b: &[u8]) -> (c: i8)
    ensures
        c < 0 <==> !bytes_le(b@, a@),
        c == 0 <==> a@ == b@,
        c > 0 <==> !bytes_le(a@, b@),
{
    let mut i: usize = 0;
    while i < a.len() && i < b.len()
        invariant
            i <= a@.len(),
            i <= b@.len(),
            forall|j: int| 0 <= j < i ==> a@[j] == b@[j],
        decreases a@.len() - i,
    {
        if a[i] != b[i] {
            proof {
                lemma_bytes_le_skip(a@, b@, i as int);
                lemma_bytes_le_skip(b@, a@, i as int);
            }
            return if a[i] < b[i] {
                -1
            } else {
                1
            };
        }
        i = i + 1;
    }
    proof {
        lemma_bytes_le_skip(a@, b@, i as int);
        lemma_bytes_le_skip(b@, a@, i as int);
        if a@.len() == b@.len() {
            assert(a@ =~= b@);
        }
    }
    if i < b.len() {
        -1
    } else if i < a.len() {
        1
    } else {
        0
    }
}

/// The ordering that a number below, at or above 0 stands for.
pub fn order_of_sign(c: i8) -> (o: Ordering)
    ensures
        o is Less <==> c < 0,
        o is Equal <==> c == 0,
        o is Greater <==> c > 0,
{
    if c < 0 {
        Ordering::Less
    } else if c > 0 {
        Ordering::Greater
    } else {
        Ordering::Equal
    }
}

impl Value for &[u8] {
    type SelfType<'a> = &'a [u8];

    type Model = Seq<u8>;

    open spec fn model<'a>(v: Self::SelfType<'a>) -> Seq<u8> {
        v@
    }

    open spec fn encode(m: Seq<u8>) -> Seq<u8> {
        m
    }

    open spec fn encodable(m: Seq<u8>) -> bool {
        true
    }

    open spec fn accepts(b: Seq<u8>) -> bool {
        true
    }

    open spec fn decode(b: Seq<u8>) -> Seq<u8> {
        b
    }

    open spec fn width() -> Option<nat> {
        None
    }

    open spec fn width_fits() -> bool {
        true
    }

    open spec fn origin() -> TypeClassification {
        TypeClassification::Internal
    }

    open spec fn label() -> Seq<char> {
        "&[u8]"@
    }

    proof fn decode_of_encode(m: Seq<u8>) {
    }

    fn fixed_width() -> (w: Option<usize>) {
        None
    }

    fn from_bytes<'a>(data: &'a [u8]) -> (v: &'a [u8]) {
        data
    }

    fn as_bytes<'a, 'b: 'a>(value: &'a Self::SelfType<'b>) -> (b: Vec<u8>) {
        vstd::slice::slice_to_vec(*value)
    }

    fn name_of_type() -> (t: TypeName) {
        TypeName::internal("&[u8]")
    }
}

impl Key for &[u8] {
    open spec fn le(a: Seq<u8>, b: Seq<u8>) -> bool {
        bytes_le(a, b)
    }

    open spec fn model_le(m: Seq<u8>, n: Seq<u8>) -> bool {
        bytes_le(m, n)
    }

    proof fn le_total(a: Seq<u8>, b: Seq<u8>) {
        lemma_bytes_le_total(a, b);
    }

    proof fn le_transitive(a: Seq<u8>, b: Seq<u8>, c: Seq<u8>) {
        lemma_bytes_le_transitive(a, b, c);
    }

    proof fn le_of_encode(m: Seq<u8>, n: Seq<u8>) {
    }

    fn compare(data1: &[u8], data2: &[u8]) -> (o: Ordering) {
        proof {
            lemma_bytes_le_total(data1@, data2@);
            if bytes_le(data1@, data2@) && bytes_le(data2@, data1@) {
                lemma_bytes_le_antisymmetric(data1@, data2@);
            }
        }
        order_of_sign(bytes_order(data1, data2))
    }
}

} // verus!
