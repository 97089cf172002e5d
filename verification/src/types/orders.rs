//! How the encodings of values are laid out and ordered, said of the values themselves.

use crate::types::list::{all_encodable, items_bytes, models_le};
use crate::types::num::{complement, from_complement, le_bytes, pow256};
use crate::types::text::{char_le, is_char};
use crate::types::varint::varint;
use crate::types::{bytes_le, Key, Value};
use vstd::prelude::*;

verus! {

/// The bytes of the first value come no later than those of the second.
pub open spec fn ordered<K: Key>(m: K::Model, n: K::Model) -> bool {
    K::le(K::encode(m), K::encode(n))
}

/// Values with the same bytes are the same value.
pub proof fn law_encodings_differ<T: Value>(m: T::Model, n: T::Model)
    requires
        T::encodable(m),
        T::encodable(n),
        T::encode(m) == T::encode(n),
    ensures
        m == n,
{
    T::decode_of_encode(m);
    T::decode_of_encode(n);
}

/// The bytes of unsigned numbers are ordered as the numbers are.
pub proof fn law_unsigned_order(
    a: (u8, u8),
    b: (u16, u16),
    c: (u32, u32),
    d: (u64, u64),
    e: (u128, u128),
)
    ensures
        ordered::<u8>(a.0, a.1) <==> a.0 <= a.1,
        ordered::<u16>(b.0, b.1) <==> b.0 <= b.1,
        ordered::<u32>(c.0, c.1) <==> c.0 <= c.1,
        ordered::<u64>(d.0, d.1) <==> d.0 <= d.1,
        ordered::<u128>(e.0, e.1) <==> e.0 <= e.1,
{
    u8::le_of_encode(a.0, a.1);
    u16::le_of_encode(b.0, b.1);
    u32::le_of_encode(c.0, c.1);
    u64::le_of_encode(d.0, d.1);
    u128::le_of_encode(e.0, e.1);
}

/// The bytes of signed numbers are ordered as the numbers are: those below zero come first.
pub proof fn law_signed_order(
    a: (i8, i8),
    b: (i16, i16),
    c: (i32, i32),
    d: (i64, i64),
    e: (i128, i128),
)
    ensures
        ordered::<i8>(a.0, a.1) <==> a.0 <= a.1,
        ordered::<i16>(b.0, b.1) <==> b.0 <= b.1,
        ordered::<i32>(c.0, c.1) <==> c.0 <= c.1,
        ordered::<i64>(d.0, d.1) <==> d.0 <= d.1,
        ordered::<i128>(e.0, e.1) <==> e.0 <= e.1,
{
    i8::le_of_encode(a.0, a.1);
    i16::le_of_encode(b.0, b.1);
    i32::le_of_encode(c.0, c.1);
    i64::le_of_encode(d.0, d.1);
    i128::le_of_encode(e.0, e.1);
}

/// Numbers take as many bytes as they are wide.
pub proof fn law_number_widths(a: u8, b: u16, c: u32, d: u64, e: u128)
    ensures
        u8::encode(a).len() == 1,
        u16::encode(b).len() == 2,
        u32::encode(c).len() == 4,
        u64::encode(d).len() == 8,
        u128::encode(e).len() == 16,
{
    u8::decode_of_encode(a);
    u16::decode_of_encode(b);
    u32::decode_of_encode(c);
    u64::decode_of_encode(d);
    u128::decode_of_encode(e);
}

/// Signed numbers take as many bytes as they are wide.
pub proof fn law_signed_widths(a: i8, b: i16, c: i32, d: i64, e: i128)
    ensures
        i8::encode(a).len() == 1,
        i16::encode(b).len() == 2,
        i32::encode(c).len() == 4,
        i64::encode(d).len() == 8,
        i128::encode(e).len() == 16,
{
    i8::decode_of_encode(a);
    i16::decode_of_encode(b);
    i32::decode_of_encode(c);
    i64::decode_of_encode(d);
    i128::decode_of_encode(e);
}

/// Each byte of a number holds the next eight bits, from the lowest on.
pub proof fn law_little_endian(n: nat, len: nat, i: nat)
    requires
        i < len,
    ensures
        le_bytes(n, len).len() == len,
        le_bytes(n, len)[i as int] == n / pow256(i) % 256,
    decreases len,
{
    let rest = le_bytes(n / 256, (len - 1) as nat);
    if i > 0 {
        law_little_endian(n / 256, (len - 1) as nat, (i - 1) as nat);
        let p = pow256((i - 1) as nat);
        lemma_pow_positive((i - 1) as nat);
        vstd::arithmetic::div_mod::lemma_div_denominator(n as int, 256, p as int);
        assert(pow256(i) == 256 * p);
        assert(le_bytes(n, len)[i as int] == rest[i - 1]);
    } else {
        assert(pow256(0) == 1);
        if len > 1 {
            law_little_endian(n / 256, (len - 1) as nat, 0);
        }
    }
}

proof fn lemma_pow_positive(n: nat)
    ensures
        pow256(n) > 0,
    decreases n,
{
    if n > 0 {
        lemma_pow_positive((n - 1) as nat);
    }
}

/// The two's complement of a number differs from it by nothing or by the range of its width, and
/// gives it back.
pub proof fn law_complement(v: int, top: int)
    requires
        top % 2 == 1,
        top > 0,
        -(top + 1) / 2 <= v <= top / 2,
    ensures
        0 <= complement(v, top) <= top,
        complement(v, top) == v || complement(v, top) == v + top + 1,
        from_complement(complement(v, top), top) == v,
{
}

/// `false` comes before `true`.
pub proof fn law_bool_order(m: bool, n: bool)
    ensures
        ordered::<bool>(m, n) <==> !m || n,
        bool::encode(m).len() == 1,
        bool::encode(m)[0] == (if m {
            1u8
        } else {
            0u8
        }),
{
    bool::le_of_encode(m, n);
}

/// Characters are ordered by their numbers.
pub proof fn law_char_order(m: char, n: char)
    ensures
        ordered::<char>(m, n) <==> m as u32 <= n as u32,
        char_le(m, n) <==> m as u32 <= n as u32,
        char::encode(m).len() == 3,
        is_char(m as u32 as nat),
{
    char::le_of_encode(m, n);
    char::decode_of_encode(m);
    vstd::utf8::char_is_scalar(m);
}

/// Bytes come before others exactly where the others start with them, or where the first byte in
/// which they differ is smaller.
pub proof fn law_bytes_order(a: Seq<u8>, b: Seq<u8>, i: int)
    requires
        0 <= i <= a.len(),
        i <= b.len(),
        a.take(i) == b.take(i),
    ensures
        i == a.len() ==> bytes_le(a, b),
        i == b.len() && i < a.len() ==> !bytes_le(a, b),
        i < a.len() && i < b.len() && a[i] != b[i] ==> (bytes_le(a, b) <==> a[i] < b[i]),
    decreases i,
{
    if i > 0 {
        let x = a.drop_first();
        let y = b.drop_first();
        assert(a[0] == a.take(i)[0] && b[0] == b.take(i)[0]);
        assert(x.take(i - 1) =~= a.take(i).drop_first());
        assert(y.take(i - 1) =~= b.take(i).drop_first());
        law_bytes_order(x, y, i - 1);
        if i < a.len() {
            assert(a[i] == x[i - 1]);
        }
        if i < b.len() {
            assert(b[i] == y[i - 1]);
        }
    }
}

/// Texts are ordered by their bytes in UTF-8, whether borrowed or owned, and so are byte strings.
pub proof fn law_text_order(m: Seq<char>, n: Seq<char>, a: Seq<u8>, b: Seq<u8>)
    ensures
        ordered::<&'static str>(m, n) <==> bytes_le(vstd::utf8::encode_utf8(m), vstd::utf8::encode_utf8(n)),
        ordered::<String>(m, n) <==> bytes_le(
            vstd::utf8::encode_utf8(m),
            vstd::utf8::encode_utf8(n),
        ),
        ordered::<&'static [u8]>(a, b) <==> bytes_le(a, b),
{
}

/// An absent value comes before every value, and present ones are ordered as they are by
/// themselves.
pub proof fn law_option_order<T: Key>(x: T::Model, y: T::Model)
    requires
        T::encodable(x),
        T::encodable(y),
    ensures
        ordered::<Option<T>>(None, Some(x)),
        !ordered::<Option<T>>(Some(x), None),
        ordered::<Option<T>>(None, None),
        ordered::<Option<T>>(Some(x), Some(y)) <==> T::le(
            T::encode(x),
            T::encode(y),
        ),
        Option::<T>::encode(Some(x)) == seq![1u8] + T::encode(x),
        Option::<T>::encode(None)[0] == 0,
        T::width() is Some ==> Option::<T>::encode(None).len() == 1 + T::encode(x).len(),
{
    Option::<T>::le_of_encode(Some(x), Some(y));
    Option::<T>::le_of_encode(Some(x), None);
    Option::<T>::le_of_encode(None, Some(x));
    Option::<T>::le_of_encode(None, None);
    T::le_of_encode(x, y);
    T::decode_of_encode(x);
}

/// Lists come before others exactly where the others start with equal items, or where the first
/// item that is not equal is smaller.
pub proof fn law_list_order<T: Key>(m: Seq<T::Model>, n: Seq<T::Model>, i: int)
    requires
        0 <= i <= m.len(),
        i <= n.len(),
        forall|j: int|
            0 <= j < i ==> T::model_le(#[trigger] m[j], n[j]) && T::model_le(n[j], m[j]),
    ensures
        i == m.len() ==> models_le::<T>(m, n),
        i == n.len() && i < m.len() ==> !models_le::<T>(m, n),
        i < m.len() && i < n.len() && !(T::model_le(m[i], n[i]) && T::model_le(n[i], m[i])) ==> (
        models_le::<T>(m, n) <==> T::model_le(m[i], n[i])),
    decreases i,
{
    if i > 0 {
        let x = m.drop_first();
        let y = n.drop_first();
        assert(T::model_le(m[0], n[0]) && T::model_le(n[0], m[0]));
        assert forall|j: int| 0 <= j < i - 1 implies T::model_le(#[trigger] x[j], y[j])
            && T::model_le(y[j], x[j]) by {
            assert(x[j] == m[j + 1]);
            assert(y[j] == n[j + 1]);
        }
        law_list_order::<T>(x, y, i - 1);
        if i < m.len() {
            assert(m[i] == x[i - 1]);
        }
        if i < n.len() {
            assert(n[i] == y[i - 1]);
        }
    }
}

/// The bytes of lists are ordered as the lists are.
pub proof fn law_encoded_list_order<T: Key>(m: Seq<T::Model>, n: Seq<T::Model>)
    requires
        Vec::<T>::encodable(m),
        Vec::<T>::encodable(n),
    ensures
        ordered::<Vec<T>>(m, n) <==> models_le::<T>(m, n),
{
    Vec::<T>::le_of_encode(m, n);
}

/// A list is stored as the number of its items and the items behind each other; where they have one
/// width, without anything between them.
pub proof fn law_list_length<T: Value>(m: Seq<T::Model>)
    requires
        Vec::<T>::encodable(m),
        T::width() is Some,
    ensures
        Vec::<T>::encode(m).len() == varint(m.len()).len() + m.len() * T::width()->0,
        Vec::<T>::encode(m).take(varint(m.len()).len() as int) == varint(m.len()),
{
    lemma_items_length::<T>(m);
    assert(Vec::<T>::encode(m).take(varint(m.len()).len() as int) =~= varint(m.len()));
}

proof fn lemma_items_length<T: Value>(m: Seq<T::Model>)
    requires
        all_encodable::<T>(m),
        T::width() is Some,
    ensures
        items_bytes::<T>(m).len() == m.len() * T::width()->0,
    decreases m.len(),
{
    let w = T::width()->0;
    if m.len() > 0 {
        let rest = m.drop_first();
        assert forall|i: int| 0 <= i < rest.len() implies T::encodable(#[trigger] rest[i]) by {
            assert(rest[i] == m[i + 1]);
        }
        lemma_items_length::<T>(rest);
        T::decode_of_encode(m[0]);
        let n = m.len() as int;
        assert(n * w == (n - 1) * w + w) by (nonlinear_arith);
    } else {
        assert(0 * w == 0);
    }
}

/// The bytes of arrays are ordered as lists of their items are, and those of arrays of bytes as the
/// bytes are.
pub proof fn law_encoded_array_order<T: Key, const N: usize>(
    m: Seq<T::Model>,
    n: Seq<T::Model>,
    a: Seq<u8>,
    b: Seq<u8>,
)
    requires
        <[T; N]>::encodable(m),
        <[T; N]>::encodable(n),
        a.len() == N,
        b.len() == N,
    ensures
        ordered::<[T; N]>(m, n) <==> models_le::<T>(m, n),
        ordered::<&'static [u8; N]>(a, b) <==> bytes_le(a, b),
{
    <[T; N]>::le_of_encode(m, n);
    <&'static [u8; N]>::le_of_encode(a, b);
}

/// The names of the numbers.
pub proof fn law_number_names()
    ensures
        u8::label() == seq!['u', '8'],
        u16::label() == seq!['u', '1', '6'],
        u32::label() == seq!['u', '3', '2'],
        u64::label() == seq!['u', '6', '4'],
        u128::label() == seq!['u', '1', '2', '8'],
        i8::label() == seq!['i', '8'],
        i16::label() == seq!['i', '1', '6'],
        i32::label() == seq!['i', '3', '2'],
        i64::label() == seq!['i', '6', '4'],
        i128::label() == seq!['i', '1', '2', '8'],
{
    reveal_strlit("u8");
    reveal_strlit("u16");
    reveal_strlit("u32");
    reveal_strlit("u64");
    reveal_strlit("u128");
    reveal_strlit("i8");
    reveal_strlit("i16");
    reveal_strlit("i32");
    reveal_strlit("i64");
    reveal_strlit("i128");
    assert(u8::label() =~= seq!['u', '8']);
    assert(u16::label() =~= seq!['u', '1', '6']);
    assert(u32::label() =~= seq!['u', '3', '2']);
    assert(u64::label() =~= seq!['u', '6', '4']);
    assert(u128::label() =~= seq!['u', '1', '2', '8']);
    assert(i8::label() =~= seq!['i', '8']);
    assert(i16::label() =~= seq!['i', '1', '6']);
    assert(i32::label() =~= seq!['i', '3', '2']);
    assert(i64::label() =~= seq!['i', '6', '4']);
    assert(i128::label() =~= seq!['i', '1', '2', '8']);
}

/// The names of the other simple types.
pub proof fn law_simple_names()
    ensures
        <()>::label() == seq!['(', ')'],
        bool::label() == seq!['b', 'o', 'o', 'l'],
        char::label() == seq!['c', 'h', 'a', 'r'],
        <&'static str>::label() == seq!['&', 's', 't', 'r'],
        String::label() == seq!['S', 't', 'r', 'i', 'n', 'g'],
        <&'static [u8]>::label() == seq!['&', '[', 'u', '8', ']'],
{
    reveal_strlit("()");
    reveal_strlit("bool");
    reveal_strlit("char");
    reveal_strlit("&str");
    reveal_strlit("String");
    reveal_strlit("&[u8]");
    assert(<()>::label() =~= seq!['(', ')']);
    assert(bool::label() =~= seq!['b', 'o', 'o', 'l']);
    assert(char::label() =~= seq!['c', 'h', 'a', 'r']);
    assert(<&'static str>::label() =~= seq!['&', 's', 't', 'r']);
    assert(String::label() =~= seq!['S', 't', 'r', 'i', 'n', 'g']);
    assert(<&'static [u8]>::label() =~= seq!['&', '[', 'u', '8', ']']);
}

/// The name of a list or an optional value contains the name of what it is made of, so that two of
/// them have one name only where their items do; and a list never has the name of an optional
/// value.
pub proof fn law_made_names_differ<T: Value, U: Value>()
    ensures
        Vec::<T>::label() == Vec::<U>::label() ==> T::label() == U::label(),
        Option::<T>::label() == Option::<U>::label() ==> T::label() == U::label(),
        Vec::<T>::label() != Option::<U>::label(),
{
    reveal_strlit("Vec<");
    reveal_strlit("Option<");
    reveal_strlit(">");
    let a = Vec::<T>::label();
    let b = Vec::<U>::label();
    let c = Option::<T>::label();
    let d = Option::<U>::label();
    assert(a[0] == 'V' && d[0] == 'O');
    assert(a.subrange(4, a.len() - 1) =~= T::label());
    assert(b.subrange(4, b.len() - 1) =~= U::label());
    assert(c.subrange(7, c.len() - 1) =~= T::label());
    assert(d.subrange(7, d.len() - 1) =~= U::label());
}

/// In the bytes of a number every byte but the last is marked as followed by another.
pub proof fn law_varint_marks(n: nat, i: int)
    requires
        0 <= i < varint(n).len(),
    ensures
        varint(n)[i] < 128 <==> i == varint(n).len() - 1,
        varint(n).len() == 1 <==> n < 128,
    decreases n,
{
    if n >= 128 {
        let rest = varint(n / 128);
        assert(rest.len() > 0);
        if i > 0 {
            law_varint_marks(n / 128, i - 1);
            assert(varint(n)[i] == rest[i - 1]);
        }
    }
}

} // verus!
