//! Text, characters, truth values and the unit value as keys and values.

use crate::types::name::{text, TypeName};
use crate::types::num::{from_le, le_bytes, le_value, lemma_le_bytes, lemma_powers, to_le};
use crate::types::{
    bytes_le, bytes_order, lemma_bytes_le_antisymmetric, lemma_bytes_le_total,
    lemma_bytes_le_transitive, order_of_sign, Key, Value,
};
use std::cmp::Ordering;
use vstd::prelude::*;
use vstd::utf8::{decode_utf8, encode_utf8, valid_utf8};

verus! {

impl Value for () {
    type SelfType<'a> = ();

    type Model = ();

    open spec fn model<'a>(v: ()) -> () {
        ()
    }

    open spec fn encode(m: ()) -> Seq<u8> {
        Seq::empty()
    }

    open spec fn encodable(m: ()) -> bool {
        true
    }

    open spec fn accepts(b: Seq<u8>) -> bool {
        true
    }

    open spec fn decode(b: Seq<u8>) -> () {
        ()
    }

    open spec fn width() -> Option<nat> {
        Some(0)
    }

    open spec fn width_fits() -> bool {
        true
    }

    open spec fn origin() -> crate::types::name::TypeClassification {
        crate::types::name::TypeClassification::Internal
    }

    open spec fn label() -> Seq<char> {
        "()"@
    }

    proof fn decode_of_encode(m: ()) {
    }

    fn fixed_width() -> (w: Option<usize>) {
        Some(0)
    }

    fn from_bytes<'a>(data: &'a [u8]) -> (v: ()) {
        ()
    }

    fn as_bytes<'a, 'b: 'a>(value: &'a ()) -> (b: Vec<u8>) {
        Vec::new()
    }

    fn name_of_type() -> (t: TypeName) {
        TypeName::internal("()")
    }
}

impl Key for () {
    open spec fn le(a: Seq<u8>, b: Seq<u8>) -> bool {
        true
    }

    open spec fn model_le(m: (), n: ()) -> bool {
        true
    }

    proof fn le_total(a: Seq<u8>, b: Seq<u8>) {
    }

    proof fn le_transitive(a: Seq<u8>, b: Seq<u8>, c: Seq<u8>) {
    }

    proof fn le_of_encode(m: (), n: ()) {
    }

    fn compare(data1: &[u8], data2: &[u8]) -> (o: Ordering) {
        Ordering::Equal
    }
}

impl Value for bool {
    type SelfType<'a> = bool;

    type Model = bool;

    open spec fn model<'a>(v: bool) -> bool {
        v
    }

    open spec fn encode(m: bool) -> Seq<u8> {
        if m {
            seq![1u8]
        } else {
            seq![0u8]
        }
    }

    open spec fn encodable(m: bool) -> bool {
        true
    }

    open spec fn accepts(b: Seq<u8>) -> bool {
        b.len() > 0 && b[0] <= 1
    }

    open spec fn decode(b: Seq<u8>) -> bool {
        b[0] == 1
    }

    open spec fn width() -> Option<nat> {
        Some(1)
    }

    open spec fn width_fits() -> bool {
        true
    }

    open spec fn origin() -> crate::types::name::TypeClassification {
        crate::types::name::TypeClassification::Internal
    }

    open spec fn label() -> Seq<char> {
        "bool"@
    }

    proof fn decode_of_encode(m: bool) {
    }

    fn fixed_width() -> (w: Option<usize>) {
        Some(1)
    }

    fn from_bytes<'a>(data: &'a [u8]) -> (v: bool) {
        data[0] == 1
    }

    fn as_bytes<'a, 'b: 'a>(value: &'a bool) -> (b: Vec<u8>) {
        let mut out: Vec<u8> = Vec::new();
        out.push(
            if *value {
                1
            } else {
                0
            },
        );
        assert(out@ =~= Self::encode(*value));
        out
    }

    fn name_of_type() -> (t: TypeName) {
        TypeName::internal("bool")
    }
}

impl Key for bool {
    open spec fn le(a: Seq<u8>, b: Seq<u8>) -> bool {
        Self::decode(a) ==> Self::decode(b)
    }

    open spec fn model_le(m: bool, n: bool) -> bool {
        m ==> n
    }

    proof fn le_total(a: Seq<u8>, b: Seq<u8>) {
    }

    proof fn le_transitive(a: Seq<u8>, b: Seq<u8>, c: Seq<u8>) {
    }

    proof fn le_of_encode(m: bool, n: bool) {
    }

    fn compare(data1: &[u8], data2: &[u8]) -> (o: Ordering) {
        let x: bool = Self::from_bytes(data1);
        let y: bool = Self::from_bytes(data2);
        if x == y {
            Ordering::Equal
        } else if y {
            Ordering::Less
        } else {
            Ordering::Greater
        }
    }
}

/// The number is that of a character.
pub open spec fn is_char(n: nat) -> bool {
    n <= 0xd7ff || 0xe000 <= n <= 0x10ffff
}

/// The character with the number.
///
/// This is `char::from_u32`: it gives a character for exactly the numbers of characters, and
/// the character that it gives has the number.
#[verifier::external_body]
fn char_of(n: u32) -> (c: Option<char>)
    ensures
        c is Some <==> is_char(n as nat),
        c matches Some(x) ==> x as u32 == n,
{
    char::from_u32(n)
}

impl Value for char {
    type SelfType<'a> = char;

    type Model = char;

    open spec fn model<'a>(v: char) -> char {
        v
    }

    open spec fn encode(m: char) -> Seq<u8> {
        le_bytes(m as u32 as nat, 3)
    }

    open spec fn encodable(m: char) -> bool {
        true
    }

    open spec fn accepts(b: Seq<u8>) -> bool {
        b.len() >= 3 && is_char(le_value(b.take(3)))
    }

    open spec fn decode(b: Seq<u8>) -> char {
        le_value(b.take(3)) as u32 as char
    }

    open spec fn width() -> Option<nat> {
        Some(3)
    }

    open spec fn width_fits() -> bool {
        true
    }

    open spec fn origin() -> crate::types::name::TypeClassification {
        crate::types::name::TypeClassification::Internal
    }

    open spec fn label() -> Seq<char> {
        "char"@
    }

    proof fn decode_of_encode(m: char) {
        lemma_powers();
        vstd::utf8::char_is_scalar(m);
        lemma_le_bytes(m as u32 as nat, 3);
        assert(le_bytes(m as u32 as nat, 3).take(3) =~= le_bytes(m as u32 as nat, 3));
        vstd::utf8::char_u32_cast(m, m as u32);
    }

    fn fixed_width() -> (w: Option<usize>) {
        Some(3)
    }

    fn from_bytes<'a>(data: &'a [u8]) -> (v: char) {
        let wide: u128 = from_le(data, 3);
        assert(wide <= 0x10ffff);
        let n: u32 = wide as u32;
        match char_of(n) {
            Some(c) => {
                proof {
                    vstd::utf8::char_u32_cast(c, n);
                }
                c
            },
            None => 'a',
        }
    }

    fn as_bytes<'a, 'b: 'a>(value: &'a char) -> (b: Vec<u8>) {
        to_le((*value as u32) as u128, 3)
    }

    fn name_of_type() -> (t: TypeName) {
        TypeName::internal("char")
    }
}

/// How two characters compare: below 0 for before, 0 for same, above 0 for after.
fn char_order(x: char, y: char) -> (c: i8)
    ensures
        c < 0 <==> (x as u32) < (y as u32),
        c == 0 <==> x == y,
        c > 0 <==> (y as u32) < (x as u32),
{
    let a: u32 = x as u32;
    let b: u32 = y as u32;
    if a < b {
        -1
    } else if a == b {
        0
    } else {
        1
    }
}

/// The first character is not behind the second one.
pub open spec fn char_le(x: char, y: char) -> bool {
    x as u32 <= y as u32
}

impl Key for char {
    open spec fn le(a: Seq<u8>, b: Seq<u8>) -> bool {
        char_le(Self::decode(a), Self::decode(b))
    }

    open spec fn model_le(m: char, n: char) -> bool {
        char_le(m, n)
    }

    proof fn le_total(a: Seq<u8>, b: Seq<u8>) {
    }

    proof fn le_transitive(a: Seq<u8>, b: Seq<u8>, c: Seq<u8>) {
    }

    proof fn le_of_encode(m: char, n: char) {
        Self::decode_of_encode(m);
        Self::decode_of_encode(n);
    }

    fn compare(data1: &[u8], data2: &[u8]) -> (o: Ordering) {
        order_of_sign(char_order(Self::from_bytes(data1), Self::from_bytes(data2)))
    }
}

/// Text is ordered by the bytes of its encoding.
pub open spec fn text_le(m: Seq<char>, n: Seq<char>) -> bool {
    bytes_le(encode_utf8(m), encode_utf8(n))
}

/// Compares two encoded texts.
fn compare_text(data1: &[u8], data2: &[u8]) -> (o: Ordering)
    ensures
        o is Less <==> !bytes_le(data2@, data1@),
        o is Greater <==> !bytes_le(data1@, data2@),
        o is Equal <==> bytes_le(data1@, data2@) && bytes_le(data2@, data1@),
{
    proof {
        lemma_bytes_le_total(data1@, data2@);
        if bytes_le(data1@, data2@) && bytes_le(data2@, data1@) {
            lemma_bytes_le_antisymmetric(data1@, data2@);
        }
    }
    order_of_sign(bytes_order(data1, data2))
}

impl Value for &str {
    type SelfType<'a> = &'a str;

    type Model = Seq<char>;

    open spec fn model<'a>(v: &'a str) -> Seq<char> {
        v@
    }

    open spec fn encode(m: Seq<char>) -> Seq<u8> {
        encode_utf8(m)
    }

    open spec fn encodable(m: Seq<char>) -> bool {
        true
    }

    open spec fn accepts(b: Seq<u8>) -> bool {
        valid_utf8(b)
    }

    open spec fn decode(b: Seq<u8>) -> Seq<char> {
        decode_utf8(b)
    }

    open spec fn width() -> Option<nat> {
        None
    }

    open spec fn width_fits() -> bool {
        true
    }

    open spec fn origin() -> crate::types::name::TypeClassification {
        crate::types::name::TypeClassification::Internal
    }

    open spec fn label() -> Seq<char> {
        "&str"@
    }

    proof fn decode_of_encode(m: Seq<char>) {
        vstd::utf8::encode_utf8_valid_utf8(m);
        vstd::utf8::encode_utf8_decode_utf8(m);
    }

    fn fixed_width() -> (w: Option<usize>) {
        None
    }

    fn from_bytes<'a>(data: &'a [u8]) -> (v: &'a str) {
        match text(data) {
            Some(s) => s,
            None => "",
        }
    }

    fn as_bytes<'a, 'b: 'a>(value: &'a Self::SelfType<'b>) -> (b: Vec<u8>) {
        vstd::slice::slice_to_vec(value.as_bytes())
    }

    fn name_of_type() -> (t: TypeName) {
        TypeName::internal("&str")
    }
}

impl Key for &str {
    open spec fn le(a: Seq<u8>, b: Seq<u8>) -> bool {
        bytes_le(a, b)
    }

    open spec fn model_le(m: Seq<char>, n: Seq<char>) -> bool {
        text_le(m, n)
    }

    proof fn le_total(a: Seq<u8>, b: Seq<u8>) {
        lemma_bytes_le_total(a, b);
    }

    proof fn le_transitive(a: Seq<u8>, b: Seq<u8>, c: Seq<u8>) {
        lemma_bytes_le_transitive(a, b, c);
    }

    proof fn le_of_encode(m: Seq<char>, n: Seq<char>) {
    }

    fn compare(data1: &[u8], data2: &[u8]) -> (o: Ordering) {
        compare_text(data1, data2)
    }
}

impl Value for String {
    type SelfType<'a> = String;

    type Model = Seq<char>;

    open spec fn model<'a>(v: String) -> Seq<char> {
        v@
    }

    open spec fn encode(m: Seq<char>) -> Seq<u8> {
        encode_utf8(m)
    }

    open spec fn encodable(m: Seq<char>) -> bool {
        true
    }

    open spec fn accepts(b: Seq<u8>) -> bool {
        valid_utf8(b)
    }

    open spec fn decode(b: Seq<u8>) -> Seq<char> {
        decode_utf8(b)
    }

    open spec fn width() -> Option<nat> {
        None
    }

    open spec fn width_fits() -> bool {
        true
    }

    open spec fn origin() -> crate::types::name::TypeClassification {
        crate::types::name::TypeClassification::Internal
    }

    open spec fn label() -> Seq<char> {
        "String"@
    }

    proof fn decode_of_encode(m: Seq<char>) {
        vstd::utf8::encode_utf8_valid_utf8(m);
        vstd::utf8::encode_utf8_decode_utf8(m);
    }

    fn fixed_width() -> (w: Option<usize>) {
        None
    }

    fn from_bytes<'a>(data: &'a [u8]) -> (v: String) {
        match text(data) {
            Some(s) => s.to_owned(),
            None => String::new(),
        }
    }

    fn as_bytes<'a, 'b: 'a>(value: &'a String) -> (b: Vec<u8>) {
        vstd::slice::slice_to_vec(value.as_str().as_bytes())
    }

    fn name_of_type() -> (t: TypeName) {
        TypeName::internal("String")
    }
}

impl Key for String {
    open spec fn le(a: Seq<u8>, b: Seq<u8>) -> bool {
        bytes_le(a, b)
    }

    open spec fn model_le(m: Seq<char>, n: Seq<char>) -> bool {
        text_le(m, n)
    }

    proof fn le_total(a: Seq<u8>, b: Seq<u8>) {
        lemma_bytes_le_total(a, b);
    }

    proof fn le_transitive(a: Seq<u8>, b: Seq<u8>, c: Seq<u8>) {
        lemma_bytes_le_transitive(a, b, c);
    }

    proof fn le_of_encode(m: Seq<char>, n: Seq<char>) {
    }

    fn compare(data1: &[u8], data2: &[u8]) -> (o: Ordering) {
        compare_text(data1, data2)
    }
}

} // verus!
