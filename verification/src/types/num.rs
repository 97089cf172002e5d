//! Integers, truth values and the unit value as keys and values.
//!
//! An integer is encoded as the bytes of its two's complement, the least significant one
//! first, and is ordered by its value.

use crate::types::name::TypeName;
use crate::types::{Key, Value};
use std::cmp::Ordering;
use vstd::prelude::*;

verus! {

/// 256 to the power `n`.
pub open spec fn pow256(n: nat) -> nat
    decreases n,
{
    if n == 0 {
        1
    } else {
        256 * pow256((n - 1) as nat)
    }
}

/// The `len` least significant bytes of a number, the least significant one first.
pub open spec fn le_bytes(n: nat, len: nat) -> Seq<u8>
    decreases len,
{
    if len == 0 {
        Seq::empty()
    } else {
        seq![(n % 256) as u8] + le_bytes(n / 256, (len - 1) as nat)
    }
}

/// The number whose bytes these are, the least significant one first.
pub open spec fn le_value(s: Seq<u8>) -> nat
    decreases s.len(),
{
    if s.len() == 0 {
        0
    } else {
        s[0] as nat + 256 * le_value(s.drop_first())
    }
}

/// The bytes of a number give the number back.
pub proof fn lemma_le_bytes(n: nat, len: nat)
    requires
        n < pow256(len),
    ensures
        le_bytes(n, len).len() == len,
        le_value(le_bytes(n, len)) == n,
    decreases len,
{
    if len > 0 {
        let rest = le_bytes(n / 256, (len - 1) as nat);
        assert(n / 256 < pow256((len - 1) as nat));
        lemma_le_bytes(n / 256, (len - 1) as nat);
        assert(le_bytes(n, len).drop_first() =~= rest);
    }
}

/// A number of so many bytes is below the power.
pub proof fn lemma_le_value(s: Seq<u8>)
    ensures
        le_value(s) < pow256(s.len()),
    decreases s.len(),
{
    if s.len() > 0 {
        lemma_le_value(s.drop_first());
    }
}

/// The powers that numbers of this library need.
pub proof fn lemma_powers()
    ensures
        pow256(1) == 0x100,
        pow256(2) == 0x1_0000,
        pow256(3) == 0x100_0000,
        pow256(4) == 0x1_0000_0000,
        pow256(8) == 0x1_0000_0000_0000_0000,
        pow256(16) == 0x1_0000_0000_0000_0000_0000_0000_0000_0000,
{
    reveal_with_fuel(pow256, 17);
}

/// The bytes of a number.
pub fn to_le(n: u128, len: usize) -> (out: Vec<u8>)
    ensures
        out@ == le_bytes(n as nat, len as nat),
{
    let mut out: Vec<u8> = Vec::new();
    let mut rest: u128 = n;
    let mut i: usize = 0;
    assert(Seq::<u8>::empty() + le_bytes(n as nat, len as nat) =~= le_bytes(n as nat, len as nat));
    while i < len
        invariant
            i <= len,
            le_bytes(n as nat, len as nat) == out@ + le_bytes(rest as nat, (len - i) as nat),
        decreases len - i,
    {
        let ghost before = out@;
        out.push((rest % 256) as u8);
        proof {
            let tail = le_bytes((rest / 256) as nat, (len - i - 1) as nat);
            assert(before + (seq![(rest % 256) as u8] + tail) =~= out@ + tail);
        }
        rest = rest / 256;
        i = i + 1;
    }
    assert(out@ =~= out@ + le_bytes(rest as nat, 0));
    out
}

/// The number whose bytes start the slice.
pub fn from_le(data: &[u8], len: usize) -> (n: u128)
    requires
        len <= data.len(),
        len <= 16,
    ensures
        n == le_value(data@.take(len as int)),
{
    let mut n: u128 = 0;
    let mut i: usize = len;
    assert(data@.subrange(len as int, len as int) =~= Seq::empty());
    while i > 0
        invariant
            i <= len <= 16,
            len <= data@.len(),
            n == le_value(data@.subrange(i as int, len as int)),
        decreases i,
    {
        let ghost part = data@.subrange(i - 1, len as int);
        proof {
            lemma_le_value(data@.subrange(i as int, len as int));
            lemma_le_value(part);
            lemma_pow_grows(part.len(), 16);
            lemma_powers();
            assert(part.drop_first() =~= data@.subrange(i as int, len as int));
        }
        i = i - 1;
        n = data[i] as u128 + 256 * n;
    }
    assert(data@.subrange(0, len as int) =~= data@.take(len as int));
    n
}

proof fn lemma_pow_grows(m: nat, n: nat)
    requires
        m <= n,
    ensures
        pow256(m) <= pow256(n),
    decreases n,
{
    if m < n {
        lemma_pow_grows(m, (n - 1) as nat);
    }
}

/// The two's complement of a number, where `top` is the greatest number of its width.
pub open spec fn complement(v: int, top: int) -> int {
    if v >= 0 {
        v
    } else {
        top + 1 + v
    }
}

/// The number with the two's complement.
pub open spec fn from_complement(u: int, top: int) -> int {
    if u <= top / 2 {
        u
    } else {
        u - top - 1
    }
}

fn unsigned_of(v: i128, top: u128) -> (u: u128)
    requires
        -(top as int) - 1 <= 2 * v <= top,
    ensures
        u == complement(v as int, top as int),
{
    if v >= 0 {
        v as u128
    } else {
        top - ((-(v + 1)) as u128)
    }
}

fn signed_of(u: u128, top: u128) -> (v: i128)
    requires
        u <= top,
    ensures
        v == from_complement(u as int, top as int),
{
    if u <= top / 2 {
        assert(u <= i128::MAX);
        u as i128
    } else {
        assert(top - u <= i128::MAX);
        -((top - u) as i128) - 1
    }
}

impl Value for u8 {
    type SelfType<'a> = u8;

    type Model = u8;

    open spec fn model<'a>(v: u8) -> u8 {
        v
    }

    open spec fn encode(m: u8) -> Seq<u8> {
        le_bytes(m as nat, 1)
    }

    open spec fn encodable(m: u8) -> bool {
        true
    }

    open spec fn accepts(b: Seq<u8>) -> bool {
        b.len() == 1
    }

    open spec fn decode(b: Seq<u8>) -> u8 {
        le_value(b) as u8
    }

    open spec fn width() -> Option<nat> {
        Some(1)
    }

    open spec fn width_fits() -> bool {
        true
    }

    open spec fn origin() -> crate::types::name::TypeClassification {
        crate::types::name::TypeClassification::Internal
    }

    open spec fn label() -> Seq<char> {
        "u8"@
    }

    proof fn decode_of_encode(m: u8) {
        lemma_powers();
        lemma_le_bytes(m as nat, 1);
    }

    fn fixed_width() -> (w: Option<usize>) {
        Some(1)
    }

    fn from_bytes<'a>(data: &'a [u8]) -> (v: u8) {
        proof {
            lemma_powers();
            lemma_le_value(data@);
            assert(data@.take(1) =~= data@);
        }
        from_le(data, 1) as u8
    }

    fn as_bytes<'a, 'b: 'a>(value: &'a u8) -> (b: Vec<u8>) {
        to_le(*value as u128, 1)
    }

    fn name_of_type() -> (t: TypeName) {
        TypeName::internal("u8")
    }
}

impl Key for u8 {
    open spec fn le(a: Seq<u8>, b: Seq<u8>) -> bool {
        Self::decode(a) <= Self::decode(b)
    }

    open spec fn model_le(m: u8, n: u8) -> bool {
        m <= n
    }

    proof fn le_total(a: Seq<u8>, b: Seq<u8>) {
    }

    proof fn le_transitive(a: Seq<u8>, b: Seq<u8>, c: Seq<u8>) {
    }

    proof fn le_of_encode(m: u8, n: u8) {
        Self::decode_of_encode(m);
        Self::decode_of_encode(n);
    }

    fn compare(data1: &[u8], data2: &[u8]) -> (o: Ordering) {
        let x: u8 = Self::from_bytes(data1);
        let y: u8 = Self::from_bytes(data2);
        order_of(x < y, x == y)
    }
}

impl Value for u16 {
    type SelfType<'a> = u16;

    type Model = u16;

    open spec fn model<'a>(v: u16) -> u16 {
        v
    }

    open spec fn encode(m: u16) -> Seq<u8> {
        le_bytes(m as nat, 2)
    }

    open spec fn encodable(m: u16) -> bool {
        true
    }

    open spec fn accepts(b: Seq<u8>) -> bool {
        b.len() == 2
    }

    open spec fn decode(b: Seq<u8>) -> u16 {
        le_value(b) as u16
    }

    open spec fn width() -> Option<nat> {
        Some(2)
    }

    open spec fn width_fits() -> bool {
        true
    }

    open spec fn origin() -> crate::types::name::TypeClassification {
        crate::types::name::TypeClassification::Internal
    }

    open spec fn label() -> Seq<char> {
        "u16"@
    }

    proof fn decode_of_encode(m: u16) {
        lemma_powers();
        lemma_le_bytes(m as nat, 2);
    }

    fn fixed_width() -> (w: Option<usize>) {
        Some(2)
    }

    fn from_bytes<'a>(data: &'a [u8]) -> (v: u16) {
        proof {
            lemma_powers();
            lemma_le_value(data@);
            assert(data@.take(2) =~= data@);
        }
        from_le(data, 2) as u16
    }

    fn as_bytes<'a, 'b: 'a>(value: &'a u16) -> (b: Vec<u8>) {
        to_le(*value as u128, 2)
    }

    fn name_of_type() -> (t: TypeName) {
        TypeName::internal("u16")
    }
}

impl Key for u16 {
    open spec fn le(a: Seq<u8>, b: Seq<u8>) -> bool {
        Self::decode(a) <= Self::decode(b)
    }

    open spec fn model_le(m: u16, n: u16) -> bool {
        m <= n
    }

    proof fn le_total(a: Seq<u8>, b: Seq<u8>) {
    }

    proof fn le_transitive(a: Seq<u8>, b: Seq<u8>, c: Seq<u8>) {
    }

    proof fn le_of_encode(m: u16, n: u16) {
        Self::decode_of_encode(m);
        Self::decode_of_encode(n);
    }

    fn compare(data1: &[u8], data2: &[u8]) -> (o: Ordering) {
        let x: u16 = Self::from_bytes(data1);
        let y: u16 = Self::from_bytes(data2);
        order_of(x < y, x == y)
    }
}

impl Value for u32 {
    type SelfType<'a> = u32;

    type Model = u32;

    open spec fn model<'a>(v: u32) -> u32 {
        v
    }

    open spec fn encode(m: u32) -> Seq<u8> {
        le_bytes(m as nat, 4)
    }

    open spec fn encodable(m: u32) -> bool {
        true
    }

    open spec fn accepts(b: Seq<u8>) -> bool {
        b.len() == 4
    }

    open spec fn decode(b: Seq<u8>) -> u32 {
        le_value(b) as u32
    }

    open spec fn width() -> Option<nat> {
        Some(4)
    }

    open spec fn width_fits() -> bool {
        true
    }

    open spec fn origin() -> crate::types::name::TypeClassification {
        crate::types::name::TypeClassification::Internal
    }

    open spec fn label() -> Seq<char> {
        "u32"@
    }

    proof fn decode_of_encode(m: u32) {
        lemma_powers();
        lemma_le_bytes(m as nat, 4);
    }

    fn fixed_width() -> (w: Option<usize>) {
        Some(4)
    }

    fn from_bytes<'a>(data: &'a [u8]) -> (v: u32) {
        proof {
            lemma_powers();
            lemma_le_value(data@);
            assert(data@.take(4) =~= data@);
        }
        from_le(data, 4) as u32
    }

    fn as_bytes<'a, 'b: 'a>(value: &'a u32) -> (b: Vec<u8>) {
        to_le(*value as u128, 4)
    }

    fn name_of_type() -> (t: TypeName) {
        TypeName::internal("u32")
    }
}

impl Key for u32 {
    open spec fn le(a: Seq<u8>, b: Seq<u8>) -> bool {
        Self::decode(a) <= Self::decode(b)
    }

    open spec fn model_le(m: u32, n: u32) -> bool {
        m <= n
    }

    proof fn le_total(a: Seq<u8>, b: Seq<u8>) {
    }

    proof fn le_transitive(a: Seq<u8>, b: Seq<u8>, c: Seq<u8>) {
    }

    proof fn le_of_encode(m: u32, n: u32) {
        Self::decode_of_encode(m);
        Self::decode_of_encode(n);
    }

    fn compare(data1: &[u8], data2: &[u8]) -> (o: Ordering) {
        let x: u32 = Self::from_bytes(data1);
        let y: u32 = Self::from_bytes(data2);
        order_of(x < y, x == y)
    }
}

impl Value for u64 {
    type SelfType<'a> = u64;

    type Model = u64;

    open spec fn model<'a>(v: u64) -> u64 {
        v
    }

    open spec fn encode(m: u64) -> Seq<u8> {
        le_bytes(m as nat, 8)
    }

    open spec fn encodable(m: u64) -> bool {
        true
    }

    open spec fn accepts(b: Seq<u8>) -> bool {
        b.len() == 8
    }

    open spec fn decode(b: Seq<u8>) -> u64 {
        le_value(b) as u64
    }

    open spec fn width() -> Option<nat> {
        Some(8)
    }

    open spec fn width_fits() -> bool {
        true
    }

    open spec fn origin() -> crate::types::name::TypeClassification {
        crate::types::name::TypeClassification::Internal
    }

    open spec fn label() -> Seq<char> {
        "u64"@
    }

    proof fn decode_of_encode(m: u64) {
        lemma_powers();
        lemma_le_bytes(m as nat, 8);
    }

    fn fixed_width() -> (w: Option<usize>) {
        Some(8)
    }

    fn from_bytes<'a>(data: &'a [u8]) -> (v: u64) {
        proof {
            lemma_powers();
            lemma_le_value(data@);
            assert(data@.take(8) =~= data@);
        }
        from_le(data, 8) as u64
    }

    fn as_bytes<'a, 'b: 'a>(value: &'a u64) -> (b: Vec<u8>) {
        to_le(*value as u128, 8)
    }

    fn name_of_type() -> (t: TypeName) {
        TypeName::internal("u64")
    }
}

impl Key for u64 {
    open spec fn le(a: Seq<u8>, b: Seq<u8>) -> bool {
        Self::decode(a) <= Self::decode(b)
    }

    open spec fn model_le(m: u64, n: u64) -> bool {
        m <= n
    }

    proof fn le_total(a: Seq<u8>, b: Seq<u8>) {
    }

    proof fn le_transitive(a: Seq<u8>, b: Seq<u8>, c: Seq<u8>) {
    }

    proof fn le_of_encode(m: u64, n: u64) {
        Self::decode_of_encode(m);
        Self::decode_of_encode(n);
    }

    fn compare(data1: &[u8], data2: &[u8]) -> (o: Ordering) {
        let x: u64 = Self::from_bytes(data1);
        let y: u64 = Self::from_bytes(data2);
        order_of(x < y, x == y)
    }
}

impl Value for u128 {
    type SelfType<'a> = u128;

    type Model = u128;

    open spec fn model<'a>(v: u128) -> u128 {
        v
    }

    open spec fn encode(m: u128) -> Seq<u8> {
        le_bytes(m as nat, 16)
    }

    open spec fn encodable(m: u128) -> bool {
        true
    }

    open spec fn accepts(b: Seq<u8>) -> bool {
        b.len() == 16
    }

    open spec fn decode(b: Seq<u8>) -> u128 {
        le_value(b) as u128
    }

    open spec fn width() -> Option<nat> {
        Some(16)
    }

    open spec fn width_fits() -> bool {
        true
    }

    open spec fn origin() -> crate::types::name::TypeClassification {
        crate::types::name::TypeClassification::Internal
    }

    open spec fn label() -> Seq<char> {
        "u128"@
    }

    proof fn decode_of_encode(m: u128) {
        lemma_powers();
        lemma_le_bytes(m as nat, 16);
    }

    fn fixed_width() -> (w: Option<usize>) {
        Some(16)
    }

    fn from_bytes<'a>(data: &'a [u8]) -> (v: u128) {
        proof {
            lemma_powers();
            lemma_le_value(data@);
            assert(data@.take(16) =~= data@);
        }
        from_le(data, 16)
    }

    fn as_bytes<'a, 'b: 'a>(value: &'a u128) -> (b: Vec<u8>) {
        to_le(*value, 16)
    }

    fn name_of_type() -> (t: TypeName) {
        TypeName::internal("u128")
    }
}

impl Key for u128 {
    open spec fn le(a: Seq<u8>, b: Seq<u8>) -> bool {
        Self::decode(a) <= Self::decode(b)
    }

    open spec fn model_le(m: u128, n: u128) -> bool {
        m <= n
    }

    proof fn le_total(a: Seq<u8>, b: Seq<u8>) {
    }

    proof fn le_transitive(a: Seq<u8>, b: Seq<u8>, c: Seq<u8>) {
    }

    proof fn le_of_encode(m: u128, n: u128) {
        Self::decode_of_encode(m);
        Self::decode_of_encode(n);
    }

    fn compare(data1: &[u8], data2: &[u8]) -> (o: Ordering) {
        let x: u128 = Self::from_bytes(data1);
        let y: u128 = Self::from_bytes(data2);
        order_of(x < y, x == y)
    }
}

impl Value for i8 {
    type SelfType<'a> = i8;

    type Model = i8;

    open spec fn model<'a>(v: i8) -> i8 {
        v
    }

    open spec fn encode(m: i8) -> Seq<u8> {
        le_bytes(complement(m as int, u8::MAX as int) as nat, 1)
    }

    open spec fn encodable(m: i8) -> bool {
        true
    }

    open spec fn accepts(b: Seq<u8>) -> bool {
        b.len() == 1
    }

    open spec fn decode(b: Seq<u8>) -> i8 {
        from_complement(le_value(b) as int, u8::MAX as int) as i8
    }

    open spec fn width() -> Option<nat> {
        Some(1)
    }

    open spec fn width_fits() -> bool {
        true
    }

    open spec fn origin() -> crate::types::name::TypeClassification {
        crate::types::name::TypeClassification::Internal
    }

    open spec fn label() -> Seq<char> {
        "i8"@
    }

    proof fn decode_of_encode(m: i8) {
        lemma_powers();
        lemma_le_bytes(complement(m as int, u8::MAX as int) as nat, 1);
    }

    fn fixed_width() -> (w: Option<usize>) {
        Some(1)
    }

    fn from_bytes<'a>(data: &'a [u8]) -> (v: i8) {
        proof {
            lemma_powers();
            lemma_le_value(data@);
            assert(data@.take(1) =~= data@);
        }
        signed_of(from_le(data, 1), u8::MAX as u128) as i8
    }

    fn as_bytes<'a, 'b: 'a>(value: &'a i8) -> (b: Vec<u8>) {
        to_le(unsigned_of(*value as i128, u8::MAX as u128), 1)
    }

    fn name_of_type() -> (t: TypeName) {
        TypeName::internal("i8")
    }
}

impl Key for i8 {
    open spec fn le(a: Seq<u8>, b: Seq<u8>) -> bool {
        Self::decode(a) <= Self::decode(b)
    }

    open spec fn model_le(m: i8, n: i8) -> bool {
        m <= n
    }

    proof fn le_total(a: Seq<u8>, b: Seq<u8>) {
    }

    proof fn le_transitive(a: Seq<u8>, b: Seq<u8>, c: Seq<u8>) {
    }

    proof fn le_of_encode(m: i8, n: i8) {
        Self::decode_of_encode(m);
        Self::decode_of_encode(n);
    }

    fn compare(data1: &[u8], data2: &[u8]) -> (o: Ordering) {
        let x: i8 = Self::from_bytes(data1);
        let y: i8 = Self::from_bytes(data2);
        order_of(x < y, x == y)
    }
}

impl Value for i16 {
    type SelfType<'a> = i16;

    type Model = i16;

    open spec fn model<'a>(v: i16) -> i16 {
        v
    }

    open spec fn encode(m: i16) -> Seq<u8> {
        le_bytes(complement(m as int, u16::MAX as int) as nat, 2)
    }

    open spec fn encodable(m: i16) -> bool {
        true
    }

    open spec fn accepts(b: Seq<u8>) -> bool {
        b.len() == 2
    }

    open spec fn decode(b: Seq<u8>) -> i16 {
        from_complement(le_value(b) as int, u16::MAX as int) as i16
    }

    open spec fn width() -> Option<nat> {
        Some(2)
    }

    open spec fn width_fits() -> bool {
        true
    }

    open spec fn origin() -> crate::types::name::TypeClassification {
        crate::types::name::TypeClassification::Internal
    }

    open spec fn label() -> Seq<char> {
        "i16"@
    }

    proof fn decode_of_encode(m: i16) {
        lemma_powers();
        lemma_le_bytes(complement(m as int, u16::MAX as int) as nat, 2);
    }

    fn fixed_width() -> (w: Option<usize>) {
        Some(2)
    }

    fn from_bytes<'a>(data: &'a [u8]) -> (v: i16) {
        proof {
            lemma_powers();
            lemma_le_value(data@);
            assert(data@.take(2) =~= data@);
        }
        signed_of(from_le(data, 2), u16::MAX as u128) as i16
    }

    fn as_bytes<'a, 'b: 'a>(value: &'a i16) -> (b: Vec<u8>) {
        to_le(unsigned_of(*value as i128, u16::MAX as u128), 2)
    }

    fn name_of_type() -> (t: TypeName) {
        TypeName::internal("i16")
    }
}

impl Key for i16 {
    open spec fn le(a: Seq<u8>, b: Seq<u8>) -> bool {
        Self::decode(a) <= Self::decode(b)
    }

    open spec fn model_le(m: i16, n: i16) -> bool {
        m <= n
    }

    proof fn le_total(a: Seq<u8>, b: Seq<u8>) {
    }

    proof fn le_transitive(a: Seq<u8>, b: Seq<u8>, c: Seq<u8>) {
    }

    proof fn le_of_encode(m: i16, n: i16) {
        Self::decode_of_encode(m);
        Self::decode_of_encode(n);
    }

    fn compare(data1: &[u8], data2: &[u8]) -> (o: Ordering) {
        let x: i16 = Self::from_bytes(data1);
        let y: i16 = Self::from_bytes(data2);
        order_of(x < y, x == y)
    }
}

impl Value for i32 {
    type SelfType<'a> = i32;

    type Model = i32;

    open spec fn model<'a>(v: i32) -> i32 {
        v
    }

    open spec fn encode(m: i32) -> Seq<u8> {
        le_bytes(complement(m as int, u32::MAX as int) as nat, 4)
    }

    open spec fn encodable(m: i32) -> bool {
        true
    }

    open spec fn accepts(b: Seq<u8>) -> bool {
        b.len() == 4
    }

    open spec fn decode(b: Seq<u8>) -> i32 {
        from_complement(le_value(b) as int, u32::MAX as int) as i32
    }

    open spec fn width() -> Option<nat> {
        Some(4)
    }

    open spec fn width_fits() -> bool {
        true
    }

    open spec fn origin() -> crate::types::name::TypeClassification {
        crate::types::name::TypeClassification::Internal
    }

    open spec fn label() -> Seq<char> {
        "i32"@
    }

    proof fn decode_of_encode(m: i32) {
        lemma_powers();
        lemma_le_bytes(complement(m as int, u32::MAX as int) as nat, 4);
    }

    fn fixed_width() -> (w: Option<usize>) {
        Some(4)
    }

    fn from_bytes<'a>(data: &'a [u8]) -> (v: i32) {
        proof {
            lemma_powers();
            lemma_le_value(data@);
            assert(data@.take(4) =~= data@);
        }
        signed_of(from_le(data, 4), u32::MAX as u128) as i32
    }

    fn as_bytes<'a, 'b: 'a>(value: &'a i32) -> (b: Vec<u8>) {
        to_le(unsigned_of(*value as i128, u32::MAX as u128), 4)
    }

    fn name_of_type() -> (t: TypeName) {
        TypeName::internal("i32")
    }
}

impl Key for i32 {
    open spec fn le(a: Seq<u8>, b: Seq<u8>) -> bool {
        Self::decode(a) <= Self::decode(b)
    }

    open spec fn model_le(m: i32, n: i32) -> bool {
        m <= n
    }

    proof fn le_total(a: Seq<u8>, b: Seq<u8>) {
    }

    proof fn le_transitive(a: Seq<u8>, b: Seq<u8>, c: Seq<u8>) {
    }

    proof fn le_of_encode(m: i32, n: i32) {
        Self::decode_of_encode(m);
        Self::decode_of_encode(n);
    }

    fn compare(data1: &[u8], data2: &[u8]) -> (o: Ordering) {
        let x: i32 = Self::from_bytes(data1);
        let y: i32 = Self::from_bytes(data2);
        order_of(x < y, x == y)
    }
}

impl Value for i64 {
    type SelfType<'a> = i64;

    type Model = i64;

    open spec fn model<'a>(v: i64) -> i64 {
        v
    }

    open spec fn encode(m: i64) -> Seq<u8> {
        le_bytes(complement(m as int, u64::MAX as int) as nat, 8)
    }

    open spec fn encodable(m: i64) -> bool {
        true
    }

    open spec fn accepts(b: Seq<u8>) -> bool {
        b.len() == 8
    }

    open spec fn decode(b: Seq<u8>) -> i64 {
        from_complement(le_value(b) as int, u64::MAX as int) as i64
    }

    open spec fn width() -> Option<nat> {
        Some(8)
    }

    open spec fn width_fits() -> bool {
        true
    }

    open spec fn origin() -> crate::types::name::TypeClassification {
        crate::types::name::TypeClassification::Internal
    }

    open spec fn label() -> Seq<char> {
        "i64"@
    }

    proof fn decode_of_encode(m: i64) {
        lemma_powers();
        lemma_le_bytes(complement(m as int, u64::MAX as int) as nat, 8);
    }

    fn fixed_width() -> (w: Option<usize>) {
        Some(8)
    }

    fn from_bytes<'a>(data: &'a [u8]) -> (v: i64) {
        proof {
            lemma_powers();
            lemma_le_value(data@);
            assert(data@.take(8) =~= data@);
        }
        signed_of(from_le(data, 8), u64::MAX as u128) as i64
    }

    fn as_bytes<'a, 'b: 'a>(value: &'a i64) -> (b: Vec<u8>) {
        to_le(unsigned_of(*value as i128, u64::MAX as u128), 8)
    }

    fn name_of_type() -> (t: TypeName) {
        TypeName::internal("i64")
    }
}

impl Key for i64 {
    open spec fn le(a: Seq<u8>, b: Seq<u8>) -> bool {
        Self::decode(a) <= Self::decode(b)
    }

    open spec fn model_le(m: i64, n: i64) -> bool {
        m <= n
    }

    proof fn le_total(a: Seq<u8>, b: Seq<u8>) {
    }

    proof fn le_transitive(a: Seq<u8>, b: Seq<u8>, c: Seq<u8>) {
    }

    proof fn le_of_encode(m: i64, n: i64) {
        Self::decode_of_encode(m);
        Self::decode_of_encode(n);
    }

    fn compare(data1: &[u8], data2: &[u8]) -> (o: Ordering) {
        let x: i64 = Self::from_bytes(data1);
        let y: i64 = Self::from_bytes(data2);
        order_of(x < y, x == y)
    }
}

impl Value for i128 {
    type SelfType<'a> = i128;

    type Model = i128;

    open spec fn model<'a>(v: i128) -> i128 {
        v
    }

    open spec fn encode(m: i128) -> Seq<u8> {
        le_bytes(complement(m as int, u128::MAX as int) as nat, 16)
    }

    open spec fn encodable(m: i128) -> bool {
        true
    }

    open spec fn accepts(b: Seq<u8>) -> bool {
        b.len() == 16
    }

    open spec fn decode(b: Seq<u8>) -> i128 {
        from_complement(le_value(b) as int, u128::MAX as int) as i128
    }

    open spec fn width() -> Option<nat> {
        Some(16)
    }

    open spec fn width_fits() -> bool {
        true
    }

    open spec fn origin() -> crate::types::name::TypeClassification {
        crate::types::name::TypeClassification::Internal
    }

    open spec fn label() -> Seq<char> {
        "i128"@
    }

    proof fn decode_of_encode(m: i128) {
        lemma_powers();
        lemma_le_bytes(complement(m as int, u128::MAX as int) as nat, 16);
    }

    fn fixed_width() -> (w: Option<usize>) {
        Some(16)
    }

    fn from_bytes<'a>(data: &'a [u8]) -> (v: i128) {
        proof {
            lemma_powers();
            lemma_le_value(data@);
            assert(data@.take(16) =~= data@);
        }
        signed_of(from_le(data, 16), u128::MAX as u128) as i128
    }

    fn as_bytes<'a, 'b: 'a>(value: &'a i128) -> (b: Vec<u8>) {
        to_le(unsigned_of(*value as i128, u128::MAX as u128), 16)
    }

    fn name_of_type() -> (t: TypeName) {
        TypeName::internal("i128")
    }
}

impl Key for i128 {
    open spec fn le(a: Seq<u8>, b: Seq<u8>) -> bool {
        Self::decode(a) <= Self::decode(b)
    }

    open spec fn model_le(m: i128, n: i128) -> bool {
        m <= n
    }

    proof fn le_total(a: Seq<u8>, b: Seq<u8>) {
    }

    proof fn le_transitive(a: Seq<u8>, b: Seq<u8>, c: Seq<u8>) {
    }

    proof fn le_of_encode(m: i128, n: i128) {
        Self::decode_of_encode(m);
        Self::decode_of_encode(n);
    }

    fn compare(data1: &[u8], data2: &[u8]) -> (o: Ordering) {
        let x: i128 = Self::from_bytes(data1);
        let y: i128 = Self::from_bytes(data2);
        order_of(x < y, x == y)
    }
}

/// The ordering of two values of which it is known whether the first is less or equal.
fn order_of(less: bool, same: bool) -> (o: Ordering)
    ensures
        less ==> o is Less,
        !less && same ==> o is Equal,
        !less && !same ==> o is Greater,
{
    if less {
        Ordering::Less
    } else if same {
        Ordering::Equal
    } else {
        Ordering::Greater
    }
}

} // verus!
