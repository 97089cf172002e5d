//! The checksum of pages and log records: CRC-32, with the polynomial of IEEE 802.3.

use vstd::prelude::*;

verus! {

/// The register after one bit went out of it.
pub open spec fn shifted(crc: u32) -> u32 {
    if crc & 1 == 1 {
        (crc >> 1) ^ 0xEDB8_8320
    } else {
        crc >> 1
    }
}

/// The register after `n` bits went out of it.
pub open spec fn shifted_by(crc: u32, n: nat) -> u32
    decreases n,
{
    if n == 0 {
        crc
    } else {
        shifted(shifted_by(crc, (n - 1) as nat))
    }
}

/// The register after the bytes went through it.
pub open spec fn register(bytes: Seq<u8>) -> u32
    decreases bytes.len(),
{
    if bytes.len() == 0 {
        0xFFFF_FFFF
    } else {
        shifted_by(register(bytes.drop_last()) ^ (bytes.last() as u32), 8)
    }
}

/// The checksum of the bytes.
#[verifier::opaque]
pub open spec fn crc32_of(bytes: Seq<u8>) -> u32 {
    !register(bytes)
}

/// Calls `crc32fast::hash`, which computes the CRC-32 (IEEE) of the bytes that it is given:
/// the reflected form, with the register complemented at the start and at the end.
#[verifier::external_body]
pub(crate) fn crc32(bytes: &[u8]) -> (crc: u32)
    ensures
        crc == crc32_of(bytes@),
{
    crc32fast::hash(bytes)
}

/// Different registers stay different while bits go out of them.
proof fn lemma_shifted(a: u32, b: u32, n: nat)
    requires
        a != b,
    ensures
        shifted_by(a, n) != shifted_by(b, n),
    decreases n,
{
    if n > 0 {
        lemma_shifted(a, b, (n - 1) as nat);
        let x = shifted_by(a, (n - 1) as nat);
        let y = shifted_by(b, (n - 1) as nat);
        assert(x != y ==> (if x & 1 == 1 {
            (x >> 1) ^ 0xEDB8_8320
        } else {
            x >> 1
        }) != (if y & 1 == 1 {
            (y >> 1) ^ 0xEDB8_8320
        } else {
            y >> 1
        })) by (bit_vector);
    }
}

/// Bytes that differ at one place have different registers.
proof fn lemma_register_differs(a: Seq<u8>, i: int, b: u8)
    requires
        0 <= i < a.len(),
        a[i] != b,
    ensures
        register(a.update(i, b)) != register(a),
    decreases a.len(),
{
    let c = a.update(i, b);
    let n = a.len() - 1;
    let x = register(a.drop_last());
    let y = register(c.drop_last());
    let p = a.last() as u32;
    let q = c.last() as u32;
    if i == n {
        assert(c.drop_last() =~= a.drop_last());
        assert(p != q);
        assert(p != q ==> x ^ p != x ^ q) by (bit_vector);
    } else {
        lemma_register_differs(a.drop_last(), i, b);
        assert(c.drop_last() =~= a.drop_last().update(i, b));
        assert(x != y ==> x ^ p != y ^ p) by (bit_vector);
    }
    lemma_shifted(x ^ p, y ^ q, 8);
}

/// A byte that is changed changes the checksum.
pub proof fn law_changed_byte_changes_checksum(bytes: Seq<u8>, i: int, b: u8)
    requires
        0 <= i < bytes.len(),
        bytes[i] != b,
    ensures
        crc32_of(bytes.update(i, b)) != crc32_of(bytes),
{
    reveal(crc32_of);
    lemma_register_differs(bytes, i, b);
    let x = register(bytes);
    let y = register(bytes.update(i, b));
    assert(x != y ==> !x != !y) by (bit_vector);
}

} // verus!
