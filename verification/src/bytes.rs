//! Little-endian integers and byte ranges inside a page or record buffer.

use vstd::prelude::*;

verus! {

/// The 16-bit little-endian integer stored at `off`.
#[verifier::opaque]
pub open spec fn u16_at(s: Seq<u8>, off: int) -> u16 {
    (s[off] as int + 256 * (s[off + 1] as int)) as u16
}

/// The 32-bit little-endian integer stored at `off`.
#[verifier::opaque]
pub open spec fn u32_at(s: Seq<u8>, off: int) -> u32 {
    (u16_at(s, off) as int + 0x1_0000 * (u16_at(s, off + 2) as int)) as u32
}

/// The 64-bit little-endian integer stored at `off`.
#[verifier::opaque]
pub open spec fn u64_at(s: Seq<u8>, off: int) -> u64 {
    (u32_at(s, off) as int + 0x1_0000_0000 * (u32_at(s, off + 4) as int)) as u64
}

/// The two bytes of a 16-bit integer, least significant first.
#[verifier::opaque]
pub open spec fn u16_bytes(v: u16) -> Seq<u8> {
    seq![(v % 256) as u8, (v / 256) as u8]
}

/// The four bytes of a 32-bit integer, least significant first.
#[verifier::opaque]
pub open spec fn u32_bytes(v: u32) -> Seq<u8> {
    u16_bytes((v % 0x1_0000) as u16) + u16_bytes((v / 0x1_0000) as u16)
}

/// The eight bytes of a 64-bit integer, least significant first.
#[verifier::opaque]
pub open spec fn u64_bytes(v: u64) -> Seq<u8> {
    u32_bytes((v % 0x1_0000_0000) as u32) + u32_bytes((v / 0x1_0000_0000) as u32)
}

/// A 16-bit integer has two bytes.
pub broadcast proof fn lemma_u16_len(v: u16)
    ensures
        #[trigger] u16_bytes(v).len() == 2,
{
    reveal(u16_bytes);
}

/// A 32-bit integer has four bytes.
pub broadcast proof fn lemma_u32_len(v: u32)
    ensures
        #[trigger] u32_bytes(v).len() == 4,
{
    reveal(u16_bytes);
    reveal(u32_bytes);
}

/// A 64-bit integer has eight bytes.
pub broadcast proof fn lemma_u64_len(v: u64)
    ensures
        #[trigger] u64_bytes(v).len() == 8,
{
    reveal(u16_bytes);
    reveal(u32_bytes);
    reveal(u64_bytes);
}

pub broadcast group group_int_bytes {
    lemma_u16_len,
    lemma_u32_len,
    lemma_u64_len,
}

/// `s` with the bytes of `b` laid over it, starting at `off`.
pub open spec fn put(s: Seq<u8>, off: int, b: Seq<u8>) -> Seq<u8> {
    Seq::new(s.len(), |i: int| if off <= i < off + b.len() { b[i - off] } else { s[i] })
}

/// `s` and `t` hold the same bytes from `lo` up to `hi`.
pub open spec fn same(s: Seq<u8>, t: Seq<u8>, lo: int, hi: int) -> bool {
    forall|i: int| lo <= i < hi ==> #[trigger] s[i] == t[i]
}

/// The first byte of an integer counts ones, and each further byte 256 times what the one before
/// it counts.
pub proof fn law_little_endian(s: Seq<u8>, off: int)
    ensures
        u16_at(s, off) == s[off] + 0x100 * s[off + 1],
        u32_at(s, off) == s[off] + 0x100 * s[off + 1] + 0x1_0000 * s[off + 2] + 0x100_0000 * s[off
            + 3],
        u64_at(s, off) == s[off] + 0x100 * s[off + 1] + 0x1_0000 * s[off + 2] + 0x100_0000 * s[off
            + 3] + 0x1_0000_0000 * (s[off + 4] + 0x100 * s[off + 5] + 0x1_0000 * s[off + 6]
            + 0x100_0000 * s[off + 7]),
{
    reveal(u16_at);
    reveal(u32_at);
    reveal(u64_at);
}

/// Reading back the 16-bit integer that was laid at `off`.
pub broadcast proof fn lemma_put_u16(s: Seq<u8>, off: int, v: u16)
    requires
        0 <= off,
        off + 2 <= s.len(),
    ensures
        #[trigger] u16_at(put(s, off, u16_bytes(v)), off) == v,
{
    reveal(u16_at);
    reveal(u16_bytes);
}

/// Reading back the 32-bit integer that was laid at `off`.
pub broadcast proof fn lemma_put_u32(s: Seq<u8>, off: int, v: u32)
    requires
        0 <= off,
        off + 4 <= s.len(),
    ensures
        #[trigger] u32_at(put(s, off, u32_bytes(v)), off) == v,
{
    reveal(u16_at);
    reveal(u32_at);
    reveal(u16_bytes);
    reveal(u32_bytes);
    let t = put(s, off, u32_bytes(v));
    let lo = (v % 0x1_0000) as u16;
    let hi = (v / 0x1_0000) as u16;
    assert(t[off] == u16_bytes(lo)[0]);
    assert(t[off + 1] == u16_bytes(lo)[1]);
    assert(t[off + 2] == u16_bytes(hi)[0]);
    assert(t[off + 3] == u16_bytes(hi)[1]);
    assert(u16_at(t, off) == lo);
    assert(u16_at(t, off + 2) == hi);
}

/// Reading back the 64-bit integer that was laid at `off`.
pub broadcast proof fn lemma_put_u64(s: Seq<u8>, off: int, v: u64)
    requires
        0 <= off,
        off + 8 <= s.len(),
    ensures
        #[trigger] u64_at(put(s, off, u64_bytes(v)), off) == v,
{
    broadcast use group_int_bytes;

    reveal(u64_at);
    reveal(u64_bytes);
    let t = put(s, off, u64_bytes(v));
    let lo = (v % 0x1_0000_0000) as u32;
    let hi = (v / 0x1_0000_0000) as u32;
    lemma_put_u32(s, off, lo);
    lemma_put_u32(s, off + 4, hi);
    let a = put(s, off, u32_bytes(lo));
    let b = put(s, off + 4, u32_bytes(hi));
    assert forall|i: int| off <= i < off + 4 implies #[trigger] a[i] == t[i] by {
        assert(u64_bytes(v)[i - off] == u32_bytes(lo)[i - off]);
    }
    assert forall|i: int| off + 4 <= i < off + 8 implies #[trigger] b[i] == t[i] by {
        assert(u64_bytes(v)[i - off] == u32_bytes(hi)[i - off - 4]);
    }
    lemma_same_u32(a, t, off);
    lemma_same_u32(b, t, off + 4);
}

/// Equal bytes read as equal 16-bit integers.
pub proof fn lemma_same_u16(s: Seq<u8>, t: Seq<u8>, off: int)
    requires
        same(s, t, off, off + 2),
    ensures
        u16_at(s, off) == u16_at(t, off),
{
    reveal(u16_at);
    assert(s[off] == t[off]);
    assert(s[off + 1] == t[off + 1]);
}

/// Equal bytes at two offsets read as equal 16-bit integers.
pub proof fn lemma_moved_u16(s: Seq<u8>, off: int, t: Seq<u8>, to: int)
    requires
        s[off] == t[to],
        s[off + 1] == t[to + 1],
    ensures
        u16_at(s, off) == u16_at(t, to),
{
    reveal(u16_at);
}

/// Equal bytes read as equal 32-bit integers.
pub proof fn lemma_same_u32(s: Seq<u8>, t: Seq<u8>, off: int)
    requires
        forall|i: int| off <= i < off + 4 ==> #[trigger] s[i] == t[i],
    ensures
        u32_at(s, off) == u32_at(t, off),
{
    reveal(u16_at);
    reveal(u32_at);
    assert(s[off] == t[off] && s[off + 1] == t[off + 1]);
    assert(s[off + 2] == t[off + 2] && s[off + 3] == t[off + 3]);
}

/// Equal bytes read as equal 64-bit integers.
pub proof fn lemma_same_u64(s: Seq<u8>, t: Seq<u8>, off: int)
    requires
        same(s, t, off, off + 8),
    ensures
        u64_at(s, off) == u64_at(t, off),
{
    reveal(u64_at);
    lemma_same_u32(s, t, off);
    lemma_same_u32(s, t, off + 4);
}

/// The bytes at `off` are those of the 16-bit integer that they spell.
pub proof fn lemma_u16_spelled(s: Seq<u8>, off: int)
    requires
        0 <= off,
        off + 2 <= s.len(),
    ensures
        u16_bytes(u16_at(s, off)) == s.subrange(off, off + 2),
{
    reveal(u16_at);
    reveal(u16_bytes);
    assert(u16_bytes(u16_at(s, off)) =~= s.subrange(off, off + 2));
}

/// The bytes at `off` are those of the 32-bit integer that they spell.
pub proof fn lemma_u32_spelled(s: Seq<u8>, off: int)
    requires
        0 <= off,
        off + 4 <= s.len(),
    ensures
        u32_bytes(u32_at(s, off)) == s.subrange(off, off + 4),
{
    broadcast use group_int_bytes;

    reveal(u32_at);
    reveal(u32_bytes);
    lemma_u16_spelled(s, off);
    lemma_u16_spelled(s, off + 2);
    let v = u32_at(s, off);
    assert((v % 0x1_0000) as u16 == u16_at(s, off));
    assert((v / 0x1_0000) as u16 == u16_at(s, off + 2));
    assert(s.subrange(off, off + 4) =~= s.subrange(off, off + 2) + s.subrange(off + 2, off + 4));
}

/// The bytes `b` stand in `s` at `off`.
pub open spec fn stands_at(s: Seq<u8>, off: int, b: Seq<u8>) -> bool {
    &&& 0 <= off
    &&& off + b.len() <= s.len()
    &&& s.subrange(off, off + b.len()) == b
}

/// Parts of bytes that stand somewhere stand behind each other.
pub proof fn lemma_stands_split(s: Seq<u8>, off: int, a: Seq<u8>, b: Seq<u8>)
    requires
        stands_at(s, off, a + b),
    ensures
        stands_at(s, off, a),
        stands_at(s, off + a.len(), b),
{
    let t = s.subrange(off, off + a.len() + b.len());
    assert(t == a + b);
    assert(s.subrange(off, off + a.len()) =~= a) by {
        assert forall|i: int| 0 <= i < a.len() implies s[off + i] == a[i] by {
            assert(t[i] == (a + b)[i]);
        }
    }
    assert(s.subrange(off + a.len(), off + a.len() + b.len()) =~= b) by {
        assert forall|i: int| 0 <= i < b.len() implies s[off + a.len() + i] == b[i] by {
            assert(t[a.len() + i] == (a + b)[a.len() + i]);
        }
    }
}

/// A 16-bit integer is read where its bytes stand.
pub proof fn lemma_stands_u16(s: Seq<u8>, off: int, v: u16)
    requires
        stands_at(s, off, u16_bytes(v)),
    ensures
        u16_at(s, off) == v,
{
    broadcast use group_int_bytes;

    lemma_put_u16(s, off, v);
    assert(put(s, off, u16_bytes(v)) =~= s) by {
        assert forall|i: int| off <= i < off + 2 implies s[i] == u16_bytes(v)[i - off] by {
            assert(s.subrange(off, off + 2)[i - off] == u16_bytes(v)[i - off]);
        }
    }
}

/// A 32-bit integer is read where its bytes stand.
pub proof fn lemma_stands_u32(s: Seq<u8>, off: int, v: u32)
    requires
        stands_at(s, off, u32_bytes(v)),
    ensures
        u32_at(s, off) == v,
{
    broadcast use group_int_bytes;

    lemma_put_u32(s, off, v);
    assert(put(s, off, u32_bytes(v)) =~= s) by {
        assert forall|i: int| off <= i < off + 4 implies s[i] == u32_bytes(v)[i - off] by {
            assert(s.subrange(off, off + 4)[i - off] == u32_bytes(v)[i - off]);
        }
    }
}

/// A 64-bit integer is read where its bytes stand.
pub proof fn lemma_stands_u64(s: Seq<u8>, off: int, v: u64)
    requires
        stands_at(s, off, u64_bytes(v)),
    ensures
        u64_at(s, off) == v,
{
    broadcast use group_int_bytes;

    lemma_put_u64(s, off, v);
    assert(put(s, off, u64_bytes(v)) =~= s) by {
        assert forall|i: int| off <= i < off + 8 implies s[i] == u64_bytes(v)[i - off] by {
            assert(s.subrange(off, off + 8)[i - off] == u64_bytes(v)[i - off]);
        }
    }
}

/// Reads one byte.
pub fn read_u8(data: &[u8], off: usize) -> (v: u8)
    requires
        off < data.len(),
    ensures
        v == data@[off as int],
{
    data[off]
}

/// Reads a 16-bit little-endian integer.
pub fn read_u16(data: &[u8], off: usize) -> (v: u16)
    requires
        off + 2 <= data.len(),
    ensures
        v == u16_at(data@, off as int),
{
    proof {
        reveal(u16_at);
    }
    data[off] as u16 + 256 * (data[off + 1] as u16)
}

/// Reads a 32-bit little-endian integer.
pub fn read_u32(data: &[u8], off: usize) -> (v: u32)
    requires
        off + 4 <= data.len(),
    ensures
        v == u32_at(data@, off as int),
{
    proof {
        reveal(u32_at);
    }
    let lo: u16 = read_u16(data, off);
    let hi: u16 = read_u16(data, off + 2);
    lo as u32 + 0x1_0000 * (hi as u32)
}

/// Reads a 64-bit little-endian integer.
pub fn read_u64(data: &[u8], off: usize) -> (v: u64)
    requires
        off + 8 <= data.len(),
    ensures
        v == u64_at(data@, off as int),
{
    proof {
        reveal(u64_at);
    }
    let lo: u32 = read_u32(data, off);
    let hi: u32 = read_u32(data, off + 4);
    lo as u64 + 0x1_0000_0000 * (hi as u64)
}

/// Writes one byte.
pub fn write_u8(data: &mut [u8], off: usize, val: u8)
    requires
        off < old(data).len(),
    ensures
        final(data)@ == put(old(data)@, off as int, seq![val]),
{
    data[off] = val;
    assert(data@ =~= put(old(data)@, off as int, seq![val]));
}

/// Writes a 16-bit little-endian integer.
pub fn write_u16(data: &mut [u8], off: usize, val: u16)
    requires
        off + 2 <= old(data).len(),
    ensures
        final(data)@ == put(old(data)@, off as int, u16_bytes(val)),
{
    proof {
        reveal(u16_bytes);
    }
    data[off] = (val % 256) as u8;
    data[off + 1] = (val / 256) as u8;
    assert(data@ =~= put(old(data)@, off as int, u16_bytes(val)));
}

/// Writes a 32-bit little-endian integer.
pub fn write_u32(data: &mut [u8], off: usize, val: u32)
    requires
        off + 4 <= old(data).len(),
    ensures
        final(data)@ == put(old(data)@, off as int, u32_bytes(val)),
{
    proof {
        broadcast use group_int_bytes;

        reveal(u32_bytes);
    }
    write_u16(data, off, (val % 0x1_0000) as u16);
    write_u16(data, off + 2, (val / 0x1_0000) as u16);
    assert(data@ =~= put(old(data)@, off as int, u32_bytes(val)));
}

/// Writes a 64-bit little-endian integer.
pub fn write_u64(data: &mut [u8], off: usize, val: u64)
    requires
        off + 8 <= old(data).len(),
    ensures
        final(data)@ == put(old(data)@, off as int, u64_bytes(val)),
{
    proof {
        broadcast use group_int_bytes;

        reveal(u64_bytes);
    }
    write_u32(data, off, (val % 0x1_0000_0000) as u32);
    write_u32(data, off + 4, (val / 0x1_0000_0000) as u32);
    assert(data@ =~= put(old(data)@, off as int, u64_bytes(val)));
}

/// Copies `src` into `data`, starting at `off`.
pub fn write_bytes(data: &mut [u8], off: usize, src: &[u8])
    requires
        off + src@.len() <= old(data).len(),
    ensures
        final(data)@ == put(old(data)@, off as int, src@),
{
    let n: usize = src.len();
    let mut i: usize = 0;
    while i < n
        invariant
            i <= n,
            n == src@.len(),
            off + n <= old(data).len(),
            data@.len() == old(data)@.len(),
            forall|j: int|
                0 <= j < data@.len() ==> #[trigger] data@[j] == if off <= j < off + i {
                    src@[j - off]
                } else {
                    old(data)@[j]
                },
        decreases n - i,
    {
        data[off + i] = src[i];
        i = i + 1;
    }
    assert(data@ =~= put(old(data)@, off as int, src@));
}

/// Sets `len` bytes to zero, starting at `off`.
pub fn zero_bytes(data: &mut [u8], off: usize, len: usize)
    requires
        off + len <= old(data).len(),
    ensures
        final(data)@ == put(old(data)@, off as int, Seq::new(len as nat, |i: int| 0u8)),
{
    let mut i: usize = 0;
    while i < len
        invariant
            i <= len,
            off + len <= old(data).len(),
            data@.len() == old(data)@.len(),
            forall|j: int|
                0 <= j < data@.len() ==> #[trigger] data@[j] == if off <= j < off + i {
                    0u8
                } else {
                    old(data)@[j]
                },
        decreases len - i,
    {
        data[off + i] = 0;
        i = i + 1;
    }
    assert(data@ =~= put(old(data)@, off as int, Seq::new(len as nat, |i: int| 0u8)));
}

/// A copy of the bytes from `lo` up to `hi`.
pub fn copy_range(data: &[u8], lo: usize, hi: usize) -> (out: Vec<u8>)
    requires
        lo <= hi <= data@.len(),
    ensures
        out@ == data@.subrange(lo as int, hi as int),
{
    vstd::slice::slice_to_vec(vstd::slice::slice_subrange(data, lo, hi))
}

/// Appends a 16-bit little-endian integer.
pub fn push_u16(out: &mut Vec<u8>, val: u16)
    ensures
        final(out)@ == old(out)@ + u16_bytes(val),
{
    proof {
        reveal(u16_bytes);
    }
    out.push((val % 256) as u8);
    out.push((val / 256) as u8);
    assert(out@ =~= old(out)@ + u16_bytes(val));
}

/// Appends a 32-bit little-endian integer.
pub fn push_u32(out: &mut Vec<u8>, val: u32)
    ensures
        final(out)@ == old(out)@ + u32_bytes(val),
{
    proof {
        broadcast use group_int_bytes;

        reveal(u32_bytes);
    }
    push_u16(out, (val % 0x1_0000) as u16);
    push_u16(out, (val / 0x1_0000) as u16);
    assert(out@ =~= old(out)@ + u32_bytes(val));
}

/// Appends a 64-bit little-endian integer.
pub fn push_u64(out: &mut Vec<u8>, val: u64)
    ensures
        final(out)@ == old(out)@ + u64_bytes(val),
{
    proof {
        broadcast use group_int_bytes;

        reveal(u64_bytes);
    }
    push_u32(out, (val % 0x1_0000_0000) as u32);
    push_u32(out, (val / 0x1_0000_0000) as u32);
    assert(out@ =~= old(out)@ + u64_bytes(val));
}

/// Appends the bytes of `src`.
pub fn push_bytes(out: &mut Vec<u8>, src: &[u8])
    ensures
        final(out)@ == old(out)@ + src@,
{
    let n: usize = src.len();
    let mut i: usize = 0;
    while i < n
        invariant
            i <= n,
            n == src@.len(),
            out@ == old(out)@ + src@.subrange(0, i as int),
        decreases n - i,
    {
        out.push(src[i]);
        i = i + 1;
        assert(out@ =~= old(out)@ + src@.subrange(0, i as int));
    }
    assert(src@.subrange(0, n as int) =~= src@);
}

} // verus!
