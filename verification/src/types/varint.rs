//! Numbers in a variable number of bytes: seven bits in each, the least significant ones
//! first, with the highest bit set in all bytes but the last.

use vstd::prelude::*;

verus! {

/// The bytes of a number.
pub open spec fn varint(n: nat) -> Seq<u8>
    decreases n,
{
    if n < 128 {
        seq![n as u8]
    } else {
        seq![(128 + n % 128) as u8] + varint(n / 128)
    }
}

/// The number that starts at `p`, and where it ends. `None` where the bytes end before it.
pub open spec fn varint_at(s: Seq<u8>, p: int) -> Option<(nat, int)>
    decreases s.len() - p,
{
    if p < 0 || p >= s.len() {
        None
    } else if s[p] < 128 {
        Some((s[p] as nat, p + 1))
    } else {
        match varint_at(s, p + 1) {
            Some((v, q)) => Some(((s[p] - 128 + 128 * v) as nat, q)),
            None => None,
        }
    }
}

/// A number that was written is read back.
pub proof fn law_varint_is_read(s: Seq<u8>, p: int, n: nat)
    requires
        0 <= p,
        p + varint(n).len() <= s.len(),
        s.subrange(p, p + varint(n).len()) == varint(n),
    ensures
        varint_at(s, p) == Some((n, p + varint(n).len())),
        varint(n).len() > 0,
    decreases n,
{
    let b = varint(n);
    assert(s[p] == s.subrange(p, p + b.len())[0]);
    if n >= 128 {
        let rest = varint(n / 128);
        assert(s.subrange(p + 1, p + 1 + rest.len()) =~= rest) by {
            assert forall|i: int| 0 <= i < rest.len() implies s[p + 1 + i] == rest[i] by {
                assert(s.subrange(p, p + b.len())[1 + i] == b[1 + i]);
            }
        }
        law_varint_is_read(s, p + 1, n / 128);
    }
}

/// A number that is read ends behind its start, within the bytes.
pub proof fn lemma_varint_ends(s: Seq<u8>, p: int)
    ensures
        varint_at(s, p) matches Some((v, q)) ==> p < q <= s.len(),
    decreases s.len() - p,
{
    if 0 <= p < s.len() && s[p] >= 128 {
        lemma_varint_ends(s, p + 1);
    }
}

/// Writes a number.
pub fn encode_usize_varint(value: usize, result: &mut Vec<u8>)
    ensures
        final(result)@ == old(result)@ + varint(value as nat),
{
    let mut rest: usize = value;
    let ghost start = result@;
    assert(start + varint(value as nat) =~= result@ + varint(rest as nat));
    while rest >= 128
        invariant
            start + varint(value as nat) == result@ + varint(rest as nat),
        decreases rest,
    {
        let ghost before = result@;
        result.push((128 + rest % 128) as u8);
        proof {
            let tail = varint((rest / 128) as nat);
            assert(before + (seq![(128 + rest % 128) as u8] + tail) =~= result@ + tail);
        }
        rest = rest / 128;
    }
    result.push(rest as u8);
    assert(result@ =~= start + varint(value as nat));
}

/// Reads the number at `offset`, and where it ends.
pub fn decode_usize_varint(data: &[u8], offset: usize) -> (r: (usize, usize))
    requires
        varint_at(data@, offset as int) matches Some((v, q)) && v <= usize::MAX,
    ensures
        varint_at(data@, offset as int) == Some((r.0 as nat, r.1 as int)),
        offset < r.1 <= data@.len(),
{
    let ghost whole = varint_at(data@, offset as int)->0;
    proof {
        lemma_varint_ends(data@, offset as int);
    }
    let mut last: usize = offset;
    while data[last] >= 128
        invariant
            offset <= last < data@.len(),
            varint_at(data@, last as int) matches Some((v, q)) && q == whole.1,
            forall|i: int| offset <= i < last ==> #[trigger] data@[i] >= 128,
            whole.1 <= data@.len(),
        decreases data@.len() - last,
    {
        proof {
            lemma_varint_ends(data@, last + 1);
        }
        last = last + 1;
    }
    let mut value: usize = data[last] as usize;
    let mut i: usize = last;
    while i > offset
        invariant
            offset <= i <= last < data@.len(),
            varint_at(data@, i as int) == Some((value as nat, last + 1)),
            data@[last as int] < 128,
            forall|j: int| offset <= j < last ==> #[trigger] data@[j] >= 128,
            varint_at(data@, offset as int) matches Some((v, q)) && v <= usize::MAX,
        decreases i,
    {
        proof {
            lemma_tail_is_less(data@, offset as int, i - 1, last as int);
        }
        i = i - 1;
        value = (data[i] - 128) as usize + 128 * value;
    }
    (value, last + 1)
}

/// The bytes further on stand for no greater number.
proof fn lemma_tail_is_less(s: Seq<u8>, p: int, i: int, last: int)
    requires
        0 <= p <= i < last < s.len(),
        forall|j: int| p <= j < last ==> #[trigger] s[j] >= 128,
        varint_at(s, last) is Some,
    ensures
        varint_at(s, i) is Some,
        varint_at(s, p) is Some,
        (varint_at(s, i)->0).0 <= (varint_at(s, p)->0).0,
    decreases last - p,
{
    lemma_reads_on(s, i, last);
    if p < i {
        lemma_reads_on(s, p, last);
        lemma_tail_is_less(s, p + 1, i, last);
    }
}

proof fn lemma_reads_on(s: Seq<u8>, p: int, last: int)
    requires
        0 <= p <= last < s.len(),
        forall|j: int| p <= j < last ==> #[trigger] s[j] >= 128,
        varint_at(s, last) is Some,
    ensures
        varint_at(s, p) is Some,
    decreases last - p,
{
    if p < last {
        lemma_reads_on(s, p + 1, last);
    }
}

} // verus!
