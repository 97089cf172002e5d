//! The bounded ring in which records wait to be written.

use crate::error::WalError;
use crate::page::Lsn;
use std::collections::VecDeque;
use vstd::prelude::*;

verus! {

/// Sequence number and length of a record in the ring.
#[derive(Debug, Clone, Copy)]
pub struct BufferedRecord {
    pub lsn: Lsn,
    pub len: usize,
}

/// A ring of whole records, the oldest first.
pub struct WalBuffer {
    pub bytes: Vec<u8>,
    pub read_pos: usize,
    pub write_pos: usize,
    pub records: VecDeque<BufferedRecord>,
}

/// The lengths of the first `k` records together.
pub open spec fn len_total(recs: Seq<BufferedRecord>, k: int) -> int
    decreases k,
{
    if k <= 0 {
        0
    } else {
        len_total(recs, k - 1) + recs[k - 1].len
    }
}

/// A position at most one round past the start, brought back into the ring.
pub open spec fn wrap(i: int, cap: int) -> int {
    if i < cap {
        i
    } else {
        i - cap
    }
}

/// The records that lie behind each other in `flat`.
pub open spec fn cut(flat: Seq<u8>, recs: Seq<BufferedRecord>) -> Seq<(Lsn, Seq<u8>)> {
    Seq::new(
        recs.len(),
        |k: int| (recs[k].lsn, flat.subrange(len_total(recs, k), len_total(recs, k + 1))),
    )
}

/// More records have no smaller total.
pub proof fn lemma_len_total_mono(recs: Seq<BufferedRecord>, i: int, j: int)
    requires
        0 <= i <= j <= recs.len(),
    ensures
        0 <= len_total(recs, i) <= len_total(recs, j),
        (forall|k: int| 0 <= k < recs.len() ==> recs[k].len > 0) && i < j ==> len_total(recs, i)
            < len_total(recs, j),
    decreases j,
{
    if i < j {
        lemma_len_total_mono(recs, i, j - 1);
    } else if i > 0 {
        lemma_len_total_mono(recs, i - 1, j - 1);
    }
}

proof fn lemma_len_total_same(a: Seq<BufferedRecord>, b: Seq<BufferedRecord>, k: int)
    requires
        0 <= k <= a.len(),
        k <= b.len(),
        forall|j: int| 0 <= j < k ==> a[j] == b[j],
    ensures
        len_total(a, k) == len_total(b, k),
    decreases k,
{
    if k > 0 {
        lemma_len_total_same(a, b, k - 1);
    }
}

/// Totals of the records behind the first `d`.
proof fn lemma_len_total_skip(recs: Seq<BufferedRecord>, d: int, k: int)
    requires
        0 <= d,
        0 <= k,
        d + k <= recs.len(),
    ensures
        len_total(recs.skip(d), k) == len_total(recs, d + k) - len_total(recs, d),
    decreases k,
{
    if k > 0 {
        lemma_len_total_skip(recs, d, k - 1);
    }
}

/// A record that is laid behind the others comes last.
proof fn lemma_cut_push(flat: Seq<u8>, recs: Seq<BufferedRecord>, r: BufferedRecord, b: Seq<u8>)
    requires
        flat.len() == len_total(recs, recs.len() as int),
        r.len == b.len(),
    ensures
        cut(flat + b, recs.push(r)) == cut(flat, recs).push((r.lsn, b)),
        (flat + b).len() == len_total(recs.push(r), (recs.len() + 1) as int),
{
    let rs = recs.push(r);
    let n = recs.len() as int;
    lemma_len_total_same(recs, rs, n);
    assert forall|k: int| 0 <= k <= n implies cut(flat + b, rs)[k] == cut(flat, recs).push(
        (r.lsn, b),
    )[k] by {
        lemma_len_total_same(recs, rs, k);
        if k < n {
            lemma_len_total_same(recs, rs, k + 1);
            lemma_len_total_mono(recs, 0, k);
            lemma_len_total_mono(recs, k, k + 1);
            lemma_len_total_mono(recs, k + 1, n);
            assert((flat + b).subrange(len_total(recs, k), len_total(recs, k + 1))
                =~= flat.subrange(len_total(recs, k), len_total(recs, k + 1)));
        } else {
            assert((flat + b).subrange(len_total(rs, n), len_total(rs, n + 1)) =~= b);
        }
    }
    assert(cut(flat + b, rs) =~= cut(flat, recs).push((r.lsn, b)));
}

/// Taking the first `d` records away leaves the others as they are.
proof fn lemma_cut_skip(flat: Seq<u8>, recs: Seq<BufferedRecord>, d: int)
    requires
        flat.len() == len_total(recs, recs.len() as int),
        0 <= d <= recs.len(),
    ensures
        cut(flat.skip(len_total(recs, d)), recs.skip(d)) == cut(flat, recs).skip(d),
        flat.skip(len_total(recs, d)).len() == len_total(recs.skip(d), recs.len() - d),
{
    let n = recs.len() as int;
    let o = len_total(recs, d);
    let f = flat.skip(o);
    let rs = recs.skip(d);
    lemma_len_total_mono(recs, d, n);
    lemma_len_total_skip(recs, d, n - d);
    assert forall|k: int| 0 <= k < n - d implies cut(f, rs)[k] == cut(flat, recs).skip(d)[k] by {
        lemma_len_total_skip(recs, d, k);
        lemma_len_total_skip(recs, d, k + 1);
        lemma_len_total_mono(recs, d, d + k);
        lemma_len_total_mono(recs, d + k, d + k + 1);
        lemma_len_total_mono(recs, d + k + 1, n);
        assert(f.subrange(len_total(rs, k), len_total(rs, k + 1)) =~= flat.subrange(
            len_total(recs, d + k),
            len_total(recs, d + k + 1),
        ));
    }
    assert(cut(f, rs) =~= cut(flat, recs).skip(d));
}

impl WalBuffer {
    /// Bytes in use.
    pub open spec fn used(&self) -> int {
        len_total(self.records@, self.records@.len() as int)
    }

    /// The bytes in use, the oldest first.
    pub open spec fn flat(&self) -> Seq<u8> {
        Seq::new(
            self.used() as nat,
            |i: int| self.bytes@[wrap(self.read_pos + i, self.bytes@.len() as int)],
        )
    }

    /// The positions lie in the ring, the records fit into it, and none is empty.
    pub open spec fn wf(&self) -> bool {
        let cap = self.bytes@.len() as int;
        &&& self.used() <= cap
        &&& forall|k: int| 0 <= k < self.records@.len() ==> #[trigger] self.records@[k].len > 0
        &&& cap == 0 ==> self.read_pos == 0 && self.write_pos == 0
        &&& cap > 0 ==> self.read_pos < cap && self.write_pos == wrap(
            self.read_pos + self.used(),
            cap,
        )
    }

    /// An empty ring of `capacity` bytes.
    pub fn with_capacity(capacity: usize) -> (b: Self)
        ensures
            b.wf(),
            b@ == Seq::<(Lsn, Seq<u8>)>::empty(),
            b.bytes@.len() == capacity,
            b.used() == 0,
    {
        let b = WalBuffer {
            bytes: vec![0u8; capacity],
            read_pos: 0,
            write_pos: 0,
            records: VecDeque::new(),
        };
        assert(b@ =~= Seq::<(Lsn, Seq<u8>)>::empty());
        b
    }

    /// Bytes that the ring holds in all.
    pub fn capacity(&self) -> (n: usize)
        ensures
            n == self.bytes@.len(),
    {
        self.bytes.len()
    }

    /// Whether no record waits.
    pub fn is_empty(&self) -> (b: bool)
        ensures
            b == (self@.len() == 0),
    {
        self.records.len() == 0
    }

    /// Bytes in use.
    pub fn used_space(&self) -> (n: usize)
        requires
            self.wf(),
        ensures
            n == self.used(),
    {
        proof {
            lemma_len_total_mono(self.records@, 0, self.records@.len() as int);
        }
        if self.is_empty() {
            0
        } else if self.write_pos == self.read_pos {
            self.capacity()
        } else if self.write_pos > self.read_pos {
            self.write_pos - self.read_pos
        } else {
            self.capacity() - self.read_pos + self.write_pos
        }
    }

    /// Bytes that are free.
    pub fn free_space(&self) -> (n: usize)
        requires
            self.wf(),
        ensures
            n == self.bytes@.len() - self.used(),
    {
        self.capacity() - self.used_space()
    }

    /// Appends a record, or refuses it and changes nothing: for good where it is longer
    /// than the ring, and for now where the free space is too small.
    pub fn push_record(&mut self, lsn: Lsn, record: &[u8]) -> (r: Result<(), WalError>)
        requires
            old(self).wf(),
            record@.len() > 0,
        ensures
            final(self).wf(),
            final(self).bytes@.len() == old(self).bytes@.len(),
            ({
                let cap = old(self).bytes@.len();
                let free = cap - old(self).used();
                if record@.len() > cap {
                    &&& r == Err::<(), WalError>(
                        WalError::RecordTooLarge {
                            lsn,
                            record_len: record@.len() as usize,
                            capacity: cap as usize,
                        },
                    )
                    &&& final(self)@ == old(self)@
                    &&& final(self).used() == old(self).used()
                } else if record@.len() > free {
                    &&& r == Err::<(), WalError>(
                        WalError::BufferFull {
                            needed: record@.len() as usize,
                            available: free as usize,
                        },
                    )
                    &&& final(self)@ == old(self)@
                    &&& final(self).used() == old(self).used()
                } else {
                    &&& r is Ok
                    &&& final(self)@ == old(self)@.push((lsn, record@))
                    &&& final(self).used() == old(self).used() + record@.len()
                }
            }),
    {
        if record.len() > self.capacity() {
            return Err(
                WalError::RecordTooLarge {
                    lsn,
                    record_len: record.len(),
                    capacity: self.capacity(),
                },
            );
        }
        if record.len() > self.free_space() {
            return Err(
                WalError::BufferFull { needed: record.len(), available: self.free_space() },
            );
        }
        let ghost before = *self;
        let ghost flat = self.flat();
        proof {
            lemma_len_total_mono(self.records@, 0, self.records@.len() as int);
        }
        self.copy_into_ring(record);
        let rec = BufferedRecord { lsn, len: record.len() };
        self.records.push_back(rec);
        proof {
            lemma_cut_push(flat, before.records@, rec, record@);
            assert(self.flat() =~= flat + record@);
        }
        Ok(())
    }

    /// Lays the record's bytes behind those in use.
    fn copy_into_ring(&mut self, record: &[u8])
        requires
            old(self).wf(),
            record@.len() > 0,
            old(self).used() + record@.len() <= old(self).bytes@.len(),
        ensures
            final(self).records@ == old(self).records@,
            final(self).read_pos == old(self).read_pos,
            final(self).bytes@.len() == old(self).bytes@.len(),
            final(self).write_pos == wrap(
                wrap(old(self).read_pos + old(self).used(), old(self).bytes@.len() as int)
                    + record@.len(),
                old(self).bytes@.len() as int,
            ),
            forall|i: int|
                0 <= i < old(self).used() ==> #[trigger] final(self).bytes@[wrap(
                    old(self).read_pos + i,
                    old(self).bytes@.len() as int,
                )] == old(self).bytes@[wrap(old(self).read_pos + i, old(self).bytes@.len() as int)],
            forall|i: int|
                0 <= i < record@.len() ==> final(self).bytes@[wrap(
                    old(self).read_pos + old(self).used() + i,
                    old(self).bytes@.len() as int,
                )] == #[trigger] record@[i],
    {
        let cap: usize = self.bytes.len();
        let ghost start = *self;
        proof {
            lemma_len_total_mono(self.records@, 0, self.records@.len() as int);
        }
        let mut i: usize = 0;
        let mut w: usize = self.write_pos;
        while i < record.len()
            invariant
                i <= record@.len(),
                start == *old(self),
                start.wf(),
                cap == start.bytes@.len(),
                cap > 0,
                0 <= start.used(),
                start.used() + record@.len() <= cap,
                self.records@ == start.records@,
                self.read_pos == start.read_pos,
                self.write_pos == start.write_pos,
                self.bytes@.len() == cap,
                w == wrap(start.write_pos + i, cap as int),
                forall|j: int|
                    0 <= j < start.used() ==> #[trigger] self.bytes@[wrap(
                        start.read_pos + j,
                        cap as int,
                    )] == start.bytes@[wrap(start.read_pos + j, cap as int)],
                forall|j: int|
                    0 <= j < i ==> self.bytes@[wrap(
                        start.read_pos + start.used() + j,
                        cap as int,
                    )] == #[trigger] record@[j],
            decreases record@.len() - i,
        {
            self.bytes.set(w, record[i]);
            w = w + 1;
            if w == cap {
                w = 0;
            }
            i = i + 1;
        }
        self.write_pos = w;
    }

    /// The bytes of all records and the sequence number of the last one, or `None` for
    /// an empty ring.
    pub fn buffered_prefix_len(&self) -> (r: Option<(usize, Lsn)>)
        requires
            self.wf(),
        ensures
            r is None <==> self@.len() == 0,
            r matches Some((n, lsn)) ==> n == self.used() && lsn == self@.last().0,
    {
        let n: usize = self.records.len();
        if n == 0 {
            return None;
        }
        Some((self.used_space(), self.records[n - 1].lsn))
    }

    /// A copy of all records, the oldest first.
    pub fn copy_records(&self) -> (out: Vec<(Lsn, Vec<u8>)>)
        requires
            self.wf(),
        ensures
            batch_view(out@) == self@,
    {
        let cap: usize = self.bytes.len();
        let n: usize = self.records.len();
        let mut out: Vec<(Lsn, Vec<u8>)> = Vec::new();
        let mut cursor: usize = self.read_pos;
        let mut k: usize = 0;
        assert(batch_view(out@) =~= self@.take(0));
        while k < n
            invariant
                self.wf(),
                cap == self.bytes@.len(),
                n == self.records@.len(),
                k <= n,
                cap > 0 ==> cursor == wrap(
                    self.read_pos + len_total(self.records@, k as int),
                    cap as int,
                ) || (k == n),
                batch_view(out@) == self@.take(k as int),
            decreases n - k,
        {
            let rec: BufferedRecord = self.records[k];
            let mut bytes: Vec<u8> = Vec::new();
            let mut i: usize = 0;
            let ghost off = len_total(self.records@, k as int);
            proof {
                lemma_len_total_mono(self.records@, 0, k as int);
                lemma_len_total_mono(self.records@, k as int, k + 1);
                lemma_len_total_mono(self.records@, k + 1, n as int);
            }
            while i < rec.len
                invariant
                    self.wf(),
                    cap == self.bytes@.len(),
                    cap > 0,
                    i <= rec.len,
                    0 <= off,
                    off + rec.len <= self.used(),
                    cursor == wrap(self.read_pos + off + i, cap as int) || (i == rec.len && off
                        + rec.len == self.used()),
                    bytes@ == self.flat().subrange(off, off + i),
                decreases rec.len - i,
            {
                bytes.push(self.bytes[cursor]);
                cursor = cursor + 1;
                if cursor == cap {
                    cursor = 0;
                }
                i = i + 1;
                assert(bytes@ =~= self.flat().subrange(off, off + i));
            }
            let ghost before = out@;
            out.push((rec.lsn, bytes));
            proof {
                assert(batch_view(out@) =~= batch_view(before).push((rec.lsn, bytes@)));
                assert(self@.take(k + 1) =~= self@.take(k as int).push(self@[k as int]));
            }
            k = k + 1;
        }
        proof {
            assert(self@.take(n as int) =~= self@);
        }
        out
    }

    /// Drops the first records, `bytes_to_consume` bytes of them. That must be the
    /// length of whole records.
    pub fn consume_prefix(&mut self, bytes_to_consume: usize)
        requires
            old(self).wf(),
            exists|d: int|
                0 <= d <= old(self)@.len() && #[trigger] len_total(old(self).records@, d)
                    == bytes_to_consume,
        ensures
            final(self).wf(),
            final(self).bytes@.len() == old(self).bytes@.len(),
            final(self).used() == old(self).used() - bytes_to_consume,
            forall|d: int|
                0 <= d <= old(self)@.len() && #[trigger] len_total(old(self).records@, d)
                    == bytes_to_consume ==> final(self)@ == old(self)@.skip(d),
    {
        let ghost start = *self;
        let ghost recs = self.records@;
        let ghost d = choose|d: int| 0 <= d <= recs.len() && len_total(recs, d) == bytes_to_consume;
        let ghost mut k: int = 0;
        let mut remaining: usize = bytes_to_consume;
        assert(recs.skip(0) =~= recs);
        proof {
            lemma_len_total_mono(recs, d, recs.len() as int);
        }
        while remaining > 0
            invariant
                start == *old(self),
                start.wf(),
                recs == start.records@,
                0 <= k <= d <= recs.len(),
                len_total(recs, d) == bytes_to_consume,
                remaining == bytes_to_consume - len_total(recs, k),
                self.records@ == recs.skip(k),
                self.bytes@ == start.bytes@,
                self.read_pos == start.read_pos,
                self.write_pos == start.write_pos,
            decreases remaining,
        {
            proof {
                lemma_len_total_mono(recs, k, d);
                assert(k < d);
                lemma_len_total_mono(recs, k + 1, d);
                assert(recs.skip(k)[0] == recs[k]);
                assert(recs[k].len > 0);
            }
            let record = self.records.pop_front();
            proof {
                assert(self.records@ =~= recs.skip(k + 1));
                k = k + 1;
            }
            match record {
                Some(rec) => {
                    remaining = remaining - rec.len;
                },
                None => {},
            }
        }
        proof {
            lemma_len_total_mono(recs, k, d);
            assert forall|e: int|
                0 <= e <= recs.len() && #[trigger] len_total(recs, e)
                    == bytes_to_consume implies e == d by {
                if e < d {
                    lemma_len_total_mono(recs, e, d);
                } else if d < e {
                    lemma_len_total_mono(recs, d, e);
                }
            }
            if k < d {
                lemma_len_total_mono(recs, k, d);
            }
            lemma_cut_skip(start.flat(), recs, d);
            lemma_len_total_mono(recs, 0, recs.len() as int);
        }
        let cap: usize = self.bytes.len();
        if bytes_to_consume > 0 {
            let room: usize = cap - self.read_pos;
            if bytes_to_consume < room {
                self.read_pos = self.read_pos + bytes_to_consume;
            } else {
                self.read_pos = bytes_to_consume - room;
            }
        }
        proof {
            assert(self.flat() =~= start.flat().skip(bytes_to_consume as int));
        }
        if self.records.len() == 0 {
            self.read_pos = 0;
            self.write_pos = 0;
            proof {
                assert(self@ =~= start@.skip(d));
            }
        }
    }
}

/// The records of a batch.
pub open spec fn batch_view(b: Seq<(Lsn, Vec<u8>)>) -> Seq<(Lsn, Seq<u8>)> {
    Seq::new(b.len(), |i: int| (b[i].0, b[i].1@))
}

impl View for WalBuffer {
    type V = Seq<(Lsn, Seq<u8>)>;

    open spec fn view(&self) -> Seq<(Lsn, Seq<u8>)> {
        cut(self.flat(), self.records@)
    }
}

} // verus!
