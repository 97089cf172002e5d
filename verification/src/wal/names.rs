//! The file names of log segments.
//!
//! A segment's name is `wal_`, its number with at least five digits, and `.log`. Names are
//! handled as bytes; whoever has them as text takes the text's bytes.

use crate::wal::Wal;
use crate::wal::record::{found_at, Found, ReadOutcome, WalRecordType};
use crate::wal::segment::Segment;
use vstd::prelude::*;

verus! {

/// What a segment's name starts with: `wal_`.
pub open spec fn name_prefix() -> Seq<u8> {
    seq![119u8, 97, 108, 95]
}

/// What a segment's name ends with: `.log`.
pub open spec fn name_suffix() -> Seq<u8> {
    seq![46u8, 108, 111, 103]
}

/// The decimal digits of a number, without leading zeros.
pub open spec fn decimal(n: nat) -> Seq<u8>
    decreases n,
{
    if n < 10 {
        seq![(48 + n) as u8]
    } else {
        decimal(n / 10).push((48 + n % 10) as u8)
    }
}

/// So many zeros.
pub open spec fn zeros(n: int) -> Seq<u8> {
    Seq::new(
        if n > 0 {
            n as nat
        } else {
            0
        },
        |i: int| 48u8,
    )
}

/// The digits of a number with zeros before them, five at least.
pub open spec fn padded(n: nat) -> Seq<u8> {
    zeros(5 - decimal(n).len()) + decimal(n)
}

/// The name of the segment with the number.
pub open spec fn name_of(index: u64) -> Seq<u8> {
    name_prefix() + padded(index as nat) + name_suffix()
}

/// The bytes are digits.
pub open spec fn all_digits(s: Seq<u8>) -> bool {
    forall|i: int| 0 <= i < s.len() ==> 48 <= #[trigger] s[i] <= 57
}

/// The number that the digits stand for.
pub open spec fn value(s: Seq<u8>) -> nat
    decreases s.len(),
{
    if s.len() == 0 {
        0
    } else {
        (10 * value(s.drop_last()) + (s.last() - 48)) as nat
    }
}

/// The number that the bytes stand for: digits, with a plus sign before them or not.
pub open spec fn number_of(s: Seq<u8>) -> Option<u64> {
    let digits = if s.len() > 0 && s[0] == 43 {
        s.skip(1)
    } else {
        s
    };
    if digits.len() > 0 && all_digits(digits) && value(digits) <= u64::MAX {
        Some(value(digits) as u64)
    } else {
        None
    }
}

/// The number of the segment with the name, where it is the name of one.
pub open spec fn index_of(name: Seq<u8>) -> Option<u64> {
    if name.len() >= 8 && name.take(4) == name_prefix() && name.skip(name.len() - 4)
        == name_suffix() {
        number_of(name.subrange(4, name.len() - 4))
    } else {
        None
    }
}

/// The digits of a number stand for it.
proof fn lemma_decimal(n: nat)
    ensures
        value(decimal(n)) == n,
        all_digits(decimal(n)),
        decimal(n).len() > 0,
    decreases n,
{
    if n < 10 {
        assert(decimal(n).drop_last() =~= Seq::empty());
        assert(value(decimal(n).drop_last()) == 0);
    } else {
        lemma_decimal(n / 10);
        assert(decimal(n).drop_last() =~= decimal(n / 10));
    }
}

/// Zeros before the digits change nothing.
proof fn lemma_leading_zeros(z: int, s: Seq<u8>)
    requires
        all_digits(s),
    ensures
        value(zeros(z) + s) == value(s),
        all_digits(zeros(z) + s),
    decreases s.len(), z,
{
    let t = zeros(z) + s;
    if s.len() > 0 {
        assert(all_digits(s.drop_last()));
        lemma_leading_zeros(z, s.drop_last());
        assert(t.drop_last() =~= zeros(z) + s.drop_last());
    } else {
        assert(t =~= zeros(z));
        if z > 0 {
            lemma_leading_zeros(z - 1, s);
            assert(zeros(z).drop_last() =~= zeros(z - 1) + s);
        }
    }
}

/// The number that a name was made from is the number that is read from it.
pub proof fn law_name_is_read(index: u64)
    ensures
        index_of(name_of(index)) == Some(index),
{
    let n = index as nat;
    lemma_decimal(n);
    lemma_leading_zeros(5 - decimal(n).len(), decimal(n));
    let name = name_of(index);
    assert(name.take(4) =~= name_prefix());
    assert(name.skip(name.len() - 4) =~= name_suffix());
    assert(name.subrange(4, name.len() - 4) =~= padded(n));
    assert(48 <= padded(n)[0] <= 57);
}

/// The bytes of a segment's name.
pub fn segment_file_name(index: u64) -> (name: Vec<u8>)
    ensures
        name@ == name_of(index),
{
    let mut digits: Vec<u8> = Vec::new();
    let mut rest: u64 = index;
    let ghost n = index as nat;
    loop
        invariant_except_break
            decimal(n) == decimal(rest as nat) + digits@.reverse(),
        ensures
            decimal(n) == digits@.reverse(),
        decreases rest,
    {
        let d: u8 = (rest % 10) as u8;
        let ghost before = digits@;
        digits.push(48 + d);
        proof {
            assert(digits@.reverse() =~= seq![(48 + d) as u8] + before.reverse());
        }
        if rest < 10 {
            assert(decimal(n) =~= digits@.reverse());
            break;
        }
        proof {
            assert(decimal(rest as nat) + before.reverse() =~= decimal((rest / 10) as nat)
                + digits@.reverse());
        }
        rest = rest / 10;
    }
    let mut name: Vec<u8> = Vec::new();
    name.push(119);
    name.push(97);
    name.push(108);
    name.push(95);
    assert(name@ =~= name_prefix() + zeros(0));
    let mut pad: usize = 0;
    while pad + digits.len() < 5
        invariant
            pad <= 5,
            name@ == name_prefix() + zeros(pad as int),
            pad > 0 ==> pad + digits@.len() <= 5,
        ensures
            name@ == name_prefix() + zeros(5 - digits@.len()),
        decreases 5 - pad,
    {
        name.push(48);
        pad = pad + 1;
        assert(name@ =~= name_prefix() + zeros(pad as int));
    }
    let mut i: usize = digits.len();
    while i > 0
        invariant
            i <= digits@.len(),
            name@ == name_prefix() + zeros(5 - digits@.len()) + digits@.reverse().take(
                digits@.len() - i,
            ),
        decreases i,
    {
        i = i - 1;
        name.push(digits[i]);
        proof {
            let k = digits@.len() - i;
            assert(digits@.reverse().take(k) =~= digits@.reverse().take(k - 1).push(
                digits@[i as int],
            ));
            assert(name@ =~= name_prefix() + zeros(5 - digits@.len()) + digits@.reverse().take(k));
        }
    }
    assert(digits@.reverse().take(digits@.len() as int) =~= digits@.reverse());
    name.push(46);
    name.push(108);
    name.push(111);
    name.push(103);
    assert(name@ =~= name_of(index));
    name
}

/// The number that the bytes stand for, or `None`.
fn parse_number(s: &[u8], lo: usize, hi: usize) -> (n: Option<u64>)
    requires
        lo <= hi <= s.len(),
    ensures
        n == number_of(s@.subrange(lo as int, hi as int)),
{
    let ghost all = s@.subrange(lo as int, hi as int);
    let start: usize = if lo < hi && s[lo] == 43 {
        lo + 1
    } else {
        lo
    };
    let ghost digits = s@.subrange(start as int, hi as int);
    proof {
        if start > lo {
            assert(all[0] == 43);
            assert(all.skip(1) =~= digits);
        } else if all.len() > 0 {
            assert(all[0] == s@[lo as int]);
        }
    }
    if start == hi {
        return None;
    }
    let mut n: u64 = 0;
    let mut i: usize = start;
    while i < hi
        invariant
            lo <= start <= i <= hi <= s@.len(),
            digits == s@.subrange(start as int, hi as int),
            all == s@.subrange(lo as int, hi as int),
            number_of(all) == (if all_digits(digits) && value(digits) <= u64::MAX {
                Some(value(digits) as u64)
            } else {
                None
            }),
            n == value(digits.take(i - start)),
            all_digits(digits.take(i - start)),
        decreases hi - i,
    {
        let ghost k = i - start;
        assert(digits[k] == s@[i as int]);
        assert(digits.take(k + 1).drop_last() =~= digits.take(k));
        let b: u8 = s[i];
        if b < 48 || b > 57 {
            return None;
        }
        let d: u64 = (b - 48) as u64;
        let next: Option<u64> = match n.checked_mul(10) {
            Some(m) => m.checked_add(d),
            None => None,
        };
        match next {
            Some(m) => {
                n = m;
            },
            None => {
                proof {
                    lemma_value_grows(digits, k + 1);
                }
                return None;
            },
        }
        i = i + 1;
    }
    assert(digits.take(digits.len() as int) =~= digits);
    Some(n)
}

/// More digits stand for no smaller number.
proof fn lemma_value_grows(s: Seq<u8>, k: int)
    requires
        0 <= k <= s.len(),
    ensures
        all_digits(s) ==> value(s.take(k)) <= value(s),
    decreases s.len() - k,
{
    if k < s.len() {
        lemma_value_grows(s, k + 1);
        assert(s.take(k + 1).drop_last() =~= s.take(k));
        if all_digits(s) {
            assert(48 <= s[k]);
        }
    } else {
        assert(s.take(k) =~= s);
    }
}

/// The number of the segment with the name, or `None` where it is not the name of one.
pub fn parse_segment_index(name: &[u8]) -> (index: Option<u64>)
    ensures
        index == index_of(name@),
{
    let n: usize = name.len();
    if n < 8 {
        return None;
    }
    let starts: bool = name[0] == 119 && name[1] == 97 && name[2] == 108 && name[3] == 95;
    let ends: bool = name[n - 4] == 46 && name[n - 3] == 108 && name[n - 2] == 111 && name[n - 1]
        == 103;
    proof {
        if starts {
            assert(name@.take(4) =~= name_prefix());
        } else {
            assert(name@.take(4) == name_prefix() ==> {
                &&& name@.take(4)[0] == name_prefix()[0]
                &&& name@.take(4)[1] == name_prefix()[1]
                &&& name@.take(4)[2] == name_prefix()[2]
                &&& name@.take(4)[3] == name_prefix()[3]
            });
        }
        let tail = name@.skip(n - 4);
        if ends {
            assert(tail =~= name_suffix());
        } else {
            assert(tail == name_suffix() ==> {
                &&& tail[0] == name_suffix()[0]
                &&& tail[1] == name_suffix()[1]
                &&& tail[2] == name_suffix()[2]
                &&& tail[3] == name_suffix()[3]
            });
        }
    }
    if !starts || !ends {
        return None;
    }
    parse_number(name, 4, n - 4)
}

/// A segment's name starts with `wal_`, ends with `.log`, and has the number between them, in at
/// least five digits, the last of which counts ones.
pub proof fn law_name_layout(index: u64)
    ensures
        ({
            let name = name_of(index);
            let n = name.len() as int;
            &&& name.take(4) == seq![119u8, 97, 108, 95]
            &&& name.skip(n - 4) == seq![46u8, 108, 111, 103]
            &&& n >= 13
            &&& index < 100000 ==> n == 13
            &&& index >= 100000 ==> name[4] != 48
            &&& all_digits(name.subrange(4, n - 4))
            &&& value(name.subrange(4, n - 4)) == index
            &&& name[n - 5] == 48 + index % 10
        }),
{
    let n = index as nat;
    lemma_decimal(n);
    lemma_leading_zeros(5 - decimal(n).len(), decimal(n));
    let name = name_of(index);
    assert(name.take(4) =~= seq![119u8, 97, 108, 95]);
    assert(name.skip(name.len() - 4) =~= seq![46u8, 108, 111, 103]);
    assert(name.subrange(4, name.len() - 4) =~= padded(n));
    assert(decimal(n).last() == 48 + n % 10);
    lemma_no_leading_zero(n);
    if n < 100000 {
        assert(decimal(n).len() <= 5) by {
            reveal_with_fuel(decimal, 6);
        }
    } else {
        assert(decimal(n).len() >= 5) by {
            reveal_with_fuel(decimal, 6);
        }
        assert(name[4] == decimal(n)[0]);
    }
}

/// The digits of a number do not start with a zero, unless it is zero.
proof fn lemma_no_leading_zero(n: nat)
    ensures
        decimal(n).len() > 0,
        n > 0 ==> decimal(n)[0] != 48,
    decreases n,
{
    if n >= 10 {
        lemma_no_leading_zero(n / 10);
    }
}

/// Different segments have different names.
pub proof fn law_names_differ(a: u64, b: u64)
    requires
        a != b,
    ensures
        name_of(a) != name_of(b),
{
    law_name_is_read(a);
    law_name_is_read(b);
}

/// Segments are listed by their numbers, and each before another or behind it.
pub proof fn law_listed_by_number(x: (u64, usize), y: (u64, usize))
    ensures
        x.0 < y.0 ==> in_order(x, y),
        in_order(x, y) ==> x.0 <= y.0 && !in_order(y, x),
        x.1 != y.1 ==> in_order(x, y) || in_order(y, x),
{
}

/// The entry stands for a segment file: its number, and its place in the list of names.
pub open spec fn listed(names: Seq<Vec<u8>>, e: (u64, usize)) -> bool {
    e.1 < names.len() && index_of(names[e.1 as int]@) == Some(e.0)
}

/// Entries by number, those with equal numbers in the order of the list.
pub open spec fn in_order(x: (u64, usize), y: (u64, usize)) -> bool {
    x.0 < y.0 || (x.0 == y.0 && x.1 < y.1)
}

/// The segment files among the names, by their numbers: for each its number and its place
/// in the list.
pub fn list_segments(names: &Vec<Vec<u8>>) -> (out: Vec<(u64, usize)>)
    ensures
        forall|i: int| 0 <= i < out@.len() ==> listed(names@, #[trigger] out@[i]),
        forall|i: int, j: int| 0 <= i < j < out@.len() ==> in_order(out@[i], out@[j]),
        forall|n: int|
            0 <= n < names@.len() && index_of(#[trigger] names@[n]@) is Some ==> out@.contains(
                (index_of(names@[n]@)->0, n as usize),
            ),
{
    let mut out: Vec<(u64, usize)> = Vec::new();
    let mut n: usize = 0;
    while n < names.len()
        invariant
            n <= names@.len(),
            forall|i: int| 0 <= i < out@.len() ==> listed(names@, #[trigger] out@[i]),
            forall|i: int| 0 <= i < out@.len() ==> (#[trigger] out@[i]).1 < n,
            forall|i: int, j: int| 0 <= i < j < out@.len() ==> in_order(out@[i], out@[j]),
            forall|m: int|
                0 <= m < n && index_of(#[trigger] names@[m]@) is Some ==> out@.contains(
                    (index_of(names@[m]@)->0, m as usize),
                ),
        decreases names@.len() - n,
    {
        if let Some(index) = parse_segment_index(names[n].as_slice()) {
            let ghost before = out@;
            let mut at: usize = out.len();
            while at > 0 && out[at - 1].0 > index
                invariant
                    at <= out@.len(),
                    out@ == before,
                    forall|i: int| at <= i < out@.len() ==> (#[trigger] out@[i]).0 > index,
                decreases at,
            {
                at = at - 1;
            }
            out.insert(at, (index, n));
            proof {
                let e = (index, n);
                assert forall|i: int| 0 <= i < out@.len() implies listed(
                    names@,
                    #[trigger] out@[i],
                ) && out@[i].1 < n + 1 by {
                    if i < at {
                        assert(out@[i] == before[i]);
                    } else if i > at {
                        assert(out@[i] == before[i - 1]);
                    }
                }
                assert forall|i: int, j: int| 0 <= i < j < out@.len() implies in_order(
                    out@[i],
                    out@[j],
                ) by {
                    if i == at {
                        assert(out@[j] == before[j - 1]);
                    } else if j == at {
                        assert(out@[i] == before[i]);
                        if i < at - 1 {
                            assert(in_order(before[i], before[at - 1]));
                        }
                    } else {
                        let i0 = if i < at {
                            i
                        } else {
                            i - 1
                        };
                        let j0 = if j < at {
                            j
                        } else {
                            j - 1
                        };
                        assert(in_order(before[i0], before[j0]));
                    }
                }
                assert forall|m: int|
                    0 <= m < n + 1 && index_of(#[trigger] names@[m]@) is Some implies out@.contains(
                    (index_of(names@[m]@)->0, m as usize),
                ) by {
                    if m == n {
                        assert(out@[at as int] == e);
                    } else {
                        let x = (index_of(names@[m]@)->0, m as usize);
                        assert(before.contains(x));
                        let i = choose|i: int| 0 <= i < before.len() && before[i] == x;
                        if i < at {
                            assert(out@[i] == x);
                        } else {
                            assert(out@[i + 1] == x);
                        }
                    }
                }
            }
        }
        n = n + 1;
    }
    out
}

/// Where the last record of a type ends, of the records from `p` on.
pub open spec fn last_end(s: Seq<u8>, p: int, kind: WalRecordType) -> Option<int>
    decreases s.len() - p,
{
    match found_at(s, p) {
        Found::Record { record, end } => if p < end <= s.len() {
            match last_end(s, end, kind) {
                Some(c) => Some(c),
                None => if record.kind == kind {
                    Some(end)
                } else {
                    None
                },
            }
        } else {
            None
        },
        _ => None,
    }
}

impl Wal {
    /// Cuts the log's only segment behind the last record of a type. Says whether there is
    /// one; if not, nothing is cut.
    pub fn truncate_wal_after(segments: &mut Vec<Segment>, stop_after: WalRecordType) -> (done: bool)
        requires
            old(segments)@.len() == 1,
        ensures
            final(segments)@.len() == 1,
            final(segments)@[0].index == old(segments)@[0].index,
            ({
                let s = old(segments)@[0].bytes@;
                match last_end(s, 0, stop_after) {
                    Some(c) => done && 0 <= c <= s.len() && final(segments)@[0].bytes@ == s.take(c),
                    None => !done && final(segments)@[0].bytes@ == s,
                }
            }),
    {
        let mut cut: Option<usize> = None;
        let mut pos: usize = 0;
        let ghost s = segments@[0].bytes@;
        loop
            invariant
                segments@ == old(segments)@,
                segments@.len() == 1,
                s == segments@[0].bytes@,
                pos <= s.len(),
                cut matches Some(c) ==> c <= s.len(),
                last_end(s, 0, stop_after) == (match last_end(s, pos as int, stop_after) {
                    Some(c) => Some(c),
                    None => match cut {
                        Some(c) => Some(c as int),
                        None => None,
                    },
                }),
            ensures
                segments@ == old(segments)@,
                cut matches Some(c) ==> c <= s.len(),
                last_end(s, 0, stop_after) == (match cut {
                    Some(c) => Some(c as int),
                    None => None,
                }),
            decreases s.len() - pos,
        {
            match crate::wal::record::read_record(segments[0].bytes.as_slice(), pos) {
                ReadOutcome::Record { record, end } => {
                    if record.entry_type == stop_after {
                        cut = Some(end);
                    }
                    pos = end;
                },
                _ => {
                    break;
                },
            }
        }
        match cut {
            Some(c) => {
                let mut last: Segment = segments.remove(0);
                last.bytes.truncate(c);
                proof {
                    assert(last.bytes@ =~= s.take(c as int));
                }
                segments.push(last);
                true
            },
            None => false,
        }
    }
}

} // verus!
