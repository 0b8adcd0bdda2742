//! Little-endian integers in byte buffers.

use vstd::prelude::*;

use crate::rows::{lemma_row_inside, row};

verus! {

/// 256 to the power `w`.
pub open spec fn byte_span(w: nat) -> int
    decreases w,
{
    if w == 0 {
        1
    } else {
        256 * byte_span((w - 1) as nat)
    }
}

/// The `w` little-endian bytes of `x`.
pub open spec fn le_bytes(x: int, w: nat) -> Seq<u8>
    decreases w,
{
    if w == 0 {
        Seq::empty()
    } else {
        seq![(x % 256) as u8] + le_bytes(x / 256, (w - 1) as nat)
    }
}

/// The value of a little-endian byte string.
pub open spec fn le_value(s: Seq<u8>) -> int
    decreases s.len(),
{
    if s.len() == 0 {
        0
    } else {
        s[0] + 256 * le_value(s.drop_first())
    }
}

/// The values of `n` little-endian integers of `w` bytes each.
pub open spec fn decoded(data: Seq<u8>, w: int, n: int) -> Seq<int> {
    Seq::new(n as nat, |i: int| le_value(row(data, w, i)))
}

/// The little-endian bytes of integers of `w` bytes each.
pub open spec fn encoded(values: Seq<int>, w: nat) -> Seq<u8>
    decreases values.len(),
{
    if values.len() == 0 {
        Seq::empty()
    } else {
        encoded(values.drop_last(), w) + le_bytes(values.last(), w)
    }
}

/// `u16` values as integers.
pub open spec fn ints16(values: Seq<u16>) -> Seq<int> {
    Seq::new(values.len(), |i: int| values[i] as int)
}

/// `u64` values as integers.
pub open spec fn ints64(values: Seq<u64>) -> Seq<int> {
    Seq::new(values.len(), |i: int| values[i] as int)
}

/// Equal integers come from equal words.
pub proof fn lemma_ints64_injective(a: Seq<u64>, b: Seq<u64>)
    requires
        ints64(a) == ints64(b),
    ensures
        a == b,
{
    assert(a.len() == ints64(a).len() && b.len() == ints64(b).len());
    assert forall|i: int| 0 <= i < a.len() implies a[i] == b[i] by {
        assert(ints64(a)[i] == a[i] as int);
        assert(ints64(b)[i] == b[i] as int);
    }
    assert(a =~= b);
}

/// `le_bytes` gives `w` bytes.
pub proof fn lemma_le_len(x: int, w: nat)
    ensures
        le_bytes(x, w).len() == w,
    decreases w,
{
    if w > 0 {
        lemma_le_len(x / 256, (w - 1) as nat);
    }
}

/// The value of `w` bytes lies in `0..256^w`.
pub proof fn lemma_le_bound(s: Seq<u8>)
    ensures
        0 <= le_value(s) < byte_span(s.len()),
    decreases s.len(),
{
    if s.len() > 0 {
        lemma_le_bound(s.drop_first());
    }
}

/// The spans of the widths in use.
pub proof fn lemma_spans()
    ensures
        byte_span(1) == 256,
        byte_span(2) == 65536,
        byte_span(4) == 4294967296,
        byte_span(8) == 18446744073709551616,
{
    reveal_with_fuel(byte_span, 9);
}

/// Bytes read back give the value that was written.
pub proof fn lemma_le_round_trip(x: int, w: nat)
    requires
        0 <= x < byte_span(w),
    ensures
        le_value(le_bytes(x, w)) == x,
    decreases w,
{
    if w > 0 {
        let v = (w - 1) as nat;
        assert(0 <= x / 256 < byte_span(v)) by (nonlinear_arith)
            requires
                0 <= x < 256 * byte_span(v),
        ;
        lemma_le_round_trip(x / 256, v);
        assert(le_bytes(x, w).drop_first() =~= le_bytes(x / 256, v));
    }
}

/// Encoding lays the integers out one after the other.
pub proof fn lemma_encoded(values: Seq<int>, w: nat)
    ensures
        encoded(values, w).len() == values.len() * w,
        forall|i: int|
            0 <= i < values.len() ==> #[trigger] row(encoded(values, w), w as int, i) == le_bytes(
                values[i],
                w,
            ),
    decreases values.len(),
{
    if values.len() == 0 {
        assert(0 * w == 0) by (nonlinear_arith);
    } else {
        let front = values.drop_last();
        let n = values.len() as int;
        lemma_encoded(front, w);
        lemma_le_len(values.last(), w);
        assert((n - 1) * w + w == n * w) by (nonlinear_arith);
        let all = encoded(values, w);
        assert forall|i: int| 0 <= i < n implies #[trigger] row(all, w as int, i) == le_bytes(
            values[i],
            w,
        ) by {
            if i < n - 1 {
                lemma_row_inside(i, n - 1, w as int);
                assert(row(all, w as int, i) =~= row(encoded(front, w), w as int, i));
            } else {
                assert(row(all, w as int, i) =~= le_bytes(values.last(), w));
            }
        }
    }
}

/// Decoding what was encoded gives the integers back.
pub proof fn lemma_decoded(values: Seq<int>, w: nat)
    requires
        forall|i: int| 0 <= i < values.len() ==> 0 <= #[trigger] values[i] < byte_span(w),
    ensures
        decoded(encoded(values, w), w as int, values.len() as int) == values,
{
    let data = encoded(values, w);
    let back = decoded(data, w as int, values.len() as int);
    lemma_encoded(values, w);
    assert forall|i: int| 0 <= i < values.len() implies back[i] == values[i] by {
        assert(row(data, w as int, i) == le_bytes(values[i], w));
        lemma_le_round_trip(values[i], w);
    }
    assert(back =~= values);
}

/// Append the `w` little-endian bytes of `x`.
pub(crate) fn push_le(out: &mut Vec<u8>, x: u64, w: usize)
    ensures
        final(out)@ == old(out)@ + le_bytes(x as int, w as nat),
{
    let ghost start = out@;
    let mut rest: u64 = x;
    let mut k: usize = 0;
    while k < w
        invariant
            k <= w,
            out@ + le_bytes(rest as int, (w - k) as nat) == start + le_bytes(x as int, w as nat),
        decreases w - k,
    {
        let ghost before = out@;
        let ghost tail = le_bytes(rest as int / 256, (w - k - 1) as nat);
        out.push((rest % 256) as u8);
        assert(before + (seq![(rest as int % 256) as u8] + tail) =~= out@ + tail);
        rest = rest / 256;
        k = k + 1;
    }
    assert(out@ + le_bytes(rest as int, 0) =~= out@);
}

/// The value of the `w` little-endian bytes at `at`.
pub(crate) fn read_le(bytes: &[u8], at: usize, w: usize) -> (x: u64)
    requires
        w <= 8,
        at + w <= bytes.len(),
    ensures
        x == le_value(bytes@.subrange(at as int, at + w)),
        x < byte_span(w as nat),
{
    let ghost end = at + w;
    let mut acc: u64 = 0;
    let mut k: usize = w;
    while k > 0
        invariant
            k <= w <= 8,
            end == at + w,
            end <= bytes.len(),
            acc == le_value(bytes@.subrange(at + k, end)),
        decreases k,
    {
        let ghost tail = bytes@.subrange(at + k, end);
        let ghost part = bytes@.subrange(at + k - 1, end);
        proof {
            assert(part.drop_first() =~= tail);
            lemma_le_bound(part);
            reveal_with_fuel(byte_span, 9);
            assert(part.len() <= 8);
        }
        acc = acc * 256 + bytes[at + k - 1] as u64;
        k = k - 1;
    }
    proof {
        lemma_le_bound(bytes@.subrange(at as int, end));
    }
    acc
}

/// Append `u16` values.
pub(crate) fn push_u16s(out: &mut Vec<u8>, values: &[u16])
    ensures
        final(out)@ == old(out)@ + encoded(ints16(values@), 2),
{
    let ghost start = out@;
    let mut i: usize = 0;
    assert(out@ =~= start + encoded(ints16(values@.subrange(0, 0)), 2));
    while i < values.len()
        invariant
            i <= values.len(),
            out@ == start + encoded(ints16(values@.subrange(0, i as int)), 2),
        decreases values.len() - i,
    {
        let ghost front = ints16(values@.subrange(0, i as int));
        let ghost more = ints16(values@.subrange(0, i + 1));
        assert(more.drop_last() =~= front);
        assert(more.last() == values@[i as int]);
        push_le(out, values[i] as u64, 2);
        assert(out@ =~= start + encoded(more, 2));
        i = i + 1;
    }
    assert(values@.subrange(0, i as int) =~= values@);
}

/// Append `u64` values.
pub(crate) fn push_u64s(out: &mut Vec<u8>, values: &[u64])
    ensures
        final(out)@ == old(out)@ + encoded(ints64(values@), 8),
{
    let ghost start = out@;
    let mut i: usize = 0;
    assert(out@ =~= start + encoded(ints64(values@.subrange(0, 0)), 8));
    while i < values.len()
        invariant
            i <= values.len(),
            out@ == start + encoded(ints64(values@.subrange(0, i as int)), 8),
        decreases values.len() - i,
    {
        let ghost front = ints64(values@.subrange(0, i as int));
        let ghost more = ints64(values@.subrange(0, i + 1));
        assert(more.drop_last() =~= front);
        assert(more.last() == values@[i as int]);
        push_le(out, values[i], 8);
        assert(out@ =~= start + encoded(more, 8));
        i = i + 1;
    }
    assert(values@.subrange(0, i as int) =~= values@);
}

/// The `u16` values in `bytes` from `start` on.
pub(crate) fn read_u16s(bytes: &[u8], start: usize, n: usize) -> (values: Vec<u16>)
    requires
        start + n * 2 == bytes.len(),
    ensures
        ints16(values@) == decoded(bytes@.skip(start as int), 2, n as int),
{
    let ghost data = bytes@.skip(start as int);
    let mut values: Vec<u16> = Vec::with_capacity(n);
    let mut i: usize = 0;
    while i < n
        invariant
            i <= n,
            start + n * 2 == bytes.len(),
            data == bytes@.skip(start as int),
            values.len() == i,
            forall|j: int| 0 <= j < i ==> #[trigger] values[j] == le_value(row(data, 2, j)),
        decreases n - i,
    {
        assert(row(data, 2, i as int) =~= bytes@.subrange(start + i * 2, start + i * 2 + 2));
        proof {
            lemma_spans();
        }
        let x: u64 = read_le(bytes, start + i * 2, 2);
        values.push(x as u16);
        i = i + 1;
    }
    assert(ints16(values@) =~= decoded(data, 2, n as int));
    values
}

/// The `u64` values in `bytes` from `start` on.
pub(crate) fn read_u64s(bytes: &[u8], start: usize, n: usize) -> (values: Vec<u64>)
    requires
        start + n * 8 == bytes.len(),
    ensures
        ints64(values@) == decoded(bytes@.skip(start as int), 8, n as int),
{
    let ghost data = bytes@.skip(start as int);
    let mut values: Vec<u64> = Vec::with_capacity(n);
    let mut i: usize = 0;
    while i < n
        invariant
            i <= n,
            start + n * 8 == bytes.len(),
            data == bytes@.skip(start as int),
            values.len() == i,
            forall|j: int| 0 <= j < i ==> #[trigger] values[j] == le_value(row(data, 8, j)),
        decreases n - i,
    {
        assert(row(data, 8, i as int) =~= bytes@.subrange(start + i * 8, start + i * 8 + 8));
        let x: u64 = read_le(bytes, start + i * 8, 8);
        values.push(x);
        i = i + 1;
    }
    assert(ints64(values@) =~= decoded(data, 8, n as int));
    values
}

} // verus!
