//! Rows of a flat row-major buffer.

use vstd::prelude::*;

verus! {

/// Row `i` of a flat row-major buffer.
pub open spec fn row<T>(data: Seq<T>, width: int, i: int) -> Seq<T> {
    data.subrange(i * width, i * width + width)
}

/// The first `n` rows of a flat row-major buffer.
pub open spec fn rows_of<T>(data: Seq<T>, width: int, n: int) -> Seq<Seq<T>> {
    Seq::new(n as nat, |i: int| row(data, width, i))
}

/// The contents of a list of vectors.
pub open spec fn contents<T>(rows: Seq<Vec<T>>) -> Seq<Seq<T>> {
    Seq::new(rows.len(), |i: int| rows[i]@)
}

/// Row `i` of `n` rows of width `q` ends inside the buffer.
pub proof fn lemma_row_inside(i: int, n: int, q: int)
    requires
        0 <= i < n,
        0 <= q,
    ensures
        0 <= i * q,
        i * q + q <= n * q,
{
    assert(0 <= i * q && i * q + q <= n * q) by (nonlinear_arith)
        requires
            0 <= i < n,
            0 <= q,
    ;
}

/// Different rows do not overlap.
pub proof fn lemma_rows_disjoint(i: int, j: int, q: int)
    requires
        0 <= i,
        0 <= j,
        i != j,
        0 <= q,
    ensures
        i < j ==> i * q + q <= j * q,
        j < i ==> j * q + q <= i * q,
{
    if i < j {
        assert(i * q + q <= j * q) by (nonlinear_arith)
            requires
                i + 1 <= j,
                0 <= q,
        ;
    } else {
        assert(j * q + q <= i * q) by (nonlinear_arith)
            requires
                j + 1 <= i,
                0 <= q,
        ;
    }
}

/// A buffer of whole rows holds `len / width` of them.
pub proof fn lemma_whole_rows(len: int, width: int)
    requires
        0 < width,
        0 <= len,
        len % width == 0,
    ensures
        0 <= len / width,
        (len / width) * width == len,
{
    vstd::arithmetic::div_mod::lemma_fundamental_div_mod(len, width);
    let n = len / width;
    assert(n * width == width * n) by (nonlinear_arith);
    assert(0 <= n) by (nonlinear_arith)
        requires
            len == width * n,
            0 <= len,
            0 < width,
    ;
}

/// Append rows, all of the same width, to a flat buffer of `n` rows.
pub(crate) fn append_rows<T: Copy>(
    data: &mut Vec<T>,
    rows: &Vec<Vec<T>>,
    width: usize,
    Ghost(n): Ghost<int>,
)
    requires
        0 <= n,
        old(data).len() == n * width,
        forall|i: int| 0 <= i < rows.len() ==> (#[trigger] rows[i])@.len() == width,
    ensures
        final(data)@.len() == (n + rows.len()) * width,
        rows_of(final(data)@, width as int, n + rows.len()) == rows_of(
            old(data)@,
            width as int,
            n,
        ) + contents(rows@),
{
    let ghost q = width as int;
    let ghost base = data@;
    let mut i: usize = 0;
    while i < rows.len()
        invariant
            0 <= n,
            q == width,
            i <= rows.len(),
            base.len() == n * q,
            data@.len() == (n + i) * q,
            forall|t: int| 0 <= t < rows.len() ==> (#[trigger] rows[t])@.len() == q,
            forall|t: int| 0 <= t < n ==> #[trigger] row(data@, q, t) == row(base, q, t),
            forall|t: int| 0 <= t < i ==> row(data@, q, n + t) == (#[trigger] rows[t])@,
        decreases rows.len() - i,
    {
        let ghost before = data@;
        let list: &Vec<T> = &rows[i];
        let mut j: usize = 0;
        while j < list.len()
            invariant
                j <= list@.len(),
                data@ == before + list@.subrange(0, j as int),
            decreases list.len() - j,
        {
            data.push(list[j]);
            j = j + 1;
            assert(data@ =~= before + list@.subrange(0, j as int));
        }
        proof {
            assert(data@ =~= before + list@);
            assert((n + i) * q + q == (n + (i + 1)) * q) by (nonlinear_arith);
            assert forall|t: int| 0 <= t < n implies #[trigger] row(data@, q, t) == row(
                base,
                q,
                t,
            ) by {
                lemma_row_inside(t, n + i, q);
                assert(row(before, q, t) == row(base, q, t));
                assert(row(data@, q, t) =~= row(before, q, t));
            }
            assert forall|t: int| 0 <= t < i + 1 implies row(data@, q, n + t) == (
            #[trigger] rows[t])@ by {
                if t < i {
                    lemma_row_inside(n + t, n + i, q);
                    assert(row(data@, q, n + t) =~= row(before, q, n + t));
                } else {
                    assert(row(data@, q, n + t) =~= list@);
                }
            }
        }
        i = i + 1;
    }
    proof {
        let all = rows_of(data@, q, n + rows.len());
        let sum = rows_of(base, q, n) + contents(rows@);
        assert forall|t: int| 0 <= t < all.len() implies all[t] == sum[t] by {
            if t < n {
                assert(row(data@, q, t) == row(base, q, t));
            } else {
                assert(row(data@, q, n + (t - n)) == rows[t - n]@);
            }
        }
        assert(all =~= sum);
    }
}

/// Remove row `idx` of `n` rows by moving the last row into its place.
pub(crate) fn swap_remove_row<T: Copy>(data: &mut Vec<T>, width: usize, n: usize, idx: usize)
    requires
        idx < n,
        old(data).len() == n * width,
    ensures
        final(data)@.len() == (n - 1) * width,
        rows_of(final(data)@, width as int, n - 1) == rows_of(
            old(data)@,
            width as int,
            n as int,
        ).update(idx as int, row(old(data)@, width as int, n - 1)).drop_last(),
{
    let ghost q = width as int;
    let ghost base = data@;
    let last: usize = n - 1;
    proof {
        lemma_row_inside(idx as int, n as int, q);
        lemma_row_inside(last as int, n as int, q);
        if idx < last {
            lemma_rows_disjoint(last as int, idx as int, q);
        }
        assert(data.len() == n * width);
    }
    let from: usize = last * width;
    let to: usize = idx * width;
    let mut t: usize = 0;
    while t < width
        invariant
            q == width,
            t <= width,
            from == last * q,
            to == idx * q,
            to + width <= data@.len(),
            from + width <= data.len(),
            data@.len() == base.len(),
            idx == last || to + width <= from,
            forall|j: int| 0 <= j < t ==> #[trigger] data@[to + j] == base[from + j],
            forall|j: int|
                0 <= j < base.len() && !(to <= j < to + t) ==> #[trigger] data@[j] == base[j],
        decreases width - t,
    {
        let x: T = data[from + t];
        data[to + t] = x;
        t = t + 1;
    }
    let ghost moved = data@;
    data.truncate(from);
    proof {
        let all = rows_of(data@, q, n - 1);
        let want = rows_of(base, q, n as int).update(idx as int, row(base, q, n - 1)).drop_last();
        assert forall|i: int| 0 <= i < last implies all[i] == want[i] by {
            lemma_row_inside(i, last as int, q);
            lemma_row_inside(i, n as int, q);
            if i == idx {
                assert forall|j: int| 0 <= j < q implies row(data@, q, i)[j] == row(
                    base,
                    q,
                    last as int,
                )[j] by {
                    assert(moved[to + j] == base[from + j]);
                }
                assert(row(data@, q, i) =~= row(base, q, last as int));
            } else {
                lemma_rows_disjoint(i, idx as int, q);
                assert(row(data@, q, i) =~= row(base, q, i));
            }
        }
        assert(all =~= want);
    }
}

} // verus!
