//! Work spread over the rayon thread pool, item by item.

use rayon::iter::{IntoParallelIterator, ParallelIterator};
use rayon::slice::ParallelSlice;
use vstd::prelude::*;

use crate::rows::row;

verus! {

/// Map every row of a flat buffer through `f`, on the rayon thread pool.
///
/// Calls rayon's `par_chunks(width)`, `map(f)` and `collect`. Trusted: rayon
/// hands `f` each non-overlapping chunk of `width` elements once, and collects
/// the results of an indexed parallel iterator in the order of the chunks.
#[verifier::external_body]
pub(crate) fn par_map_rows<T: Sync, U: Send, F: Fn(&[T]) -> U + Sync + Send>(
    data: &[T],
    width: usize,
    f: F,
) -> (out: Vec<U>)
    requires
        width > 0,
        data.len() as int % width as int == 0,
        forall|r: &[T]| r.len() == width ==> #[trigger] f.requires((r,)),
    ensures
        out.len() == data.len() as int / width as int,
        forall|i: int|
            0 <= i < out.len() ==> exists|r: &[T]|
                r@ == row(data@, width as int, i) && f.ensures((r,), #[trigger] out[i]),
{
    data.par_chunks(width).map(f).collect()
}

/// The least index of `0..n` that `f` accepts, found on the rayon thread pool.
///
/// Calls rayon's `find_first` on the parallel range `0..n`. Trusted: it
/// returns the sequentially first item on which the predicate answered true,
/// whatever order the items were tried in, and `None` when there is none.
#[verifier::external_body]
pub(crate) fn par_find_first<F: Fn(&usize) -> bool + Sync + Send>(n: usize, f: F) -> (r: Option<
    usize,
>)
    requires
        forall|i: usize| i < n ==> #[trigger] f.requires((&i,)),
    ensures
        match r {
            Some(w) => {
                &&& w < n
                &&& f.ensures((&w,), true)
                &&& forall|i: usize| i < w ==> #[trigger] f.ensures((&i,), false)
            },
            None => forall|i: usize| i < n ==> #[trigger] f.ensures((&i,), false),
        },
{
    (0..n).into_par_iter().find_first(f)
}

/// Chunk `i` of a buffer cut into pieces of `width`, the last one possibly
/// shorter.
pub open spec fn chunk<T>(data: Seq<T>, width: int, i: int) -> Seq<T> {
    data.subrange(
        i * width,
        if i * width + width <= data.len() {
            i * width + width
        } else {
            data.len() as int
        },
    )
}

/// Whether `f` accepts every chunk of a buffer, asked on the rayon thread pool.
///
/// Calls rayon's `par_chunks(width)` and `all(f)`. Trusted: the answer is true
/// only when `f` answered true on every chunk, and false only when it answered
/// false on some chunk.
#[verifier::external_body]
pub(crate) fn par_all_chunks<T: Sync, F: Fn(&[T]) -> bool + Sync + Send>(
    data: &[T],
    width: usize,
    f: F,
) -> (r: bool)
    requires
        width > 0,
        forall|c: &[T]| #[trigger] f.requires((c,)),
    ensures
        r ==> forall|i: int|
            0 <= i && i * width < data.len() ==> exists|c: &[T]|
                c@ == #[trigger] chunk(data@, width as int, i) && f.ensures((c,), true),
        !r ==> exists|i: int, c: &[T]|
            0 <= i && i * width < data.len() && c@ == #[trigger] chunk(data@, width as int, i)
                && #[trigger] f.ensures((c,), false),
{
    data.par_chunks(width).all(f)
}

} // verus!
