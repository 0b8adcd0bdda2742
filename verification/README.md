# ordvec

Training-free ordinal and sign quantisation for vector retrieval, verified with
Verus.

Vectors are encoded one by one, without a codebook: by the ranks of their
coordinates (`Rank`), by packed buckets of those ranks (`RankQuant`,
`RankQuantFastscan`), by bitmaps of their largest coordinates (`Bitmap`,
`MultiBucketBitmap`), or by their signs (`SignBitmap`). Every index answers a
query with the best documents by descending score and then ascending id.

## Layout

- `src/` is the verified library. Floats enter it as bit patterns (`F32Bits`);
  where a score is a floating-point number, the search takes the scoring
  function from its caller and its contract says what the function was called
  on and which of its results are reported. Products of ranks and codes are
  exact integers, in quarters. Index files are byte sequences.
- `tests/` runs the library on concrete values.
- `app/` is an unverified front end: it takes and returns `f32`, scores in
  floating point, and reads and writes files.

## What is proved

- Encoding: ranks are a permutation that depends only on the order of the
  coordinates; buckets are filled equally; packing is undone by unpacking; the
  norm of every encoded vector is its closed form.
- Search: the reported rows are the best `k` scores in order, and are determined
  by the scores; a second stage over an uncut candidate list is a full search.
- Bitmaps: weights, overlaps, and the finite null model of constant-weight
  bitmaps with its hypergeometric fibres, tails and mean.
- Files: what is written is read back; every malformed file is refused, with the
  first fault that a reader meets.

The trusted base is the rayon thread pool (`src/parallel.rs`) and
`u64::count_ones` (`src/bits.rs`).
