//! Rows of bits packed into 64-bit words, and popcount reductions over them.

use vstd::arithmetic::div_mod::lemma_fundamental_div_mod_converse;
use vstd::prelude::*;

use crate::counting::{count_where, lemma_count_bounds, lemma_count_ext, lemma_count_split, shifted};

verus! {

/// Bit `j` of a word, from the low end.
pub open spec fn bit(w: u64, j: int) -> bool {
    (w >> (j as u64)) & 1u64 == 1u64
}

/// The bits of a word as a function of their index.
pub open spec fn bits_of(w: u64) -> spec_fn(int) -> bool {
    |j: int| bit(w, j)
}

/// Bit `j` of a row: word `j / 64`, bit `j % 64`.
pub open spec fn row_bit(words: Seq<u64>, j: int) -> bool {
    bit(words[j / 64], j % 64)
}

/// The bits of a row as a function of their index.
pub open spec fn row_bits(words: Seq<u64>) -> spec_fn(int) -> bool {
    |j: int| row_bit(words, j)
}

/// The bits set in both rows.
pub open spec fn both_set(a: Seq<u64>, b: Seq<u64>) -> spec_fn(int) -> bool {
    |j: int| row_bit(a, j) && row_bit(b, j)
}

/// The bits at which the rows differ.
pub open spec fn differing(a: Seq<u64>, b: Seq<u64>) -> spec_fn(int) -> bool {
    |j: int| row_bit(a, j) != row_bit(b, j)
}

/// The bits of a row as flags.
pub open spec fn row_flags(words: Seq<u64>, dim: int) -> Seq<bool> {
    Seq::new(dim as nat, |j: int| row_bit(words, j))
}

/// The number of words that hold `dim` bits.
pub open spec fn words_for(dim: int) -> int {
    (dim + 63) / 64
}

/// `u64::count_ones`: the number of bits of the word that are set.
pub assume_specification[ u64::count_ones ](w: u64) -> (n: u32)
    ensures
        n == count_where(64, bits_of(w)),
;

proof fn lemma_bit_and(a: u64, b: u64, j: int)
    requires
        0 <= j < 64,
    ensures
        bit(a & b, j) == (bit(a, j) && bit(b, j)),
{
    let k = j as u64;
    assert(((a & b) >> k) & 1u64 == ((a >> k) & 1u64) & ((b >> k) & 1u64)) by (bit_vector);
    let x = (a >> k) & 1u64;
    let y = (b >> k) & 1u64;
    assert(x == 0 || x == 1) by {
        assert((a >> k) & 1u64 == 0 || (a >> k) & 1u64 == 1) by (bit_vector);
    }
    assert(y == 0 || y == 1) by {
        assert((b >> k) & 1u64 == 0 || (b >> k) & 1u64 == 1) by (bit_vector);
    }
    assert(0u64 & y == 0 && x & 0u64 == 0 && 1u64 & 1u64 == 1) by (bit_vector);
}

proof fn lemma_bit_xor(a: u64, b: u64, j: int)
    requires
        0 <= j < 64,
    ensures
        bit(a ^ b, j) == (bit(a, j) != bit(b, j)),
{
    let k = j as u64;
    assert((((a ^ b) >> k) & 1u64 == 1u64) == (((a >> k) & 1u64 == 1u64) != ((b >> k) & 1u64
        == 1u64))) by (bit_vector);
}

proof fn lemma_bit_set(w: u64, k: u64, j: int)
    requires
        0 <= j < 64,
        k < 64,
    ensures
        bit(w | (1u64 << k), j) == (j == k || bit(w, j)),
{
    let i = j as u64;
    assert((((w | (1u64 << k)) >> i) & 1u64 == 1u64) == (i == k || (w >> i) & 1u64 == 1u64))
        by (bit_vector)
        requires
            i < 64,
            k < 64,
    ;
}

proof fn lemma_bit_zero(j: int)
    requires
        0 <= j < 64,
    ensures
        !bit(0, j),
{
    let i = j as u64;
    assert((0u64 >> i) & 1u64 != 1u64) by (bit_vector);
}

/// Equal bits make equal words.
proof fn lemma_word_determined(a: u64, b: u64)
    requires
        forall|j: int| 0 <= j < 64 ==> #[trigger] bit(a, j) == bit(b, j),
    ensures
        a == b,
{
    if a != b {
        let d = a ^ b;
        assert(a != b ==> a ^ b != 0) by (bit_vector);
        lemma_nonzero_has_bit(d);
        let j = choose|j: int| 0 <= j < 64 && bit(d, j);
        lemma_bit_xor(a, b, j);
        assert(bit(a, j) == bit(b, j));
    }
}

proof fn lemma_nonzero_has_bit(d: u64)
    requires
        d != 0,
    ensures
        exists|j: int| 0 <= j < 64 && bit(d, j),
{
    if forall|j: int| 0 <= j < 64 ==> !(#[trigger] bit(d, j)) {
        lemma_no_bits_is_zero(d, 64);
    } else {
        let j = choose|j: int| !(0 <= j < 64 ==> !(#[trigger] bit(d, j)));
        assert(0 <= j < 64 && bit(d, j));
    }
}

/// A word whose low `n` bits are clear is zero once shifted up past the rest.
proof fn lemma_no_bits_is_zero(d: u64, n: int)
    requires
        0 <= n <= 64,
        forall|j: int| 0 <= j < n ==> !(#[trigger] bit(d, j)),
    ensures
        n == 64 ==> d == 0,
        n < 64 ==> (d >> (n as u64)) << (n as u64) == d,
    decreases n,
{
    if n == 0 {
        assert((d >> 0u64) << 0u64 == d) by (bit_vector);
    } else {
        lemma_no_bits_is_zero(d, n - 1);
        assert(!bit(d, n - 1));
        let m = (n - 1) as u64;
        if n < 64 {
            assert((d >> m) << m == d && (d >> m) & 1u64 != 1u64 && m < 63 ==> (d >> ((m + 1) as u64))
                << ((m + 1) as u64) == d) by (bit_vector);
        } else {
            assert((d >> 63u64) << 63u64 == d && (d >> 63u64) & 1u64 != 1u64 ==> d == 0)
                by (bit_vector);
        }
    }
}

/// Rows of words that hold the same bits are the same row.
pub proof fn lemma_row_determined(a: Seq<u64>, b: Seq<u64>)
    requires
        a.len() == b.len(),
        forall|j: int| 0 <= j < 64 * a.len() ==> #[trigger] row_bit(a, j) == row_bit(b, j),
    ensures
        a == b,
{
    assert forall|w: int| 0 <= w < a.len() implies a[w] == b[w] by {
        assert forall|t: int| 0 <= t < 64 implies #[trigger] bit(a[w], t) == bit(b[w], t) by {
            let j = 64 * w + t;
            lemma_fundamental_div_mod_converse(j, 64, w, t);
            assert(row_bit(a, j) == row_bit(b, j));
        }
        lemma_word_determined(a[w], b[w]);
    }
    assert(a =~= b);
}

/// The bits set in both of two equal-length rows, counted word by word.
pub fn count_both(doc: &[u64], q: &[u64]) -> (n: usize)
    requires
        doc.len() == q.len(),
        count_where(64 * doc.len(), both_set(doc@, q@)) <= usize::MAX,
    ensures
        n == count_where(64 * doc.len(), both_set(doc@, q@)),
{
    let mut acc: usize = 0;
    let mut w: usize = 0;
    let ghost p = both_set(doc@, q@);
    while w < doc.len()
        invariant
            doc.len() == q.len(),
            count_where(64 * doc.len(), p) <= usize::MAX,
            w <= doc.len(),
            p == both_set(doc@, q@),
            acc == count_where(64 * w, p),
        decreases doc.len() - w,
    {
        let x: u64 = doc[w] & q[w];
        proof {
            lemma_count_split(64 * w, 64, p);
            lemma_count_split(64 * w + 64, 64 * (doc.len() - w - 1), p);
            lemma_count_bounds(64 * (doc.len() - w - 1), shifted(p, 64 * w + 64));
            assert forall|t: int| 0 <= t < 64 implies #[trigger] shifted(p, 64 * w)(t) == bits_of(
                x,
            )(t) by {
                lemma_fundamental_div_mod_converse(64 * w + t, 64, w as int, t);
                lemma_bit_and(doc[w as int], q[w as int], t);
            }
            lemma_count_ext(64, shifted(p, 64 * w), bits_of(x));
        }
        acc = acc + x.count_ones() as usize;
        w = w + 1;
    }
    acc
}

/// Sum of `popcount(doc[w] & q[w])` over two equal-length rows: how many bits
/// are set in both.
pub fn and_popcount(doc: &[u64], q: &[u64]) -> (n: u32)
    requires
        doc.len() == q.len(),
        count_where(64 * doc.len(), both_set(doc@, q@)) <= u32::MAX,
    ensures
        n == count_where(64 * doc.len(), both_set(doc@, q@)),
{
    count_both(doc, q) as u32
}

/// Sum of `popcount(doc[w] ^ q[w])` over two equal-length rows: how many bits
/// differ.
pub fn xor_popcount(doc: &[u64], q: &[u64]) -> (n: u32)
    requires
        doc.len() == q.len(),
        count_where(64 * doc.len(), differing(doc@, q@)) <= u32::MAX,
    ensures
        n == count_where(64 * doc.len(), differing(doc@, q@)),
{
    let mut acc: u32 = 0;
    let mut w: usize = 0;
    let ghost p = differing(doc@, q@);
    while w < doc.len()
        invariant
            doc.len() == q.len(),
            count_where(64 * doc.len(), p) <= u32::MAX,
            w <= doc.len(),
            p == differing(doc@, q@),
            acc == count_where(64 * w, p),
        decreases doc.len() - w,
    {
        let x: u64 = doc[w] ^ q[w];
        proof {
            lemma_count_split(64 * w, 64, p);
            lemma_count_split(64 * w + 64, 64 * (doc.len() - w - 1), p);
            lemma_count_bounds(64 * (doc.len() - w - 1), shifted(p, 64 * w + 64));
            assert forall|t: int| 0 <= t < 64 implies #[trigger] shifted(p, 64 * w)(t) == bits_of(
                x,
            )(t) by {
                lemma_fundamental_div_mod_converse(64 * w + t, 64, w as int, t);
                lemma_bit_xor(doc[w as int], q[w as int], t);
            }
            lemma_count_ext(64, shifted(p, 64 * w), bits_of(x));
        }
        acc = acc + x.count_ones();
        w = w + 1;
    }
    acc
}

/// The number of set bits of a row.
pub fn row_popcount(row: &[u64]) -> (n: u32)
    requires
        count_where(64 * row.len(), row_bits(row@)) <= u32::MAX,
    ensures
        n == count_where(64 * row.len(), row_bits(row@)),
{
    proof {
        lemma_count_ext(64 * row.len(), both_set(row@, row@), row_bits(row@));
    }
    and_popcount(row, row)
}

/// Pack one word from the flags at `start..start + 64`; flags past the end
/// are clear.
fn pack_word(flags: &[bool], start: usize) -> (word: u64)
    requires
        start < flags.len(),
    ensures
        forall|t: int|
            0 <= t < 64 ==> #[trigger] bit(word, t) == (start + t < flags.len() && flags[start
                + t]),
{
    let mut word: u64 = 0;
    let mut t: usize = 0;
    proof {
        assert forall|s: int| 0 <= s < 64 implies !(#[trigger] bit(0, s)) by {
            lemma_bit_zero(s);
        }
    }
    while t < 64 && t < flags.len() - start
        invariant
            start < flags.len(),
            t <= 64,
            t <= flags.len() - start,
            forall|s: int|
                0 <= s < 64 ==> #[trigger] bit(word, s) == (s < t && flags[start + s]),
        decreases 64 - t,
    {
        if flags[start + t] {
            let ghost prev = word;
            word = word | (1u64 << (t as u64));
            proof {
                assert forall|s: int| 0 <= s < 64 implies #[trigger] bit(word, s) == (s < t + 1
                    && flags[start + s]) by {
                    lemma_bit_set(prev, t as u64, s);
                    assert(bit(prev, s) == (s < t && flags[start + s]));
                }
            }
        }
        t = t + 1;
    }
    word
}

/// Pack flags into words, bit `j` of the row being flag `j`; the bits past the
/// last flag are clear.
pub fn pack_bits(flags: &[bool]) -> (words: Vec<u64>)
    ensures
        words.len() == words_for(flags.len() as int),
        forall|j: int|
            0 <= j < 64 * words.len() ==> #[trigger] row_bit(words@, j) == (j < flags.len()
                && flags[j]),
        row_flags(words@, flags.len() as int) == flags@,
{
    let dim: usize = flags.len();
    let mut words: Vec<u64> = Vec::new();
    let mut start: usize = 0;
    while start < dim
        invariant
            dim == flags.len(),
            start <= dim,
            start == dim || start == 64 * words.len(),
            words.len() == words_for(start as int),
            forall|j: int|
                0 <= j < 64 * words.len() ==> #[trigger] row_bit(words@, j) == (j < flags.len()
                    && flags[j]),
        decreases dim - start,
    {
        let word: u64 = pack_word(flags, start);
        let ghost prev = words@;
        words.push(word);
        proof {
            assert forall|j: int| 0 <= j < 64 * words.len() implies #[trigger] row_bit(words@, j)
                == (j < flags.len() && flags[j]) by {
                if j < 64 * prev.len() {
                    assert(row_bit(prev, j) == (j < flags.len() && flags[j]));
                } else {
                    assert(bit(word, j - start) == (start + (j - start) < flags.len() && flags[start
                        + (j - start)]));
                }
            }
        }
        if dim - start <= 64 {
            start = dim;
        } else {
            start = start + 64;
        }
    }
    assert(row_flags(words@, dim as int) =~= flags@);
    words
}

} // verus!
