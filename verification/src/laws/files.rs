//! The layout of index files, and which of them are accepted.

use vstd::arithmetic::div_mod::{lemma_fundamental_div_mod, lemma_fundamental_div_mod_converse};
use vstd::prelude::*;

use crate::bitmap::{bitmap_file, weight_error, wrong_weight};
use crate::bits::row_flags;
use crate::bucket_code::bucket_off_balance;
use crate::codec::{
    decoded, encoded, ints16, ints64, le_bytes, le_value, lemma_encoded, lemma_le_len,
    lemma_le_round_trip, lemma_spans,
};
use crate::const_weight_bitmap::{flag_fn, weight_of};
use crate::counting::{
    first_where, lemma_count_bounds, lemma_count_eq_where, lemma_first_where_holds,
};
use crate::fastscan::{bad_byte, bad_slot, byte_offset, fastscan_fault, fastscan_file, slot_codes};
use crate::format::{
    introduces, kind_of, legacy_magic_bytes, magic_bytes, IndexKind, PersistedFormat,
};
use crate::format_error::FormatError;
use crate::quant::{balanced, composition_error, off_bucket, rankquant_file, uneven};
use crate::rank::{bucket_count, code_fn, lemma_levels, levels, unpacked};
use crate::rank_index::{bad_rank, permutation_error, rank_file};
use crate::rank_io::{
    blocks_for, document_len, file_error, header_bytes, header_of, params_of, payload_len,
    payload_of, u32_at, Header, IndexParams,
};
use crate::rows::row;
use crate::sign_bitmap::sign_file;
use crate::text::{decimal, hex_byte};

verus! {

/// The number that four bytes hold, the lowest first.
pub open spec fn four_bytes(s: Seq<u8>, at: int) -> int {
    s[at] + 256 * s[at + 1] + 65536 * s[at + 2] + 16777216 * s[at + 3]
}

/// Bytes hold numbers from the lowest byte up: a further byte counts 256 times
/// as much as the one before it.
pub proof fn law_bytes_hold_numbers(s: Seq<u8>, b: u8)
    ensures
        le_value(Seq::empty()) == 0,
        le_value(seq![b] + s) == b + 256 * le_value(s),
{
    assert((seq![b] + s).drop_first() =~= s);
}

/// Writing a number gives its base-256 digits, the lowest first.
pub proof fn law_numbers_in_bytes(x: int, w: nat, k: int)
    requires
        0 <= x,
        0 <= k < w,
    ensures
        le_bytes(x, w).len() == w,
        le_bytes(x, w)[0] == x % 256,
        k > 0 ==> le_bytes(x, w)[k] == le_bytes(x / 256, (w - 1) as nat)[k - 1],
{
    lemma_le_len(x, w);
    lemma_le_len(x / 256, (w - 1) as nat);
}

proof fn lemma_four(s: Seq<u8>, at: int)
    requires
        0 <= at,
        at + 4 <= s.len(),
    ensures
        u32_at(s, at) == four_bytes(s, at),
{
    let a = s.subrange(at, at + 4);
    let b = a.drop_first();
    let c = b.drop_first();
    let d = c.drop_first();
    assert(d.drop_first() =~= Seq::empty());
    assert(le_value(d.drop_first()) == 0);
    assert(le_value(d) == s[at + 3]);
    assert(le_value(c) == s[at + 2] + 256 * le_value(d));
    assert(le_value(b) == s[at + 1] + 256 * le_value(c));
    assert(le_value(a) == s[at] + 256 * le_value(b));
}

/// The magics: four letters for each format, the older ones with another first
/// letter, and none older for the block layout.
pub proof fn law_magics(format: PersistedFormat, s: Seq<u8>)
    requires
        s.len() == 4,
    ensures
        introduces(s, format) <==> s[1] == 86 && match format {
            PersistedFormat::Rank => (s[0] == 79 || s[0] == 84) && s[2] == 82 && s[3] == 49,
            PersistedFormat::RankQuant => (s[0] == 79 || s[0] == 84) && s[2] == 82 && s[3] == 81,
            PersistedFormat::Bitmap => (s[0] == 79 || s[0] == 84) && s[2] == 66 && s[3] == 77,
            PersistedFormat::SignBitmap => (s[0] == 79 || s[0] == 84) && s[2] == 83 && s[3] == 66,
            PersistedFormat::RankQuantFastscan => s[0] == 79 && s[2] == 70 && s[3] == 83,
        },
        magic_bytes(format).len() == 4,
        magic_bytes(format)[0] == 79,
        introduces(magic_bytes(format), format),
{
    let m = magic_bytes(format);
    if s[0] == m[0] && s[1] == m[1] && s[2] == m[2] && s[3] == m[3] {
        assert(s =~= m);
    }
    if legacy_magic_bytes(format) is Some {
        let l = legacy_magic_bytes(format).unwrap();
        if s[0] == l[0] && s[1] == l[1] && s[2] == l[2] && s[3] == l[3] {
            assert(s =~= l);
        }
    }
}

/// A header: the magic, the version, the code width where there is one, the
/// dimension, the weight where there is one, and the number of documents.
pub proof fn law_header_layout(format: PersistedFormat, bits: u8, dim: int, n_top: int, n: int)
    requires
        0 <= dim < 0x1_0000_0000,
        0 <= n_top < 0x1_0000_0000,
        0 <= n < 0x1_0000_0000,
    ensures
        ({
            let h = header_bytes(format, bits, dim, n_top, n);
            &&& introduces(h.subrange(0, 4), format)
            &&& h[0] == 79
            &&& h[4] == 1
            &&& match format {
                PersistedFormat::RankQuant => h.len() == 14 && h[5] == bits && four_bytes(h, 6)
                    == dim && four_bytes(h, 10) == n,
                PersistedFormat::Bitmap => h.len() == 17 && four_bytes(h, 5) == dim && four_bytes(
                    h,
                    9,
                ) == n_top && four_bytes(h, 13) == n,
                _ => h.len() == 13 && four_bytes(h, 5) == dim && four_bytes(h, 9) == n,
            }
        }),
{
    let h = header_bytes(format, bits, dim, n_top, n);
    lemma_spans();
    lemma_le_len(dim, 4);
    lemma_le_len(n_top, 4);
    lemma_le_len(n, 4);
    lemma_le_round_trip(dim, 4);
    lemma_le_round_trip(n_top, 4);
    lemma_le_round_trip(n, 4);
    assert(h.subrange(0, 4) =~= magic_bytes(format));
    law_magics(format, magic_bytes(format));
    match format {
        PersistedFormat::RankQuant => {
            assert(h.subrange(6, 10) =~= le_bytes(dim, 4));
            assert(h.subrange(10, 14) =~= le_bytes(n, 4));
            lemma_four(h, 6);
            lemma_four(h, 10);
        },
        PersistedFormat::Bitmap => {
            assert(h.subrange(5, 9) =~= le_bytes(dim, 4));
            assert(h.subrange(9, 13) =~= le_bytes(n_top, 4));
            assert(h.subrange(13, 17) =~= le_bytes(n, 4));
            lemma_four(h, 5);
            lemma_four(h, 9);
            lemma_four(h, 13);
        },
        _ => {
            assert(h.subrange(5, 9) =~= le_bytes(dim, 4));
            assert(h.subrange(9, 13) =~= le_bytes(n, 4));
            lemma_four(h, 5);
            lemma_four(h, 9);
        },
    }
}

/// The fields of a header are read from where they stand.
pub proof fn law_header_fields(format: PersistedFormat, s: Seq<u8>)
    requires
        s.len() >= match format {
            PersistedFormat::RankQuant => 14int,
            PersistedFormat::Bitmap => 17int,
            _ => 13int,
        },
    ensures
        ({
            let h = header_of(format, s);
            match format {
                PersistedFormat::RankQuant => h.bits == s[5] && h.dim == four_bytes(s, 6) && h.n_top
                    == 0 && h.n_vectors == four_bytes(s, 10) && payload_of(format, s) == s.skip(14),
                PersistedFormat::Bitmap => h.bits == 0 && h.dim == four_bytes(s, 5) && h.n_top
                    == four_bytes(s, 9) && h.n_vectors == four_bytes(s, 13) && payload_of(format, s)
                    == s.skip(17),
                _ => h.bits == 0 && h.dim == four_bytes(s, 5) && h.n_top == 0 && h.n_vectors
                    == four_bytes(s, 9) && payload_of(format, s) == s.skip(13),
            }
        }),
{
    match format {
        PersistedFormat::RankQuant => {
            lemma_four(s, 6);
            lemma_four(s, 10);
        },
        PersistedFormat::Bitmap => {
            lemma_four(s, 5);
            lemma_four(s, 9);
            lemma_four(s, 13);
        },
        _ => {
            lemma_four(s, 5);
            lemma_four(s, 9);
        },
    }
}

/// The bytes that the documents of a file take.
pub open spec fn body_size(format: PersistedFormat, h: Header) -> int {
    match format {
        PersistedFormat::Rank => 2 * (h.n_vectors * h.dim),
        PersistedFormat::RankQuant => if h.bits == 1 {
            h.n_vectors * (h.dim as int / 8)
        } else if h.bits == 2 {
            h.n_vectors * (h.dim as int / 4)
        } else {
            h.n_vectors * (h.dim as int / 2)
        },
        PersistedFormat::Bitmap => 8 * (h.n_vectors * (h.dim as int / 64)),
        PersistedFormat::SignBitmap => 8 * (h.n_vectors * (h.dim as int / 64)),
        PersistedFormat::RankQuantFastscan => 32 * (((h.n_vectors + 31) / 32) * (h.dim as int / 2)),
    }
}

/// A file passes the checks of its header exactly when it starts with the magic
/// of its format and the version one, declares parameters that such an index
/// can have, and ends where its documents do.
pub proof fn law_accepted_headers(format: PersistedFormat, s: Seq<u8>)
    requires
        s.len() <= usize::MAX,
    ensures
        ({
            let h = header_of(format, s);
            let head = match format {
                PersistedFormat::RankQuant => 14int,
                PersistedFormat::Bitmap => 17int,
                _ => 13int,
            };
            file_error(format, s) is None <==> s.len() >= head && introduces(
                s.subrange(0, 4),
                format,
            ) && s[4] == 1 && h.n_vectors <= 67108864 && body_size(format, h) <= 137438953472
                && s.len() == head + body_size(format, h) && match format {
                PersistedFormat::Rank => 2 <= h.dim <= 65535,
                PersistedFormat::RankQuant => 2 <= h.dim <= 65535 && ((h.bits == 1 && h.dim % 8
                    == 0) || (h.bits == 2 && h.dim % 4 == 0) || (h.bits == 4 && h.dim % 16 == 0)),
                PersistedFormat::Bitmap => 64 <= h.dim <= 65535 && h.dim % 64 == 0 && 1 <= h.n_top
                    < h.dim,
                PersistedFormat::SignBitmap => 64 <= h.dim <= 16777216 && h.dim % 64 == 0,
                PersistedFormat::RankQuantFastscan => 2 <= h.dim <= 65535 && h.dim % 4 == 0,
            }
        }),
{
    let h = header_of(format, s);
    let n = h.n_vectors as int;
    let d = h.dim as int;
    let p = payload_len(format, h.bits as int, d, n);
    let b = body_size(format, h);
    match format {
        PersistedFormat::Rank => {
            assert(n * d * 2 == 2 * (n * d));
        },
        PersistedFormat::RankQuant => {
            if h.bits == 1 {
                assert(d * 1 / 8 == d / 8);
            } else if h.bits == 2 {
                assert(d * 2 / 8 == d / 4);
            } else if h.bits == 4 {
                assert(d * 4 / 8 == d / 2);
            }
        },
        PersistedFormat::Bitmap => {
            let x = n * (d / 64);
            assert(n * (d / 64) * 8 == 8 * x);
        },
        PersistedFormat::SignBitmap => {
            let x = n * (d / 64);
            assert(n * (d / 64) * 8 == 8 * x);
        },
        PersistedFormat::RankQuantFastscan => {
            let x = ((n + 31) / 32) * (d / 2);
            assert(x * 32 == 32 * x);
        },
    }
}

/// What a probe reports of a file.
pub proof fn law_probed_fields(format: PersistedFormat, h: Header)
    requires
        format == PersistedFormat::RankQuant ==> (h.dim * h.bits) % 8 == 0,
        format == PersistedFormat::Bitmap || format == PersistedFormat::SignBitmap ==> h.dim % 64
            == 0,
    ensures
        match format {
            PersistedFormat::Rank => kind_of(format) == IndexKind::Rank && document_len(format, h)
                == 2 * h.dim && params_of(format, h) == IndexParams::Rank,
            PersistedFormat::RankQuant => kind_of(format) == IndexKind::RankQuant && 8
                * document_len(format, h) == h.dim * h.bits && params_of(format, h)
                == (IndexParams::RankQuant { bits: h.bits }),
            PersistedFormat::Bitmap => kind_of(format) == IndexKind::Bitmap && 8 * document_len(
                format,
                h,
            ) == h.dim && params_of(format, h) == (IndexParams::Bitmap { n_top: h.n_top }),
            PersistedFormat::SignBitmap => kind_of(format) == IndexKind::SignBitmap && 8
                * document_len(format, h) == h.dim && params_of(format, h)
                == IndexParams::SignBitmap,
            PersistedFormat::RankQuantFastscan => kind_of(format) == IndexKind::RankQuantFastscan,
        },
{
}

/// The documents of an index file stand behind its header, ranks in two bytes
/// and words in eight, and codes as they are held.
pub proof fn law_files_hold_documents(
    dim: int,
    n_top: int,
    n: int,
    bits: u8,
    ranks: Seq<u16>,
    words: Seq<u64>,
    bytes: Seq<u8>,
    i: int,
)
    requires
        0 <= dim < 0x1_0000_0000,
        0 <= n_top < 0x1_0000_0000,
        0 <= n < 0x1_0000_0000,
    ensures
        rank_file(dim, n, ranks).len() == 13 + 2 * ranks.len(),
        0 <= i < ranks.len() ==> ranks[i] == rank_file(dim, n, ranks)[13 + 2 * i] + 256 * rank_file(
            dim,
            n,
            ranks,
        )[14 + 2 * i],
        bitmap_file(dim, n_top, n, words).len() == 17 + 8 * words.len(),
        sign_file(dim, n, words).len() == 13 + 8 * words.len(),
        0 <= i < words.len() ==> words[i] == four_bytes(
            bitmap_file(dim, n_top, n, words),
            17 + 8 * i,
        ) + 0x1_0000_0000 * four_bytes(bitmap_file(dim, n_top, n, words), 21 + 8 * i),
        0 <= i < words.len() ==> words[i] == four_bytes(sign_file(dim, n, words), 13 + 8 * i)
            + 0x1_0000_0000 * four_bytes(sign_file(dim, n, words), 17 + 8 * i),
        rankquant_file(bits, dim, n, bytes).skip(14) == bytes,
        fastscan_file(dim, n, bytes).skip(13) == bytes,
{
    law_header_layout(PersistedFormat::Rank, 0, dim, 0, n);
    law_header_layout(PersistedFormat::Bitmap, 0, dim, n_top, n);
    law_header_layout(PersistedFormat::SignBitmap, 0, dim, 0, n);
    law_header_layout(PersistedFormat::RankQuant, bits, dim, 0, n);
    law_header_layout(PersistedFormat::RankQuantFastscan, 0, dim, 0, n);
    lemma_spans();
    let r = encoded(ints16(ranks), 2);
    let w = encoded(ints64(words), 8);
    lemma_encoded(ints16(ranks), 2);
    lemma_encoded(ints64(words), 8);
    let rf = rank_file(dim, n, ranks);
    let bf = bitmap_file(dim, n_top, n, words);
    let sf = sign_file(dim, n, words);
    if 0 <= i < ranks.len() {
        let x = row(r, 2, i);
        assert(x == le_bytes(ranks[i] as int, 2));
        lemma_le_round_trip(ranks[i] as int, 2);
        lemma_two(x);
        assert(rf[13 + 2 * i] == x[0] && rf[14 + 2 * i] == x[1]);
    }
    if 0 <= i < words.len() {
        let x = row(w, 8, i);
        assert(x == le_bytes(words[i] as int, 8));
        lemma_le_round_trip(words[i] as int, 8);
        lemma_eight(x);
        assert forall|k: int| 0 <= k < 8 implies #[trigger] x[k] == bf[17 + 8 * i + k] && x[k]
            == sf[13 + 8 * i + k] by {}
        assert(x[0] == bf[17 + 8 * i] && x[0] == sf[13 + 8 * i]);
        assert(x[1] == bf[17 + 8 * i + 1] && x[1] == sf[13 + 8 * i + 1]);
        assert(x[2] == bf[17 + 8 * i + 2] && x[2] == sf[13 + 8 * i + 2]);
        assert(x[3] == bf[17 + 8 * i + 3] && x[3] == sf[13 + 8 * i + 3]);
        assert(x[4] == bf[17 + 8 * i + 4] && x[4] == sf[13 + 8 * i + 4]);
        assert(x[5] == bf[17 + 8 * i + 5] && x[5] == sf[13 + 8 * i + 5]);
        assert(x[6] == bf[17 + 8 * i + 6] && x[6] == sf[13 + 8 * i + 6]);
        assert(x[7] == bf[17 + 8 * i + 7] && x[7] == sf[13 + 8 * i + 7]);
    }
    assert(rankquant_file(bits, dim, n, bytes).skip(14) =~= bytes);
    assert(fastscan_file(dim, n, bytes).skip(13) =~= bytes);
}

pub proof fn lemma_two(s: Seq<u8>)
    requires
        s.len() == 2,
    ensures
        le_value(s) == s[0] + 256 * s[1],
{
    let t = s.drop_first();
    assert(t.drop_first() =~= Seq::empty());
    assert(le_value(t.drop_first()) == 0);
    assert(le_value(t) == s[1]);
}

pub proof fn lemma_eight(s: Seq<u8>)
    requires
        s.len() == 8,
    ensures
        le_value(s) == four_bytes(s, 0) + 0x1_0000_0000 * four_bytes(s, 4),
{
    let a = s.drop_first();
    let b = a.drop_first();
    let c = b.drop_first();
    let d = c.drop_first();
    assert(d =~= s.subrange(4, 8));
    lemma_four(s, 4);
    assert(le_value(d) == four_bytes(s, 4));
    assert(le_value(c) == s[3] + 256 * le_value(d));
    assert(le_value(b) == s[2] + 256 * le_value(c));
    assert(le_value(a) == s[1] + 256 * le_value(b));
    assert(le_value(s) == s[0] + 256 * le_value(a));
}

/// Stored numbers are read one after the other.
pub proof fn law_stored_numbers(data: Seq<u8>, w: int, n: int, i: int)
    requires
        0 <= i < n,
    ensures
        decoded(data, w, n).len() == n,
        decoded(data, w, n)[i] == le_value(data.subrange(i * w, i * w + w)),
{
}

/// The ranks of a file are accepted exactly when every row holds ranks below
/// the dimension, none of them twice.
pub proof fn law_accepted_ranks(values: Seq<int>, dim: int)
    requires
        0 < dim,
    ensures
        permutation_error(values, dim) is None <==> (forall|p: int|
            0 <= p < values.len() ==> #[trigger] values[p] < dim) && (forall|p: int, q: int|
            0 <= q < p < values.len() && p / dim == q / dim ==> #[trigger] values[p]
                != #[trigger] values[q]),
{
    let bad = bad_rank(values, dim);
    let n = values.len() as int;
    lemma_first_where_holds(n, bad);
    if first_where(n, bad) >= n {
        assert forall|p: int| 0 <= p < n implies #[trigger] values[p] < dim by {
            assert(!bad(p));
        }
        assert forall|p: int, q: int| 0 <= q < p < n && p / dim == q / dim implies
            #[trigger] values[p] != #[trigger] values[q] by {
            assert(!bad(p));
            lemma_fundamental_div_mod(p, dim);
            lemma_fundamental_div_mod(q, dim);
        }
    } else {
        let p = first_where(n, bad);
        assert(bad(p));
        if values[p] < dim {
            let q = choose|q: int| p - p % dim <= q < p && #[trigger] values[q] == values[p];
            lemma_fundamental_div_mod(p, dim);
            let t = p / dim;
            assert(0 <= t * dim && t * dim <= q < t * dim + dim) by (nonlinear_arith)
                requires
                    p == dim * t + p % dim,
                    0 <= p % dim < dim,
                    p - p % dim <= q < p,
                    0 <= p,
                    0 < dim,
            ;
            lemma_fundamental_div_mod_converse(q, dim, t, q - t * dim);
            assert(q / dim == p / dim);
        }
    }
}

/// The rows of a bitmap file are accepted exactly when each has the declared
/// weight, and refused for the first that has not.
pub proof fn law_accepted_weights(words: Seq<u64>, dim: int, n_top: int, n: int)
    requires
        0 <= n <= usize::MAX,
    ensures
        weight_error(words, dim, n_top, n) is None <==> forall|i: int|
            0 <= i < n ==> weight_of(row_flags(#[trigger] row(words, dim / 64, i), dim)) == n_top,
        weight_error(words, dim, n_top, n) matches Some(
            FormatError::WrongPopcount { row: r, popcount, n_top: t },
        ) ==> r < n && weight_of(row_flags(row(words, dim / 64, r as int), dim)) != n_top
            && forall|i: int|
            0 <= i < r ==> weight_of(row_flags(#[trigger] row(words, dim / 64, i), dim)) == n_top,
        weight_error(words, dim, n_top, n) matches Some(
            FormatError::WrongPopcount { row: r, popcount, n_top: t },
        ) ==> (0 <= dim <= u32::MAX ==> popcount == weight_of(
            row_flags(row(words, dim / 64, r as int), dim),
        )) && (0 <= n_top <= usize::MAX ==> t == n_top),
{
    let p = wrong_weight(words, dim, n_top);
    lemma_first_where_holds(n, p);
    assert forall|i: int| 0 <= i < first_where(n, p) implies weight_of(
        row_flags(#[trigger] row(words, dim / 64, i), dim),
    ) == n_top by {
        assert(!p(i));
    }
    if first_where(n, p) < n {
        let i = first_where(n, p);
        assert(p(i));
        if 0 <= dim {
            lemma_count_bounds(dim, flag_fn(row_flags(row(words, dim / 64, i), dim)));
        }
    }
}

/// A slot of the block layout is bad exactly when one of its bytes holds more
/// than two codes, or, past the last document, anything at all, or when its
/// document does not fill its buckets equally.
pub proof fn law_bad_slots(bytes: Seq<u8>, dim: int, n: int, i: int)
    requires
        0 <= dim,
    ensures
        bad_slot(bytes, dim, n)(i) <==> (i < n && (exists|p: int|
            0 <= p < dim / 2 && #[trigger] bytes[byte_offset(i, p, dim)] >= 16)) || (i >= n && (
        exists|p: int| 0 <= p < dim / 2 && #[trigger] bytes[byte_offset(i, p, dim)] != 0)) || (i < n
            && !balanced(slot_codes(bytes, dim, i), 2)),
{
    let q = bad_byte(bytes, dim, n, i);
    lemma_first_where_holds(dim / 2, q);
    let f = first_where(dim / 2, q);
    if f < dim / 2 {
        assert(q(f));
    } else {
        assert forall|p: int| 0 <= p < dim / 2 implies !(if i < n {
            #[trigger] bytes[byte_offset(i, p, dim)] >= 16
        } else {
            bytes[byte_offset(i, p, dim)] != 0
        }) by {
            assert(!q(p));
        }
    }
}

/// The rows of a file of codes are accepted exactly when every bucket of each
/// holds the same number of coordinates; otherwise the first row that has
/// another count is named, with its first such bucket.
pub proof fn law_accepted_code_rows(bytes: Seq<u8>, dim: int, bits: u8, n: int)
    requires
        1 <= bits <= 8,
        0 < dim <= usize::MAX,
        0 <= n <= usize::MAX,
    ensures
        composition_error(bytes, dim, bits, n) is None <==> forall|i: int, b: int|
            #![trigger bucket_count(unpacked(row(bytes, dim * bits / 8, i), dim, bits), b)]
            0 <= i < n && 0 <= b < levels(bits) ==> bucket_count(
                unpacked(row(bytes, dim * bits / 8, i), dim, bits),
                b,
            ) == dim / levels(bits),
        composition_error(bytes, dim, bits, n) matches Some(
            FormatError::UnevenRow { row: r, bucket, count, expected },
        ) ==> r < n && bucket < levels(bits) && bucket_count(
            unpacked(row(bytes, dim * bits / 8, r as int), dim, bits),
            bucket as int,
        ) != dim / levels(bits) && expected == dim / levels(bits),
        composition_error(bytes, dim, bits, n) matches Some(
            FormatError::UnevenRow { row: r, bucket, count, expected },
        ) ==> count == bucket_count(
            unpacked(row(bytes, dim * bits / 8, r as int), dim, bits),
            bucket as int,
        ) && forall|i: int, b: int|
            #![trigger bucket_count(unpacked(row(bytes, dim * bits / 8, i), dim, bits), b)]
            (0 <= i < r && 0 <= b < levels(bits)) || (i == r && 0 <= b < bucket) ==> bucket_count(
                unpacked(row(bytes, dim * bits / 8, i), dim, bits),
                b,
            ) == dim / levels(bits),
{
    lemma_levels(bits);
    let m = levels(bits);
    let u = uneven(bytes, dim, bits);
    lemma_first_where_holds(n, u);
    let f = first_where(n, u);
    assert(0 <= dim / m <= dim) by (nonlinear_arith)
        requires
            0 < dim,
            1 <= m,
    ;
    assert forall|i: int|
        #![trigger row(bytes, dim * bits / 8, i)]
        unpacked(row(bytes, dim * bits / 8, i), dim, bits).len() == dim by {}
    assert forall|i: int, b: int|
        #![trigger bucket_count(unpacked(row(bytes, dim * bits / 8, i), dim, bits), b)]
        0 <= i < f && 0 <= b < levels(bits) implies bucket_count(
        unpacked(row(bytes, dim * bits / 8, i), dim, bits),
        b,
    ) == dim / levels(bits) by {
        assert(!u(i));
        let codes = unpacked(row(bytes, dim * bits / 8, i), dim, bits);
        let off = bucket_off_balance(codes, dim / m);
        lemma_first_where_holds(m, off);
        assert(!off(b));
    }
    if f < n {
        assert(u(f));
        let codes = unpacked(row(bytes, dim * bits / 8, f), dim, bits);
        let off = bucket_off_balance(codes, dim / m);
        let o = off_bucket(codes, bits);
        lemma_first_where_holds(m, off);
        assert(off(o));
        assert(bucket_count(codes, o) != dim / m);
        assert forall|b: int| 0 <= b < o implies #[trigger] bucket_count(codes, b) == dim / m by {
            assert(!off(b));
        }
        lemma_count_eq_where(dim, code_fn(codes), o, |i: int| codes[i] == o);
        lemma_count_bounds(dim, |i: int| codes[i] == o);
    }
}

/// What a file of the block layout is refused for: a byte of a document above
/// fifteen, a byte past the last document that is not zero, or a document whose
/// buckets are not equally filled, at the place that the error names.
pub proof fn law_refused_blocks(bytes: Seq<u8>, dim: int, n: int, e: FormatError)
    requires
        2 <= dim <= 65535,
        dim % 4 == 0,
        0 <= n <= 67108864,
        fastscan_fault(bytes, dim, n, e),
    ensures
        e matches FormatError::InvalidNibble { block, pair, lane, doc, byte } ==> doc < n && doc
            == 32 * block + lane && lane < 32 && pair < dim / 2 && byte >= 16 && byte
            == bytes[(block * (dim / 2) + pair) * 32 + lane],
        e matches FormatError::PaddingNotZero { block, pair, lane, byte } ==> 32 * block + lane >= n
            && lane < 32 && pair < dim / 2 && byte != 0 && byte == bytes[(block * (dim / 2) + pair)
            * 32 + lane],
        e matches FormatError::UnevenDocument { doc, counts, expected } ==> doc < n && expected
            == dim / 4 && !balanced(slot_codes(bytes, dim, doc as int), 2) && (forall|b: int|
            0 <= b < 4 ==> #[trigger] counts[b] == bucket_count(
                slot_codes(bytes, dim, doc as int),
                b,
            )),
        e is InvalidNibble || e is PaddingNotZero || e is UnevenDocument,
{
    let slots = blocks_for(n) * 32;
    let bad = bad_slot(bytes, dim, n);
    lemma_first_where_holds(slots, bad);
    let i = first_where(slots, bad);
    assert(bad(i));
    let q = bad_byte(bytes, dim, n, i);
    lemma_first_where_holds(dim / 2, q);
    let p = first_where(dim / 2, q);
    if p < dim / 2 {
        assert(q(p));
        let b = i / 32;
        let h = dim / 2;
        assert(b * (h * 32) + p * 32 == (b * h + p) * 32) by (nonlinear_arith);
        assert(byte_offset(i, p, dim) == (b * h + p) * 32 + i % 32);
    }
}

/// The number that a numeral spells.
pub open spec fn spelled(s: Seq<char>) -> int
    decreases s.len(),
{
    if s.len() == 0 {
        0
    } else {
        10 * spelled(s.drop_last()) + (s.last() as int - 48)
    }
}

/// The numeral of a number spells it in decimal digits, without a leading zero.
pub proof fn law_numerals(n: nat)
    ensures
        spelled(decimal(n)) == n,
        forall|i: int| 0 <= i < decimal(n).len() ==> 48 <= #[trigger] decimal(n)[i] as int <= 57,
        decimal(n).len() > 0,
        n > 0 ==> decimal(n)[0] as int != 48,
    decreases n,
{
    let s = decimal(n);
    if n < 10 {
        assert(s.drop_last() =~= Seq::empty());
        assert(spelled(s.drop_last()) == 0);
    } else {
        law_numerals(n / 10);
        assert(s.drop_last() =~= decimal(n / 10));
        assert forall|i: int| 0 <= i < s.len() implies 48 <= #[trigger] s[i] as int <= 57 by {
            if i < s.len() - 1 {
                assert(s[i] == decimal(n / 10)[i]);
            }
        }
    }
}

/// The value of a hexadecimal digit.
pub open spec fn hex_value(c: char) -> int {
    if 48 <= c as int <= 57 {
        c as int - 48
    } else {
        c as int - 87
    }
}

/// A byte is written as its two hexadecimal digits, the high one first.
pub proof fn law_hexadecimal_bytes(b: u8)
    ensures
        hex_byte(b).len() == 2,
        b == 16 * hex_value(hex_byte(b)[0]) + hex_value(hex_byte(b)[1]),
        0 <= hex_value(hex_byte(b)[0]) < 16,
        0 <= hex_value(hex_byte(b)[1]) < 16,
{
}

} // verus!
