//! Why inputs are refused, and what accepted files are read as.

use vstd::arithmetic::div_mod::{lemma_fundamental_div_mod, lemma_fundamental_div_mod_converse};
use vstd::prelude::*;

use crate::bitmap::stored_bitmap_words;
use crate::bucket_code::{
    bucket_off_balance, code_out_of_range, CompositionSpec, CompositionViolation,
};
use crate::codec::ints64;
use crate::counting::{
    first_where, lemma_count_bounds, lemma_count_eq_where, lemma_first_where_holds,
};
use crate::error::OrdvecError;
use crate::float_bits::F32Bits;
use crate::format::{
    all_formats, extension_of, introduces, magic_bytes, magic_text, PersistedFormat,
};
use crate::format_error::{FormatError, FormatErrorKind, HeaderField};
use crate::laws::files::{four_bytes, law_header_fields, lemma_eight, lemma_two};
use crate::multi_bucket::MultiBucketBitmap;
use crate::quant::{
    composition_error, is_code, probe_error, probe_fits, rankquant_file_error, RankQuant,
};
use crate::rank::{bucket_count, code_fn, codes_per_byte, packable};
use crate::rank_index::{bad_rank, permutation_error, rank_file_error, stored_ranks};
use crate::rank_io::{file_error, header_of, payload_len, size_error, stored_bits};
use crate::rows::row;
use crate::sign_bitmap::{stored_sign_words, SignBitmap};

verus! {

/// The header of a file of the format ends here.
pub open spec fn header_end(format: PersistedFormat) -> int {
    match format {
        PersistedFormat::RankQuant => 14,
        PersistedFormat::Bitmap => 17,
        _ => 13,
    }
}

/// Each fault of a header is one that the file has, and carries what was found.
pub proof fn law_header_faults_are_real(format: PersistedFormat, s: Seq<u8>, e: FormatError)
    requires
        s.len() <= usize::MAX,
        file_error(format, s) == Some(e),
    ensures
        ({
            let h = header_of(format, s);
            let wide = format == PersistedFormat::RankQuant;
            match e {
                FormatError::HeaderTruncated { source, field } => source == Some(format)
                    && s.len() < match field {
                    HeaderField::Magic => 4,
                    HeaderField::Version => 5,
                    HeaderField::Bits => 6,
                    HeaderField::Dim => if wide {
                        10
                    } else {
                        9
                    },
                    HeaderField::NTop => 13,
                    HeaderField::NVectors => header_end(format),
                } && (field == HeaderField::Bits ==> wide) && (field == HeaderField::NTop ==> format
                    == PersistedFormat::Bitmap),
                FormatError::WrongMagic { format: f } => f == format && s.len() >= 4 && !introduces(
                    s.subrange(0, 4),
                    format,
                ),
                FormatError::UnsupportedVersion { format: f, version } => f == format && version
                    == s[4] && version != 1,
                FormatError::UnsupportedBits { bits } => wide && bits == s[5] && bits != 1 && bits
                    != 2 && bits != 4,
                FormatError::DimOutOfRange { dim } => dim == h.dim && !(2 <= dim <= 65535),
                FormatError::SignDimOutOfRange { dim } => dim == h.dim && !(64 <= dim <= 16777216),
                FormatError::DimNotWholeWords { format: f, dim } => f == format && dim == h.dim
                    && dim % 64 != 0,
                FormatError::DimNotComposable { dim, n_buckets } => wide && dim == h.dim && dim
                    % n_buckets != 0 && (h.bits == 1 ==> n_buckets == 2) && (h.bits == 2
                    ==> n_buckets == 4) && (h.bits == 4 ==> n_buckets == 16),
                FormatError::DimNotPackable { dim, codes_per_byte } => wide && dim == h.dim && dim
                    % codes_per_byte != 0 && codes_per_byte * h.bits == 8,
                FormatError::DimNotPaired { dim } => dim == h.dim && dim % 4 != 0,
                FormatError::TopOutOfRange { n_top, dim } => n_top == h.n_top && dim == h.dim && !(0
                    < n_top < dim),
                FormatError::TooManyVectors { n_vectors } => n_vectors == h.n_vectors && n_vectors
                    > 67108864,
                FormatError::PayloadOverflow { format: f } => f == format && payload_len(
                    format,
                    h.bits as int,
                    h.dim as int,
                    h.n_vectors as int,
                ) > usize::MAX,
                FormatError::PayloadTooLarge { payload } => payload > 137438953472 && payload
                    == payload_len(format, h.bits as int, h.dim as int, h.n_vectors as int),
                FormatError::PayloadTruncated { format: f, declared, remaining } => f == format
                    && remaining == s.len() - header_end(format) && declared > remaining && declared
                    == payload_len(format, h.bits as int, h.dim as int, h.n_vectors as int),
                FormatError::PayloadTrailing { format: f, declared, remaining } => f == format
                    && remaining == s.len() - header_end(format) && declared < remaining && declared
                    == payload_len(format, h.bits as int, h.dim as int, h.n_vectors as int),
                _ => false,
            }
        }),
{
    lemma_widths_divide(header_of(format, s).bits as int);
}

proof fn lemma_widths_divide(b: int)
    ensures
        b == 1 ==> 8int / b == 8,
        b == 2 ==> 8int / b == 4,
        b == 4 ==> 8int / b == 2,
        b == 8 ==> 8int / b == 1,
{
    if b == 1 {
        lemma_fundamental_div_mod_converse(8, b, 8, 0);
    } else if b == 2 {
        lemma_fundamental_div_mod_converse(8, b, 4, 0);
    } else if b == 4 {
        lemma_fundamental_div_mod_converse(8, b, 2, 0);
    } else if b == 8 {
        lemma_fundamental_div_mod_converse(8, b, 1, 0);
    }
}

/// Faults are found in the order in which a reader meets the fields: the magic
/// before the version, and the version before anything else.
pub proof fn law_first_faults_come_first(format: PersistedFormat, s: Seq<u8>)
    requires
        s.len() <= usize::MAX,
    ensures
        s.len() < 4 ==> file_error(format, s) == Some(
            FormatError::HeaderTruncated { source: Some(format), field: HeaderField::Magic },
        ),
        s.len() >= 4 && !introduces(s.subrange(0, 4), format) ==> file_error(format, s) == Some(
            FormatError::WrongMagic { format },
        ),
        s.len() == 4 && introduces(s.subrange(0, 4), format) ==> file_error(format, s) == Some(
            FormatError::HeaderTruncated { source: Some(format), field: HeaderField::Version },
        ),
        s.len() >= 5 && introduces(s.subrange(0, 4), format) && s[4] != 1 ==> file_error(format, s)
            == Some(FormatError::UnsupportedVersion { format, version: s[4] }),
        s.len() >= 6 && format == PersistedFormat::RankQuant && introduces(
            s.subrange(0, 4),
            format,
        ) && s[4] == 1 && s[5] != 1 && s[5] != 2 && s[5] != 4 ==> file_error(format, s) == Some(
            FormatError::UnsupportedBits { bits: s[5] },
        ),
        s.len() >= 9 && format == PersistedFormat::Rank && introduces(s.subrange(0, 4), format)
            && s[4] == 1 && !(2 <= header_of(format, s).dim <= 65535) ==> file_error(format, s)
            == Some(FormatError::DimOutOfRange { dim: header_of(format, s).dim }),
{
}

/// The classes of the faults: a header that ends early, an index that is not
/// stored, and bytes that are no index.
pub proof fn law_fault_classes(e: FormatError)
    ensures
        e.class() == FormatErrorKind::UnexpectedEof <==> e is HeaderTruncated,
        e.class() == FormatErrorKind::Unsupported <==> e is WidthNotPersisted,
{
}

/// An index too large to store is refused for its size alone.
pub proof fn law_sizes(format: PersistedFormat, p: int)
    ensures
        size_error(format, p) is None <==> p <= 137438953472 && p <= usize::MAX,
        p > usize::MAX ==> size_error(format, p) == Some(FormatError::PayloadOverflow { format }),
        137438953472 < p <= usize::MAX ==> size_error(format, p) == Some(
            FormatError::PayloadTooLarge { payload: p as usize },
        ),
{
}

/// Payload sizes: two bytes a rank, `bits` bits a code, a bit for each
/// coordinate of a bitmap, and half a byte a code in whole blocks.
pub proof fn law_payload_sizes(format: PersistedFormat, bits: int, dim: int, n: int)
    requires
        0 <= n,
        0 <= dim,
        format == PersistedFormat::RankQuant ==> (dim * bits) % 8 == 0,
        format == PersistedFormat::Bitmap || format == PersistedFormat::SignBitmap ==> dim % 64
            == 0,
        format == PersistedFormat::RankQuantFastscan ==> dim % 2 == 0 && n % 32 == 0,
    ensures
        match format {
            PersistedFormat::Rank => payload_len(format, bits, dim, n) == 2 * (n * dim),
            PersistedFormat::RankQuant => 8 * payload_len(format, bits, dim, n) == n * (dim * bits),
            PersistedFormat::Bitmap => 8 * payload_len(format, bits, dim, n) == n * dim,
            PersistedFormat::SignBitmap => 8 * payload_len(format, bits, dim, n) == n * dim,
            PersistedFormat::RankQuantFastscan => 2 * payload_len(format, bits, dim, n) == n * dim,
        },
{
    match format {
        PersistedFormat::Rank => {
            assert(n * dim * 2 == 2 * (n * dim));
        },
        PersistedFormat::RankQuant => {
            let w = dim * bits / 8;
            let t = dim * bits;
            assert(8 * (n * w) == n * t) by (nonlinear_arith)
                requires
                    t == 8 * w,
            ;
        },
        PersistedFormat::Bitmap => {
            let w = dim / 64;
            assert(8 * (n * w * 8) == n * dim) by (nonlinear_arith)
                requires
                    dim == 64 * w,
            ;
        },
        PersistedFormat::SignBitmap => {
            let w = dim / 64;
            assert(8 * (n * w * 8) == n * dim) by (nonlinear_arith)
                requires
                    dim == 64 * w,
            ;
        },
        PersistedFormat::RankQuantFastscan => {
            let b = (n + 31) / 32;
            let h = dim / 2;
            assert(n == 32 * b);
            assert(2 * (b * h * 32) == n * dim) by (nonlinear_arith)
                requires
                    n == 32 * b,
                    dim == 2 * h,
            ;
        },
    }
}

/// Ranks are refused for the first value that is no rank or that its row
/// already holds.
pub proof fn law_rank_faults_are_real(values: Seq<int>, dim: int)
    requires
        0 < dim <= 65535,
        values.len() <= usize::MAX,
        forall|p: int| 0 <= p < values.len() ==> 0 <= #[trigger] values[p] <= 65535,
    ensures
        permutation_error(values, dim) matches Some(FormatError::RankTooLarge { rank, dim: d })
            ==> d == dim && rank >= dim && exists|p: int|
            0 <= p < values.len() && #[trigger] values[p] == rank,
        permutation_error(values, dim) matches Some(FormatError::RankRepeats { row: r, rank })
            ==> exists|p: int, q: int|
            0 <= q < p < values.len() && #[trigger] values[p] == rank && #[trigger] values[q]
                == rank && p / dim == r,
{
    let n = values.len() as int;
    let bad = bad_rank(values, dim);
    lemma_first_where_holds(n, bad);
    let p = first_where(n, bad);
    if p < n {
        assert(bad(p));
        lemma_fundamental_div_mod(p, dim);
        let t = p / dim;
        assert(0 <= t <= p) by (nonlinear_arith)
            requires
                p == dim * t + p % dim,
                0 <= p % dim < dim,
                0 <= p,
                1 <= dim,
        ;
        assert(0 <= p - p % dim) by (nonlinear_arith)
            requires
                p == dim * t + p % dim,
                0 <= t,
                0 < dim,
        ;
        if values[p] < dim {
            let q = choose|q: int| p - p % dim <= q < p && #[trigger] values[q] == values[p];
            assert(values[q] == values[p] && 0 <= q < p);
        }
    }
}

/// Faults of the header come before faults of the documents.
pub proof fn law_headers_are_read_first(s: Seq<u8>)
    ensures
        file_error(PersistedFormat::Rank, s) is Some ==> rank_file_error(s) == file_error(
            PersistedFormat::Rank,
            s,
        ),
        file_error(PersistedFormat::RankQuant, s) is Some ==> rankquant_file_error(s) == file_error(
            PersistedFormat::RankQuant,
            s,
        ),
        file_error(PersistedFormat::Rank, s) is None ==> rank_file_error(s) == permutation_error(
            stored_ranks(s),
            four_bytes(s, 5),
        ),
        file_error(PersistedFormat::RankQuant, s) is None ==> rankquant_file_error(s)
            == composition_error(s.skip(14), four_bytes(s, 6), s[5], four_bytes(s, 10)),
{
    if file_error(PersistedFormat::Rank, s) is None {
        law_header_fields(PersistedFormat::Rank, s);
    }
    if file_error(PersistedFormat::RankQuant, s) is None {
        law_header_fields(PersistedFormat::RankQuant, s);
    }
}

/// The ranks of a rank file are its bytes from the thirteenth on, two by two.
pub proof fn law_ranks_of_files(s: Seq<u8>, i: int)
    requires
        file_error(PersistedFormat::Rank, s) is None,
        0 <= i < stored_ranks(s).len(),
    ensures
        stored_ranks(s).len() == four_bytes(s, 9) * four_bytes(s, 5),
        13 + 2 * stored_ranks(s).len() == s.len(),
        stored_ranks(s)[i] == s[13 + 2 * i] + 256 * s[14 + 2 * i],
{
    law_header_fields(PersistedFormat::Rank, s);
    let h = header_of(PersistedFormat::Rank, s);
    let n = h.n_vectors as int;
    let d = h.dim as int;
    assert(0 <= n * d) by (nonlinear_arith)
        requires
            0 <= n,
            0 <= d,
    ;
    assert(n * d * 2 == 2 * (n * d));
    let x = row(s.skip(13), 2, i);
    lemma_two(x);
    assert(x[0] == s[13 + 2 * i] && x[1] == s[14 + 2 * i]);
}

/// The words of a sign-bitmap file are its bytes from the thirteenth on, and
/// those of a bitmap file from the seventeenth on, eight by eight.
pub proof fn law_words_of_files(s: Seq<u8>, words: Seq<u64>, i: int)
    ensures
        file_error(PersistedFormat::SignBitmap, s) is None && 0 <= i < stored_sign_words(s).len()
            ==> stored_sign_words(s)[i] == four_bytes(s, 13 + 8 * i) + 0x1_0000_0000 * four_bytes(
            s,
            17 + 8 * i,
        ) && 13 + 8 * stored_sign_words(s).len() == s.len(),
        file_error(PersistedFormat::Bitmap, s) is None && stored_bitmap_words(s, words) ==> 17 + 8
            * words.len() == s.len() && (0 <= i < words.len() ==> words[i] == four_bytes(
            s,
            17 + 8 * i,
        ) + 0x1_0000_0000 * four_bytes(s, 21 + 8 * i)),
{
    if file_error(PersistedFormat::SignBitmap, s) is None {
        law_header_fields(PersistedFormat::SignBitmap, s);
        let h = header_of(PersistedFormat::SignBitmap, s);
        let n = h.n_vectors as int;
        let w = h.dim as int / 64;
        assert(0 <= n * w) by (nonlinear_arith)
            requires
                0 <= n,
                0 <= w,
        ;
        assert(n * w * 8 == 8 * (n * w));
        if 0 <= i < stored_sign_words(s).len() {
            let x = row(s.skip(13), 8, i);
            lemma_eight(x);
            lemma_same_bytes(x, s, 13 + 8 * i);
        }
    }
    if file_error(PersistedFormat::Bitmap, s) is None && stored_bitmap_words(s, words) {
        law_header_fields(PersistedFormat::Bitmap, s);
        let h = header_of(PersistedFormat::Bitmap, s);
        let n = h.n_vectors as int;
        let w = h.dim as int / 64;
        assert(0 <= n * w) by (nonlinear_arith)
            requires
                0 <= n,
                0 <= w,
        ;
        assert(n * w * 8 == 8 * (n * w));
        assert(ints64(words).len() == n * w);
        if 0 <= i < words.len() {
            let x = row(s.skip(17), 8, i);
            lemma_eight(x);
            lemma_same_bytes(x, s, 17 + 8 * i);
            assert(ints64(words)[i] == words[i]);
        }
    }
}

proof fn lemma_same_bytes(x: Seq<u8>, s: Seq<u8>, at: int)
    requires
        x.len() == 8,
        forall|k: int| 0 <= k < 8 ==> #[trigger] x[k] == s[at + k],
    ensures
        four_bytes(x, 0) == four_bytes(s, at),
        four_bytes(x, 4) == four_bytes(s, at + 4),
{
    assert(x[0] == s[at + 0] && x[1] == s[at + 1] && x[2] == s[at + 2] && x[3] == s[at + 3]);
    assert(x[4] == s[at + 4] && x[5] == s[at + 5] && x[6] == s[at + 6] && x[7] == s[at + 7]);
}

/// A code is refused for a coordinate that is no bucket at the first such
/// coordinate, and then for the first bucket that holds another number of
/// coordinates than it should.
pub proof fn law_code_faults_are_real(spec: CompositionSpec, codes: Seq<u8>)
    requires
        spec.wf(),
        codes.len() == spec.dimension(),
    ensures
        spec.code_error(codes) matches Some(
            CompositionViolation::BucketOutOfRange { coordinate, bucket, buckets },
        ) ==> coordinate < codes.len() && bucket == codes[coordinate as int] && buckets
            == spec.bucket_total() && bucket >= buckets && forall|i: int|
            0 <= i < coordinate ==> #[trigger] codes[i] < spec.bucket_total(),
        spec.code_error(codes) matches Some(
            CompositionViolation::WrongBucketCount { bucket, expected, actual },
        ) ==> bucket < spec.bucket_total() && actual == bucket_count(codes, bucket as int) && actual
            != expected && expected * spec.bucket_total() == spec.dimension() && forall|b: int|
            0 <= b < bucket ==> #[trigger] bucket_count(codes, b) == expected,
        spec.histogram_error(codes) is None <==> forall|i: int|
            0 <= i < codes.len() ==> #[trigger] codes[i] < spec.bucket_total(),
{
    let p = code_out_of_range(codes, spec.bucket_total() as int);
    let q = bucket_off_balance(codes, spec.occupancy() as int);
    let n = codes.len() as int;
    let m = spec.bucket_total() as int;
    lemma_first_where_holds(n, p);
    lemma_first_where_holds(m, q);
    lemma_fundamental_div_mod(spec.dimension() as int, m);
    let a = spec.occupancy() as int;
    assert(a * m == m * a) by (nonlinear_arith);
    assert forall|i: int| 0 <= i < first_where(n, p) implies #[trigger] codes[i]
        < spec.bucket_total() by {
        assert(!p(i));
    }
    assert forall|b: int| 0 <= b < first_where(m, q) implies #[trigger] bucket_count(codes, b)
        == a by {
        assert(!q(b));
    }
    if first_where(n, p) < n {
        assert(p(first_where(n, p)));
    }
    if first_where(m, q) < m {
        let b = first_where(m, q);
        assert(q(b));
        lemma_count_eq_where(
            n,
            code_fn(codes),
            b,
            |i: int| codes[i] == b,
        );
        lemma_count_bounds(n, |i: int| codes[i] == b);
    }
}

/// The extension of a format is the lower case of its magic as far as it goes,
/// and the magic as text spells the bytes.
pub proof fn law_extensions(format: PersistedFormat)
    ensures
        magic_text(format).len() == 4,
        forall|i: int|
            0 <= i < 4 ==> #[trigger] magic_text(format)[i] as int == magic_bytes(format)[i],
        extension_of(format).len() == if format == PersistedFormat::Rank {
            3int
        } else {
            4int
        },
        forall|i: int|
            0 <= i < extension_of(format).len() ==> #[trigger] extension_of(format)[i] as int
                == magic_bytes(format)[i] + 32,
{
    reveal_strlit("OVR1");
    reveal_strlit("OVRQ");
    reveal_strlit("OVBM");
    reveal_strlit("OVSB");
    reveal_strlit("OVFS");
    reveal_strlit("ovr");
    reveal_strlit("ovrq");
    reveal_strlit("ovbm");
    reveal_strlit("ovsb");
    reveal_strlit("ovfs");
}

/// The registry lists every format once.
pub proof fn law_registry_is_complete(format: PersistedFormat)
    ensures
        all_formats().contains(format),
        all_formats().no_duplicates(),
        all_formats().len() == 5,
{
    let f = all_formats();
    assert(f[0] == PersistedFormat::Rank && f[1] == PersistedFormat::RankQuant && f[2]
        == PersistedFormat::Bitmap && f[3] == PersistedFormat::SignBitmap && f[4]
        == PersistedFormat::RankQuantFastscan);
}

/// A code vector has a length and holds buckets only; packed codes have one,
/// two, four or eight bits and fill a byte.
pub proof fn law_codes_and_widths(d: Seq<u8>, len: int, n: int, bits: u8)
    ensures
        is_code(d, len, n) <==> d.len() == len && forall|j: int|
            0 <= j < d.len() ==> #[trigger] d[j] < n,
        packable(bits) <==> bits == 1 || bits == 2 || bits == 4 || bits == 8,
        packable(bits) ==> codes_per_byte(bits) * bits == 8,
        stored_bits(bits as int) <==> packable(bits) && bits != 8,
{
    lemma_widths_divide(bits as int);
    let c = codes_per_byte(bits);
    if packable(bits) {
        assert(c * bits == 8) by (nonlinear_arith)
            requires
                (bits == 1 && c == 8) || (bits == 2 && c == 4) || (bits == 4 && c == 2) || (bits
                    == 8 && c == 1),
        ;
    }
}

/// A probe fits an index exactly when dimensions, document counts and the query
/// agree and the query is finite; an error is owed only where it does not, and
/// names the first of these that fails.
pub proof fn law_probe_arguments(
    index: RankQuant,
    probe: SignBitmap,
    query: Seq<F32Bits>,
    e: OrdvecError,
)
    ensures
        probe_fits(index, probe, query) <==> probe.dimension() == index.dimension() && probe.count()
            == index.count() && query.len() == index.dimension() && forall|i: int|
            0 <= i < query.len() ==> (#[trigger] query[i]).finite(),
        probe_error(index, probe, query, e) ==> !probe_fits(index, probe, query),
        probe_error(index, probe, query, e) && probe.dimension() == index.dimension()
            && probe.count() == index.count() && query.len() != index.dimension() ==> e
            is InvalidVectorLength,
        probe_error(index, probe, query, e) && (probe.dimension() != index.dimension()
            || probe.count() != index.count() || query.len() == index.dimension()) ==> e
            is InvalidParameter,
{
}

/// A multi-bucket document takes as many bits as it has coordinates for each
/// bucket.
pub proof fn law_multi_bucket_sizes(index: MultiBucketBitmap)
    requires
        index.wf(),
    ensures
        64 * index.doc_words() == index.bucket_total() * index.dimension(),
        index.words().len() == index.count() * index.doc_words(),
{
    index.lemma_wf();
    let w = index.dimension() / 64;
    let b = index.bucket_total();
    let d = index.dimension();
    assert(64 * (b * w) == b * d) by (nonlinear_arith)
        requires
            d == 64 * w,
    ;
}

} // verus!
