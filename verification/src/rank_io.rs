//! The on-disk layout of the index files.
//!
//! Every file is a small header followed by one payload, little-endian
//! throughout:
//!
//! | format              | header                                      | payload                    |
//! |---------------------|---------------------------------------------|----------------------------|
//! | `Rank`              | magic, version, dim, n_vectors              | ranks as `u16`             |
//! | `RankQuant`         | magic, version, bits, dim, n_vectors        | packed codes               |
//! | `Bitmap`            | magic, version, dim, n_top, n_vectors       | bitmap words as `u64`      |
//! | `SignBitmap`        | magic, version, dim, n_vectors              | bitmap words as `u64`      |
//! | `RankQuantFastscan` | magic, version, dim, n_vectors              | blocks of 32 documents     |
//!
//! The magic is four bytes, version and bits one byte, the other fields `u32`.
//! The payload must take up the rest of the file exactly.

use vstd::prelude::*;

use crate::codec::{
    le_bytes, le_value, lemma_le_len, lemma_le_round_trip, lemma_spans, push_le, read_le,
};
use crate::format::{
    bytes_introduce, introduces, kind_of, lookup_magic, magic_bytes, spec, FormatSpec,
    PersistedFormat,
};
pub use crate::format::IndexKind;
use crate::format_error::{FormatError, HeaderField};

verus! {

/// The largest dimension of a rank-based index: ranks are stored as `u16`.
pub const MAX_DIM: usize = 65535;

/// The largest dimension of a sign-bitmap index.
pub const MAX_SIGN_BITMAP_DIM: usize = 16777216;

/// The largest number of documents of an index.
pub const MAX_VECTORS: usize = 67108864;

/// The largest payload of an index file, in bytes.
pub const MAX_PAYLOAD: u64 = 137438953472;

/// The version of every format.
pub const VERSION: u8 = 1;

/// Where the dimension stands in a header.
pub open spec fn dim_offset(format: PersistedFormat) -> int {
    if format == PersistedFormat::RankQuant {
        6
    } else {
        5
    }
}

/// The length of a header.
pub open spec fn header_len(format: PersistedFormat) -> int {
    match format {
        PersistedFormat::RankQuant => 14,
        PersistedFormat::Bitmap => 17,
        _ => 13,
    }
}

/// The `u32` at `at`.
pub open spec fn u32_at(bytes: Seq<u8>, at: int) -> int {
    le_value(bytes.subrange(at, at + 4))
}

/// What a header declares.
#[derive(Copy, Clone, Debug, PartialEq, Eq)]
pub struct Header {
    /// The code width; 0 where the format has none.
    pub bits: u8,
    /// The dimension.
    pub dim: usize,
    /// The bitmap weight; 0 where the format has none.
    pub n_top: usize,
    /// The number of documents.
    pub n_vectors: usize,
}

/// The header fields of a file.
pub open spec fn header_of(format: PersistedFormat, bytes: Seq<u8>) -> Header {
    Header {
        bits: if format == PersistedFormat::RankQuant {
            bytes[5]
        } else {
            0
        },
        dim: u32_at(bytes, dim_offset(format)) as usize,
        n_top: if format == PersistedFormat::Bitmap {
            u32_at(bytes, 9) as usize
        } else {
            0
        },
        n_vectors: u32_at(bytes, header_len(format) - 4) as usize,
    }
}

/// A code width that is stored.
pub open spec fn stored_bits(bits: int) -> bool {
    bits == 1 || bits == 2 || bits == 4
}

/// The number of buckets of a stored code width.
pub open spec fn bucket_total(bits: int) -> int {
    if bits == 1 {
        2
    } else if bits == 2 {
        4
    } else {
        16
    }
}

/// What is wrong with the dimension of a header.
pub open spec fn dim_error(format: PersistedFormat, bits: int, dim: int) -> Option<FormatError> {
    let d = dim as usize;
    if format == PersistedFormat::SignBitmap {
        if !(64 <= dim <= MAX_SIGN_BITMAP_DIM) {
            Some(FormatError::SignDimOutOfRange { dim: d })
        } else if dim % 64 != 0 {
            Some(FormatError::DimNotWholeWords { format, dim: d })
        } else {
            None
        }
    } else if !(2 <= dim <= MAX_DIM) {
        Some(FormatError::DimOutOfRange { dim: d })
    } else {
        match format {
            PersistedFormat::RankQuant => if dim % bucket_total(bits) != 0 {
                Some(
                    FormatError::DimNotComposable {
                        dim: d,
                        n_buckets: bucket_total(bits) as usize,
                    },
                )
            } else if dim % (8int / bits) != 0 {
                Some(FormatError::DimNotPackable { dim: d, codes_per_byte: (8int / bits) as usize })
            } else {
                None
            },
            PersistedFormat::Bitmap => if dim % 64 != 0 {
                Some(FormatError::DimNotWholeWords { format, dim: d })
            } else {
                None
            },
            PersistedFormat::RankQuantFastscan => if dim % 4 != 0 {
                Some(FormatError::DimNotPaired { dim: d })
            } else {
                None
            },
            _ => None,
        }
    }
}

/// The number of 32-document blocks that hold `n` documents.
pub open spec fn blocks_for(n: int) -> int {
    (n + 31) / 32
}

/// The size of a payload.
pub open spec fn payload_len(format: PersistedFormat, bits: int, dim: int, n: int) -> int {
    match format {
        PersistedFormat::Rank => n * dim * 2,
        PersistedFormat::RankQuant => n * (dim * bits / 8),
        PersistedFormat::Bitmap => n * (dim / 64) * 8,
        PersistedFormat::SignBitmap => n * (dim / 64) * 8,
        PersistedFormat::RankQuantFastscan => blocks_for(n) * (dim / 2) * 32,
    }
}

/// What is wrong with the size of a payload.
pub open spec fn size_error(format: PersistedFormat, payload: int) -> Option<FormatError> {
    if payload > usize::MAX {
        Some(FormatError::PayloadOverflow { format })
    } else if payload > MAX_PAYLOAD {
        Some(FormatError::PayloadTooLarge { payload: payload as usize })
    } else {
        None
    }
}

/// What is wrong with the number of bytes after the header.
pub open spec fn length_error(format: PersistedFormat, payload: int, remaining: int) -> Option<
    FormatError,
> {
    if payload > remaining {
        Some(
            FormatError::PayloadTruncated {
                format,
                declared: payload as u64,
                remaining: remaining as u64,
            },
        )
    } else if payload < remaining {
        Some(
            FormatError::PayloadTrailing {
                format,
                declared: payload as u64,
                remaining: remaining as u64,
            },
        )
    } else {
        None
    }
}

/// What is wrong with the magic of a file that should have the format.
pub open spec fn magic_error(format: PersistedFormat, bytes: Seq<u8>) -> Option<FormatError> {
    if bytes.len() < 4 {
        Some(FormatError::HeaderTruncated { source: Some(format), field: HeaderField::Magic })
    } else if !introduces(bytes.subrange(0, 4), format) {
        Some(FormatError::WrongMagic { format })
    } else {
        None
    }
}

/// What is first found wrong after the magic of a file of `total` bytes that
/// starts with `bytes`.
pub open spec fn header_error(format: PersistedFormat, bytes: Seq<u8>, total: int) -> Option<
    FormatError,
> {
    let h = header_of(format, bytes);
    let payload = payload_len(format, h.bits as int, h.dim as int, h.n_vectors as int);
    let remaining = if total < header_len(format) {
        0
    } else {
        total - header_len(format)
    };
    if bytes.len() < 5 {
        Some(FormatError::HeaderTruncated { source: Some(format), field: HeaderField::Version })
    } else if bytes[4] != VERSION {
        Some(FormatError::UnsupportedVersion { format, version: bytes[4] })
    } else if format == PersistedFormat::RankQuant && bytes.len() < 6 {
        Some(FormatError::HeaderTruncated { source: Some(format), field: HeaderField::Bits })
    } else if format == PersistedFormat::RankQuant && !stored_bits(h.bits as int) {
        Some(FormatError::UnsupportedBits { bits: h.bits })
    } else if bytes.len() < dim_offset(format) + 4 {
        Some(FormatError::HeaderTruncated { source: Some(format), field: HeaderField::Dim })
    } else if dim_error(format, h.bits as int, h.dim as int) is Some {
        dim_error(format, h.bits as int, h.dim as int)
    } else if format == PersistedFormat::Bitmap && bytes.len() < 13 {
        Some(FormatError::HeaderTruncated { source: Some(format), field: HeaderField::NTop })
    } else if format == PersistedFormat::Bitmap && !(0 < h.n_top < h.dim) {
        Some(FormatError::TopOutOfRange { n_top: h.n_top, dim: h.dim })
    } else if bytes.len() < header_len(format) {
        Some(FormatError::HeaderTruncated { source: Some(format), field: HeaderField::NVectors })
    } else if h.n_vectors > MAX_VECTORS {
        Some(FormatError::TooManyVectors { n_vectors: h.n_vectors })
    } else if size_error(format, payload) is Some {
        size_error(format, payload)
    } else {
        length_error(format, payload, remaining)
    }
}

/// The size of a payload, where it is one that is stored.
pub fn checked_payload(format: PersistedFormat, bits: u8, dim: usize, n: usize) -> (r:
    Result<usize, FormatError>)
    requires
        dim * bits <= usize::MAX,
        n + 31 <= usize::MAX,
    ensures
        match r {
            Ok(p) => p == payload_len(format, bits as int, dim as int, n as int) && size_error(
                format,
                p as int,
            ) is None,
            Err(e) => size_error(
                format,
                payload_len(format, bits as int, dim as int, n as int),
            ) == Some(e),
        },
{
    let (rows, width, unit): (usize, usize, usize) = match format {
        PersistedFormat::Rank => (n, dim, 2),
        PersistedFormat::RankQuant => (n, dim * bits as usize / 8, 1),
        PersistedFormat::Bitmap => (n, dim / 64, 8),
        PersistedFormat::SignBitmap => (n, dim / 64, 8),
        PersistedFormat::RankQuantFastscan => ((n + 31) / 32, dim / 2, 32),
    };
    let ghost want = payload_len(format, bits as int, dim as int, n as int);
    assert(rows * width * unit == want);
    let elements: usize = match rows.checked_mul(width) {
        Some(e) => e,
        None => {
            assert(rows * width * unit >= rows * width) by (nonlinear_arith)
                requires
                    0 <= rows * width,
                    unit >= 1,
            ;
            return Err(FormatError::PayloadOverflow { format });
        },
    };
    let payload: usize = match elements.checked_mul(unit) {
        Some(p) => p,
        None => {
            return Err(FormatError::PayloadOverflow { format });
        },
    };
    if payload as u64 > MAX_PAYLOAD {
        return Err(FormatError::PayloadTooLarge { payload });
    }
    Ok(payload)
}

fn read_u32(bytes: &[u8], at: usize) -> (x: usize)
    requires
        at + 4 <= bytes.len(),
    ensures
        x == u32_at(bytes@, at as int),
        x < 4294967296,
{
    proof {
        lemma_spans();
    }
    read_le(bytes, at, 4) as usize
}

fn check_dim(format: PersistedFormat, bits: u8, dim: usize) -> (r: Result<(), FormatError>)
    requires
        format == PersistedFormat::RankQuant ==> stored_bits(bits as int),
    ensures
        match r {
            Ok(()) => dim_error(format, bits as int, dim as int) is None,
            Err(e) => dim_error(format, bits as int, dim as int) == Some(e),
        },
{
    match format {
        PersistedFormat::SignBitmap => {
            if !(64 <= dim && dim <= MAX_SIGN_BITMAP_DIM) {
                return Err(FormatError::SignDimOutOfRange { dim });
            }
            if dim % 64 != 0 {
                return Err(FormatError::DimNotWholeWords { format, dim });
            }
            return Ok(());
        },
        _ => {},
    }
    if !(2 <= dim && dim <= MAX_DIM) {
        return Err(FormatError::DimOutOfRange { dim });
    }
    match format {
        PersistedFormat::RankQuant => {
            let n_buckets: usize = match bits {
                1 => 2,
                2 => 4,
                _ => 16,
            };
            let codes_per_byte: usize = (8 / bits) as usize;
            if dim % n_buckets != 0 {
                return Err(FormatError::DimNotComposable { dim, n_buckets });
            }
            if dim % codes_per_byte != 0 {
                return Err(FormatError::DimNotPackable { dim, codes_per_byte });
            }
        },
        PersistedFormat::Bitmap => {
            if dim % 64 != 0 {
                return Err(FormatError::DimNotWholeWords { format, dim });
            }
        },
        PersistedFormat::RankQuantFastscan => {
            if dim % 4 != 0 {
                return Err(FormatError::DimNotPaired { dim });
            }
        },
        _ => {},
    }
    Ok(())
}

/// Read and check the header of a file of `total` bytes, past the magic.
pub(crate) fn read_header(format: PersistedFormat, bytes: &[u8], total: u64) -> (r: Result<
    Header,
    FormatError,
>)
    ensures
        match r {
            Ok(h) => header_error(format, bytes@, total as int) is None && h == header_of(
                format,
                bytes@,
            ),
            Err(e) => header_error(format, bytes@, total as int) == Some(e),
        },
{
    let truncated = |field: HeaderField| -> (e: FormatError)
        ensures
            e == (FormatError::HeaderTruncated { source: Some(format), field }),
        { FormatError::HeaderTruncated { source: Some(format), field } };
    let start: usize = match format {
        PersistedFormat::RankQuant => 14,
        PersistedFormat::Bitmap => 17,
        _ => 13,
    };
    let mut bits: u8 = 0;
    let mut dim_at: usize = 5;
    let mut n_top: usize = 0;
    if bytes.len() < 5 {
        return Err(truncated(HeaderField::Version));
    }
    if bytes[4] != VERSION {
        return Err(FormatError::UnsupportedVersion { format, version: bytes[4] });
    }
    match format {
        PersistedFormat::RankQuant => {
            if bytes.len() < 6 {
                return Err(truncated(HeaderField::Bits));
            }
            bits = bytes[5];
            if !(bits == 1 || bits == 2 || bits == 4) {
                return Err(FormatError::UnsupportedBits { bits });
            }
            dim_at = 6;
        },
        _ => {},
    }
    if bytes.len() < dim_at + 4 {
        return Err(truncated(HeaderField::Dim));
    }
    let dim: usize = read_u32(bytes, dim_at);
    match check_dim(format, bits, dim) {
        Ok(()) => {},
        Err(e) => {
            return Err(e);
        },
    }
    match format {
        PersistedFormat::Bitmap => {
            if bytes.len() < 13 {
                return Err(truncated(HeaderField::NTop));
            }
            n_top = read_u32(bytes, 9);
            if n_top == 0 || n_top >= dim {
                return Err(FormatError::TopOutOfRange { n_top, dim });
            }
        },
        _ => {},
    }
    if bytes.len() < start {
        return Err(truncated(HeaderField::NVectors));
    }
    let n_vectors: usize = read_u32(bytes, start - 4);
    if n_vectors > MAX_VECTORS {
        return Err(FormatError::TooManyVectors { n_vectors });
    }
    assert(dim * bits <= 16777216 * 4) by (nonlinear_arith)
        requires
            dim <= 16777216,
            bits <= 4,
    ;
    let payload: usize = match checked_payload(format, bits, dim, n_vectors) {
        Ok(p) => p,
        Err(e) => {
            return Err(e);
        },
    };
    let remaining: u64 = if total < start as u64 {
        0
    } else {
        total - start as u64
    };
    let declared: u64 = payload as u64;
    if declared > remaining {
        return Err(FormatError::PayloadTruncated { format, declared, remaining });
    }
    if declared < remaining {
        return Err(FormatError::PayloadTrailing { format, declared, remaining });
    }
    Ok(Header { bits, dim, n_top, n_vectors })
}

/// Check the magic and the header of a whole file of the format.
pub(crate) fn open_file(format: PersistedFormat, bytes: &[u8]) -> (r: Result<Header, FormatError>)
    ensures
        match r {
            Ok(h) => file_error(format, bytes@) is None && h == header_of(format, bytes@),
            Err(e) => file_error(format, bytes@) == Some(e),
        },
{
    if bytes.len() < 4 {
        return Err(
            FormatError::HeaderTruncated { source: Some(format), field: HeaderField::Magic },
        );
    }
    if !bytes_introduce(bytes, format) {
        return Err(FormatError::WrongMagic { format });
    }
    read_header(format, bytes, bytes.len() as u64)
}

/// What is first found wrong with a whole file of the format, payload aside.
pub open spec fn file_error(format: PersistedFormat, bytes: Seq<u8>) -> Option<FormatError> {
    if magic_error(format, bytes) is Some {
        magic_error(format, bytes)
    } else {
        header_error(format, bytes, bytes.len() as int)
    }
}

/// The payload of a file.
pub open spec fn payload_of(format: PersistedFormat, bytes: Seq<u8>) -> Seq<u8> {
    bytes.skip(header_len(format))
}

/// The header of a file.
pub open spec fn header_bytes(
    format: PersistedFormat,
    bits: u8,
    dim: int,
    n_top: int,
    n: int,
) -> Seq<u8> {
    let lead = magic_bytes(format) + seq![VERSION];
    match format {
        PersistedFormat::RankQuant => lead + seq![bits] + le_bytes(dim, 4) + le_bytes(n, 4),
        PersistedFormat::Bitmap => lead + le_bytes(dim, 4) + le_bytes(n_top, 4) + le_bytes(n, 4),
        _ => lead + le_bytes(dim, 4) + le_bytes(n, 4),
    }
}

/// Write the header of a file.
pub(crate) fn write_header(
    format: PersistedFormat,
    bits: u8,
    dim: usize,
    n_top: usize,
    n_vectors: usize,
) -> (out: Vec<u8>)
    ensures
        out@ == header_bytes(format, bits, dim as int, n_top as int, n_vectors as int),
{
    let row: FormatSpec = spec(format);
    let mut out: Vec<u8> = Vec::new();
    out.push(row.magic[0]);
    out.push(row.magic[1]);
    out.push(row.magic[2]);
    out.push(row.magic[3]);
    out.push(VERSION);
    assert(out@ =~= magic_bytes(format) + seq![VERSION]);
    match format {
        PersistedFormat::RankQuant => {
            out.push(bits);
            assert(out@ =~= magic_bytes(format) + seq![VERSION] + seq![bits]);
        },
        _ => {},
    }
    push_le(&mut out, dim as u64, 4);
    match format {
        PersistedFormat::Bitmap => {
            push_le(&mut out, n_top as u64, 4);
        },
        _ => {},
    }
    push_le(&mut out, n_vectors as u64, 4);
    out
}

/// The parameters are ones that a header can declare.
pub open spec fn valid_header(format: PersistedFormat, h: Header) -> bool {
    &&& format == PersistedFormat::RankQuant ==> stored_bits(h.bits as int)
    &&& format != PersistedFormat::RankQuant ==> h.bits == 0
    &&& dim_error(format, h.bits as int, h.dim as int) is None
    &&& format == PersistedFormat::Bitmap ==> 0 < h.n_top < h.dim
    &&& format != PersistedFormat::Bitmap ==> h.n_top == 0
    &&& h.n_vectors <= MAX_VECTORS
}

/// A file made of a valid header and a payload of the declared size opens, and
/// its header reads back what was written.
pub proof fn lemma_header_round_trip(format: PersistedFormat, h: Header, payload: Seq<u8>)
    requires
        valid_header(format, h),
        payload.len() == payload_len(format, h.bits as int, h.dim as int, h.n_vectors as int),
        size_error(format, payload.len() as int) is None,
    ensures
        ({
            let file = header_bytes(
                format,
                h.bits,
                h.dim as int,
                h.n_top as int,
                h.n_vectors as int,
            ) + payload;
            &&& file_error(format, file) is None
            &&& header_of(format, file) == h
            &&& payload_of(format, file) == payload
        }),
{
    let head = header_bytes(format, h.bits, h.dim as int, h.n_top as int, h.n_vectors as int);
    let file = head + payload;
    let dim = h.dim as int;
    let top = h.n_top as int;
    let n = h.n_vectors as int;
    lemma_spans();
    lemma_le_len(dim, 4);
    lemma_le_len(top, 4);
    lemma_le_len(n, 4);
    lemma_le_round_trip(dim, 4);
    lemma_le_round_trip(top, 4);
    lemma_le_round_trip(n, 4);
    assert(head.len() == header_len(format));
    assert(file.subrange(0, 4) =~= magic_bytes(format));
    let at = dim_offset(format);
    assert(file.subrange(at, at + 4) =~= le_bytes(dim, 4));
    if format == PersistedFormat::Bitmap {
        assert(file.subrange(9, 13) =~= le_bytes(top, 4));
    }
    let end = header_len(format);
    assert(file.subrange(end - 4, end) =~= le_bytes(n, 4));
    assert(file.skip(end) =~= payload);
    assert(header_of(format, file) == h);
}

/// An accepted file declares valid parameters, and its payload has the
/// declared size.
pub proof fn lemma_accepted_header(format: PersistedFormat, bytes: Seq<u8>)
    requires
        file_error(format, bytes) is None,
    ensures
        valid_header(format, header_of(format, bytes)),
        payload_of(format, bytes).len() == payload_len(
            format,
            header_of(format, bytes).bits as int,
            header_of(format, bytes).dim as int,
            header_of(format, bytes).n_vectors as int,
        ),
        bytes.len() >= header_len(format),
{
}

/// A file with the older magic is read as the same file with the current one.
pub proof fn lemma_legacy_magic_reads_alike(
    format: PersistedFormat,
    magic: Seq<u8>,
    rest: Seq<u8>,
)
    requires
        introduces(magic, format),
    ensures
        file_error(format, magic + rest) == file_error(format, magic_bytes(format) + rest),
        file_error(format, magic + rest) is None ==> {
            &&& header_of(format, magic + rest) == header_of(format, magic_bytes(format) + rest)
            &&& payload_of(format, magic + rest) == payload_of(format, magic_bytes(format) + rest)
        },
{
    let a = magic + rest;
    let b = magic_bytes(format) + rest;
    assert(magic.len() == 4);
    assert(a.subrange(0, 4) =~= magic);
    assert(b.subrange(0, 4) =~= magic_bytes(format));
    let at = dim_offset(format);
    let end = header_len(format);
    if a.len() >= 5 {
        assert(a[4] == b[4]);
    }
    if a.len() >= 6 {
        assert(a[5] == b[5]);
    }
    if a.len() >= at + 4 {
        assert(a.subrange(at, at + 4) =~= b.subrange(at, at + 4));
    }
    if a.len() >= 13 {
        assert(a.subrange(9, 13) =~= b.subrange(9, 13));
    }
    if a.len() >= end {
        assert(a.subrange(end - 4, end) =~= b.subrange(end - 4, end));
        assert(a.skip(end) =~= b.skip(end));
    }
}

/// Format-specific parameters declared by an index header.
#[derive(Copy, Clone, Debug, PartialEq, Eq, Structural)]
#[non_exhaustive]
pub enum IndexParams {
    /// None.
    Rank,
    /// The code width.
    RankQuant {
        /// Bits per coordinate.
        bits: u8,
    },
    /// The bitmap weight.
    Bitmap {
        /// Set bits per document.
        n_top: usize,
    },
    /// None.
    SignBitmap,
    /// The code width.
    RankQuantFastscan {
        /// Bits per coordinate.
        bits: u8,
    },
}

/// Header-derived metadata of a persisted index.
#[derive(Clone, Debug, PartialEq, Eq)]
pub struct IndexMetadata {
    /// The index family.
    pub kind: IndexKind,
    /// The format version.
    pub format_version: u8,
    /// The dimension.
    pub dim: usize,
    /// The number of documents.
    pub vector_count: usize,
    /// Payload bytes per document.
    pub bytes_per_vec: usize,
    /// The format-specific parameters.
    pub params: IndexParams,
    /// The size of the file.
    pub file_size_bytes: u64,
}

/// Payload bytes of one document.
pub open spec fn document_len(format: PersistedFormat, h: Header) -> int {
    match format {
        PersistedFormat::Rank => 2 * h.dim,
        PersistedFormat::RankQuant => h.dim * h.bits / 8,
        _ => h.dim as int / 8,
    }
}

/// The parameters of a header.
pub open spec fn params_of(format: PersistedFormat, h: Header) -> IndexParams {
    match format {
        PersistedFormat::Rank => IndexParams::Rank,
        PersistedFormat::RankQuant => IndexParams::RankQuant { bits: h.bits },
        PersistedFormat::Bitmap => IndexParams::Bitmap { n_top: h.n_top },
        PersistedFormat::SignBitmap => IndexParams::SignBitmap,
        PersistedFormat::RankQuantFastscan => IndexParams::RankQuantFastscan { bits: 2 },
    }
}

/// `format` is the one that the first four bytes introduce.
pub open spec fn starts(bytes: Seq<u8>, format: PersistedFormat) -> bool {
    bytes.len() >= 4 && introduces(bytes.subrange(0, 4), format)
}

/// Probe the header of an index file of `file_size_bytes` bytes that starts
/// with `head`, without looking at the payload.
///
/// The longest header has 17 bytes: a caller hands over that many, or the whole
/// file where it is shorter.
pub fn probe_index_metadata(head: &[u8], file_size_bytes: u64) -> (r: Result<
    IndexMetadata,
    FormatError,
>)
    ensures
        match r {
            Ok(m) => exists|format: PersistedFormat|
                {
                    let h = header_of(format, head@);
                    &&& #[trigger] starts(head@, format)
                    &&& format != PersistedFormat::RankQuantFastscan
                    &&& header_error(format, head@, file_size_bytes as int) is None
                    &&& m.kind == kind_of(format)
                    &&& m.format_version == VERSION
                    &&& m.dim == h.dim
                    &&& m.vector_count == h.n_vectors
                    &&& m.bytes_per_vec == document_len(format, h)
                    &&& m.params == params_of(format, h)
                    &&& m.file_size_bytes == file_size_bytes
                },
            Err(e) => {
                ||| head.len() < 4 && e == (FormatError::HeaderTruncated {
                    source: None,
                    field: HeaderField::Magic,
                })
                ||| head.len() >= 4 && e == FormatError::UnknownMagic && forall|
                    format: PersistedFormat,
                | !(#[trigger] starts(head@, format))
                ||| e == FormatError::ProbeNotCovered && starts(
                    head@,
                    PersistedFormat::RankQuantFastscan,
                )
                ||| exists|format: PersistedFormat| #[trigger]
                    starts(head@, format) && format != PersistedFormat::RankQuantFastscan
                        && header_error(format, head@, file_size_bytes as int) == Some(e)
            },
        },
{
    if head.len() < 4 {
        return Err(FormatError::HeaderTruncated { source: None, field: HeaderField::Magic });
    }
    let magic: [u8; 4] = [head[0], head[1], head[2], head[3]];
    assert(head@.subrange(0, 4) =~= magic@);
    let format: PersistedFormat = match lookup_magic(&magic) {
        Some(row) => row.format,
        None => {
            return Err(FormatError::UnknownMagic);
        },
    };
    assert(starts(head@, format));
    match format {
        PersistedFormat::RankQuantFastscan => {
            return Err(FormatError::ProbeNotCovered);
        },
        _ => {},
    }
    let h: Header = match read_header(format, head, file_size_bytes) {
        Ok(h) => h,
        Err(e) => {
            return Err(e);
        },
    };
    assert(h.dim * h.bits <= 16777216 * 4) by (nonlinear_arith)
        requires
            h.dim <= 16777216,
            h.bits <= 4,
    ;
    let (kind, bytes_per_vec, params): (IndexKind, usize, IndexParams) = match format {
        PersistedFormat::Rank => (IndexKind::Rank, 2 * h.dim, IndexParams::Rank),
        PersistedFormat::RankQuant => (
            IndexKind::RankQuant,
            h.dim * h.bits as usize / 8,
            IndexParams::RankQuant { bits: h.bits },
        ),
        PersistedFormat::Bitmap => (
            IndexKind::Bitmap,
            h.dim / 8,
            IndexParams::Bitmap { n_top: h.n_top },
        ),
        PersistedFormat::SignBitmap => (IndexKind::SignBitmap, h.dim / 8, IndexParams::SignBitmap),
        PersistedFormat::RankQuantFastscan => (
            IndexKind::RankQuantFastscan,
            h.dim / 8,
            IndexParams::RankQuantFastscan { bits: 2 },
        ),
    };
    Ok(
        IndexMetadata {
            kind,
            format_version: VERSION,
            dim: h.dim,
            vector_count: h.n_vectors,
            bytes_per_vec,
            params,
            file_size_bytes,
        },
    )
}

/// Probing the first 17 bytes of a file finds the same header, and the same
/// fault, as opening the whole of it.
pub proof fn lemma_probe_agrees_with_loader(format: PersistedFormat, bytes: Seq<u8>, head: Seq<u8>)
    requires
        starts(bytes, format),
        head == if bytes.len() <= 17 {
            bytes
        } else {
            bytes.subrange(0, 17)
        },
    ensures
        starts(head, format),
        file_error(format, bytes) == header_error(format, head, bytes.len() as int),
        file_error(format, bytes) is None ==> header_of(format, head) == header_of(format, bytes),
{
    if bytes.len() > 17 {
        let at = dim_offset(format);
        let end = header_len(format);
        assert(head.subrange(0, 4) =~= bytes.subrange(0, 4));
        assert(head.subrange(at, at + 4) =~= bytes.subrange(at, at + 4));
        assert(head.subrange(9, 13) =~= bytes.subrange(9, 13));
        assert(head.subrange(end - 4, end) =~= bytes.subrange(end - 4, end));
    }
}

} // verus!
