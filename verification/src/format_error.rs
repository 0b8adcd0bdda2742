//! Errors of reading and writing index files.

use vstd::prelude::*;

use crate::format::{magic_text, PersistedFormat};
use crate::rank_io::{MAX_DIM, MAX_PAYLOAD, MAX_SIGN_BITMAP_DIM, MAX_VECTORS};
use crate::text::{decimal, hex_byte, push_decimal, push_hex_byte, push_text};

verus! {

/// A field of a file header.
#[derive(Copy, Clone, Debug, PartialEq, Eq, Structural)]
pub enum HeaderField {
    /// The four magic bytes.
    Magic,
    /// The version byte.
    Version,
    /// The code width.
    Bits,
    /// The dimension.
    Dim,
    /// The bitmap weight.
    NTop,
    /// The document count.
    NVectors,
}

impl HeaderField {
    /// The name of the field.
    pub open spec fn text(self) -> Seq<char> {
        match self {
            HeaderField::Magic => "magic"@,
            HeaderField::Version => "version"@,
            HeaderField::Bits => "bits"@,
            HeaderField::Dim => "dim"@,
            HeaderField::NTop => "n_top"@,
            HeaderField::NVectors => "n_vectors"@,
        }
    }

    /// The field by name.
    pub fn name(&self) -> (s: &'static str)
        ensures
            s@ == self.text(),
    {
        match self {
            HeaderField::Magic => "magic",
            HeaderField::Version => "version",
            HeaderField::Bits => "bits",
            HeaderField::Dim => "dim",
            HeaderField::NTop => "n_top",
            HeaderField::NVectors => "n_vectors",
        }
    }
}

/// The class of an error.
#[derive(Copy, Clone, Debug, PartialEq, Eq, Structural)]
pub enum FormatErrorKind {
    /// The bytes are not a valid index.
    InvalidData,
    /// The bytes end inside the header.
    UnexpectedEof,
    /// The index cannot be stored.
    Unsupported,
}

/// Why bytes are not a readable index, or an index not a writable one.
#[derive(Copy, Clone, Debug, PartialEq, Eq)]
pub enum FormatError {
    /// The header ends before a field.
    HeaderTruncated {
        /// The format read, if its magic was known.
        source: Option<PersistedFormat>,
        /// The field.
        field: HeaderField,
    },
    /// No format has this magic.
    UnknownMagic,
    /// The magic is not one of the format's.
    WrongMagic {
        /// The format asked for.
        format: PersistedFormat,
    },
    /// The version is not the one that is read.
    UnsupportedVersion {
        /// The format.
        format: PersistedFormat,
        /// The version found.
        version: u8,
    },
    /// The code width is not one that is stored.
    UnsupportedBits {
        /// The width found.
        bits: u8,
    },
    /// The dimension is out of range.
    DimOutOfRange {
        /// The dimension found.
        dim: usize,
    },
    /// The dimension of a sign bitmap is out of range.
    SignDimOutOfRange {
        /// The dimension found.
        dim: usize,
    },
    /// The dimension is not a whole number of words.
    DimNotWholeWords {
        /// The format.
        format: PersistedFormat,
        /// The dimension found.
        dim: usize,
    },
    /// The dimension does not divide into equal buckets.
    DimNotComposable {
        /// The dimension found.
        dim: usize,
        /// The number of buckets.
        n_buckets: usize,
    },
    /// The codes of a document do not fill whole bytes.
    DimNotPackable {
        /// The dimension found.
        dim: usize,
        /// The codes of a byte.
        codes_per_byte: usize,
    },
    /// The dimension does not suit the block layout.
    DimNotPaired {
        /// The dimension found.
        dim: usize,
    },
    /// The bitmap weight is out of range.
    TopOutOfRange {
        /// The weight found.
        n_top: usize,
        /// The dimension.
        dim: usize,
    },
    /// The document count is over its cap.
    TooManyVectors {
        /// The count found.
        n_vectors: usize,
    },
    /// The payload size does not fit a `usize`.
    PayloadOverflow {
        /// The format.
        format: PersistedFormat,
    },
    /// The payload is over its cap.
    PayloadTooLarge {
        /// The size declared.
        payload: usize,
    },
    /// The file ends before the payload does.
    PayloadTruncated {
        /// The format.
        format: PersistedFormat,
        /// The size declared.
        declared: u64,
        /// The bytes after the header.
        remaining: u64,
    },
    /// The file goes on after the payload.
    PayloadTrailing {
        /// The format.
        format: PersistedFormat,
        /// The size declared.
        declared: u64,
        /// The bytes after the header.
        remaining: u64,
    },
    /// A rank is not below the dimension.
    RankTooLarge {
        /// The rank found.
        rank: u16,
        /// The dimension.
        dim: usize,
    },
    /// A rank occurs twice in a document.
    RankRepeats {
        /// The document.
        row: usize,
        /// The rank.
        rank: u16,
    },
    /// A document does not fill its buckets equally.
    UnevenRow {
        /// The document.
        row: usize,
        /// The bucket.
        bucket: usize,
        /// Its number of codes.
        count: usize,
        /// The number it must have.
        expected: usize,
    },
    /// A bitmap has the wrong weight.
    WrongPopcount {
        /// The document.
        row: usize,
        /// Its number of set bits.
        popcount: u32,
        /// The number it must have.
        n_top: usize,
    },
    /// A byte of the block layout holds more than two codes.
    InvalidNibble {
        /// The block.
        block: usize,
        /// The pair of coordinates.
        pair: usize,
        /// The lane.
        lane: usize,
        /// The document.
        doc: usize,
        /// The byte.
        byte: u8,
    },
    /// A document of the block layout does not fill its buckets equally.
    UnevenDocument {
        /// The document.
        doc: usize,
        /// Its codes per bucket.
        counts: [usize; 4],
        /// The number each must have.
        expected: usize,
    },
    /// A lane past the last document is not zero.
    PaddingNotZero {
        /// The block.
        block: usize,
        /// The pair of coordinates.
        pair: usize,
        /// The lane.
        lane: usize,
        /// The byte.
        byte: u8,
    },
    /// Header probing does not cover the block layout.
    ProbeNotCovered,
    /// Eight-bit codes are held in memory only.
    WidthNotPersisted,
}

/// The name of a format in messages.
fn label(format: PersistedFormat) -> (s: &'static str)
    ensures
        s@ == magic_text(format),
{
    match format {
        PersistedFormat::Rank => "OVR1",
        PersistedFormat::RankQuant => "OVRQ",
        PersistedFormat::Bitmap => "OVBM",
        PersistedFormat::SignBitmap => "OVSB",
        PersistedFormat::RankQuantFastscan => "OVFS",
    }
}

/// What is said of a file with another magic.
pub open spec fn wrong_magic_text(format: PersistedFormat) -> Seq<char> {
    match format {
        PersistedFormat::Rank => "not an OVR1/TVR1 (Rank) file: wrong magic"@,
        PersistedFormat::RankQuant => "not an OVRQ/TVRQ (RankQuant) file: wrong magic"@,
        PersistedFormat::Bitmap => "not an OVBM/TVBM (Bitmap) file: wrong magic"@,
        PersistedFormat::SignBitmap => "not an OVSB/TVSB (SignBitmap) file: wrong magic"@,
        PersistedFormat::RankQuantFastscan => "not an OVFS (RankQuantFastscan) file: wrong magic"@,
    }
}

fn wrong_magic(format: PersistedFormat) -> (s: &'static str)
    ensures
        s@ == wrong_magic_text(format),
{
    match format {
        PersistedFormat::Rank => "not an OVR1/TVR1 (Rank) file: wrong magic",
        PersistedFormat::RankQuant => "not an OVRQ/TVRQ (RankQuant) file: wrong magic",
        PersistedFormat::Bitmap => "not an OVBM/TVBM (Bitmap) file: wrong magic",
        PersistedFormat::SignBitmap => "not an OVSB/TVSB (SignBitmap) file: wrong magic",
        PersistedFormat::RankQuantFastscan => "not an OVFS (RankQuantFastscan) file: wrong magic",
    }
}

/// The subject of a header message.
pub open spec fn source_text(format: Option<PersistedFormat>) -> Seq<char> {
    match format {
        Some(f) => magic_text(f),
        None => "ordvec index"@,
    }
}

fn source_label(format: Option<PersistedFormat>) -> (s: &'static str)
    ensures
        s@ == source_text(format),
{
    match format {
        Some(f) => label(f),
        None => "ordvec index",
    }
}

impl FormatError {
    /// The class of the error.
    pub open spec fn class(self) -> FormatErrorKind {
        match self {
            FormatError::HeaderTruncated { .. } => FormatErrorKind::UnexpectedEof,
            FormatError::WidthNotPersisted => FormatErrorKind::Unsupported,
            _ => FormatErrorKind::InvalidData,
        }
    }

    /// The class of the error.
    pub fn kind(&self) -> (k: FormatErrorKind)
        ensures
            k == self.class(),
    {
        match self {
            FormatError::HeaderTruncated { .. } => FormatErrorKind::UnexpectedEof,
            FormatError::WidthNotPersisted => FormatErrorKind::Unsupported,
            _ => FormatErrorKind::InvalidData,
        }
    }

    /// The text of the error.
    pub open spec fn text(self) -> Seq<char> {
        match self {
            FormatError::HeaderTruncated { source, field } => source_text(source)
                + " header truncated while reading "@ + field.text(),
            FormatError::UnknownMagic => "unknown ordvec index magic"@,
            FormatError::WrongMagic { format } => wrong_magic_text(format),
            FormatError::UnsupportedVersion { format, version } => "unsupported "@
                + magic_text(format) + " version: "@ + decimal(version as nat),
            FormatError::UnsupportedBits { bits } => "unsupported OVRQ bits: "@
                + decimal(bits as nat) + " (expected 1, 2, or 4)"@,
            FormatError::DimOutOfRange { dim } => "dim "@ + decimal(dim as nat)
                + " out of range [2, "@ + decimal(MAX_DIM as nat) + "]"@,
            FormatError::SignDimOutOfRange { dim } => "OVSB dim "@ + decimal(dim as nat)
                + " out of range [64, "@ + decimal(MAX_SIGN_BITMAP_DIM as nat) + "]"@,
            FormatError::DimNotWholeWords { format, dim } => magic_text(format) + " dim "@
                + decimal(dim as nat) + " is not a multiple of 64"@,
            FormatError::DimNotComposable { dim, n_buckets } => "OVRQ dim "@ + decimal(dim as nat)
                + " is not a multiple of 2^bits = "@ + decimal(n_buckets as nat)
                + "; constant-composition invariant violated"@,
            FormatError::DimNotPackable { dim, codes_per_byte } => "OVRQ dim "@
                + decimal(dim as nat) + " is not a multiple of codes_per_byte = "@
                + decimal(codes_per_byte as nat),
            FormatError::DimNotPaired { dim } => "OVFS dim "@ + decimal(dim as nat)
                + " is not a multiple of 4 (b=2 constant composition)"@,
            FormatError::TopOutOfRange { n_top, dim } => "OVBM n_top "@ + decimal(n_top as nat)
                + " must satisfy 0 < n_top < dim ("@ + decimal(dim as nat) + ")"@,
            FormatError::TooManyVectors { n_vectors } => "n_vectors "@ + decimal(n_vectors as nat)
                + " exceeds MAX_VECTORS="@ + decimal(MAX_VECTORS as nat),
            FormatError::PayloadOverflow { format } => magic_text(format)
                + " payload size overflows usize"@,
            FormatError::PayloadTooLarge { payload } => "payload "@ + decimal(payload as nat)
                + " B exceeds MAX_PAYLOAD="@ + decimal(MAX_PAYLOAD as nat),
            FormatError::PayloadTruncated { format, declared, remaining } => magic_text(format)
                + " payload truncated: header declares "@ + decimal(declared as nat)
                + " B but file has "@ + decimal(remaining as nat) + " B remaining"@,
            FormatError::PayloadTrailing { format, declared, remaining } => magic_text(format)
                + " payload has trailing bytes: header declares "@ + decimal(declared as nat)
                + " B but file has "@ + decimal(remaining as nat) + " B remaining"@,
            FormatError::RankTooLarge { rank, dim } => "OVR1 rank value "@ + decimal(rank as nat)
                + " >= dim ("@ + decimal(dim as nat)
                + "); ranks must be a permutation of [0, dim)"@,
            FormatError::RankRepeats { row, rank } => "OVR1 row "@ + decimal(row as nat)
                + " is not a permutation of [0, dim): value "@ + decimal(rank as nat) + " repeats"@,
            FormatError::UnevenRow { row, bucket, count, expected } => "OVRQ row "@
                + decimal(row as nat) + " violates constant composition: bucket "@
                + decimal(bucket as nat) + " has "@ + decimal(count as nat) + " codes, expected "@
                + decimal(expected as nat) + " (= dim / 2^bits)"@,
            FormatError::WrongPopcount { row, popcount, n_top } => "OVBM row "@
                + decimal(row as nat) + " has "@ + decimal(popcount as nat)
                + " bits set, expected n_top = "@ + decimal(n_top as nat),
            FormatError::InvalidNibble { block, pair, lane, doc, byte } => {
                "OVFS payload byte at block "@ + decimal(block as nat) + ", pair "@
                    + decimal(pair as nat) + ", lane "@ + decimal(lane as nat) + " (document "@
                    + decimal(doc as nat) + ") has invalid FastScan nibble 0x"@ + hex_byte(byte)
            },
            FormatError::UnevenDocument { doc, counts, expected } => "OVFS document "@
                + decimal(doc as nat) + " violates b=2 constant composition: counts=["@
                + decimal(counts[0] as nat) + ", "@ + decimal(counts[1] as nat) + ", "@
                + decimal(counts[2] as nat) + ", "@ + decimal(counts[3] as nat) + "], expected "@
                + decimal(expected as nat) + " per bucket"@,
            FormatError::PaddingNotZero { block, pair, lane, byte } => {
                "OVFS tail padding byte at block "@ + decimal(block as nat) + ", pair "@
                    + decimal(pair as nat) + ", lane "@ + decimal(lane as nat)
                    + " must be zero, got 0x"@ + hex_byte(byte)
            },
            FormatError::ProbeNotCovered => {
                "OVFS (RankQuantFastscan) metadata probing is not supported in this version; load the index with RankQuantFastscan::load (tracked in #232)"@
            },
            FormatError::WidthNotPersisted => {
                "RankQuant b=8 persistence is not supported yet (the .tvrq loader accepts bits ∈ {1, 2, 4}); b=8 is an in-memory evidence surface in this phase"@
            },
        }
    }

    /// The error as text.
    pub fn message(&self) -> (s: String)
        ensures
            s@ == self.text(),
    {
        match self {
            FormatError::HeaderTruncated { source, field } => {
                let mut s: String = source_label(*source).to_owned();
                push_text(&mut s, " header truncated while reading ");
                push_text(&mut s, field.name());
                s
            },
            FormatError::UnknownMagic => "unknown ordvec index magic".to_owned(),
            FormatError::WrongMagic { format } => wrong_magic(*format).to_owned(),
            FormatError::UnsupportedVersion { format, version } => {
                let mut s: String = "unsupported ".to_owned();
                push_text(&mut s, label(*format));
                push_text(&mut s, " version: ");
                push_decimal(&mut s, *version as u64);
                s
            },
            FormatError::UnsupportedBits { bits } => {
                let mut s: String = "unsupported OVRQ bits: ".to_owned();
                push_decimal(&mut s, *bits as u64);
                push_text(&mut s, " (expected 1, 2, or 4)");
                s
            },
            FormatError::DimOutOfRange { dim } => {
                let mut s: String = "dim ".to_owned();
                push_decimal(&mut s, *dim as u64);
                push_text(&mut s, " out of range [2, ");
                push_decimal(&mut s, MAX_DIM as u64);
                push_text(&mut s, "]");
                s
            },
            FormatError::SignDimOutOfRange { dim } => {
                let mut s: String = "OVSB dim ".to_owned();
                push_decimal(&mut s, *dim as u64);
                push_text(&mut s, " out of range [64, ");
                push_decimal(&mut s, MAX_SIGN_BITMAP_DIM as u64);
                push_text(&mut s, "]");
                s
            },
            FormatError::DimNotWholeWords { format, dim } => {
                let mut s: String = label(*format).to_owned();
                push_text(&mut s, " dim ");
                push_decimal(&mut s, *dim as u64);
                push_text(&mut s, " is not a multiple of 64");
                s
            },
            FormatError::DimNotComposable { dim, n_buckets } => {
                let mut s: String = "OVRQ dim ".to_owned();
                push_decimal(&mut s, *dim as u64);
                push_text(&mut s, " is not a multiple of 2^bits = ");
                push_decimal(&mut s, *n_buckets as u64);
                push_text(&mut s, "; constant-composition invariant violated");
                s
            },
            FormatError::DimNotPackable { dim, codes_per_byte } => {
                let mut s: String = "OVRQ dim ".to_owned();
                push_decimal(&mut s, *dim as u64);
                push_text(&mut s, " is not a multiple of codes_per_byte = ");
                push_decimal(&mut s, *codes_per_byte as u64);
                s
            },
            FormatError::DimNotPaired { dim } => {
                let mut s: String = "OVFS dim ".to_owned();
                push_decimal(&mut s, *dim as u64);
                push_text(&mut s, " is not a multiple of 4 (b=2 constant composition)");
                s
            },
            FormatError::TopOutOfRange { n_top, dim } => {
                let mut s: String = "OVBM n_top ".to_owned();
                push_decimal(&mut s, *n_top as u64);
                push_text(&mut s, " must satisfy 0 < n_top < dim (");
                push_decimal(&mut s, *dim as u64);
                push_text(&mut s, ")");
                s
            },
            FormatError::TooManyVectors { n_vectors } => {
                let mut s: String = "n_vectors ".to_owned();
                push_decimal(&mut s, *n_vectors as u64);
                push_text(&mut s, " exceeds MAX_VECTORS=");
                push_decimal(&mut s, MAX_VECTORS as u64);
                s
            },
            FormatError::PayloadOverflow { format } => {
                let mut s: String = label(*format).to_owned();
                push_text(&mut s, " payload size overflows usize");
                s
            },
            FormatError::PayloadTooLarge { payload } => {
                let mut s: String = "payload ".to_owned();
                push_decimal(&mut s, *payload as u64);
                push_text(&mut s, " B exceeds MAX_PAYLOAD=");
                push_decimal(&mut s, MAX_PAYLOAD as u64);
                s
            },
            FormatError::PayloadTruncated { format, declared, remaining } => {
                let mut s: String = label(*format).to_owned();
                push_text(&mut s, " payload truncated: header declares ");
                push_decimal(&mut s, *declared as u64);
                push_text(&mut s, " B but file has ");
                push_decimal(&mut s, *remaining as u64);
                push_text(&mut s, " B remaining");
                s
            },
            FormatError::PayloadTrailing { format, declared, remaining } => {
                let mut s: String = label(*format).to_owned();
                push_text(&mut s, " payload has trailing bytes: header declares ");
                push_decimal(&mut s, *declared as u64);
                push_text(&mut s, " B but file has ");
                push_decimal(&mut s, *remaining as u64);
                push_text(&mut s, " B remaining");
                s
            },
            FormatError::RankTooLarge { rank, dim } => {
                let mut s: String = "OVR1 rank value ".to_owned();
                push_decimal(&mut s, *rank as u64);
                push_text(&mut s, " >= dim (");
                push_decimal(&mut s, *dim as u64);
                push_text(&mut s, "); ranks must be a permutation of [0, dim)");
                s
            },
            FormatError::RankRepeats { row, rank } => {
                let mut s: String = "OVR1 row ".to_owned();
                push_decimal(&mut s, *row as u64);
                push_text(&mut s, " is not a permutation of [0, dim): value ");
                push_decimal(&mut s, *rank as u64);
                push_text(&mut s, " repeats");
                s
            },
            FormatError::UnevenRow { row, bucket, count, expected } => {
                let mut s: String = "OVRQ row ".to_owned();
                push_decimal(&mut s, *row as u64);
                push_text(&mut s, " violates constant composition: bucket ");
                push_decimal(&mut s, *bucket as u64);
                push_text(&mut s, " has ");
                push_decimal(&mut s, *count as u64);
                push_text(&mut s, " codes, expected ");
                push_decimal(&mut s, *expected as u64);
                push_text(&mut s, " (= dim / 2^bits)");
                s
            },
            FormatError::WrongPopcount { row, popcount, n_top } => {
                let mut s: String = "OVBM row ".to_owned();
                push_decimal(&mut s, *row as u64);
                push_text(&mut s, " has ");
                push_decimal(&mut s, *popcount as u64);
                push_text(&mut s, " bits set, expected n_top = ");
                push_decimal(&mut s, *n_top as u64);
                s
            },
            FormatError::InvalidNibble { block, pair, lane, doc, byte } => {
                let mut s: String = "OVFS payload byte at block ".to_owned();
                push_decimal(&mut s, *block as u64);
                push_text(&mut s, ", pair ");
                push_decimal(&mut s, *pair as u64);
                push_text(&mut s, ", lane ");
                push_decimal(&mut s, *lane as u64);
                push_text(&mut s, " (document ");
                push_decimal(&mut s, *doc as u64);
                push_text(&mut s, ") has invalid FastScan nibble 0x");
                push_hex_byte(&mut s, *byte);
                s
            },
            FormatError::UnevenDocument { doc, counts, expected } => {
                let mut s: String = "OVFS document ".to_owned();
                push_decimal(&mut s, *doc as u64);
                push_text(&mut s, " violates b=2 constant composition: counts=[");
                push_decimal(&mut s, counts[0] as u64);
                push_text(&mut s, ", ");
                push_decimal(&mut s, counts[1] as u64);
                push_text(&mut s, ", ");
                push_decimal(&mut s, counts[2] as u64);
                push_text(&mut s, ", ");
                push_decimal(&mut s, counts[3] as u64);
                push_text(&mut s, "], expected ");
                push_decimal(&mut s, *expected as u64);
                push_text(&mut s, " per bucket");
                s
            },
            FormatError::PaddingNotZero { block, pair, lane, byte } => {
                let mut s: String = "OVFS tail padding byte at block ".to_owned();
                push_decimal(&mut s, *block as u64);
                push_text(&mut s, ", pair ");
                push_decimal(&mut s, *pair as u64);
                push_text(&mut s, ", lane ");
                push_decimal(&mut s, *lane as u64);
                push_text(&mut s, " must be zero, got 0x");
                push_hex_byte(&mut s, *byte);
                s
            },
            FormatError::ProbeNotCovered => {
                "OVFS (RankQuantFastscan) metadata probing is not supported in this version; load the index with RankQuantFastscan::load (tracked in #232)".to_owned()
            },
            FormatError::WidthNotPersisted => {
                "RankQuant b=8 persistence is not supported yet (the .tvrq loader accepts bits ∈ {1, 2, 4}); b=8 is an in-memory evidence surface in this phase".to_owned()
            },
        }
    }
}

} // verus!
