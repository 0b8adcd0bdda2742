//! The registry of persisted formats: their magics, and which surfaces cover
//! them.

use vstd::prelude::*;

verus! {

/// Persisted index family identified from an index header.
#[derive(Copy, Clone, Debug, PartialEq, Eq, Structural)]
#[non_exhaustive]
pub enum IndexKind {
    /// Full-precision ranks.
    Rank,
    /// Packed rank buckets.
    RankQuant,
    /// Top-coordinate bitmaps.
    Bitmap,
    /// Sign bitmaps.
    SignBitmap,
    /// Packed rank buckets in the block layout.
    RankQuantFastscan,
}

/// A persisted format.
#[derive(Copy, Clone, Debug, PartialEq, Eq, Structural)]
#[non_exhaustive]
pub enum PersistedFormat {
    /// `.ovr`
    Rank,
    /// `.ovrq`
    RankQuant,
    /// `.ovbm`
    Bitmap,
    /// `.ovsb`
    SignBitmap,
    /// `.ovfs`
    RankQuantFastscan,
}

/// Whether header probing covers a format.
#[derive(Copy, Clone, Debug, PartialEq, Eq)]
#[non_exhaustive]
pub enum ProbeCoverage {
    /// It does.
    Covered,
    /// It does not.
    NotCovered {
        /// Where the gap is tracked.
        tracking_issue: u32,
        /// Why.
        reason: &'static str,
    },
}

/// Whether manifests cover a format.
#[derive(Copy, Clone, Debug, PartialEq, Eq)]
#[non_exhaustive]
pub enum ManifestCoverage {
    /// They do.
    Covered,
    /// They do not.
    NotCovered {
        /// Where the gap is tracked.
        tracking_issue: u32,
        /// Why.
        reason: &'static str,
    },
}

/// Whether the C interface loads a format.
#[derive(Copy, Clone, Debug, PartialEq, Eq)]
#[non_exhaustive]
pub enum FfiLoadSupport {
    /// It does.
    Supported,
    /// It does not.
    Unsupported {
        /// Why.
        reason: &'static str,
    },
}

/// One row of the registry.
#[derive(Copy, Clone, Debug, PartialEq, Eq)]
pub struct FormatSpec {
    /// The format.
    pub format: PersistedFormat,
    /// Its file extension.
    pub extension: &'static str,
    /// The magic that is written.
    pub magic: [u8; 4],
    /// An older magic that is still read.
    pub legacy_magic: Option<[u8; 4]>,
    /// The index family.
    pub kind: IndexKind,
    /// Coverage by header probing.
    pub probe: ProbeCoverage,
    /// Coverage by manifests.
    pub manifest: ManifestCoverage,
    /// Support by the C interface.
    pub ffi_load: FfiLoadSupport,
}

/// The magic of a format, in ASCII.
pub open spec fn magic_text(format: PersistedFormat) -> Seq<char> {
    match format {
        PersistedFormat::Rank => "OVR1"@,
        PersistedFormat::RankQuant => "OVRQ"@,
        PersistedFormat::Bitmap => "OVBM"@,
        PersistedFormat::SignBitmap => "OVSB"@,
        PersistedFormat::RankQuantFastscan => "OVFS"@,
    }
}

/// The magic that is written for a format.
pub open spec fn magic_bytes(format: PersistedFormat) -> Seq<u8> {
    match format {
        PersistedFormat::Rank => seq![79u8, 86, 82, 49],
        PersistedFormat::RankQuant => seq![79u8, 86, 82, 81],
        PersistedFormat::Bitmap => seq![79u8, 86, 66, 77],
        PersistedFormat::SignBitmap => seq![79u8, 86, 83, 66],
        PersistedFormat::RankQuantFastscan => seq![79u8, 86, 70, 83],
    }
}

/// The older magic that is still read for a format.
pub open spec fn legacy_magic_bytes(format: PersistedFormat) -> Option<Seq<u8>> {
    match format {
        PersistedFormat::Rank => Some(seq![84u8, 86, 82, 49]),
        PersistedFormat::RankQuant => Some(seq![84u8, 86, 82, 81]),
        PersistedFormat::Bitmap => Some(seq![84u8, 86, 66, 77]),
        PersistedFormat::SignBitmap => Some(seq![84u8, 86, 83, 66]),
        PersistedFormat::RankQuantFastscan => None,
    }
}

/// `magic` introduces a file of the format.
pub open spec fn introduces(magic: Seq<u8>, format: PersistedFormat) -> bool {
    magic == magic_bytes(format) || legacy_magic_bytes(format) == Some(magic)
}

/// The family of a format.
pub open spec fn kind_of(format: PersistedFormat) -> IndexKind {
    match format {
        PersistedFormat::Rank => IndexKind::Rank,
        PersistedFormat::RankQuant => IndexKind::RankQuant,
        PersistedFormat::Bitmap => IndexKind::Bitmap,
        PersistedFormat::SignBitmap => IndexKind::SignBitmap,
        PersistedFormat::RankQuantFastscan => IndexKind::RankQuantFastscan,
    }
}

/// The file extension of a format.
pub open spec fn extension_of(format: PersistedFormat) -> Seq<char> {
    match format {
        PersistedFormat::Rank => "ovr"@,
        PersistedFormat::RankQuant => "ovrq"@,
        PersistedFormat::Bitmap => "ovbm"@,
        PersistedFormat::SignBitmap => "ovsb"@,
        PersistedFormat::RankQuantFastscan => "ovfs"@,
    }
}

/// Why header probing leaves the block layout out.
pub open spec fn probe_gap() -> Seq<char> {
    "OVFS (RankQuantFastscan) metadata probing is not supported in this version; load the index with RankQuantFastscan::load (tracked in #232)"@
}

/// Why manifests leave the block layout out.
pub open spec fn manifest_gap() -> Seq<char> {
    "RankQuantFastscan (.ovfs) is not covered by ordvec-manifest v1 (tracked in #232)"@
}

/// Why the C interface leaves the plain formats out.
pub open spec fn ffi_gap() -> Seq<char> {
    "ABI v1 supports only RankQuant and Bitmap indexes"@
}

/// Why the C interface leaves the block layout out.
pub open spec fn ffi_fastscan_gap() -> Seq<char> {
    "ABI v1 does not support RankQuantFastscan indexes (tracked in #232)"@
}

impl FormatSpec {
    /// This is the registry row of its format.
    pub open spec fn wf(self) -> bool {
        &&& self.extension@ == extension_of(self.format)
        &&& self.magic@ == magic_bytes(self.format)
        &&& self.legacy_magic.is_some() == legacy_magic_bytes(self.format).is_some()
        &&& self.legacy_magic matches Some(m) ==> m@ == legacy_magic_bytes(self.format).unwrap()
        &&& self.kind == kind_of(self.format)
        &&& match self.probe {
            ProbeCoverage::Covered => self.format != PersistedFormat::RankQuantFastscan,
            ProbeCoverage::NotCovered { tracking_issue, reason } => self.format
                == PersistedFormat::RankQuantFastscan && tracking_issue == 232 && reason@
                == probe_gap(),
        }
        &&& match self.manifest {
            ManifestCoverage::Covered => self.format != PersistedFormat::RankQuantFastscan,
            ManifestCoverage::NotCovered { tracking_issue, reason } => self.format
                == PersistedFormat::RankQuantFastscan && tracking_issue == 232 && reason@
                == manifest_gap(),
        }
        &&& match self.ffi_load {
            FfiLoadSupport::Supported => self.format == PersistedFormat::RankQuant || self.format
                == PersistedFormat::Bitmap,
            FfiLoadSupport::Unsupported { reason } => match self.format {
                PersistedFormat::Rank => reason@ == ffi_gap(),
                PersistedFormat::SignBitmap => reason@ == ffi_gap(),
                PersistedFormat::RankQuantFastscan => reason@ == ffi_fastscan_gap(),
                _ => false,
            },
        }
    }
}

/// The registry row of a format.
pub fn spec(format: PersistedFormat) -> (row: FormatSpec)
    ensures
        row.format == format,
        row.wf(),
{
    let row: FormatSpec = match format {
        PersistedFormat::Rank => FormatSpec {
            format,
            extension: "ovr",
            magic: [79, 86, 82, 49],
            legacy_magic: Some([84, 86, 82, 49]),
            kind: IndexKind::Rank,
            probe: ProbeCoverage::Covered,
            manifest: ManifestCoverage::Covered,
            ffi_load: FfiLoadSupport::Unsupported {
                reason: "ABI v1 supports only RankQuant and Bitmap indexes",
            },
        },
        PersistedFormat::RankQuant => FormatSpec {
            format,
            extension: "ovrq",
            magic: [79, 86, 82, 81],
            legacy_magic: Some([84, 86, 82, 81]),
            kind: IndexKind::RankQuant,
            probe: ProbeCoverage::Covered,
            manifest: ManifestCoverage::Covered,
            ffi_load: FfiLoadSupport::Supported,
        },
        PersistedFormat::Bitmap => FormatSpec {
            format,
            extension: "ovbm",
            magic: [79, 86, 66, 77],
            legacy_magic: Some([84, 86, 66, 77]),
            kind: IndexKind::Bitmap,
            probe: ProbeCoverage::Covered,
            manifest: ManifestCoverage::Covered,
            ffi_load: FfiLoadSupport::Supported,
        },
        PersistedFormat::SignBitmap => FormatSpec {
            format,
            extension: "ovsb",
            magic: [79, 86, 83, 66],
            legacy_magic: Some([84, 86, 83, 66]),
            kind: IndexKind::SignBitmap,
            probe: ProbeCoverage::Covered,
            manifest: ManifestCoverage::Covered,
            ffi_load: FfiLoadSupport::Unsupported {
                reason: "ABI v1 supports only RankQuant and Bitmap indexes",
            },
        },
        PersistedFormat::RankQuantFastscan => FormatSpec {
            format,
            extension: "ovfs",
            magic: [79, 86, 70, 83],
            legacy_magic: None,
            kind: IndexKind::RankQuantFastscan,
            probe: ProbeCoverage::NotCovered {
                tracking_issue: 232,
                reason:
                    "OVFS (RankQuantFastscan) metadata probing is not supported in this version; load the index with RankQuantFastscan::load (tracked in #232)",
            },
            manifest: ManifestCoverage::NotCovered {
                tracking_issue: 232,
                reason:
                    "RankQuantFastscan (.ovfs) is not covered by ordvec-manifest v1 (tracked in #232)",
            },
            ffi_load: FfiLoadSupport::Unsupported {
                reason: "ABI v1 does not support RankQuantFastscan indexes (tracked in #232)",
            },
        },
    };
    proof {
        assert(row.magic@ =~= magic_bytes(format));
        if format != PersistedFormat::RankQuantFastscan {
            assert(row.legacy_magic.unwrap()@ =~= legacy_magic_bytes(format).unwrap());
        }
    }
    row
}

/// The formats, in registry order.
pub open spec fn all_formats() -> Seq<PersistedFormat> {
    seq![
        PersistedFormat::Rank,
        PersistedFormat::RankQuant,
        PersistedFormat::Bitmap,
        PersistedFormat::SignBitmap,
        PersistedFormat::RankQuantFastscan,
    ]
}

/// Every row of the registry.
pub fn formats() -> (rows: Vec<FormatSpec>)
    ensures
        rows.len() == all_formats().len(),
        forall|i: int|
            0 <= i < rows.len() ==> (#[trigger] rows[i]).wf() && rows[i].format
                == all_formats()[i],
{
    let mut rows: Vec<FormatSpec> = Vec::new();
    rows.push(spec(PersistedFormat::Rank));
    rows.push(spec(PersistedFormat::RankQuant));
    rows.push(spec(PersistedFormat::Bitmap));
    rows.push(spec(PersistedFormat::SignBitmap));
    rows.push(spec(PersistedFormat::RankQuantFastscan));
    rows
}

/// Whether the first four bytes of `bytes` are `magic`.
fn starts_with(bytes: &[u8], magic: &[u8; 4]) -> (r: bool)
    requires
        bytes.len() >= 4,
    ensures
        r == (bytes@.subrange(0, 4) == magic@),
{
    let same: bool = bytes[0] == magic[0] && bytes[1] == magic[1] && bytes[2] == magic[2]
        && bytes[3] == magic[3];
    proof {
        let head = bytes@.subrange(0, 4);
        if same {
            assert(head =~= magic@);
        } else if head == magic@ {
            assert(head[0] == magic@[0] && head[1] == magic@[1] && head[2] == magic@[2] && head[3]
                == magic@[3]);
        }
    }
    same
}

/// Whether the first four bytes introduce a file of the format.
pub(crate) fn bytes_introduce(bytes: &[u8], format: PersistedFormat) -> (r: bool)
    requires
        bytes.len() >= 4,
    ensures
        r == introduces(bytes@.subrange(0, 4), format),
{
    let row: FormatSpec = spec(format);
    if starts_with(bytes, &row.magic) {
        return true;
    }
    match row.legacy_magic {
        Some(m) => starts_with(bytes, &m),
        None => false,
    }
}

/// The registry row that a magic introduces.
pub fn lookup_magic(magic: &[u8; 4]) -> (r: Option<FormatSpec>)
    ensures
        match r {
            Some(row) => row.wf() && introduces(magic@, row.format),
            None => forall|format: PersistedFormat| !introduces(magic@, format),
        },
{
    let rows: Vec<FormatSpec> = formats();
    let bytes: &[u8] = magic.as_slice();
    assert(bytes@.subrange(0, 4) =~= magic@);
    let mut i: usize = 0;
    while i < rows.len()
        invariant
            i <= rows.len(),
            rows.len() == all_formats().len(),
            bytes@.len() == 4,
            bytes@.subrange(0, 4) == magic@,
            forall|j: int|
                0 <= j < rows.len() ==> (#[trigger] rows[j]).wf() && rows[j].format
                    == all_formats()[j],
            forall|j: int| 0 <= j < i ==> !introduces(magic@, #[trigger] all_formats()[j]),
        decreases rows.len() - i,
    {
        if bytes_introduce(bytes, rows[i].format) {
            return Some(rows[i]);
        }
        i = i + 1;
    }
    assert forall|format: PersistedFormat| !introduces(magic@, format) by {
        let s = all_formats();
        assert(s[0] == PersistedFormat::Rank && s[1] == PersistedFormat::RankQuant && s[2]
            == PersistedFormat::Bitmap && s[3] == PersistedFormat::SignBitmap && s[4]
            == PersistedFormat::RankQuantFastscan);
    }
    None
}

/// A magic introduces at most one format, so looking up the magic or the older
/// magic of a format can only find that format.
pub proof fn lemma_magic_is_unique(magic: Seq<u8>, a: PersistedFormat, b: PersistedFormat)
    requires
        introduces(magic, a),
        introduces(magic, b),
    ensures
        a == b,
{
    assert(magic.len() == 4);
    let x = magic_bytes(a);
    let y = magic_bytes(b);
    assert(magic[0] == 79 || magic[0] == 84);
    assert(magic[2] == x[2] && magic[3] == x[3]);
    assert(magic[2] == y[2] && magic[3] == y[3]);
}

/// Every magic of a format introduces it.
pub proof fn lemma_magics_resolve(format: PersistedFormat)
    ensures
        introduces(magic_bytes(format), format),
        legacy_magic_bytes(format) matches Some(m) ==> introduces(m, format),
{
}

} // verus!
