//! Index files: headers, probing, loading and their errors.

use ordvec::bitmap::Bitmap;
use ordvec::fastscan::RankQuantFastscan;
use ordvec::float_bits::F32Bits;
use ordvec::format::PersistedFormat;
use ordvec::format_error::{FormatError, FormatErrorKind, HeaderField};
use ordvec::quant::RankQuant;
use ordvec::rank_index::Rank;
use ordvec::rank_io::{
    checked_payload, probe_index_metadata, IndexKind, IndexMetadata, IndexParams, MAX_DIM,
    MAX_VECTORS, VERSION,
};
use ordvec::sign_bitmap::SignBitmap;

fn bits(values: &[f32]) -> Vec<F32Bits> {
    values.iter().map(|v| F32Bits::from_bits(v.to_bits())).collect()
}

/// Probe a whole file.
fn probe(bytes: &[u8]) -> Result<IndexMetadata, FormatError> {
    probe_index_metadata(&bytes[..bytes.len().min(17)], bytes.len() as u64)
}

fn assert_err_contains<T>(result: Result<T, FormatError>, expected: &str) {
    let Err(err) = result else {
        panic!("expected error containing {expected:?}, got Ok(_)");
    };
    let text = err.message();
    assert!(
        text.contains(expected),
        "expected error containing {expected:?}, got {text:?}"
    );
}

fn rank_header(dim: u32, n_vectors: u32) -> Vec<u8> {
    let mut v = Vec::new();
    v.extend_from_slice(b"TVR1");
    v.push(VERSION);
    v.extend_from_slice(&dim.to_le_bytes());
    v.extend_from_slice(&n_vectors.to_le_bytes());
    v
}

fn rankquant_header(bits: u8, dim: u32, n_vectors: u32) -> Vec<u8> {
    let mut v = Vec::new();
    v.extend_from_slice(b"TVRQ");
    v.push(VERSION);
    v.push(bits);
    v.extend_from_slice(&dim.to_le_bytes());
    v.extend_from_slice(&n_vectors.to_le_bytes());
    v
}

fn bitmap_header(dim: u32, n_top: u32, n_vectors: u32) -> Vec<u8> {
    let mut v = Vec::new();
    v.extend_from_slice(b"TVBM");
    v.push(VERSION);
    v.extend_from_slice(&dim.to_le_bytes());
    v.extend_from_slice(&n_top.to_le_bytes());
    v.extend_from_slice(&n_vectors.to_le_bytes());
    v
}

fn sign_bitmap_header(dim: u32, n_vectors: u32) -> Vec<u8> {
    let mut v = Vec::new();
    v.extend_from_slice(b"TVSB");
    v.push(VERSION);
    v.extend_from_slice(&dim.to_le_bytes());
    v.extend_from_slice(&n_vectors.to_le_bytes());
    v
}

fn fastscan_header(dim: u32, n_vectors: u32) -> Vec<u8> {
    let mut v = Vec::new();
    v.extend_from_slice(b"OVFS");
    v.push(VERSION);
    v.extend_from_slice(&dim.to_le_bytes());
    v.extend_from_slice(&n_vectors.to_le_bytes());
    v
}

/// The blocks of four documents of eight coordinates, each with the codes
/// 0, 0, 1, 1, 2, 2, 3, 3.
fn fastscan_payload() -> Vec<u8> {
    let mut payload = vec![0u8; 128];
    for lane in 0..4 {
        payload[lane] = 0x00;
        payload[32 + lane] = 0x05;
        payload[64 + lane] = 0x0a;
        payload[96 + lane] = 0x0f;
    }
    payload
}

fn fastscan_bytes(payload: &[u8]) -> Vec<u8> {
    let mut v = fastscan_header(8, 4);
    v.extend_from_slice(payload);
    v
}

#[test]
fn probe_metadata_matches_full_loaders_on_generated_fixtures() {
    let mut rank = Rank::new(8);
    rank.add(&bits(&[
        1.0, 3.0, 2.0, 4.0, 8.0, 7.0, 6.0, 5.0, 8.0, 6.0, 7.0, 5.0, 1.0, 2.0, 3.0, 4.0,
    ]));
    let file = rank.write_to().unwrap();
    let meta = probe(&file).unwrap();
    let loaded = Rank::load_from_bytes(&file).unwrap();
    assert_eq!(meta.kind, IndexKind::Rank);
    assert_eq!(meta.params, IndexParams::Rank);
    assert_eq!(meta.format_version, VERSION);
    assert_eq!(meta.dim, loaded.dim());
    assert_eq!(meta.vector_count, loaded.len());
    assert_eq!(meta.bytes_per_vec, loaded.bytes_per_vec());
    assert_eq!(meta.file_size_bytes, file.len() as u64);

    let mut quant = RankQuant::new(16, 2);
    let quant_docs: Vec<f32> = (0..32).map(|i| i as f32 - 11.0).collect();
    quant.add(&bits(&quant_docs));
    let file = quant.write_to().unwrap();
    let meta = probe(&file).unwrap();
    let loaded = RankQuant::load_from_bytes(&file).unwrap();
    assert_eq!(meta.kind, IndexKind::RankQuant);
    assert_eq!(
        meta.params,
        IndexParams::RankQuant {
            bits: loaded.bits()
        }
    );
    assert_eq!(meta.format_version, VERSION);
    assert_eq!(meta.dim, loaded.dim());
    assert_eq!(meta.vector_count, loaded.len());
    assert_eq!(meta.bytes_per_vec, loaded.bytes_per_vec());
    assert_eq!(meta.file_size_bytes, file.len() as u64);

    let mut bitmap = Bitmap::new(64, 16);
    let bitmap_docs: Vec<f32> = (0..128).map(|i| ((i * 17) % 31) as f32).collect();
    bitmap.add(&bits(&bitmap_docs));
    let file = bitmap.write_to().unwrap();
    let meta = probe(&file).unwrap();
    let loaded = Bitmap::load_from_bytes(&file).unwrap();
    assert_eq!(meta.kind, IndexKind::Bitmap);
    assert_eq!(
        meta.params,
        IndexParams::Bitmap {
            n_top: loaded.n_top()
        }
    );
    assert_eq!(meta.format_version, VERSION);
    assert_eq!(meta.dim, loaded.dim());
    assert_eq!(meta.vector_count, loaded.len());
    assert_eq!(meta.bytes_per_vec, loaded.bytes_per_vec());
    assert_eq!(meta.file_size_bytes, file.len() as u64);

    let mut sign = SignBitmap::new(64);
    let sign_docs: Vec<f32> = (0usize..128)
        .map(|i| if i % 3 == 0 { 1.0 } else { -1.0 })
        .collect();
    sign.add(&bits(&sign_docs));
    let file = sign.write_to().unwrap();
    let meta = probe(&file).unwrap();
    let loaded = SignBitmap::load_from_bytes(&file).unwrap();
    assert_eq!(meta.kind, IndexKind::SignBitmap);
    assert_eq!(meta.params, IndexParams::SignBitmap);
    assert_eq!(meta.format_version, VERSION);
    assert_eq!(meta.dim, loaded.dim());
    assert_eq!(meta.vector_count, loaded.len());
    assert_eq!(meta.bytes_per_vec, loaded.bytes_per_vec());
    assert_eq!(meta.file_size_bytes, file.len() as u64);
}

#[test]
fn probe_rejects_header_and_length_errors_without_payload_allocation() {
    let err = probe(b"NOPE").unwrap_err();
    assert_eq!(err.kind(), FormatErrorKind::InvalidData);

    let err = probe(b"TVR1\x09").unwrap_err();
    assert_eq!(err.kind(), FormatErrorKind::InvalidData);

    let err = probe(b"TVR1\x01").unwrap_err();
    assert_eq!(err.kind(), FormatErrorKind::UnexpectedEof);
    assert!(
        err.message()
            .contains("OVR1 header truncated while reading dim"),
        "unexpected error: {err:?}"
    );

    assert_err_contains(probe(&rank_header(8, 1)), "OVR1 payload truncated");

    let huge_declared = rank_header(MAX_DIM as u32, MAX_VECTORS as u32);
    let err = probe(&huge_declared).unwrap_err();
    assert_eq!(err.kind(), FormatErrorKind::InvalidData);
    assert!(
        err.message().contains("MAX_PAYLOAD"),
        "unexpected error: {err:?}"
    );
}

#[test]
fn probe_reports_header_field_context_for_truncated_headers() {
    let cases: [(Vec<u8>, &str); 5] = [
        (
            b"TV".to_vec(),
            "ordvec index header truncated while reading magic",
        ),
        (
            b"TVR1".to_vec(),
            "OVR1 header truncated while reading version",
        ),
        (
            b"TVRQ\x01".to_vec(),
            "OVRQ header truncated while reading bits",
        ),
        (
            bitmap_header(64, 0, 0)[..9].to_vec(),
            "OVBM header truncated while reading n_top",
        ),
        (
            sign_bitmap_header(64, 0)[..9].to_vec(),
            "OVSB header truncated while reading n_vectors",
        ),
    ];
    for (bytes, expected) in cases {
        assert_err_contains(probe(&bytes), expected);
    }
}

#[test]
fn probe_reports_distinct_payload_truncation_and_trailing_bytes_for_all_formats() {
    let cases: [(Vec<u8>, Vec<u8>, &str); 4] = [
        (rank_header(8, 1), rank_header(8, 0), "OVR1"),
        (rankquant_header(2, 8, 1), rankquant_header(2, 8, 0), "OVRQ"),
        (bitmap_header(64, 16, 1), bitmap_header(64, 16, 0), "OVBM"),
        (sign_bitmap_header(64, 1), sign_bitmap_header(64, 0), "OVSB"),
    ];

    for (truncated, mut trailing, label) in cases {
        assert_err_contains(probe(&truncated), &format!("{label} payload truncated"));
        trailing.push(0);
        assert_err_contains(
            probe(&trailing),
            &format!("{label} payload has trailing bytes"),
        );
    }
}

#[test]
fn probe_rejects_format_specific_header_errors() {
    let bad = [
        rankquant_header(3, 8, 0),
        rankquant_header(4, 8, 0),
        bitmap_header(100, 10, 0),
        bitmap_header(64, 64, 0),
        sign_bitmap_header(32, 0),
    ];
    for bytes in bad {
        assert_eq!(
            probe(&bytes).unwrap_err().kind(),
            FormatErrorKind::InvalidData
        );
    }
}

#[test]
fn probe_does_not_validate_payload_row_invariants() {
    let mut forged = bitmap_header(64, 16, 1);
    forged.extend_from_slice(&0u64.to_le_bytes());

    let meta = probe(&forged).expect("probe reads only metadata");
    assert_eq!(meta.kind, IndexKind::Bitmap);
    assert_eq!(meta.dim, 64);
    assert_eq!(meta.vector_count, 1);

    let load_err = Bitmap::load_from_bytes(&forged).err().unwrap();
    assert_eq!(load_err.kind(), FormatErrorKind::InvalidData);
}

#[test]
fn tvdeser004_load_rankquant_rejects_dim_not_multiple_of_2pow_bits() {
    let result = RankQuant::load_from_bytes(&rankquant_header(2, 6, 0));
    assert!(
        result.is_err(),
        "accepted bits=2 dim=6 (dim % 4 != 0); expected Err"
    );
}

#[test]
fn tvdeser004_load_rankquant_rejects_dim_smaller_than_buckets() {
    let result = RankQuant::load_from_bytes(&rankquant_header(4, 4, 0));
    assert!(
        result.is_err(),
        "accepted bits=4 dim=4 (dim % 16 != 0); expected Err"
    );
}

#[test]
fn tvdeser004_load_rankquant_accepts_valid_dim() {
    let loaded = match RankQuant::load_from_bytes(&rankquant_header(2, 8, 0)) {
        Ok(loaded) => loaded,
        Err(e) => panic!("valid TVRQ should load: {e:?}"),
    };
    assert_eq!(loaded.bits(), 2);
    assert_eq!(loaded.dim(), 8);
    assert_eq!(loaded.len(), 0);
    assert!(loaded.packed().is_empty());
}

#[test]
fn tvdeser005_load_rank_rejects_rank_value_ge_dim() {
    let ranks: [u16; 4] = [60000, 1, 2, 3];
    let mut v = rank_header(4, 1);
    for &r in &ranks {
        v.extend_from_slice(&r.to_le_bytes());
    }
    assert_eq!(
        Rank::load_from_bytes(&v).err(),
        Some(FormatError::RankTooLarge { rank: 60000, dim: 4 })
    );
}

#[test]
fn tvdeser005_load_rank_accepts_valid_permutation() {
    let ranks: [u16; 8] = [0, 1, 2, 3, 3, 2, 1, 0];
    let mut v = rank_header(4, 2);
    for &r in &ranks {
        v.extend_from_slice(&r.to_le_bytes());
    }
    let loaded = match Rank::load_from_bytes(&v) {
        Ok(loaded) => loaded,
        Err(e) => panic!("valid TVR1 should load: {e:?}"),
    };
    assert_eq!(loaded.dim(), 4);
    assert_eq!(loaded.len(), 2);
    assert_eq!(loaded.ranks(), &ranks[..]);
}

#[test]
fn oversized_payloads_are_refused_before_writing() {
    // Dimension and count are each within their caps; the payload is not.
    let big_dim = u16::MAX as usize;
    let big_n = 64 * 1024 * 1024;
    let bm_dim = 32768;
    let sizes = [
        checked_payload(PersistedFormat::Rank, 0, big_dim, big_n),
        checked_payload(PersistedFormat::RankQuant, 4, big_dim, big_n),
        checked_payload(PersistedFormat::Bitmap, 0, bm_dim, big_n),
        checked_payload(PersistedFormat::SignBitmap, 0, bm_dim, big_n),
        checked_payload(PersistedFormat::RankQuantFastscan, 0, big_dim - 3, big_n),
    ];
    for size in sizes {
        assert_eq!(size.unwrap_err().kind(), FormatErrorKind::InvalidData);
    }
    assert_eq!(checked_payload(PersistedFormat::Rank, 0, 8, 3), Ok(48));
    assert_eq!(
        checked_payload(PersistedFormat::RankQuantFastscan, 0, 8, 33),
        Ok(256)
    );
}

#[test]
fn write_fastscan_validates_and_never_panics() {
    let payload = fastscan_payload();
    let file = fastscan_bytes(&payload);
    let index = match RankQuantFastscan::load_from_bytes(&file) {
        Ok(index) => index,
        Err(e) => panic!("valid OVFS should load: {e:?}"),
    };
    assert_eq!((index.dim(), index.len()), (8, 4));
    assert_eq!(index.packed(), &payload[..]);
    assert_eq!(index.write_to().unwrap(), file);

    let mut bad_dim = fastscan_header(6, 4);
    bad_dim.extend_from_slice(&payload);
    let e = RankQuantFastscan::load_from_bytes(&bad_dim).err().unwrap();
    assert_eq!(e.kind(), FormatErrorKind::InvalidData);

    let e = RankQuantFastscan::load_from_bytes(&fastscan_bytes(&payload[..100]))
        .err()
        .unwrap();
    assert_eq!(e.kind(), FormatErrorKind::InvalidData);

    let mut invalid_payload = payload.clone();
    invalid_payload[32] = 0x10;
    let e = RankQuantFastscan::load_from_bytes(&fastscan_bytes(&invalid_payload))
        .err()
        .unwrap();
    assert_eq!(e.kind(), FormatErrorKind::InvalidData);
    assert!(
        e.message().contains("invalid FastScan nibble"),
        "unexpected error: {e:?}"
    );
}

#[test]
fn probe_rejects_ovfs_with_specific_unsupported_error() {
    let file = fastscan_bytes(&fastscan_payload());
    assert_err_contains(
        probe(&file),
        "OVFS (RankQuantFastscan) metadata probing is not supported",
    );
    let again = probe(&file).unwrap_err().message();
    assert!(
        !again.contains("unknown ordvec index magic"),
        "OVFS is a recognized magic; probe must not report it as unknown, got {again:?}"
    );
}

#[test]
fn fastscan_payload_faults_are_told_apart() {
    let load = |payload: &[u8]| RankQuantFastscan::load_from_bytes(&fastscan_bytes(payload)).err();

    let mut nibble = fastscan_payload();
    nibble[64 + 2] = 0xA3;
    let e = load(&nibble).unwrap();
    assert_eq!(
        e,
        FormatError::InvalidNibble { block: 0, pair: 2, lane: 2, doc: 2, byte: 0xA3 }
    );
    assert_eq!(
        e.message(),
        "OVFS payload byte at block 0, pair 2, lane 2 (document 2) has invalid FastScan nibble 0xa3"
    );

    let mut uneven = fastscan_payload();
    uneven[32 + 1] = 0x00;
    let e = load(&uneven).unwrap();
    assert_eq!(
        e,
        FormatError::UnevenDocument { doc: 1, counts: [4, 0, 2, 2], expected: 2 }
    );
    assert_eq!(
        e.message(),
        "OVFS document 1 violates b=2 constant composition: counts=[4, 0, 2, 2], expected 2 per bucket"
    );

    let mut padding = fastscan_payload();
    padding[96 + 9] = 0x07;
    let e = load(&padding).unwrap();
    assert_eq!(e, FormatError::PaddingNotZero { block: 0, pair: 3, lane: 9, byte: 7 });
    assert_eq!(
        e.message(),
        "OVFS tail padding byte at block 0, pair 3, lane 9 must be zero, got 0x07"
    );
}

#[test]
fn header_faults_are_told_apart() {
    assert_eq!(
        probe(b"OV").err(),
        Some(FormatError::HeaderTruncated { source: None, field: HeaderField::Magic })
    );
    assert_eq!(probe(b"NOPE").err(), Some(FormatError::UnknownMagic));
    assert_eq!(
        Rank::load_from_bytes(b"OVRQ").err(),
        Some(FormatError::WrongMagic { format: PersistedFormat::Rank })
    );
    assert_eq!(
        Rank::load_from_bytes(b"OVR1\x02").err(),
        Some(FormatError::UnsupportedVersion { format: PersistedFormat::Rank, version: 2 })
    );
    assert_eq!(
        RankQuant::load_from_bytes(&rankquant_header(8, 8, 0)).err(),
        Some(FormatError::UnsupportedBits { bits: 8 })
    );
    assert_eq!(
        Rank::load_from_bytes(&rank_header(1, 0)).err(),
        Some(FormatError::DimOutOfRange { dim: 1 })
    );
    assert_eq!(
        SignBitmap::load_from_bytes(&sign_bitmap_header(1 << 25, 0)).err(),
        Some(FormatError::SignDimOutOfRange { dim: 1 << 25 })
    );
    assert_eq!(
        Bitmap::load_from_bytes(&bitmap_header(100, 10, 0)).err(),
        Some(FormatError::DimNotWholeWords { format: PersistedFormat::Bitmap, dim: 100 })
    );
    assert_eq!(
        Bitmap::load_from_bytes(&bitmap_header(64, 64, 0)).err(),
        Some(FormatError::TopOutOfRange { n_top: 64, dim: 64 })
    );
    assert_eq!(
        RankQuantFastscan::load_from_bytes(&fastscan_header(6, 0)).err(),
        Some(FormatError::DimNotPaired { dim: 6 })
    );
    assert_eq!(
        Rank::load_from_bytes(&rank_header(8, u32::MAX)).err(),
        Some(FormatError::TooManyVectors { n_vectors: u32::MAX as usize })
    );
    assert_eq!(
        Rank::load_from_bytes(&rank_header(65535, 64 * 1024 * 1024)).err(),
        Some(FormatError::PayloadTooLarge { payload: 65535 * 64 * 1024 * 1024 * 2 })
    );
    assert_eq!(
        Rank::load_from_bytes(&rank_header(8, 1)).err(),
        Some(FormatError::PayloadTruncated {
            format: PersistedFormat::Rank,
            declared: 16,
            remaining: 0
        })
    );
    assert_eq!(
        checked_payload(PersistedFormat::Rank, 0, usize::MAX, 2).err(),
        Some(FormatError::PayloadOverflow { format: PersistedFormat::Rank })
    );
}

#[test]
fn dimension_faults_of_quantised_files() {
    // 6 coordinates do not fill 4 buckets; 4 do not fill whole bytes at one bit.
    for (bits, dim) in [(2u8, 6u32), (1, 4)] {
        let e = RankQuant::load_from_bytes(&rankquant_header(bits, dim, 0))
            .err()
            .unwrap();
        assert!(matches!(
            e,
            FormatError::DimNotComposable { .. } | FormatError::DimNotPackable { .. }
        ));
    }
    assert_eq!(
        RankQuant::load_from_bytes(&rankquant_header(4, 8, 0)).err(),
        Some(FormatError::DimNotComposable { dim: 8, n_buckets: 16 })
    );
    assert_eq!(
        RankQuant::load_from_bytes(&rankquant_header(1, 4, 0)).err(),
        Some(FormatError::DimNotPackable { dim: 4, codes_per_byte: 8 })
    );
}

#[test]
fn document_faults_are_told_apart() {
    let mut v = rank_header(4, 2);
    for r in [0u16, 1, 2, 3, 3, 2, 3, 0] {
        v.extend_from_slice(&r.to_le_bytes());
    }
    assert_eq!(
        Rank::load_from_bytes(&v).err(),
        Some(FormatError::RankRepeats { row: 1, rank: 3 })
    );

    // Codes 0, 0, 1, 1, 2, 2, 3, 3, and then one 3 turned into a 2.
    let mut v = rankquant_header(2, 8, 2);
    v.extend_from_slice(&[0b00_00_01_01, 0b10_10_11_11, 0b00_00_01_01, 0b10_10_11_10]);
    assert_eq!(
        RankQuant::load_from_bytes(&v).err(),
        Some(FormatError::UnevenRow { row: 1, bucket: 2, count: 3, expected: 2 })
    );

    let mut v = bitmap_header(64, 2, 1);
    v.extend_from_slice(&7u64.to_le_bytes());
    assert_eq!(
        Bitmap::load_from_bytes(&v).err(),
        Some(FormatError::WrongPopcount { row: 0, popcount: 3, n_top: 2 })
    );
}

#[test]
fn eight_bit_codes_are_not_stored() {
    let index = RankQuant::new_asymmetric(16, 8);
    let e = index.write_to().unwrap_err();
    assert!(matches!(e, FormatError::WidthNotPersisted { .. }));
    assert_eq!(e.kind(), FormatErrorKind::Unsupported);
}

#[test]
fn legacy_files_read_like_current_ones() {
    let mut rank = Rank::new(4);
    rank.add(&bits(&[0.5, -1.0, 2.0, 0.0]));
    let mut file = rank.write_to().unwrap();
    assert_eq!(&file[..4], b"OVR1");
    file[..4].copy_from_slice(b"TVR1");
    let loaded = match Rank::load_from_bytes(&file) {
        Ok(loaded) => loaded,
        Err(e) => panic!("legacy magic should load: {e:?}"),
    };
    assert_eq!(loaded.ranks(), rank.ranks());
}

#[test]
fn files_have_the_documented_layout() {
    let mut rank = Rank::new(4);
    rank.add(&bits(&[0.5, -1.0, 2.0, 0.0]));
    let mut want: Vec<u8> = b"OVR1\x01".to_vec();
    want.extend_from_slice(&[4, 0, 0, 0, 1, 0, 0, 0]);
    want.extend_from_slice(&[2, 0, 0, 0, 3, 0, 1, 0]);
    assert_eq!(rank.write_to().unwrap(), want);

    let mut bitmap = Bitmap::new(64, 2);
    let v: Vec<f32> = (0..64).map(|j| if j < 2 { 1.0 } else { 0.0 }).collect();
    bitmap.add(&bits(&v));
    let mut want: Vec<u8> = b"OVBM\x01".to_vec();
    want.extend_from_slice(&[64, 0, 0, 0, 2, 0, 0, 0, 1, 0, 0, 0]);
    want.extend_from_slice(&[3, 0, 0, 0, 0, 0, 0, 0]);
    assert_eq!(bitmap.write_to().unwrap(), want);
}
