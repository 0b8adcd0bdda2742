//! The registry of file formats.

use ordvec::format::{
    formats, lookup_magic, spec, FfiLoadSupport, IndexKind, ManifestCoverage, PersistedFormat,
    ProbeCoverage,
};

#[test]
fn registry_has_one_row_per_current_format() {
    assert_eq!(
        formats().len(),
        5,
        "new formats must update this registry test"
    );
    assert_eq!(spec(PersistedFormat::Rank).kind, IndexKind::Rank);
    assert_eq!(spec(PersistedFormat::RankQuant).kind, IndexKind::RankQuant);
    assert_eq!(spec(PersistedFormat::Bitmap).kind, IndexKind::Bitmap);
    assert_eq!(
        spec(PersistedFormat::SignBitmap).kind,
        IndexKind::SignBitmap
    );
    assert_eq!(
        spec(PersistedFormat::RankQuantFastscan).kind,
        IndexKind::RankQuantFastscan
    );
}

#[test]
fn every_magic_and_legacy_magic_resolves_to_its_row() {
    for spec in formats() {
        assert_eq!(
            lookup_magic(&spec.magic).map(|found| found.format),
            Some(spec.format)
        );
        if let Some(legacy_magic) = spec.legacy_magic {
            assert_eq!(
                lookup_magic(&legacy_magic).map(|found| found.format),
                Some(spec.format)
            );
        }
    }
    assert!(lookup_magic(b"NOPE").is_none());
}

#[test]
fn manifest_coverage_is_explicit_for_every_format() {
    for spec in formats() {
        match spec.manifest {
            ManifestCoverage::Covered => {}
            ManifestCoverage::NotCovered {
                tracking_issue,
                reason,
            } => {
                assert!(tracking_issue > 0);
                assert!(!reason.trim().is_empty());
            }
            other => panic!("unexpected coverage: {other:?}"),
        }
    }
    assert!(matches!(
        spec(PersistedFormat::RankQuantFastscan).manifest,
        ManifestCoverage::NotCovered {
            tracking_issue: 232,
            ..
        }
    ));
}

#[test]
fn ffi_load_support_is_limited_to_abi_v1_formats() {
    for spec in formats() {
        match (spec.format, spec.ffi_load) {
            (PersistedFormat::RankQuant | PersistedFormat::Bitmap, FfiLoadSupport::Supported) => {}
            (
                PersistedFormat::Rank
                | PersistedFormat::SignBitmap
                | PersistedFormat::RankQuantFastscan,
                FfiLoadSupport::Unsupported { reason },
            ) => assert!(!reason.trim().is_empty()),
            other => panic!("unexpected FFI load support matrix entry: {other:?}"),
        }
    }
}

#[test]
fn registry_rows_hold_the_documented_values() {
    let rows = formats();
    let magics: Vec<[u8; 4]> = rows.iter().map(|r| r.magic).collect();
    assert_eq!(magics, vec![*b"OVR1", *b"OVRQ", *b"OVBM", *b"OVSB", *b"OVFS"]);
    let legacy: Vec<Option<[u8; 4]>> = rows.iter().map(|r| r.legacy_magic).collect();
    assert_eq!(
        legacy,
        vec![Some(*b"TVR1"), Some(*b"TVRQ"), Some(*b"TVBM"), Some(*b"TVSB"), None]
    );
    let probed = rows
        .iter()
        .filter(|r| matches!(r.probe, ProbeCoverage::Covered))
        .count();
    assert_eq!(probed, 4);
}

#[test]
fn a_magic_belongs_to_one_format_only() {
    let rows = formats();
    let mut seen: Vec<[u8; 4]> = Vec::new();
    for row in &rows {
        assert!(!seen.contains(&row.magic));
        seen.push(row.magic);
        if let Some(old) = row.legacy_magic {
            assert!(!seen.contains(&old));
            seen.push(old);
        }
    }
    assert_eq!(seen.len(), 9);
}
