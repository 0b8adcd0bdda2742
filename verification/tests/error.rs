//! Parameter errors and the validators that raise them.

use ordvec::error::{validate_candidate_ids, validate_flat_vectors_len, OrdvecError};

#[test]
fn flat_buffers_are_whole_vectors() {
    assert_eq!(validate_flat_vectors_len(12, 4), Ok(3));
    assert_eq!(validate_flat_vectors_len(0, 4), Ok(0));
    assert!(matches!(
        validate_flat_vectors_len(13, 4),
        Err(OrdvecError::InvalidLength { len: 13, dim: 4, .. })
    ));
    assert!(matches!(
        validate_flat_vectors_len(12, 0),
        Err(OrdvecError::InvalidParameter { name: "dim", .. })
    ));
}

#[test]
fn candidate_ids_name_documents() {
    assert_eq!(validate_candidate_ids(&[0, 4, 4], 5), Ok(()));
    assert_eq!(
        validate_candidate_ids(&[0, 5, 9], 5),
        Err(OrdvecError::CandidateIdOutOfRange { id: 5, n_vectors: 5 })
    );
}

#[test]
fn error_messages_name_the_values() {
    let text = |e: OrdvecError| e.message();
    assert_eq!(
        text(validate_candidate_ids(&[7], 5).unwrap_err()),
        "candidate id 7 out of range for n_vectors 5"
    );
    assert_eq!(
        text(validate_flat_vectors_len(13, 4).unwrap_err()),
        "vectors length 13 must be a multiple of dim 4"
    );
    assert_eq!(
        text(validate_flat_vectors_len(13, 0).unwrap_err()),
        "invalid dim: must be > 0"
    );
    let e = OrdvecError::InvalidVectorLength {
        name: "query",
        len: 3,
        expected: 4,
    };
    assert_eq!(text(e), "query length 3 must equal dim 4");
}
