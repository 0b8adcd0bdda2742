//! Parameter errors and the validators that raise them.

use vstd::prelude::*;

use crate::text::{decimal, push_decimal, push_text};

verus! {

/// An invalid parameter, length or candidate id.
#[derive(Clone, Debug, PartialEq, Eq)]
pub enum OrdvecError {
    /// A parameter is outside its domain.
    InvalidParameter {
        /// The parameter.
        name: &'static str,
        /// What is wrong with it.
        message: String,
    },
    /// A flat buffer is not a whole number of vectors.
    InvalidLength {
        /// The buffer.
        name: &'static str,
        /// Its length.
        len: usize,
        /// The vector dimension.
        dim: usize,
    },
    /// A single vector has the wrong length.
    InvalidVectorLength {
        /// The vector.
        name: &'static str,
        /// Its length.
        len: usize,
        /// The dimension it must have.
        expected: usize,
    },
    /// A candidate id names no document.
    CandidateIdOutOfRange {
        /// The offending id.
        id: u32,
        /// The number of documents.
        n_vectors: usize,
    },
}

impl OrdvecError {
    /// This is `InvalidParameter` for the parameter and text given.
    pub open spec fn is_parameter(self, parameter: Seq<char>, text: Seq<char>) -> bool {
        self matches OrdvecError::InvalidParameter { name, message } && name@ == parameter
            && message@ == text
    }

    /// This is `InvalidLength` with the values given.
    pub open spec fn is_length(self, what: Seq<char>, length: int, dimension: int) -> bool {
        self matches OrdvecError::InvalidLength { name, len, dim } && name@ == what && len == length
            && dim == dimension
    }

    /// This is `InvalidVectorLength` with the values given.
    pub open spec fn is_vector_length(self, what: Seq<char>, length: int, want: int) -> bool {
        self matches OrdvecError::InvalidVectorLength { name, len, expected } && name@ == what
            && len == length && expected == want
    }

    /// The text of the error.
    pub open spec fn text(self) -> Seq<char> {
        match self {
            OrdvecError::InvalidParameter { name, message } => "invalid "@ + name@ + ": "@
                + message@,
            OrdvecError::InvalidLength { name, len, dim } => name@ + " length "@ + decimal(
                len as nat,
            ) + " must be a multiple of dim "@ + decimal(dim as nat),
            OrdvecError::InvalidVectorLength { name, len, expected } => name@ + " length "@
                + decimal(len as nat) + " must equal dim "@ + decimal(expected as nat),
            OrdvecError::CandidateIdOutOfRange { id, n_vectors } => "candidate id "@ + decimal(
                id as nat,
            ) + " out of range for n_vectors "@ + decimal(n_vectors as nat),
        }
    }

    /// The error as text.
    pub fn message(&self) -> (s: String)
        ensures
            s@ == self.text(),
    {
        match self {
            OrdvecError::InvalidParameter { name, message } => {
                let mut s: String = "invalid ".to_owned();
                push_text(&mut s, name);
                push_text(&mut s, ": ");
                push_text(&mut s, message.as_str());
                s
            },
            OrdvecError::InvalidLength { name, len, dim } => {
                let mut s: String = (*name).to_owned();
                push_text(&mut s, " length ");
                push_decimal(&mut s, *len as u64);
                push_text(&mut s, " must be a multiple of dim ");
                push_decimal(&mut s, *dim as u64);
                s
            },
            OrdvecError::InvalidVectorLength { name, len, expected } => {
                let mut s: String = (*name).to_owned();
                push_text(&mut s, " length ");
                push_decimal(&mut s, *len as u64);
                push_text(&mut s, " must equal dim ");
                push_decimal(&mut s, *expected as u64);
                s
            },
            OrdvecError::CandidateIdOutOfRange { id, n_vectors } => {
                let mut s: String = "candidate id ".to_owned();
                push_decimal(&mut s, *id as u64);
                push_text(&mut s, " out of range for n_vectors ");
                push_decimal(&mut s, *n_vectors as u64);
                s
            },
        }
    }
}

/// The number of vectors of dimension `dim` in a flat buffer of `len` values.
pub fn validate_flat_vectors_len(len: usize, dim: usize) -> (r: Result<usize, OrdvecError>)
    ensures
        match r {
            Ok(n) => dim > 0 && len == n * dim,
            Err(e) => if dim == 0 {
                e.is_parameter("dim"@, "must be > 0"@)
            } else {
                len % dim != 0 && e.is_length("vectors"@, len as int, dim as int)
            },
        },
{
    if dim == 0 {
        return Err(
            OrdvecError::InvalidParameter { name: "dim", message: "must be > 0".to_owned() },
        );
    }
    if len % dim != 0 {
        return Err(OrdvecError::InvalidLength { name: "vectors", len, dim });
    }
    proof {
        vstd::arithmetic::div_mod::lemma_fundamental_div_mod(len as int, dim as int);
        let q = len as int / dim as int;
        assert(q * dim == dim * q) by (nonlinear_arith);
    }
    Ok(len / dim)
}

/// Check that every candidate id names a document; the error carries the first
/// one that does not.
pub fn validate_candidate_ids(candidates: &[u32], n_vectors: usize) -> (r: Result<
    (),
    OrdvecError,
>)
    ensures
        match r {
            Ok(()) => forall|i: int|
                0 <= i < candidates.len() ==> #[trigger] candidates[i] < n_vectors,
            Err(e) => exists|i: int|
                #![trigger candidates[i]]
                0 <= i < candidates.len() && candidates[i] >= n_vectors && e
                    == (OrdvecError::CandidateIdOutOfRange { id: candidates[i], n_vectors })
                    && forall|j: int| 0 <= j < i ==> #[trigger] candidates[j] < n_vectors,
        },
{
    let mut i: usize = 0;
    while i < candidates.len()
        invariant
            i <= candidates.len(),
            forall|j: int| 0 <= j < i ==> #[trigger] candidates[j] < n_vectors,
        decreases candidates.len() - i,
    {
        if candidates[i] as usize >= n_vectors {
            return Err(OrdvecError::CandidateIdOutOfRange { id: candidates[i], n_vectors });
        }
        i = i + 1;
    }
    Ok(())
}

} // verus!
