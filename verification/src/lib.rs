//! Training-free ordinal and sign quantisation for vector retrieval.
//!
//! Vectors are encoded without a codebook: by the ranks of their coordinates,
//! by buckets of those ranks, by bitmaps of their largest coordinates, or by
//! their signs. Floating-point values enter as their bit patterns
//! ([`float_bits::F32Bits`]); a search that scores in floating point takes the
//! scoring function from its caller.

use vstd::prelude::*;

pub mod binomial;
pub mod bitmap;
pub mod bits;
pub mod bucket_code;
pub mod codec;
pub mod const_weight_bitmap;
pub mod contingency;
pub mod counting;
pub mod error;
pub mod fastscan;
pub mod float_bits;
pub mod format;
pub mod format_error;
pub mod laws;
pub mod multi_bucket;
mod parallel;
pub mod quant;
pub mod rank;
pub mod rank_index;
pub mod rank_io;
pub mod results;
pub mod rows;
pub mod select;
pub mod sign_bitmap;
pub mod sort;
pub mod text;
pub mod util;

pub use bitmap::Bitmap;
pub use bucket_code::{BucketCode, CompositionSpec, CompositionViolation, RankQuantSpec};
pub use const_weight_bitmap::{
    top_group_overlap_vector, BitmapNull, ConstantWeightBitmap, PackedConstantWeightBitmap,
};
pub use contingency::{Contingency, Projection};
pub use error::{validate_candidate_ids, validate_flat_vectors_len, OrdvecError};
pub use fastscan::RankQuantFastscan;
pub use float_bits::F32Bits;
pub use format::{FfiLoadSupport, FormatSpec, ManifestCoverage, PersistedFormat, ProbeCoverage};
pub use format_error::{FormatError, FormatErrorKind, HeaderField};
pub use multi_bucket::MultiBucketBitmap;
pub use quant::{
    rankquant_eval_search, search_asymmetric_byte_lut, RankQuant, RankQuantCapability,
    TwoStageCandidatePolicy,
};
pub use rank_index::Rank;
pub use rank_io::{probe_index_metadata, IndexKind, IndexMetadata, IndexParams};
pub use results::SearchResults;
pub use sign_bitmap::{CandidateBatch, SignBitmap};

verus! {

/// An older name of [`Rank`].
pub type RankIndex = Rank;

/// An older name of [`RankQuant`].
pub type RankQuantIndex = RankQuant;

/// An older name of [`Bitmap`].
pub type BitmapIndex = Bitmap;

/// An older name of [`SignBitmap`].
pub type SignBitmapIndex = SignBitmap;

/// An older name of [`MultiBucketBitmap`].
pub type MultiBucketBitmapIndex = MultiBucketBitmap;

/// An older name of [`RankQuantFastscan`].
pub type RankQuantFastscanIndex = RankQuantFastscan;

} // verus!
