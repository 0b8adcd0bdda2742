//! What the texts of errors say.

use vstd::prelude::*;

use crate::bucket_code::CompositionViolation;
use crate::error::OrdvecError;
use crate::format::{magic_text, PersistedFormat};
use crate::format_error::{source_text, FormatError, HeaderField};
use crate::rank_io::{MAX_DIM, MAX_PAYLOAD, MAX_SIGN_BITMAP_DIM, MAX_VECTORS};
use crate::results::mismatch_text;
use crate::text::{decimal, hex_byte};

verus! {

/// Words with the first `n` numbers written between them.
pub open spec fn filled(words: Seq<Seq<char>>, numbers: Seq<nat>, n: nat) -> Seq<char>
    decreases n,
{
    if n == 0 {
        words[0]
    } else {
        filled(words, numbers, (n - 1) as nat) + decimal(numbers[n - 1]) + words[n as int]
    }
}

/// Two texts say the same words around their numbers, in the same order.
pub open spec fn worded_alike(
    t: Seq<char>,
    numbers: Seq<nat>,
    u: Seq<char>,
    others: Seq<nat>,
) -> bool {
    &&& numbers.len() == others.len()
    &&& exists|words: Seq<Seq<char>>|
        words.len() == numbers.len() + 1 && t == #[trigger] filled(words, numbers, numbers.len())
            && u == filled(words, others, others.len())
}

proof fn lemma_worded_alike(
    t: Seq<char>,
    numbers: Seq<nat>,
    u: Seq<char>,
    others: Seq<nat>,
    words: Seq<Seq<char>>,
)
    requires
        numbers.len() == others.len(),
        words.len() == numbers.len() + 1,
        t =~= filled(words, numbers, numbers.len()),
        u =~= filled(words, others, others.len()),
    ensures
        worded_alike(t, numbers, u, others),
{
    assert(t == filled(words, numbers, numbers.len()));
    assert(u == filled(words, others, others.len()));
}

/// An argument error says the same words whatever its numbers are: the length
/// that was given before the dimension that was wanted, the candidate before the
/// number of documents.
pub proof fn law_argument_texts(
    name: &'static str,
    a: usize,
    b: usize,
    e: usize,
    f: usize,
    i: u32,
    j: u32,
)
    ensures
        worded_alike(
            (OrdvecError::InvalidLength { name, len: a, dim: b }).text(),
            seq![a as nat, b as nat],
            (OrdvecError::InvalidLength { name, len: e, dim: f }).text(),
            seq![e as nat, f as nat],
        ),
        worded_alike(
            (OrdvecError::InvalidVectorLength { name, len: a, expected: b }).text(),
            seq![a as nat, b as nat],
            (OrdvecError::InvalidVectorLength { name, len: e, expected: f }).text(),
            seq![e as nat, f as nat],
        ),
        worded_alike(
            (OrdvecError::CandidateIdOutOfRange { id: i, n_vectors: a }).text(),
            seq![i as nat, a as nat],
            (OrdvecError::CandidateIdOutOfRange { id: j, n_vectors: e }).text(),
            seq![j as nat, e as nat],
        ),
{
    reveal_with_fuel(filled, 4);
    lemma_worded_alike(
        (OrdvecError::InvalidLength { name, len: a, dim: b }).text(),
        seq![a as nat, b as nat],
        (OrdvecError::InvalidLength { name, len: e, dim: f }).text(),
        seq![e as nat, f as nat],
        seq![name@ + " length "@, " must be a multiple of dim "@, Seq::empty()],
    );
    lemma_worded_alike(
        (OrdvecError::InvalidVectorLength { name, len: a, expected: b }).text(),
        seq![a as nat, b as nat],
        (OrdvecError::InvalidVectorLength { name, len: e, expected: f }).text(),
        seq![e as nat, f as nat],
        seq![name@ + " length "@, " must equal dim "@, Seq::empty()],
    );
    lemma_worded_alike(
        (OrdvecError::CandidateIdOutOfRange { id: i, n_vectors: a }).text(),
        seq![i as nat, a as nat],
        (OrdvecError::CandidateIdOutOfRange { id: j, n_vectors: e }).text(),
        seq![j as nat, e as nat],
        seq!["candidate id "@, " out of range for n_vectors "@, Seq::empty()],
    );
}

/// A composition violation says the same words whatever its numbers are: where it
/// is, then what is there, then what was expected there.
pub proof fn law_composition_texts(
    s: u8,
    t: u8,
    a: usize,
    b: usize,
    c: usize,
    e: usize,
    f: usize,
    g: usize,
)
    ensures
        worded_alike(
            (CompositionViolation::InvalidBits { bits: s }).text(),
            seq![s as nat],
            (CompositionViolation::InvalidBits { bits: t }).text(),
            seq![t as nat],
        ),
        worded_alike(
            (CompositionViolation::DimTooLarge { dim: a, max: b }).text(),
            seq![a as nat, b as nat],
            (CompositionViolation::DimTooLarge { dim: e, max: f }).text(),
            seq![e as nat, f as nat],
        ),
        worded_alike(
            (CompositionViolation::NonUniformSpec { dim: a, buckets: b }).text(),
            seq![a as nat, b as nat],
            (CompositionViolation::NonUniformSpec { dim: e, buckets: f }).text(),
            seq![e as nat, f as nat],
        ),
        worded_alike(
            (CompositionViolation::WrongLength { actual: a, expected: b }).text(),
            seq![a as nat, b as nat],
            (CompositionViolation::WrongLength { actual: e, expected: f }).text(),
            seq![e as nat, f as nat],
        ),
        worded_alike(
            (CompositionViolation::BucketOutOfRange {
                coordinate: a,
                bucket: b,
                buckets: c,
            }).text(),
            seq![a as nat, b as nat, c as nat],
            (CompositionViolation::BucketOutOfRange {
                coordinate: e,
                bucket: f,
                buckets: g,
            }).text(),
            seq![e as nat, f as nat, g as nat],
        ),
        worded_alike(
            (CompositionViolation::WrongBucketCount { bucket: a, actual: b, expected: c }).text(),
            seq![a as nat, b as nat, c as nat],
            (CompositionViolation::WrongBucketCount { bucket: e, actual: f, expected: g }).text(),
            seq![e as nat, f as nat, g as nat],
        ),
        worded_alike(
            (CompositionViolation::RankOutOfRange { coordinate: a, rank: b, dim: c }).text(),
            seq![a as nat, b as nat, c as nat],
            (CompositionViolation::RankOutOfRange { coordinate: e, rank: f, dim: g }).text(),
            seq![e as nat, f as nat, g as nat],
        ),
        worded_alike(
            (CompositionViolation::DuplicateRank { rank: a }).text(),
            seq![a as nat],
            (CompositionViolation::DuplicateRank { rank: e }).text(),
            seq![e as nat],
        ),
        worded_alike(
            (CompositionViolation::NonFiniteValue { coordinate: a }).text(),
            seq![a as nat],
            (CompositionViolation::NonFiniteValue { coordinate: e }).text(),
            seq![e as nat],
        ),
{
    reveal_with_fuel(filled, 5);
    lemma_worded_alike(
        (CompositionViolation::InvalidBits { bits: s }).text(),
        seq![s as nat],
        (CompositionViolation::InvalidBits { bits: t }).text(),
        seq![t as nat],
        seq!["bits "@, " is invalid; expected one of 1, 2, 4"@],
    );
    lemma_worded_alike(
        (CompositionViolation::DimTooLarge { dim: a, max: b }).text(),
        seq![a as nat, b as nat],
        (CompositionViolation::DimTooLarge { dim: e, max: f }).text(),
        seq![e as nat, f as nat],
        seq!["dim "@, " exceeds maximum "@, Seq::empty()],
    );
    lemma_worded_alike(
        (CompositionViolation::NonUniformSpec { dim: a, buckets: b }).text(),
        seq![a as nat, b as nat],
        (CompositionViolation::NonUniformSpec { dim: e, buckets: f }).text(),
        seq![e as nat, f as nat],
        seq!["dim "@, " is not divisible by buckets "@, Seq::empty()],
    );
    lemma_worded_alike(
        (CompositionViolation::WrongLength { actual: a, expected: b }).text(),
        seq![a as nat, b as nat],
        (CompositionViolation::WrongLength { actual: e, expected: f }).text(),
        seq![e as nat, f as nat],
        seq!["code length "@, " does not match dim "@, Seq::empty()],
    );
    lemma_worded_alike(
        (CompositionViolation::BucketOutOfRange { coordinate: a, bucket: b, buckets: c }).text(),
        seq![a as nat, b as nat, c as nat],
        (CompositionViolation::BucketOutOfRange { coordinate: e, bucket: f, buckets: g }).text(),
        seq![e as nat, f as nat, g as nat],
        seq!["coordinate "@, " has bucket "@, ", expected < "@, Seq::empty()],
    );
    lemma_worded_alike(
        (CompositionViolation::WrongBucketCount { bucket: a, actual: b, expected: c }).text(),
        seq![a as nat, b as nat, c as nat],
        (CompositionViolation::WrongBucketCount { bucket: e, actual: f, expected: g }).text(),
        seq![e as nat, f as nat, g as nat],
        seq!["bucket "@, " has "@, " coordinates, expected "@, Seq::empty()],
    );
    lemma_worded_alike(
        (CompositionViolation::RankOutOfRange { coordinate: a, rank: b, dim: c }).text(),
        seq![a as nat, b as nat, c as nat],
        (CompositionViolation::RankOutOfRange { coordinate: e, rank: f, dim: g }).text(),
        seq![e as nat, f as nat, g as nat],
        seq!["coordinate "@, " has rank "@, ", expected < "@, Seq::empty()],
    );
    lemma_worded_alike(
        (CompositionViolation::DuplicateRank { rank: a }).text(),
        seq![a as nat],
        (CompositionViolation::DuplicateRank { rank: e }).text(),
        seq![e as nat],
        seq!["rank "@, " appears more than once"@],
    );
    lemma_worded_alike(
        (CompositionViolation::NonFiniteValue { coordinate: a }).text(),
        seq![a as nat],
        (CompositionViolation::NonFiniteValue { coordinate: e }).text(),
        seq![e as nat],
        seq!["coordinate "@, " is non-finite (NaN or \u{b1}Inf)"@],
    );
}

/// A header error says the same words whatever its numbers are.
pub proof fn law_header_texts(
    format: PersistedFormat,
    s: u8,
    t: u8,
    a: usize,
    b: usize,
    e: usize,
    f: usize,
)
    ensures
        worded_alike(
            (FormatError::UnsupportedVersion { format, version: s }).text(),
            seq![s as nat],
            (FormatError::UnsupportedVersion { format, version: t }).text(),
            seq![t as nat],
        ),
        worded_alike(
            (FormatError::UnsupportedBits { bits: s }).text(),
            seq![s as nat],
            (FormatError::UnsupportedBits { bits: t }).text(),
            seq![t as nat],
        ),
        worded_alike(
            (FormatError::DimOutOfRange { dim: a }).text(),
            seq![a as nat],
            (FormatError::DimOutOfRange { dim: e }).text(),
            seq![e as nat],
        ),
        worded_alike(
            (FormatError::SignDimOutOfRange { dim: a }).text(),
            seq![a as nat],
            (FormatError::SignDimOutOfRange { dim: e }).text(),
            seq![e as nat],
        ),
        worded_alike(
            (FormatError::DimNotWholeWords { format, dim: a }).text(),
            seq![a as nat],
            (FormatError::DimNotWholeWords { format, dim: e }).text(),
            seq![e as nat],
        ),
        worded_alike(
            (FormatError::DimNotComposable { dim: a, n_buckets: b }).text(),
            seq![a as nat, b as nat],
            (FormatError::DimNotComposable { dim: e, n_buckets: f }).text(),
            seq![e as nat, f as nat],
        ),
        worded_alike(
            (FormatError::DimNotPackable { dim: a, codes_per_byte: b }).text(),
            seq![a as nat, b as nat],
            (FormatError::DimNotPackable { dim: e, codes_per_byte: f }).text(),
            seq![e as nat, f as nat],
        ),
        worded_alike(
            (FormatError::DimNotPaired { dim: a }).text(),
            seq![a as nat],
            (FormatError::DimNotPaired { dim: e }).text(),
            seq![e as nat],
        ),
        worded_alike(
            (FormatError::TopOutOfRange { n_top: a, dim: b }).text(),
            seq![a as nat, b as nat],
            (FormatError::TopOutOfRange { n_top: e, dim: f }).text(),
            seq![e as nat, f as nat],
        ),
        worded_alike(
            (FormatError::TooManyVectors { n_vectors: a }).text(),
            seq![a as nat],
            (FormatError::TooManyVectors { n_vectors: e }).text(),
            seq![e as nat],
        ),
{
    reveal_with_fuel(filled, 4);
    lemma_worded_alike(
        (FormatError::UnsupportedVersion { format, version: s }).text(),
        seq![s as nat],
        (FormatError::UnsupportedVersion { format, version: t }).text(),
        seq![t as nat],
        seq!["unsupported "@ + magic_text(format) + " version: "@, Seq::empty()],
    );
    lemma_worded_alike(
        (FormatError::UnsupportedBits { bits: s }).text(),
        seq![s as nat],
        (FormatError::UnsupportedBits { bits: t }).text(),
        seq![t as nat],
        seq!["unsupported OVRQ bits: "@, " (expected 1, 2, or 4)"@],
    );
    lemma_worded_alike(
        (FormatError::DimOutOfRange { dim: a }).text(),
        seq![a as nat],
        (FormatError::DimOutOfRange { dim: e }).text(),
        seq![e as nat],
        seq!["dim "@, " out of range [2, "@ + decimal(MAX_DIM as nat) + "]"@],
    );
    lemma_worded_alike(
        (FormatError::SignDimOutOfRange { dim: a }).text(),
        seq![a as nat],
        (FormatError::SignDimOutOfRange { dim: e }).text(),
        seq![e as nat],
        seq!["OVSB dim "@, " out of range [64, "@ + decimal(MAX_SIGN_BITMAP_DIM as nat) + "]"@],
    );
    lemma_worded_alike(
        (FormatError::DimNotWholeWords { format, dim: a }).text(),
        seq![a as nat],
        (FormatError::DimNotWholeWords { format, dim: e }).text(),
        seq![e as nat],
        seq![magic_text(format) + " dim "@, " is not a multiple of 64"@],
    );
    lemma_worded_alike(
        (FormatError::DimNotComposable { dim: a, n_buckets: b }).text(),
        seq![a as nat, b as nat],
        (FormatError::DimNotComposable { dim: e, n_buckets: f }).text(),
        seq![e as nat, f as nat],
        seq![
            "OVRQ dim "@,
            " is not a multiple of 2^bits = "@,
            "; constant-composition invariant violated"@,
        ],
    );
    lemma_worded_alike(
        (FormatError::DimNotPackable { dim: a, codes_per_byte: b }).text(),
        seq![a as nat, b as nat],
        (FormatError::DimNotPackable { dim: e, codes_per_byte: f }).text(),
        seq![e as nat, f as nat],
        seq!["OVRQ dim "@, " is not a multiple of codes_per_byte = "@, Seq::empty()],
    );
    lemma_worded_alike(
        (FormatError::DimNotPaired { dim: a }).text(),
        seq![a as nat],
        (FormatError::DimNotPaired { dim: e }).text(),
        seq![e as nat],
        seq!["OVFS dim "@, " is not a multiple of 4 (b=2 constant composition)"@],
    );
    lemma_worded_alike(
        (FormatError::TopOutOfRange { n_top: a, dim: b }).text(),
        seq![a as nat, b as nat],
        (FormatError::TopOutOfRange { n_top: e, dim: f }).text(),
        seq![e as nat, f as nat],
        seq!["OVBM n_top "@, " must satisfy 0 < n_top < dim ("@, ")"@],
    );
    lemma_worded_alike(
        (FormatError::TooManyVectors { n_vectors: a }).text(),
        seq![a as nat],
        (FormatError::TooManyVectors { n_vectors: e }).text(),
        seq![e as nat],
        seq!["n_vectors "@, " exceeds MAX_VECTORS="@ + decimal(MAX_VECTORS as nat)],
    );
}

/// A payload error says the same words whatever its numbers are: the bytes that the
/// header declares before the bytes that remain.
pub proof fn law_payload_texts(
    format: PersistedFormat,
    a: usize,
    e: usize,
    m: u64,
    n: u64,
    v: u64,
    w: u64,
)
    ensures
        worded_alike(
            (FormatError::PayloadTooLarge { payload: a }).text(),
            seq![a as nat],
            (FormatError::PayloadTooLarge { payload: e }).text(),
            seq![e as nat],
        ),
        worded_alike(
            (FormatError::PayloadTruncated { format, declared: m, remaining: n }).text(),
            seq![m as nat, n as nat],
            (FormatError::PayloadTruncated { format, declared: v, remaining: w }).text(),
            seq![v as nat, w as nat],
        ),
        worded_alike(
            (FormatError::PayloadTrailing { format, declared: m, remaining: n }).text(),
            seq![m as nat, n as nat],
            (FormatError::PayloadTrailing { format, declared: v, remaining: w }).text(),
            seq![v as nat, w as nat],
        ),
{
    reveal_with_fuel(filled, 6);
    lemma_worded_alike(
        (FormatError::PayloadTooLarge { payload: a }).text(),
        seq![a as nat],
        (FormatError::PayloadTooLarge { payload: e }).text(),
        seq![e as nat],
        seq!["payload "@, " B exceeds MAX_PAYLOAD="@ + decimal(MAX_PAYLOAD as nat)],
    );
    lemma_worded_alike(
        (FormatError::PayloadTruncated { format, declared: m, remaining: n }).text(),
        seq![m as nat, n as nat],
        (FormatError::PayloadTruncated { format, declared: v, remaining: w }).text(),
        seq![v as nat, w as nat],
        seq![
            magic_text(format) + " payload truncated: header declares "@,
            " B but file has "@,
            " B remaining"@,
        ],
    );
    lemma_worded_alike(
        (FormatError::PayloadTrailing { format, declared: m, remaining: n }).text(),
        seq![m as nat, n as nat],
        (FormatError::PayloadTrailing { format, declared: v, remaining: w }).text(),
        seq![v as nat, w as nat],
        seq![
            magic_text(format) + " payload has trailing bytes: header declares "@,
            " B but file has "@,
            " B remaining"@,
        ],
    );
}

/// An error of a stored row says the same words whatever its numbers are: the row
/// before what is wrong in it, and what was expected last.
pub proof fn law_row_texts(
    p: u16,
    q: u16,
    a: usize,
    b: usize,
    c: usize,
    d: usize,
    e: usize,
    f: usize,
    g: usize,
    h: usize,
    i: u32,
    j: u32,
)
    ensures
        worded_alike(
            (FormatError::RankTooLarge { rank: p, dim: a }).text(),
            seq![p as nat, a as nat],
            (FormatError::RankTooLarge { rank: q, dim: e }).text(),
            seq![q as nat, e as nat],
        ),
        worded_alike(
            (FormatError::RankRepeats { row: a, rank: p }).text(),
            seq![a as nat, p as nat],
            (FormatError::RankRepeats { row: e, rank: q }).text(),
            seq![e as nat, q as nat],
        ),
        worded_alike(
            (FormatError::UnevenRow { row: a, bucket: b, count: c, expected: d }).text(),
            seq![a as nat, b as nat, c as nat, d as nat],
            (FormatError::UnevenRow { row: e, bucket: f, count: g, expected: h }).text(),
            seq![e as nat, f as nat, g as nat, h as nat],
        ),
        worded_alike(
            (FormatError::WrongPopcount { row: a, popcount: i, n_top: b }).text(),
            seq![a as nat, i as nat, b as nat],
            (FormatError::WrongPopcount { row: e, popcount: j, n_top: f }).text(),
            seq![e as nat, j as nat, f as nat],
        ),
{
    reveal_with_fuel(filled, 6);
    lemma_worded_alike(
        (FormatError::RankTooLarge { rank: p, dim: a }).text(),
        seq![p as nat, a as nat],
        (FormatError::RankTooLarge { rank: q, dim: e }).text(),
        seq![q as nat, e as nat],
        seq!["OVR1 rank value "@, " >= dim ("@, "); ranks must be a permutation of [0, dim)"@],
    );
    lemma_worded_alike(
        (FormatError::RankRepeats { row: a, rank: p }).text(),
        seq![a as nat, p as nat],
        (FormatError::RankRepeats { row: e, rank: q }).text(),
        seq![e as nat, q as nat],
        seq!["OVR1 row "@, " is not a permutation of [0, dim): value "@, " repeats"@],
    );
    lemma_worded_alike(
        (FormatError::UnevenRow { row: a, bucket: b, count: c, expected: d }).text(),
        seq![a as nat, b as nat, c as nat, d as nat],
        (FormatError::UnevenRow { row: e, bucket: f, count: g, expected: h }).text(),
        seq![e as nat, f as nat, g as nat, h as nat],
        seq![
            "OVRQ row "@,
            " violates constant composition: bucket "@,
            " has "@,
            " codes, expected "@,
            " (= dim / 2^bits)"@,
        ],
    );
    lemma_worded_alike(
        (FormatError::WrongPopcount { row: a, popcount: i, n_top: b }).text(),
        seq![a as nat, i as nat, b as nat],
        (FormatError::WrongPopcount { row: e, popcount: j, n_top: f }).text(),
        seq![e as nat, j as nat, f as nat],
        seq!["OVBM row "@, " has "@, " bits set, expected n_top = "@, Seq::empty()],
    );
}

/// An error of a stored byte says the same words wherever the byte lies: the block,
/// the pair and the lane, in this order.
pub proof fn law_block_texts(
    byte: u8,
    a: usize,
    b: usize,
    c: usize,
    d: usize,
    e: usize,
    f: usize,
    g: usize,
    h: usize,
)
    ensures
        worded_alike(
            (FormatError::InvalidNibble { byte, block: a, pair: b, lane: c, doc: d }).text(),
            seq![a as nat, b as nat, c as nat, d as nat],
            (FormatError::InvalidNibble { byte, block: e, pair: f, lane: g, doc: h }).text(),
            seq![e as nat, f as nat, g as nat, h as nat],
        ),
        worded_alike(
            (FormatError::PaddingNotZero { byte, block: a, pair: b, lane: c }).text(),
            seq![a as nat, b as nat, c as nat],
            (FormatError::PaddingNotZero { byte, block: e, pair: f, lane: g }).text(),
            seq![e as nat, f as nat, g as nat],
        ),
{
    reveal_with_fuel(filled, 6);
    lemma_worded_alike(
        (FormatError::InvalidNibble { byte, block: a, pair: b, lane: c, doc: d }).text(),
        seq![a as nat, b as nat, c as nat, d as nat],
        (FormatError::InvalidNibble { byte, block: e, pair: f, lane: g, doc: h }).text(),
        seq![e as nat, f as nat, g as nat, h as nat],
        seq![
            "OVFS payload byte at block "@,
            ", pair "@,
            ", lane "@,
            " (document "@,
            ") has invalid FastScan nibble 0x"@ + hex_byte(byte),
        ],
    );
    lemma_worded_alike(
        (FormatError::PaddingNotZero { byte, block: a, pair: b, lane: c }).text(),
        seq![a as nat, b as nat, c as nat],
        (FormatError::PaddingNotZero { byte, block: e, pair: f, lane: g }).text(),
        seq![e as nat, f as nat, g as nat],
        seq![
            "OVFS tail padding byte at block "@,
            ", pair "@,
            ", lane "@,
            " must be zero, got 0x"@ + hex_byte(byte),
        ],
    );
}

/// An uneven document is named first, then its four counts in order, then the
/// count that was expected of each.
pub proof fn law_uneven_document_text(
    doc: usize,
    counts: [usize; 4],
    expected: usize,
    other: usize,
    others: [usize; 4],
    wanted: usize,
)
    ensures
        worded_alike(
            (FormatError::UnevenDocument { doc, counts, expected }).text(),
            seq![
                doc as nat,
                counts[0] as nat,
                counts[1] as nat,
                counts[2] as nat,
                counts[3] as nat,
                expected as nat,
            ],
            (FormatError::UnevenDocument { doc: other, counts: others, expected: wanted }).text(),
            seq![
                other as nat,
                others[0] as nat,
                others[1] as nat,
                others[2] as nat,
                others[3] as nat,
                wanted as nat,
            ],
        ),
{
    reveal_with_fuel(filled, 8);
    lemma_worded_alike(
        (FormatError::UnevenDocument { doc, counts, expected }).text(),
        seq![
            doc as nat,
            counts[0] as nat,
            counts[1] as nat,
            counts[2] as nat,
            counts[3] as nat,
            expected as nat,
        ],
        (FormatError::UnevenDocument { doc: other, counts: others, expected: wanted }).text(),
        seq![
            other as nat,
            others[0] as nat,
            others[1] as nat,
            others[2] as nat,
            others[3] as nat,
            wanted as nat,
        ],
        seq![
            "OVFS document "@,
            " violates b=2 constant composition: counts=["@,
            ", "@,
            ", "@,
            ", "@,
            "], expected "@,
            " per bucket"@,
        ],
    );
}

/// A mismatch of result buffers names the buffer, the length that it has and then
/// the length that was expected.
pub proof fn law_mismatch_text(what: Seq<char>, len: nat, expected: nat, other: nat, wanted: nat)
    ensures
        worded_alike(
            mismatch_text(what, len, expected),
            seq![len, expected],
            mismatch_text(what, other, wanted),
            seq![other, wanted],
        ),
{
    reveal_with_fuel(filled, 4);
    lemma_worded_alike(
        mismatch_text(what, len, expected),
        seq![len, expected],
        mismatch_text(what, other, wanted),
        seq![other, wanted],
        seq![
            "SearchResults "@ + what + " length "@,
            " does not match nq * k "@,
            Seq::empty(),
        ],
    );
}

/// The text of a bad byte ends in its two hexadecimal digits.
pub proof fn law_bytes_are_named(block: usize, pair: usize, lane: usize, doc: usize, byte: u8)
    ensures
        ends_in(
            (FormatError::InvalidNibble { block, pair, lane, doc, byte }).text(),
            hex_byte(byte),
        ),
        ends_in((FormatError::PaddingNotZero { block, pair, lane, byte }).text(), hex_byte(byte)),
{
    let t = (FormatError::InvalidNibble { block, pair, lane, doc, byte }).text();
    let u = (FormatError::PaddingNotZero { block, pair, lane, byte }).text();
    assert(t.skip(t.len() - hex_byte(byte).len()) =~= hex_byte(byte));
    assert(u.skip(u.len() - hex_byte(byte).len()) =~= hex_byte(byte));
}

/// A text ends in another.
pub open spec fn ends_in(t: Seq<char>, end: Seq<char>) -> bool {
    end.len() <= t.len() && t.skip(t.len() - end.len()) == end
}

/// A text starts with another.
pub open spec fn begins_with(t: Seq<char>, start: Seq<char>) -> bool {
    start.len() <= t.len() && t.take(start.len() as int) == start
}

/// A truncated header names its subject first and the missing field last; a wrong
/// parameter names the parameter and ends in its message; an error of an argument
/// starts with its name.
pub proof fn law_subjects_are_named(
    source: Option<PersistedFormat>,
    field: HeaderField,
    format: PersistedFormat,
    name: &'static str,
    message: String,
    len: usize,
    dim: usize,
)
    ensures
        begins_with((FormatError::HeaderTruncated { source, field }).text(), source_text(source)),
        ends_in((FormatError::HeaderTruncated { source, field }).text(), field.text()),
        source matches Some(f) ==> source_text(source) == magic_text(f),
        begins_with((FormatError::PayloadOverflow { format }).text(), magic_text(format)),
        begins_with((OrdvecError::InvalidLength { name, len, dim }).text(), name@),
        begins_with((OrdvecError::InvalidVectorLength { name, len, expected: dim }).text(), name@),
        ends_in((OrdvecError::InvalidParameter { name, message }).text(), message@),
        (OrdvecError::InvalidParameter { name, message }).text().skip(8).take(name@.len() as int)
            == name@,
{
    let h = (FormatError::HeaderTruncated { source, field }).text();
    assert(h.take(source_text(source).len() as int) =~= source_text(source));
    assert(h.skip(h.len() - field.text().len()) =~= field.text());
    let o = (FormatError::PayloadOverflow { format }).text();
    assert(o.take(magic_text(format).len() as int) =~= magic_text(format));
    let a = (OrdvecError::InvalidLength { name, len, dim }).text();
    assert(a.take(name@.len() as int) =~= name@);
    let b = (OrdvecError::InvalidVectorLength { name, len, expected: dim }).text();
    assert(b.take(name@.len() as int) =~= name@);
    let p = (OrdvecError::InvalidParameter { name, message }).text();
    assert(p.skip(p.len() - message@.len()) =~= message@);
    reveal_strlit("invalid ");
    assert(p.skip(8).take(name@.len() as int) =~= name@);
}

} // verus!
