//! Contingency tables, their projections, and compositions of codes.

use vstd::arithmetic::div_mod::{lemma_fundamental_div_mod, lemma_fundamental_div_mod_converse};
use vstd::prelude::*;

use crate::bucket_code::{
    composition_error, not_finite, rank_quant_error, rank_rejected, ranks_error, vector_error,
    CompositionSpec, CompositionViolation,
};
use crate::contingency::{
    bad_code, band_weight, block_weight, cells_of, centred_weight, coordinate_weight,
    diagonal_weight, distance_weight, first_bad_code, group_weight, is_table_of,
    lemma_projection_is_coordinate_sum, lemma_table_mass, matrix_of, pair_count, pair_fn, projected,
    unit_weight, weighted_cells, Projection,
};
use crate::counting::{
    column_of, count_where, first_where, lemma_count_ext, lemma_count_is_sum,
    lemma_first_where_holds, lemma_sum_ext, lemma_table_add, lemma_table_single, lemma_table_zero,
    row_of, sum_to,
};
use crate::float_bits::F32Bits;
use crate::rank::{bucket_count, lemma_levels};

verus! {

proof fn lemma_cells_differ(a: int, b: int, x: int, y: int, nb: int)
    requires
        0 <= a < nb,
        0 <= b < nb,
        0 <= x < nb,
        0 <= y < nb,
    ensures
        0 <= a * nb + b < nb * nb,
        a * nb + b == x * nb + y <==> a == x && b == y,
{
    lemma_fundamental_div_mod_converse(a * nb + b, nb, a, b);
    lemma_fundamental_div_mod_converse(x * nb + y, nb, x, y);
    assert(0 <= a * nb + b < nb * nb) by (nonlinear_arith)
        requires
            0 <= a < nb,
            0 <= b < nb,
    ;
}

/// A projection follows the cells: changing one cell changes it by the weight
/// of the cell for every unit, and the empty table projects to zero.
pub proof fn law_projection_follows_cells(
    counts: Seq<u32>,
    nb: int,
    w: spec_fn(int, int) -> int,
    a: int,
    b: int,
    x: u32,
)
    requires
        counts.len() == nb * nb,
        0 <= a < nb,
        0 <= b < nb,
    ensures
        projected(counts.update(a * nb + b, x), nb, w) == projected(counts, nb, w) + w(a, b) * (x
            - counts[a * nb + b]),
        projected(Seq::new((nb * nb) as nat, |i: int| 0u32), nb, w) == 0,
{
    let f = weighted_cells(counts, nb, w);
    let g = weighted_cells(counts.update(a * nb + b, x), nb, w);
    let d = w(a, b) * (x - counts[a * nb + b]);
    let h = |s: int, t: int|
        if s == a && t == b {
            d
        } else {
            0
        };
    assert forall|s: int, t: int| 0 <= s < nb && 0 <= t < nb implies #[trigger] g(s, t) == f(s, t)
        + h(s, t) by {
        lemma_cells_differ(a, b, s, t, nb);
        lemma_cells_differ(s, t, a, b, nb);
        let c = counts[a * nb + b] as int;
        let u = w(a, b);
        let y = x as int;
        assert(u * y == u * c + u * (y - c)) by (nonlinear_arith);
        if s == a && t == b {
            assert(g(s, t) == u * y);
            assert(f(s, t) == u * c);
        } else {
            assert(counts.update(a * nb + b, x)[s * nb + t] == counts[s * nb + t]);
        }
    }
    lemma_table_add(nb, nb, f, h, g);
    lemma_table_single(nb, nb, h, a, b);
    let none = Seq::new((nb * nb) as nat, |i: int| 0u32);
    let z = weighted_cells(none, nb, w);
    assert forall|s: int, t: int| 0 <= s < nb && 0 <= t < nb implies #[trigger] z(s, t) == 0 by {
        lemma_cells_differ(s, t, s, t, nb);
        assert(none[s * nb + t] == 0);
        assert(w(s, t) * 0 == 0);
    }
    lemma_table_zero(nb, nb, z);
}

/// The weights of the named projections, cell by cell, in quarters.
pub proof fn law_projection_weights(p: Projection, nb: int, a: int, b: int)
    requires
        0 <= a < nb,
        0 <= b < nb,
    ensures
        match p {
            Projection::TopOverlap => p.quarter_weights(nb)(a, b) == if a + 1 == nb && b + 1 == nb {
                4int
            } else {
                0int
            },
            Projection::TopGroupOverlap { width } => p.quarter_weights(nb)(a, b) == if nb - a
                <= width && nb - b <= width {
                4int
            } else {
                0int
            },
            Projection::DiagonalAgreement => p.quarter_weights(nb)(a, b) == if a == b {
                4int
            } else {
                0int
            },
            Projection::BandAgreement { radius } => p.quarter_weights(nb)(a, b) == if -radius <= a
                - b <= radius {
                4int
            } else {
                0int
            },
            Projection::BucketL1Distance => p.quarter_weights(nb)(a, b) == if a < b {
                4 * (b - a)
            } else {
                4 * (a - b)
            },
            Projection::RankQuantSymmetric => p.quarter_weights(nb)(a, b) == (2 * a + 1 - nb) * (2
                * b + 1 - nb),
        },
{
}

/// The weights behind the projections, cell by cell.
pub proof fn law_cell_weights(nb: int, a: int, b: int, r: int, w: Seq<i64>)
    ensures
        unit_weight()(a, b) == 1,
        diagonal_weight()(a, b) == if a == b {
            1int
        } else {
            0int
        },
        band_weight(r)(a, b) == if -r <= a - b <= r {
            1int
        } else {
            0int
        },
        distance_weight()(a, b) >= a - b,
        distance_weight()(a, b) >= b - a,
        distance_weight()(a, b) == a - b || distance_weight()(a, b) == b - a,
        centred_weight(nb)(a, b) == (2 * a + 1 - nb) * (2 * b + 1 - nb),
        block_weight(nb - r, nb, nb - r, nb)(a, b) == if nb - r <= a < nb && nb - r <= b < nb {
            1int
        } else {
            0int
        },
        matrix_of(w, nb)(a, b) == w[a * nb + b],
{
}

/// A table of two codes counts coordinates: in cell `(a, b)` those with bucket
/// `a` in the query and `b` in the document.
pub proof fn law_cells_count_coordinates(
    counts: Seq<u32>,
    query: Seq<u8>,
    doc: Seq<u8>,
    nb: int,
    a: int,
    b: int,
)
    requires
        is_table_of(counts, query, doc, nb),
        0 <= a < nb,
        0 <= b < nb,
    ensures
        counts.len() == nb * nb,
        query.len() == doc.len(),
        counts[a * nb + b] == count_where(
            query.len() as int,
            |j: int| query[j] == a && doc[j] == b,
        ),
{
    let p = |j: int| query[j] == a && doc[j] == b;
    assert(counts[a * nb + b] == pair_count(query, doc, query.len() as int, a, b));
    lemma_count_ext(query.len() as int, pair_fn(query, doc, a, b), p);
}

proof fn lemma_indicator(
    counts: Seq<u32>,
    query: Seq<u8>,
    doc: Seq<u8>,
    nb: int,
    w: spec_fn(int, int) -> int,
    p: spec_fn(int) -> bool,
)
    requires
        is_table_of(counts, query, doc, nb),
        forall|j: int|
            0 <= j < query.len() ==> w(query[j] as int, doc[j] as int) == if #[trigger] p(j) {
                1int
            } else {
                0int
            },
    ensures
        projected(counts, nb, w) == count_where(query.len() as int, p),
{
    let f = coordinate_weight(query, doc, w);
    lemma_projection_is_coordinate_sum(counts, query, doc, nb, w);
    assert forall|j: int| 0 <= j < query.len() implies #[trigger] f(j) == if p(j) {
        1int
    } else {
        0int
    } by {
        assert(p(j) || !p(j));
    }
    lemma_count_is_sum(query.len() as int, p, f);
}

/// The agreements of two codes count the coordinates whose buckets are equal,
/// are at most `radius` apart, or both lie in the top `width`; and the table
/// holds every coordinate once.
pub proof fn law_agreements_count_coordinates(
    counts: Seq<u32>,
    query: Seq<u8>,
    doc: Seq<u8>,
    nb: int,
    radius: int,
    width: int,
)
    requires
        is_table_of(counts, query, doc, nb),
        0 <= radius,
    ensures
        projected(counts, nb, unit_weight()) == query.len(),
        projected(counts, nb, diagonal_weight()) == count_where(
            query.len() as int,
            |j: int| query[j] == doc[j],
        ),
        projected(counts, nb, band_weight(radius)) == count_where(
            query.len() as int,
            |j: int| -radius <= query[j] - doc[j] <= radius,
        ),
        projected(counts, nb, block_weight(nb - width, nb, nb - width, nb)) == count_where(
            query.len() as int,
            |j: int| query[j] + width >= nb && doc[j] + width >= nb,
        ),
{
    lemma_table_mass(counts, query, doc, nb);
    lemma_indicator(counts, query, doc, nb, diagonal_weight(), |j: int| query[j] == doc[j]);
    lemma_indicator(
        counts,
        query,
        doc,
        nb,
        band_weight(radius),
        |j: int| -radius <= query[j] - doc[j] <= radius,
    );
    lemma_indicator(
        counts,
        query,
        doc,
        nb,
        block_weight(nb - width, nb, nb - width, nb),
        |j: int| query[j] + width >= nb && doc[j] + width >= nb,
    );
}

/// The distance of two codes sums the distances of their buckets over the
/// coordinates, and their symmetric score the products of the doubled distances
/// from the middle bucket.
pub proof fn law_scores_sum_coordinates(counts: Seq<u32>, query: Seq<u8>, doc: Seq<u8>, nb: int)
    requires
        is_table_of(counts, query, doc, nb),
    ensures
        projected(counts, nb, distance_weight()) == sum_to(
            query.len() as int,
            |j: int|
                if query[j] < doc[j] {
                    doc[j] - query[j]
                } else {
                    query[j] - doc[j]
                },
        ),
        projected(counts, nb, centred_weight(nb)) == sum_to(
            query.len() as int,
            |j: int| (2 * query[j] + 1 - nb) * (2 * doc[j] + 1 - nb),
        ),
{
    let n = query.len() as int;
    let f = |j: int|
        if query[j] < doc[j] {
            doc[j] - query[j]
        } else {
            query[j] - doc[j]
        };
    let g = |j: int| (2 * query[j] + 1 - nb) * (2 * doc[j] + 1 - nb);
    lemma_projection_is_coordinate_sum(counts, query, doc, nb, distance_weight());
    lemma_projection_is_coordinate_sum(counts, query, doc, nb, centred_weight(nb));
    lemma_sum_ext(n, coordinate_weight(query, doc, distance_weight()), f);
    let c = coordinate_weight(query, doc, centred_weight(nb));
    assert forall|j: int| 0 <= j < n implies #[trigger] c(j) == g(j) by {
        let x = 2 * query[j] - (nb - 1);
        let y = 2 * doc[j] - (nb - 1);
        assert(x == 2 * query[j] + 1 - nb && y == 2 * doc[j] + 1 - nb);
    }
    lemma_sum_ext(n, c, g);
}

/// Merging the buckets of a table into `groups` groups counts the coordinates
/// by the groups of their buckets.
pub proof fn law_coarsening_counts_groups(
    counts: Seq<u32>,
    query: Seq<u8>,
    doc: Seq<u8>,
    nb: int,
    groups: int,
    g: int,
    h: int,
)
    requires
        is_table_of(counts, query, doc, nb),
        0 < groups <= nb,
        nb % groups == 0,
        0 <= g < groups,
        0 <= h < groups,
    ensures
        projected(counts, nb, group_weight(nb, groups, g, h)) == count_where(
            query.len() as int,
            |j: int| query[j] as int / (nb / groups) == g && doc[j] as int / (nb / groups) == h,
        ),
{
    let width = nb / groups;
    lemma_fundamental_div_mod(nb, groups);
    assert(0 < width) by (nonlinear_arith)
        requires
            nb == groups * width,
            0 < nb,
            0 < groups,
    ;
    let w = group_weight(nb, groups, g, h);
    let p = |j: int| query[j] as int / (nb / groups) == g && doc[j] as int / (nb / groups) == h;
    assert forall|j: int| 0 <= j < query.len() implies w(query[j] as int, doc[j] as int)
        == if #[trigger] p(j) {
        1int
    } else {
        0int
    } by {
        lemma_in_group(query[j] as int, width, g);
        lemma_in_group(doc[j] as int, width, h);
    }
    lemma_indicator(counts, query, doc, nb, w, p);
}

proof fn lemma_in_group(a: int, width: int, g: int)
    requires
        0 <= a,
        0 < width,
    ensures
        a / width == g <==> g * width <= a < g * width + width,
{
    lemma_fundamental_div_mod(a, width);
    let c = a / width;
    assert(c == g <==> g * width <= a < g * width + width) by (nonlinear_arith)
        requires
            a == width * c + a % width,
            0 <= a % width < width,
            0 < width,
    ;
}

/// The margins of any table sum its rows and columns.
pub proof fn law_margins_sum_cells(counts: Seq<u32>, nb: int, a: int)
    ensures
        sum_to(nb, row_of(cells_of(counts, nb), a)) == sum_to(
            nb,
            |b: int| counts[a * nb + b] as int,
        ),
        sum_to(nb, column_of(cells_of(counts, nb), a)) == sum_to(
            nb,
            |b: int| counts[b * nb + a] as int,
        ),
{
    lemma_sum_ext(nb, row_of(cells_of(counts, nb), a), |b: int| counts[a * nb + b] as int);
    lemma_sum_ext(nb, column_of(cells_of(counts, nb), a), |b: int| counts[b * nb + a] as int);
}

/// The code that a table is refused for is the first of the query that is no
/// bucket, or else the first of the document; there is none exactly when all
/// are buckets.
pub proof fn law_first_bad_code(query: Seq<u8>, doc: Seq<u8>, nb: int, i: int)
    ensures
        first_bad_code(query, doc, nb) is None <==> (forall|j: int|
            0 <= j < query.len() ==> #[trigger] query[j] < nb) && (forall|j: int|
            0 <= j < doc.len() ==> #[trigger] doc[j] < nb),
        first_bad_code(query, doc, nb) matches Some(c) ==> c >= nb,
        0 <= i < query.len() && query[i] >= nb && (forall|j: int|
            0 <= j < i ==> #[trigger] query[j] < nb) ==> first_bad_code(query, doc, nb) == Some(
            query[i],
        ),
        0 <= i < doc.len() && doc[i] >= nb && (forall|j: int|
            0 <= j < query.len() ==> #[trigger] query[j] < nb) && (forall|j: int|
            0 <= j < i ==> #[trigger] doc[j] < nb) ==> first_bad_code(query, doc, nb) == Some(
            doc[i],
        ),
{
    let p = bad_code(query, nb);
    let q = bad_code(doc, nb);
    lemma_first_where_holds(query.len() as int, p);
    lemma_first_where_holds(doc.len() as int, q);
    let a = first_where(query.len() as int, p);
    let b = first_where(doc.len() as int, q);
    if a >= query.len() {
        assert forall|j: int| 0 <= j < query.len() implies #[trigger] query[j] < nb by {
            assert(!p(j));
        }
    } else {
        assert(p(a));
        if 0 <= i < query.len() && query[i] >= nb && (forall|j: int|
            0 <= j < i ==> #[trigger] query[j] < nb) {
            assert(p(i));
            if a < i {
                assert(query[a] < nb);
            }
            if i < a {
                assert(!p(i));
            }
        }
    }
    if b >= doc.len() {
        assert forall|j: int| 0 <= j < doc.len() implies #[trigger] doc[j] < nb by {
            assert(!q(j));
        }
    } else {
        assert(q(b));
        if 0 <= i < doc.len() && doc[i] >= nb && (forall|j: int|
            0 <= j < i ==> #[trigger] doc[j] < nb) {
            assert(q(i));
            if b < i {
                assert(doc[b] < nb);
            }
            if i < b {
                assert(!q(i));
            }
        }
    }
}

/// A composition is refused exactly when it has no coordinates, fewer than two
/// or more than 256 buckets, or buckets that do not divide the coordinates; a
/// bucketed-rank composition needs a width of one, two or four bits and at most
/// 65535 coordinates besides.
pub proof fn law_compositions(dim: usize, buckets: usize, bits: u8)
    ensures
        composition_error(dim, buckets) is None <==> dim > 0 && 2 <= buckets <= 256 && dim % buckets
            == 0,
        dim > 0 && 2 <= buckets <= 256 && dim % buckets != 0 ==> composition_error(dim, buckets)
            == Some(CompositionViolation::NonUniformSpec { dim, buckets }),
        rank_quant_error(dim, bits) is None <==> 0 < dim <= 65535 && ((bits == 1 && dim % 2 == 0)
            || (bits == 2 && dim % 4 == 0) || (bits == 4 && dim % 16 == 0)),
        bits != 1 && bits != 2 && bits != 4 ==> rank_quant_error(dim, bits) == Some(
            CompositionViolation::InvalidBits { bits },
        ),
{
    if bits <= 8 {
        lemma_levels(bits);
    }
}

/// A code is admitted exactly when it has the right length, only buckets, and
/// the same number of coordinates in every bucket.
pub proof fn law_admitted_codes(spec: CompositionSpec, codes: Seq<u8>)
    requires
        spec.wf(),
    ensures
        spec.code_error(codes) is None <==> codes.len() == spec.dimension() && (forall|i: int|
            0 <= i < codes.len() ==> #[trigger] codes[i] < spec.bucket_total()) && (forall|b: int|
            0 <= b < spec.bucket_total() ==> #[trigger] bucket_count(codes, b)
                == spec.occupancy()),
        spec.occupancy() * spec.bucket_total() == spec.dimension(),
        codes.len() <= usize::MAX && codes.len() != spec.dimension() ==> spec.code_error(codes)
            == Some(
            CompositionViolation::WrongLength {
                expected: spec.dimension(),
                actual: codes.len() as usize,
            },
        ),
{
    spec.lemma_code_error_admits(codes);
    lemma_fundamental_div_mod(spec.dimension() as int, spec.bucket_total() as int);
    let (a, b) = (spec.occupancy() as int, spec.bucket_total() as int);
    assert(a * b == b * a) by (nonlinear_arith);
}

/// Ranks are refused at the first coordinate whose value is no rank or was seen
/// before, and accepted exactly when they are a permutation.
pub proof fn law_refused_ranks(dim: usize, buckets: usize, ranks: Seq<usize>)
    requires
        composition_error(dim, buckets) is None,
        ranks.len() == dim,
    ensures
        ranks_error(dim, buckets, ranks) is None <==> (forall|i: int|
            0 <= i < ranks.len() ==> #[trigger] ranks[i] < dim) && ranks.no_duplicates(),
        ranks_error(dim, buckets, ranks) matches Some(
            CompositionViolation::RankOutOfRange { coordinate, rank, dim: d },
        ) ==> coordinate < dim && rank == ranks[coordinate as int] && rank >= dim && d == dim,
        ranks_error(dim, buckets, ranks) matches Some(CompositionViolation::DuplicateRank { rank })
            ==> exists|i: int, j: int|
            0 <= i < j < ranks.len() && #[trigger] ranks[i] == rank && #[trigger] ranks[j] == rank,
{
    let p = rank_rejected(ranks, dim as int);
    let bad = first_where(dim as int, p);
    lemma_first_where_holds(dim as int, p);
    if bad >= dim {
        assert forall|i: int| 0 <= i < ranks.len() implies #[trigger] ranks[i] < dim by {
            assert(!p(i));
        }
        assert forall|i: int, j: int|
            0 <= i < ranks.len() && 0 <= j < ranks.len() && i != j implies ranks[i] != ranks[j] by {
            assert(!p(i));
            assert(!p(j));
        }
    } else {
        assert(p(bad));
    }
}

/// A vector is refused for a value that is not finite at the first such
/// coordinate, and only then once its shape fits.
pub proof fn law_refused_vectors(dim: usize, bits: u8, v: Seq<F32Bits>, i: int)
    requires
        rank_quant_error(dim, bits) is None,
        v.len() == dim,
    ensures
        vector_error(dim, bits, v) is None <==> forall|j: int|
            0 <= j < v.len() ==> (#[trigger] v[j]).finite(),
        0 <= i < v.len() && !v[i].finite() && (forall|j: int|
            0 <= j < i ==> (#[trigger] v[j]).finite()) ==> vector_error(dim, bits, v) == Some(
            CompositionViolation::NonFiniteValue { coordinate: i as usize },
        ),
{
    let p = not_finite(v);
    let bad = first_where(dim as int, p);
    lemma_first_where_holds(dim as int, p);
    if bad >= dim {
        assert forall|j: int| 0 <= j < v.len() implies (#[trigger] v[j]).finite() by {
            assert(!p(j));
        }
    } else {
        assert(p(bad));
        if 0 <= i < v.len() && !v[i].finite() && (forall|j: int|
            0 <= j < i ==> (#[trigger] v[j]).finite()) {
            assert(p(i));
            if bad < i {
                assert(v[bad].finite());
            }
            if i < bad {
                assert(!p(i));
            }
        }
    }
}

} // verus!
