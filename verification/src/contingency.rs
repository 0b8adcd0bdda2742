//! Dense bucket-overlap contingency table of two equal-length bucket codes.

use vstd::arithmetic::div_mod::{lemma_fundamental_div_mod, lemma_fundamental_div_mod_converse};
use vstd::prelude::*;

use crate::const_weight_bitmap::{both_flags, group_overlap, overlap_of, range_flags};
use crate::counting::{
    column_of, count_where, first_where, lemma_count_bounds, lemma_count_eq_where, lemma_count_ext,
    lemma_count_is_sum, lemma_first_where, lemma_sum_const, lemma_sum_ext, lemma_sum_single,
    lemma_sum_window, lemma_sum_zero, lemma_table_add, lemma_table_ext, lemma_table_le,
    lemma_table_scale, lemma_table_single, lemma_table_zero, row_of, row_sums, sum_to, table_sum,
};
use crate::error::OrdvecError;
use crate::rank::{bucket_count, code_fn};
use crate::rows::lemma_row_inside;
use crate::text::{decimal, push_decimal, push_text};

verus! {

/// The coordinates with query bucket `a` and doc bucket `b`.
pub open spec fn pair_fn(query: Seq<u8>, doc: Seq<u8>, a: int, b: int) -> spec_fn(int) -> bool {
    |j: int| query[j] == a && doc[j] == b
}

/// How many of the first `n` coordinates have query bucket `a` and doc bucket
/// `b`.
pub open spec fn pair_count(query: Seq<u8>, doc: Seq<u8>, n: int, a: int, b: int) -> int {
    count_where(n, pair_fn(query, doc, a, b))
}

/// The cells of a row-major `nb` by `nb` table, each times its weight.
pub open spec fn weighted_cells(
    counts: Seq<u32>,
    nb: int,
    w: spec_fn(int, int) -> int,
) -> spec_fn(int, int) -> int {
    |a: int, b: int| w(a, b) * counts[a * nb + b]
}

/// A table projected under a weight matrix.
pub open spec fn projected(counts: Seq<u32>, nb: int, w: spec_fn(int, int) -> int) -> int {
    table_sum(nb, nb, weighted_cells(counts, nb, w))
}

/// Weight one in the rectangle of rows `a0..a1` and columns `b0..b1`.
pub open spec fn block_weight(a0: int, a1: int, b0: int, b1: int) -> spec_fn(int, int) -> int {
    |a: int, b: int|
        if a0 <= a < a1 && b0 <= b < b1 {
            1int
        } else {
            0int
        }
}

/// Weight one everywhere.
pub open spec fn unit_weight() -> spec_fn(int, int) -> int {
    |a: int, b: int| 1int
}

/// Weight one within `radius` of the diagonal.
pub open spec fn band_weight(radius: int) -> spec_fn(int, int) -> int {
    |a: int, b: int|
        if a - b <= radius && b - a <= radius {
            1int
        } else {
            0int
        }
}

/// Weight one on the diagonal.
pub open spec fn diagonal_weight() -> spec_fn(int, int) -> int {
    |a: int, b: int|
        if a == b {
            1int
        } else {
            0int
        }
}

/// The distance between the two buckets.
pub open spec fn distance_weight() -> spec_fn(int, int) -> int {
    |a: int, b: int|
        if a >= b {
            a - b
        } else {
            b - a
        }
}

/// The product of the doubled centred bucket indices: four times the weight of
/// the symmetric RankQuant score.
pub open spec fn centred_weight(nb: int) -> spec_fn(int, int) -> int {
    |a: int, b: int| (2 * a - (nb - 1)) * (2 * b - (nb - 1))
}

/// The cells of a row-major `nb` by `nb` table.
pub open spec fn cells_of(counts: Seq<u32>, nb: int) -> spec_fn(int, int) -> int {
    |a: int, b: int| counts[a * nb + b] as int
}

/// Weight one in block `(g, h)` of the partition into `groups` equal blocks a
/// side.
pub open spec fn group_weight(nb: int, groups: int, g: int, h: int) -> spec_fn(int, int) -> int {
    let width = nb / groups;
    block_weight(g * width, g * width + width, h * width, h * width + width)
}

/// The weight of each coordinate's bucket pair.
pub open spec fn coordinate_weight(
    query: Seq<u8>,
    doc: Seq<u8>,
    w: spec_fn(int, int) -> int,
) -> spec_fn(int) -> int {
    |j: int| w(query[j] as int, doc[j] as int)
}

/// `counts` is the contingency table of the two codes over `nb` buckets.
pub open spec fn is_table_of(counts: Seq<u32>, query: Seq<u8>, doc: Seq<u8>, nb: int) -> bool {
    &&& counts.len() == nb * nb
    &&& query.len() == doc.len()
    &&& forall|j: int| 0 <= j < query.len() ==> #[trigger] query[j] < nb
    &&& forall|j: int| 0 <= j < doc.len() ==> #[trigger] doc[j] < nb
    &&& forall|a: int, b: int|
        0 <= a < nb && 0 <= b < nb ==> #[trigger] counts[a * nb + b] == pair_count(
            query,
            doc,
            query.len() as int,
            a,
            b,
        )
}

/// The weighted pair counts of the first `n` coordinates.
spec fn weighted_pairs(
    query: Seq<u8>,
    doc: Seq<u8>,
    n: int,
    w: spec_fn(int, int) -> int,
) -> spec_fn(int, int) -> int {
    |a: int, b: int| w(a, b) * pair_count(query, doc, n, a, b)
}

proof fn lemma_pairs_sum(
    query: Seq<u8>,
    doc: Seq<u8>,
    nb: int,
    n: int,
    w: spec_fn(int, int) -> int,
)
    requires
        0 <= n <= query.len(),
        query.len() == doc.len(),
        forall|j: int| 0 <= j < query.len() ==> #[trigger] query[j] < nb,
        forall|j: int| 0 <= j < doc.len() ==> #[trigger] doc[j] < nb,
    ensures
        table_sum(nb, nb, weighted_pairs(query, doc, n, w)) == sum_to(
            n,
            coordinate_weight(query, doc, w),
        ),
    decreases n,
{
    let f = weighted_pairs(query, doc, n, w);
    if n == 0 {
        assert forall|a: int, b: int| 0 <= a < nb && 0 <= b < nb implies #[trigger] f(a, b)
            == 0 by {
            assert(w(a, b) * 0 == 0);
        }
        lemma_table_zero(nb, nb, f);
    } else {
        lemma_pairs_sum(query, doc, nb, n - 1, w);
        let g = weighted_pairs(query, doc, n - 1, w);
        let x = query[n - 1] as int;
        let y = doc[n - 1] as int;
        let h = |a: int, b: int|
            if a == x && b == y {
                w(a, b)
            } else {
                0
            };
        assert forall|a: int, b: int| 0 <= a < nb && 0 <= b < nb implies #[trigger] f(a, b) == g(
            a,
            b,
        ) + h(a, b) by {
            let k = pair_count(query, doc, n - 1, a, b);
            assert(w(a, b) * (k + 1) == w(a, b) * k + w(a, b)) by (nonlinear_arith);
            assert(pair_fn(query, doc, a, b)(n - 1) == (a == x && b == y));
        }
        lemma_table_add(nb, nb, g, h, f);
        lemma_table_single(nb, nb, h, x, y);
    }
}

/// Projecting the table of two codes under any weights is summing the weight
/// of the bucket pair over the coordinates: the table only rearranges that sum.
pub proof fn lemma_projection_is_coordinate_sum(
    counts: Seq<u32>,
    query: Seq<u8>,
    doc: Seq<u8>,
    nb: int,
    w: spec_fn(int, int) -> int,
)
    requires
        is_table_of(counts, query, doc, nb),
    ensures
        projected(counts, nb, w) == sum_to(
            query.len() as int,
            coordinate_weight(query, doc, w),
        ),
{
    let f = weighted_cells(counts, nb, w);
    let g = weighted_pairs(query, doc, query.len() as int, w);
    lemma_pairs_sum(query, doc, nb, query.len() as int, w);
    assert forall|a: int, b: int| 0 <= a < nb && 0 <= b < nb implies #[trigger] f(a, b) == g(
        a,
        b,
    ) by {
        assert(counts[a * nb + b] == pair_count(query, doc, query.len() as int, a, b));
    }
    lemma_table_ext(nb, nb, f, g);
}

/// The positions whose code is no bucket.
pub open spec fn bad_code(codes: Seq<u8>, nb: int) -> spec_fn(int) -> bool {
    |i: int| codes[i] >= nb
}

/// The first code that is no bucket, looking through the query and then the
/// doc.
pub open spec fn first_bad_code(query: Seq<u8>, doc: Seq<u8>, nb: int) -> Option<u8> {
    let i = first_where(query.len() as int, bad_code(query, nb));
    let j = first_where(doc.len() as int, bad_code(doc, nb));
    if i < query.len() {
        Some(query[i])
    } else if j < doc.len() {
        Some(doc[j])
    } else {
        None
    }
}

fn find_bad(codes: &[u8], nb: usize) -> (r: Option<u8>)
    ensures
        match r {
            Some(c) => {
                let i = first_where(codes.len() as int, bad_code(codes@, nb as int));
                i < codes.len() && c == codes[i]
            },
            None => {
                &&& first_where(codes.len() as int, bad_code(codes@, nb as int)) == codes.len()
                &&& forall|i: int| 0 <= i < codes.len() ==> #[trigger] codes[i] < nb
            },
        },
{
    let ghost bad = bad_code(codes@, nb as int);
    let mut i: usize = 0;
    while i < codes.len()
        invariant
            i <= codes.len(),
            bad == bad_code(codes@, nb as int),
            forall|j: int| 0 <= j < i ==> !(#[trigger] bad(j)),
        decreases codes.len() - i,
    {
        if codes[i] as usize >= nb {
            proof {
                lemma_first_where(codes.len() as int, bad, i as int);
            }
            return Some(codes[i]);
        }
        i = i + 1;
    }
    proof {
        lemma_first_where(codes.len() as int, bad, i as int);
        assert forall|j: int| 0 <= j < codes.len() implies #[trigger] codes[j] < nb by {
            assert(!bad(j));
        }
    }
    None
}

/// The first code, from either slice, that is no bucket.
fn find_out_of_range(query: &[u8], doc: &[u8], nb: usize) -> (r: Option<u8>)
    ensures
        r == first_bad_code(query@, doc@, nb as int),
        r is None ==> forall|i: int| 0 <= i < query.len() ==> #[trigger] query[i] < nb,
        r is None ==> forall|i: int| 0 <= i < doc.len() ==> #[trigger] doc[i] < nb,
{
    match find_bad(query, nb) {
        Some(c) => Some(c),
        None => find_bad(doc, nb),
    }
}

/// Tally the bucket pairs of two codes into a zeroed table.
fn build_histogram(query: &[u8], doc: &[u8], nb: usize) -> (counts: Vec<u32>)
    requires
        0 < nb <= 256,
        query.len() == doc.len(),
        query.len() <= u32::MAX,
        forall|j: int| 0 <= j < query.len() ==> #[trigger] query[j] < nb,
        forall|j: int| 0 <= j < doc.len() ==> #[trigger] doc[j] < nb,
    ensures
        is_table_of(counts@, query@, doc@, nb as int),
{
    assert(0 < nb * nb <= 65536) by (nonlinear_arith)
        requires
            0 < nb <= 256,
    ;
    let mut counts: Vec<u32> = vec![0u32; nb * nb];
    let mut i: usize = 0;
    proof {
        assert forall|a: int, b: int| 0 <= a < nb && 0 <= b < nb implies #[trigger] counts[a * nb
            + b] == pair_count(query@, doc@, 0, a, b) by {
            lemma_cell_index(a, b, nb as int);
        }
    }
    while i < query.len()
        invariant
            0 < nb <= 256,
            query.len() == doc.len(),
            query.len() <= u32::MAX,
            forall|j: int| 0 <= j < query.len() ==> #[trigger] query[j] < nb,
            forall|j: int| 0 <= j < doc.len() ==> #[trigger] doc[j] < nb,
            counts.len() == nb * nb,
            0 < nb * nb <= 65536,
            i <= query.len(),
            forall|a: int, b: int|
                0 <= a < nb && 0 <= b < nb ==> #[trigger] counts[a * nb + b] == pair_count(
                    query@,
                    doc@,
                    i as int,
                    a,
                    b,
                ),
        decreases query.len() - i,
    {
        let x: usize = query[i] as usize;
        let y: usize = doc[i] as usize;
        let ghost before = counts@;
        proof {
            lemma_cell_index(x as int, y as int, nb as int);
            lemma_count_bounds(i as int, pair_fn(query@, doc@, x as int, y as int));
        }
        let idx: usize = x * nb + y;
        assert(counts[x * nb + y] == pair_count(query@, doc@, i as int, x as int, y as int));
        counts[idx] = counts[idx] + 1;
        proof {
            assert forall|a: int, b: int| 0 <= a < nb && 0 <= b < nb implies #[trigger] counts[a
                * nb + b] == pair_count(query@, doc@, i + 1, a, b) by {
                lemma_cell_index(a, b, nb as int);
                lemma_cell_index(x as int, y as int, nb as int);
                assert(before[a * nb + b] == pair_count(query@, doc@, i as int, a, b));
                assert(pair_fn(query@, doc@, a, b)(i as int) == (a == x && b == y));
            }
        }
        i = i + 1;
    }
    counts
}

/// Cell `(a, b)` of a row-major `nb` by `nb` table lies inside it, at the place
/// that quotient and remainder read back.
proof fn lemma_cell_index(a: int, b: int, nb: int)
    requires
        0 <= a < nb,
        0 <= b < nb,
    ensures
        0 <= a * nb + b < nb * nb,
        (a * nb + b) / nb == a,
        (a * nb + b) % nb == b,
{
    lemma_fundamental_div_mod_converse(a * nb + b, nb, a, b);
    assert(0 <= a * nb + b < nb * nb) by (nonlinear_arith)
        requires
            0 <= a < nb,
            0 <= b < nb,
    ;
}

/// The weight matrices that the named projections use.
enum CellWeight {
    Unit,
    Band { radius: usize },
    Distance,
    Centred { nb: usize },
}

impl CellWeight {
    spec fn matrix(self) -> spec_fn(int, int) -> int {
        match self {
            CellWeight::Unit => unit_weight(),
            CellWeight::Band { radius } => band_weight(radius as int),
            CellWeight::Distance => distance_weight(),
            CellWeight::Centred { nb } => centred_weight(nb as int),
        }
    }

    fn cell(&self, a: usize, b: usize) -> (w: i64)
        requires
            a < 256,
            b < 256,
            *self matches CellWeight::Centred { nb } ==> a < nb <= 256 && b < nb,
        ensures
            w == self.matrix()(a as int, b as int),
            -65536 <= w <= 65536,
    {
        let gap: usize = if a >= b {
            a - b
        } else {
            b - a
        };
        match self {
            CellWeight::Unit => 1,
            CellWeight::Band { radius } => if gap <= *radius {
                1
            } else {
                0
            },
            CellWeight::Distance => gap as i64,
            CellWeight::Centred { nb } => {
                let top: i64 = *nb as i64 - 1;
                let x: i64 = 2 * a as i64 - top;
                let y: i64 = 2 * b as i64 - top;
                assert(-65536 <= x * y <= 65536) by (nonlinear_arith)
                    requires
                        -255 <= x <= 255,
                        -255 <= y <= 255,
                ;
                x * y
            },
        }
    }
}

/// Full bucket-overlap contingency table of two equal-length bucket codes.
#[derive(Clone, Debug, PartialEq, Eq, Hash)]
pub struct Contingency {
    buckets: usize,
    counts: Vec<u32>,
}

impl Contingency {
    /// The number of buckets.
    pub closed spec fn nb(&self) -> int {
        self.buckets as int
    }

    /// The row-major table.
    pub closed spec fn table(&self) -> Seq<u32> {
        self.counts@
    }

    /// The sum of all cells.
    pub open spec fn mass(&self) -> int {
        projected(self.table(), self.nb(), unit_weight())
    }

    /// The table is square, over at most 256 buckets, and its mass fits 32
    /// bits.
    pub open spec fn wf(&self) -> bool {
        &&& 0 < self.nb() <= 256
        &&& self.table().len() == self.nb() * self.nb()
        &&& self.mass() <= u32::MAX
    }

    /// Build the contingency table of two bucket codes.
    pub fn new(query: &[u8], doc: &[u8], nb: usize) -> (r: Result<Self, OrdvecError>)
        ensures
            match r {
                Ok(c) => {
                    &&& 0 < nb <= 256
                    &&& query.len() <= u32::MAX
                    &&& c.wf()
                    &&& c.nb() == nb
                    &&& is_table_of(c.table(), query@, doc@, nb as int)
                    &&& c.mass() == query.len()
                },
                Err(e) => if nb == 0 {
                    e.is_parameter("nb"@, "bucket count must be > 0"@)
                } else if nb > 256 {
                    e.is_parameter(
                        "nb"@,
                        "must be <= 256 (codes are u8); got "@ + decimal(nb as nat),
                    )
                } else if query.len() != doc.len() {
                    e.is_vector_length("doc"@, doc.len() as int, query.len() as int)
                } else if query.len() > u32::MAX {
                    e.is_parameter(
                        "dim"@,
                        "must be <= "@ + decimal(u32::MAX as nat)
                            + " (u32 contingency count cap)"@,
                    )
                } else {
                    first_bad_code(query@, doc@, nb as int) matches Some(bad) && e.is_parameter(
                        "code"@,
                        "bucket code "@ + decimal(bad as nat) + " out of range (must be < "@
                            + decimal(nb as nat) + ")"@,
                    )
                },
            },
    {
        if nb == 0 {
            return Err(
                OrdvecError::InvalidParameter {
                    name: "nb",
                    message: "bucket count must be > 0".to_owned(),
                },
            );
        }
        if nb > 256 {
            let mut message: String = "must be <= 256 (codes are u8); got ".to_owned();
            push_decimal(&mut message, nb as u64);
            return Err(OrdvecError::InvalidParameter { name: "nb", message });
        }
        if query.len() != doc.len() {
            return Err(
                OrdvecError::InvalidVectorLength {
                    name: "doc",
                    len: doc.len(),
                    expected: query.len(),
                },
            );
        }
        if query.len() > u32::MAX as usize {
            let mut message: String = "must be <= ".to_owned();
            push_decimal(&mut message, u32::MAX as u64);
            push_text(&mut message, " (u32 contingency count cap)");
            return Err(OrdvecError::InvalidParameter { name: "dim", message });
        }
        if let Some(bad) = find_out_of_range(query, doc, nb) {
            let mut message: String = "bucket code ".to_owned();
            push_decimal(&mut message, bad as u64);
            push_text(&mut message, " out of range (must be < ");
            push_decimal(&mut message, nb as u64);
            push_text(&mut message, ")");
            return Err(OrdvecError::InvalidParameter { name: "code", message });
        }
        let counts: Vec<u32> = build_histogram(query, doc, nb);
        proof {
            lemma_table_mass(counts@, query@, doc@, nb as int);
        }
        Ok(Contingency { buckets: nb, counts })
    }

    /// A table given cell by cell, row-major.
    pub fn from_counts(nb: usize, counts: Vec<u32>) -> (r: Result<Self, OrdvecError>)
        ensures
            match r {
                Ok(c) => {
                    &&& c.wf()
                    &&& c.nb() == nb
                    &&& c.table() == counts@
                },
                Err(e) => if nb == 0 || nb > 256 {
                    e.is_parameter("nb"@, "bucket count must be in 1..=256"@)
                } else if counts.len() != nb * nb {
                    e.is_vector_length("counts"@, counts.len() as int, (nb * nb) as int)
                } else {
                    &&& projected(counts@, nb as int, unit_weight()) > u32::MAX
                    &&& e.is_parameter("counts"@, "total mass must fit u32"@)
                },
            },
    {
        if nb == 0 || nb > 256 {
            return Err(
                OrdvecError::InvalidParameter {
                    name: "nb",
                    message: "bucket count must be in 1..=256".to_owned(),
                },
            );
        }
        assert(0 < nb * nb <= 65536) by (nonlinear_arith)
            requires
                0 < nb <= 256,
        ;
        if counts.len() != nb * nb {
            return Err(
                OrdvecError::InvalidVectorLength {
                    name: "counts",
                    len: counts.len(),
                    expected: nb * nb,
                },
            );
        }
        let c = Contingency { buckets: nb, counts };
        let mass: i128 = c.weigh(CellWeight::Unit);
        if mass > u32::MAX as i128 {
            return Err(
                OrdvecError::InvalidParameter {
                    name: "counts",
                    message: "total mass must fit u32".to_owned(),
                },
            );
        }
        Ok(c)
    }

    /// Project the table under a weight matrix.
    fn weigh(&self, weight: CellWeight) -> (total: i128)
        requires
            0 < self.nb() <= 256,
            self.table().len() == self.nb() * self.nb(),
            weight matches CellWeight::Centred { nb } ==> nb == self.nb(),
        ensures
            total == projected(self.table(), self.nb(), weight.matrix()),
    {
        let nb: usize = self.buckets;
        let ghost w = weight.matrix();
        let ghost cells = weighted_cells(self.counts@, nb as int, w);
        let ghost rows = row_sums(nb as int, cells);
        let mut total: i128 = 0;
        let mut a: usize = 0;
        while a < nb
            invariant
                nb == self.buckets,
                0 < nb <= 256,
                self.counts.len() == nb * nb,
                cells == weighted_cells(self.counts@, nb as int, w),
                rows == row_sums(nb as int, cells),
                a <= nb,
                total == sum_to(a as int, rows),
                -(a * 256 * 0x1_0000_0000_0000) <= total <= a * 256 * 0x1_0000_0000_0000,
                w == weight.matrix(),
                weight matches CellWeight::Centred { nb } ==> nb == self.buckets,
            decreases nb - a,
        {
            let ghost row = row_of(cells, a as int);
            let mut sum: i128 = 0;
            let mut b: usize = 0;
            while b < nb
                invariant
                    nb == self.buckets,
                    0 < nb <= 256,
                    self.counts.len() == nb * nb,
                    cells == weighted_cells(self.counts@, nb as int, w),
                    row == row_of(cells, a as int),
                    a < nb,
                    b <= nb,
                    sum == sum_to(b as int, row),
                    -(b * 0x1_0000_0000_0000) <= sum <= b * 0x1_0000_0000_0000,
                    w == weight.matrix(),
                    weight matches CellWeight::Centred { nb } ==> nb == self.buckets,
                decreases nb - b,
            {
                proof {
                    lemma_cell_index(a as int, b as int, nb as int);
                    assert(nb * nb <= 65536) by (nonlinear_arith)
                        requires
                            0 < nb <= 256,
                    ;
                }
                let x: i64 = weight.cell(a, b);
                let c: u32 = self.counts[a * nb + b];
                assert(-0x1_0000_0000_0000 <= x * c <= 0x1_0000_0000_0000) by (nonlinear_arith)
                    requires
                        -65536 <= x <= 65536,
                        0 <= c <= 0xFFFF_FFFF,
                ;
                assert(row(b as int) == x * c);
                sum = sum + x as i128 * c as i128;
                b = b + 1;
            }
            assert(rows(a as int) == sum_to(nb as int, row));
            total = total + sum;
            a = a + 1;
        }
        total
    }

    /// The mass of the rectangle of rows `a0..a1` and columns `b0..b1`.
    fn block(&self, a0: usize, a1: usize, b0: usize, b1: usize) -> (total: u32)
        requires
            self.wf(),
            a0 <= a1 <= self.nb(),
            b0 <= b1 <= self.nb(),
        ensures
            total == projected(
                self.table(),
                self.nb(),
                block_weight(a0 as int, a1 as int, b0 as int, b1 as int),
            ),
    {
        let nb: usize = self.buckets;
        let ghost w = block_weight(a0 as int, a1 as int, b0 as int, b1 as int);
        let ghost cells = weighted_cells(self.counts@, nb as int, w);
        let ghost rows = row_sums(nb as int, cells);
        proof {
            self.lemma_indicator_mass(w);
            assert forall|a: int| 0 <= a < nb && !(a0 <= a < a1) implies #[trigger] rows(a)
                == 0 by {
                lemma_sum_zero(nb as int, row_of(cells, a));
            }
            lemma_sum_window(nb as int, a0 as int, a1 as int, rows);
        }
        let mut total: u64 = 0;
        let mut a: usize = a0;
        while a < a1
            invariant
                nb == self.buckets,
                self.wf(),
                a0 <= a <= a1 <= nb,
                b0 <= b1 <= nb,
                w == block_weight(a0 as int, a1 as int, b0 as int, b1 as int),
                cells == weighted_cells(self.counts@, nb as int, w),
                rows == row_sums(nb as int, cells),
                total == sum_to(a as int, rows),
                total <= a * 0x100_0000_0000,
            decreases a1 - a,
        {
            let ghost row = row_of(cells, a as int);
            proof {
                lemma_sum_window(nb as int, b0 as int, b1 as int, row);
            }
            let mut sum: u64 = 0;
            let mut b: usize = b0;
            while b < b1
                invariant
                    nb == self.buckets,
                    self.wf(),
                    a0 <= a < a1 <= nb,
                    b0 <= b <= b1 <= nb,
                    w == block_weight(a0 as int, a1 as int, b0 as int, b1 as int),
                    cells == weighted_cells(self.counts@, nb as int, w),
                    row == row_of(cells, a as int),
                    sum == sum_to(b as int, row),
                    sum <= b * 0x1_0000_0000,
                decreases b1 - b,
            {
                proof {
                    lemma_cell_index(a as int, b as int, nb as int);
                    assert(nb * nb <= 65536) by (nonlinear_arith)
                        requires
                            0 < nb <= 256,
                    ;
                }
                assert(row(b as int) == self.counts[a * nb + b]);
                sum = sum + self.counts[a * nb + b] as u64;
                b = b + 1;
            }
            assert(rows(a as int) == sum_to(nb as int, row));
            total = total + sum;
            a = a + 1;
        }
        total as u32
    }

    /// Number of buckets; the table is square.
    pub fn buckets(&self) -> (n: usize)
        ensures
            n == self.nb(),
    {
        self.buckets
    }

    /// The row-major count table.
    pub fn counts(&self) -> (c: &[u32])
        ensures
            c@ == self.table(),
    {
        self.counts.as_slice()
    }

    /// Count of coordinates with the given query bucket and doc bucket.
    pub fn count(&self, query_bucket: usize, doc_bucket: usize) -> (c: u32)
        requires
            self.wf(),
            query_bucket < self.nb(),
            doc_bucket < self.nb(),
        ensures
            c == self.table()[query_bucket * self.nb() + doc_bucket],
    {
        proof {
            lemma_cell_index(query_bucket as int, doc_bucket as int, self.nb());
            let n = self.nb();
            assert(n * n <= 65536) by (nonlinear_arith)
                requires
                    0 < n <= 256,
            ;
        }
        self.counts[query_bucket * self.buckets + doc_bucket]
    }

    /// Sum of a row: how many coordinates the query placed in that bucket.
    pub fn row_sum(&self, query_bucket: usize) -> (n: u32)
        requires
            self.wf(),
            query_bucket < self.nb(),
        ensures
            n == sum_to(
                self.nb(),
                row_of(cells_of(self.table(), self.nb()), query_bucket as int),
            ),
    {
        proof {
            let x = query_bucket as int;
            lemma_block_row(self.table(), self.nb(), x);
        }
        self.block(query_bucket, query_bucket + 1, 0, self.buckets)
    }

    /// Sum of a column: how many coordinates the doc placed in that bucket.
    pub fn column_sum(&self, doc_bucket: usize) -> (n: u32)
        requires
            self.wf(),
            doc_bucket < self.nb(),
        ensures
            n == sum_to(
                self.nb(),
                column_of(cells_of(self.table(), self.nb()), doc_bucket as int),
            ),
    {
        proof {
            lemma_block_column(self.table(), self.nb(), doc_bucket as int);
        }
        self.block(0, self.buckets, doc_bucket, doc_bucket + 1)
    }

    /// Total mass: the length of the codes.
    pub fn total_count(&self) -> (n: u32)
        requires
            self.wf(),
        ensures
            n == self.mass(),
    {
        proof {
            lemma_table_ext(
                self.nb(),
                self.nb(),
                weighted_cells(self.table(), self.nb(), block_weight(0, self.nb(), 0, self.nb())),
                weighted_cells(self.table(), self.nb(), unit_weight()),
            );
        }
        self.block(0, self.buckets, 0, self.buckets)
    }

    /// Count in the top cell: coordinates both codes rank in the highest
    /// bucket.
    pub fn top_overlap(&self) -> (n: u32)
        requires
            self.wf(),
        ensures
            n == self.table()[self.nb() * self.nb() - 1],
    {
        proof {
            let n = self.nb();
            assert((n - 1) * n + (n - 1) == n * n - 1) by (nonlinear_arith);
        }
        self.count(self.buckets - 1, self.buckets - 1)
    }

    /// Trace of the table: coordinates assigned to the same bucket by both
    /// codes.
    pub fn diagonal_agreement(&self) -> (n: u32)
        requires
            self.wf(),
        ensures
            n == projected(self.table(), self.nb(), diagonal_weight()),
    {
        proof {
            self.lemma_indicator_mass(band_weight(0));
            lemma_band_zero_is_diagonal(self.table(), self.nb());
        }
        self.weigh(CellWeight::Band { radius: 0 }) as u32
    }

    /// Mass within `radius` of the diagonal: coordinates whose two bucket
    /// codes differ by at most `radius`.
    pub fn band_agreement(&self, radius: usize) -> (n: u32)
        requires
            self.wf(),
        ensures
            n == projected(self.table(), self.nb(), band_weight(radius as int)),
    {
        proof {
            self.lemma_indicator_mass(band_weight(radius as int));
        }
        self.weigh(CellWeight::Band { radius }) as u32
    }

    /// Mass of the top block: coordinates both codes place in the top
    /// `group_width` buckets.
    pub fn top_group_overlap(&self, group_width: usize) -> (n: u32)
        requires
            self.wf(),
            0 < group_width <= self.nb(),
        ensures
            n == projected(
                self.table(),
                self.nb(),
                block_weight(
                    self.nb() - group_width,
                    self.nb(),
                    self.nb() - group_width,
                    self.nb(),
                ),
            ),
    {
        let start: usize = self.buckets - group_width;
        self.block(start, self.buckets, start, self.buckets)
    }

    /// Total bucket-index L1 distance: every cell times the distance of its
    /// two buckets.
    pub fn bucket_l1_distance(&self) -> (n: u64)
        requires
            self.wf(),
        ensures
            n == projected(self.table(), self.nb(), distance_weight()),
    {
        proof {
            self.lemma_bounded_weight(distance_weight(), 0, 255);
        }
        self.weigh(CellWeight::Distance) as u64
    }

    /// Merge contiguous equal-width bucket blocks into a `groups` by `groups`
    /// table.
    pub fn coarsened_counts(&self, groups: usize) -> (out: Vec<u32>)
        requires
            self.wf(),
            0 < groups <= self.nb(),
            self.nb() % (groups as int) == 0,
        ensures
            out.len() == groups * groups,
            forall|g: int, h: int|
                0 <= g < groups && 0 <= h < groups ==> #[trigger] out[g * groups + h] == projected(
                    self.table(),
                    self.nb(),
                    group_weight(self.nb(), groups as int, g, h),
                ),
    {
        let width: usize = self.buckets / groups;
        let ghost n = self.nb();
        proof {
            lemma_fundamental_div_mod(n, groups as int);
            assert(groups * width == n) by (nonlinear_arith)
                requires
                    n == groups * width,
            ;
            assert(groups * groups <= 65536) by (nonlinear_arith)
                requires
                    0 < groups <= 256,
            ;
        }
        let mut out: Vec<u32> = vec![0u32; groups * groups];
        let mut g: usize = 0;
        while g < groups
            invariant
                self.wf(),
                n == self.nb(),
                0 < groups <= n,
                groups * width == n,
                width == n / (groups as int),
                groups * groups <= 65536,
                out.len() == groups * groups,
                g <= groups,
                forall|x: int, h: int|
                    0 <= x < g && 0 <= h < groups ==> #[trigger] out[x * groups + h] == projected(
                        self.table(),
                        n,
                        group_weight(n, groups as int, x, h),
                    ),
            decreases groups - g,
        {
            let mut h: usize = 0;
            while h < groups
                invariant
                    self.wf(),
                    n == self.nb(),
                    0 < groups <= n,
                    groups * width == n,
                    width == n / (groups as int),
                    groups * groups <= 65536,
                    out.len() == groups * groups,
                    g < groups,
                    h <= groups,
                    forall|x: int, y: int|
                        0 <= x <= g && 0 <= y < groups && (x < g || y < h) ==> #[trigger] out[x
                            * groups + y] == projected(
                            self.table(),
                            n,
                            group_weight(n, groups as int, x, y),
                        ),
                decreases groups - h,
            {
                proof {
                    assert(g * width + width == (g + 1) * width && (g + 1) * width <= groups * width)
                        by (nonlinear_arith)
                        requires
                            g + 1 <= groups,
                            width >= 0,
                    ;
                    assert(h * width + width == (h + 1) * width && (h + 1) * width <= groups * width)
                        by (nonlinear_arith)
                        requires
                            h + 1 <= groups,
                            width >= 0,
                    ;
                    lemma_cell_index(g as int, h as int, groups as int);
                }
                let m: u32 = self.block(
                    g * width,
                    g * width + width,
                    h * width,
                    h * width + width,
                );
                let ghost before = out@;
                out[g * groups + h] = m;
                proof {
                    assert forall|x: int, y: int|
                        0 <= x <= g && 0 <= y < groups && (x < g || y < h + 1) implies #[trigger] out[x
                        * groups + y] == projected(
                        self.table(),
                        n,
                        group_weight(n, groups as int, x, y),
                    ) by {
                        lemma_cell_index(x, y, groups as int);
                        lemma_cell_index(g as int, h as int, groups as int);
                        if x == g && y == h {
                        } else {
                            assert(before[x * groups + y] == projected(
                                self.table(),
                                n,
                                group_weight(n, groups as int, x, y),
                            ));
                        }
                    }
                }
                h = h + 1;
            }
            g = g + 1;
        }
        out
    }

    /// Four times the symmetric RankQuant score: the sum over the cells of the
    /// product of the doubled centred bucket indices. The score itself is a
    /// multiple of one quarter, so this integer is exact.
    pub fn rankquant_symmetric_score(&self) -> (quarters: i64)
        requires
            self.wf(),
        ensures
            quarters == projected(self.table(), self.nb(), centred_weight(self.nb())),
    {
        proof {
            let n = self.nb();
            let w = centred_weight(n);
            assert forall|a: int, b: int| 0 <= a < n && 0 <= b < n implies -65025
                <= #[trigger] w(a, b) <= 65025 by {
                let x = 2 * a - (n - 1);
                let y = 2 * b - (n - 1);
                assert(-65025 <= x * y <= 65025) by (nonlinear_arith)
                    requires
                        -255 <= x <= 255,
                        -255 <= y <= 255,
                ;
            }
            self.lemma_bounded_weight(w, -65025, 65025);
        }
        self.weigh(CellWeight::Centred { nb: self.buckets }) as i64
    }

    /// A projection under bounded weights is bounded by the mass.
    proof fn lemma_bounded_weight(&self, w: spec_fn(int, int) -> int, lo: int, hi: int)
        requires
            self.wf(),
            forall|a: int, b: int|
                0 <= a < self.nb() && 0 <= b < self.nb() ==> lo <= #[trigger] w(a, b) <= hi,
        ensures
            lo * self.mass() <= projected(self.table(), self.nb(), w) <= hi * self.mass(),
            0 <= self.mass() <= u32::MAX,
    {
        let n = self.nb();
        let f = weighted_cells(self.table(), n, w);
        let u = weighted_cells(self.table(), n, unit_weight());
        let g = |a: int, b: int| hi * u(a, b);
        let h = |a: int, b: int| lo * u(a, b);
        assert forall|a: int, b: int| 0 <= a < n && 0 <= b < n implies #[trigger] h(a, b) <= f(a, b)
            && f(a, b) <= g(a, b) by {
            let c = self.table()[a * n + b] as int;
            let x = w(a, b);
            assert(lo * (1 * c) <= x * c && x * c <= hi * (1 * c)) by (nonlinear_arith)
                requires
                    lo <= x <= hi,
                    c >= 0,
            ;
        }
        assert forall|a: int, b: int| 0 <= a < n && 0 <= b < n implies #[trigger] f(a, b) <= g(
            a,
            b,
        ) by {
            assert(h(a, b) <= f(a, b));
        }
        lemma_table_le(n, n, f, g);
        lemma_table_le(n, n, h, f);
        lemma_table_scale(n, n, hi, u, g);
        lemma_table_scale(n, n, lo, u, h);
        self.lemma_indicator_mass(unit_weight());
    }

    /// A projection under zeros and ones is part of the mass.
    proof fn lemma_indicator_mass(&self, w: spec_fn(int, int) -> int)
        requires
            self.wf(),
            forall|a: int, b: int| 0 <= #[trigger] w(a, b) <= 1,
        ensures
            0 <= projected(self.table(), self.nb(), w) <= self.mass(),
    {
        let n = self.nb();
        let f = weighted_cells(self.table(), n, w);
        let g = weighted_cells(self.table(), n, unit_weight());
        let zero = |a: int, b: int| 0int;
        assert forall|a: int, b: int| 0 <= a < n && 0 <= b < n implies 0 <= #[trigger] f(a, b)
            <= g(a, b) by {
            let c = self.table()[a * n + b] as int;
            let x = w(a, b);
            assert(0 <= x * c <= 1 * c) by (nonlinear_arith)
                requires
                    0 <= x <= 1,
                    c >= 0,
            ;
        }
        assert forall|a: int, b: int| 0 <= a < n && 0 <= b < n implies #[trigger] zero(a, b)
            <= f(a, b) by {
            assert(0 <= f(a, b));
        }
        lemma_table_le(n, n, f, g);
        lemma_table_le(n, n, zero, f);
        lemma_table_zero(n, n, zero);
    }
}

/// The block of one whole row is that row.
proof fn lemma_block_row(counts: Seq<u32>, nb: int, x: int)
    requires
        0 <= x < nb,
    ensures
        projected(counts, nb, block_weight(x, x + 1, 0, nb)) == sum_to(
            nb,
            row_of(cells_of(counts, nb), x),
        ),
{
    let f = weighted_cells(counts, nb, block_weight(x, x + 1, 0, nb));
    assert forall|a: int| 0 <= a < nb && a != x implies #[trigger] row_sums(nb, f)(a) == 0 by {
        lemma_sum_zero(nb, row_of(f, a));
    }
    lemma_sum_single(nb, row_sums(nb, f), x);
    lemma_sum_ext(nb, row_of(f, x), row_of(cells_of(counts, nb), x));
}

/// The block of one whole column is that column.
proof fn lemma_block_column(counts: Seq<u32>, nb: int, y: int)
    requires
        0 <= y < nb,
    ensures
        projected(counts, nb, block_weight(0, nb, y, y + 1)) == sum_to(
            nb,
            column_of(cells_of(counts, nb), y),
        ),
{
    let f = weighted_cells(counts, nb, block_weight(0, nb, y, y + 1));
    let g = column_of(cells_of(counts, nb), y);
    assert forall|a: int| 0 <= a < nb implies #[trigger] row_sums(nb, f)(a) == g(a) by {
        lemma_sum_single(nb, row_of(f, a), y);
    }
    lemma_sum_ext(nb, row_sums(nb, f), g);
}

/// The mass of the table of two codes is their length.
pub proof fn lemma_table_mass(counts: Seq<u32>, query: Seq<u8>, doc: Seq<u8>, nb: int)
    requires
        is_table_of(counts, query, doc, nb),
    ensures
        projected(counts, nb, unit_weight()) == query.len(),
{
    lemma_projection_is_coordinate_sum(counts, query, doc, nb, unit_weight());
    lemma_sum_const(
        query.len() as int,
        1,
        coordinate_weight(query, doc, unit_weight()),
    );
}

/// Radius zero reduces the band to the diagonal.
pub proof fn lemma_band_zero_is_diagonal(counts: Seq<u32>, nb: int)
    ensures
        projected(counts, nb, band_weight(0)) == projected(counts, nb, diagonal_weight()),
{
    lemma_table_ext(
        nb,
        nb,
        weighted_cells(counts, nb, band_weight(0)),
        weighted_cells(counts, nb, diagonal_weight()),
    );
}

/// A radius that spans the table takes in all of its mass.
pub proof fn lemma_wide_band_is_mass(counts: Seq<u32>, nb: int, radius: int)
    requires
        radius >= nb - 1,
    ensures
        projected(counts, nb, band_weight(radius)) == projected(counts, nb, unit_weight()),
{
    lemma_table_ext(
        nb,
        nb,
        weighted_cells(counts, nb, band_weight(radius)),
        weighted_cells(counts, nb, unit_weight()),
    );
}

/// The row sums of the table of two codes are the bucket counts of the query.
pub proof fn lemma_row_margin(counts: Seq<u32>, query: Seq<u8>, doc: Seq<u8>, nb: int, a: int)
    requires
        is_table_of(counts, query, doc, nb),
        0 <= a < nb,
    ensures
        sum_to(nb, row_of(cells_of(counts, nb), a)) == bucket_count(query, a),
{
    let n = query.len() as int;
    let w = block_weight(a, a + 1, 0, nb);
    let q = |j: int| query[j] == a;
    lemma_block_row(counts, nb, a);
    lemma_projection_is_coordinate_sum(counts, query, doc, nb, w);
    lemma_count_is_sum(n, q, coordinate_weight(query, doc, w));
    lemma_count_eq_where(n, code_fn(query), a, q);
}

/// The column sums of the table of two codes are the bucket counts of the doc.
pub proof fn lemma_column_margin(counts: Seq<u32>, query: Seq<u8>, doc: Seq<u8>, nb: int, b: int)
    requires
        is_table_of(counts, query, doc, nb),
        0 <= b < nb,
    ensures
        sum_to(nb, column_of(cells_of(counts, nb), b)) == bucket_count(doc, b),
{
    let n = query.len() as int;
    let w = block_weight(0, nb, b, b + 1);
    let q = |j: int| doc[j] == b;
    lemma_block_column(counts, nb, b);
    lemma_projection_is_coordinate_sum(counts, query, doc, nb, w);
    lemma_count_is_sum(n, q, coordinate_weight(query, doc, w));
    lemma_count_eq_where(n, code_fn(doc), b, q);
}

/// Blocks side by side add up.
proof fn lemma_block_columns(counts: Seq<u32>, nb: int, a0: int, a1: int, b0: int, b1: int, b2: int)
    requires
        b0 <= b1 <= b2,
    ensures
        projected(counts, nb, block_weight(a0, a1, b0, b2)) == projected(
            counts,
            nb,
            block_weight(a0, a1, b0, b1),
        ) + projected(counts, nb, block_weight(a0, a1, b1, b2)),
{
    let f = weighted_cells(counts, nb, block_weight(a0, a1, b0, b1));
    let g = weighted_cells(counts, nb, block_weight(a0, a1, b1, b2));
    let h = weighted_cells(counts, nb, block_weight(a0, a1, b0, b2));
    lemma_table_add(nb, nb, f, g, h);
}

/// Blocks one below the other add up.
proof fn lemma_block_rows(counts: Seq<u32>, nb: int, a0: int, a1: int, a2: int, b0: int, b1: int)
    requires
        a0 <= a1 <= a2,
    ensures
        projected(counts, nb, block_weight(a0, a2, b0, b1)) == projected(
            counts,
            nb,
            block_weight(a0, a1, b0, b1),
        ) + projected(counts, nb, block_weight(a1, a2, b0, b1)),
{
    let f = weighted_cells(counts, nb, block_weight(a0, a1, b0, b1));
    let g = weighted_cells(counts, nb, block_weight(a1, a2, b0, b1));
    let h = weighted_cells(counts, nb, block_weight(a0, a2, b0, b1));
    lemma_table_add(nb, nb, f, g, h);
}

/// An empty block has no mass.
proof fn lemma_empty_block(counts: Seq<u32>, nb: int, a0: int, a1: int, b0: int, b1: int)
    requires
        a1 <= a0 || b1 <= b0,
    ensures
        projected(counts, nb, block_weight(a0, a1, b0, b1)) == 0,
{
    let f = weighted_cells(counts, nb, block_weight(a0, a1, b0, b1));
    assert forall|a: int, b: int| 0 <= a < nb && 0 <= b < nb implies #[trigger] f(a, b) == 0 by {
        let c = counts[a * nb + b] as int;
        assert(0 * c == 0);
    }
    lemma_table_zero(nb, nb, f);
}

/// The coarsened table as a function of its cell.
pub open spec fn coarse_cells(counts: Seq<u32>, nb: int, groups: int) -> spec_fn(int, int) -> int {
    |g: int, h: int| projected(counts, nb, group_weight(nb, groups, g, h))
}

proof fn lemma_coarse_row(counts: Seq<u32>, nb: int, groups: int, g: int, k: int)
    requires
        0 < groups,
        0 <= nb,
        0 <= k,
    ensures
        sum_to(k, row_of(coarse_cells(counts, nb, groups), g)) == projected(
            counts,
            nb,
            block_weight(g * (nb / groups), g * (nb / groups) + nb / groups, 0, k * (nb / groups)),
        ),
    decreases k,
{
    let width = nb / groups;
    let a0 = g * width;
    let a1 = a0 + width;
    if k == 0 {
        lemma_empty_block(counts, nb, a0, a1, 0, 0);
        assert(0 * width == 0);
    } else {
        lemma_coarse_row(counts, nb, groups, g, k - 1);
        assert(0 <= width) by (nonlinear_arith)
            requires
                width == nb / groups,
                0 <= nb,
                0 < groups,
        ;
        assert(0 <= (k - 1) * width && (k - 1) * width + width == k * width) by (nonlinear_arith)
            requires
                k >= 1,
                width >= 0,
        ;
        lemma_block_columns(counts, nb, a0, a1, 0, (k - 1) * width, k * width);
    }
}

proof fn lemma_coarse_rows(counts: Seq<u32>, nb: int, groups: int, k: int)
    requires
        0 < groups,
        0 <= nb,
        0 <= k,
    ensures
        sum_to(k, row_sums(groups, coarse_cells(counts, nb, groups))) == projected(
            counts,
            nb,
            block_weight(0, k * (nb / groups), 0, groups * (nb / groups)),
        ),
    decreases k,
{
    let width = nb / groups;
    let b1 = groups * width;
    if k == 0 {
        lemma_empty_block(counts, nb, 0, 0, 0, b1);
        assert(0 * width == 0);
    } else {
        lemma_coarse_rows(counts, nb, groups, k - 1);
        lemma_coarse_row(counts, nb, groups, k - 1, groups);
        assert(0 <= width) by (nonlinear_arith)
            requires
                width == nb / groups,
                0 <= nb,
                0 < groups,
        ;
        assert(0 <= (k - 1) * width && (k - 1) * width + width == k * width) by (nonlinear_arith)
            requires
                k >= 1,
                width >= 0,
        ;
        lemma_block_rows(counts, nb, 0, (k - 1) * width, k * width, 0, b1);
    }
}

/// Coarsening a table keeps its mass.
pub proof fn lemma_coarsening_preserves_mass(counts: Seq<u32>, nb: int, groups: int)
    requires
        0 < groups,
        0 <= nb,
        nb % groups == 0,
    ensures
        table_sum(groups, groups, coarse_cells(counts, nb, groups)) == projected(
            counts,
            nb,
            unit_weight(),
        ),
{
    lemma_coarse_rows(counts, nb, groups, groups);
    lemma_fundamental_div_mod(nb, groups);
    lemma_table_ext(
        nb,
        nb,
        weighted_cells(counts, nb, block_weight(0, nb, 0, nb)),
        weighted_cells(counts, nb, unit_weight()),
    );
}

/// Diagonal agreement of the table of two codes counts the coordinates on
/// which they agree.
pub proof fn lemma_diagonal_counts_agreement(
    counts: Seq<u32>,
    query: Seq<u8>,
    doc: Seq<u8>,
    nb: int,
    agree: spec_fn(int) -> bool,
)
    requires
        is_table_of(counts, query, doc, nb),
        forall|j: int| 0 <= j < query.len() ==> (#[trigger] agree(j) <==> query[j] == doc[j]),
    ensures
        projected(counts, nb, diagonal_weight()) == count_where(query.len() as int, agree),
{
    let w = diagonal_weight();
    lemma_projection_is_coordinate_sum(counts, query, doc, nb, w);
    lemma_count_is_sum(query.len() as int, agree, coordinate_weight(query, doc, w));
}

/// The top cell of the table of two codes is the overlap of their top-bucket
/// bitmaps.
pub proof fn lemma_top_cell_is_bitmap_overlap(
    counts: Seq<u32>,
    query: Seq<u8>,
    doc: Seq<u8>,
    nb: int,
)
    requires
        0 < nb,
        is_table_of(counts, query, doc, nb),
    ensures
        counts[nb * nb - 1] == overlap_of(
            range_flags(query, nb - 1, nb - 1),
            range_flags(doc, nb - 1, nb - 1),
        ),
{
    let n = query.len() as int;
    let t = nb - 1;
    assert(t * nb + t == nb * nb - 1) by (nonlinear_arith)
        requires
            t == nb - 1,
    ;
    assert(counts[t * nb + t] == pair_count(query, doc, n, t, t));
    lemma_count_ext(
        n,
        pair_fn(query, doc, t, t),
        both_flags(range_flags(query, t, t), range_flags(doc, t, t)),
    );
}

/// The mass of the top block of the table of two codes is the overlap of their
/// top groups.
pub proof fn lemma_top_block_is_group_overlap(
    counts: Seq<u32>,
    query: Seq<u8>,
    doc: Seq<u8>,
    nb: int,
    width: int,
)
    requires
        is_table_of(counts, query, doc, nb),
        0 < width <= nb,
    ensures
        projected(counts, nb, block_weight(nb - width, nb, nb - width, nb)) == group_overlap(
            query,
            doc,
            nb,
            width,
        ),
{
    let n = query.len() as int;
    let w = block_weight(nb - width, nb, nb - width, nb);
    let p = both_flags(
        range_flags(query, nb - width, nb - 1),
        range_flags(doc, nb - width, nb - 1),
    );
    lemma_projection_is_coordinate_sum(counts, query, doc, nb, w);
    lemma_count_is_sum(n, p, coordinate_weight(query, doc, w));
}

/// Named projections over a [`Contingency`].
#[derive(Clone, Copy, Debug, PartialEq, Eq)]
pub enum Projection {
    /// Top-bucket cell count.
    TopOverlap,
    /// Mass of the top `width`-bucket block.
    TopGroupOverlap {
        /// The number of buckets on a side of the block.
        width: usize,
    },
    /// Diagonal trace.
    DiagonalAgreement,
    /// Mass within `radius` of the diagonal.
    BandAgreement {
        /// The largest bucket distance in the band.
        radius: usize,
    },
    /// Bucket-index L1 transport cost.
    BucketL1Distance,
    /// Centred outer-product score.
    RankQuantSymmetric,
}

impl Projection {
    /// The weight matrix of the projection, in quarters.
    pub open spec fn quarter_weights(self, nb: int) -> spec_fn(int, int) -> int {
        match self {
            Projection::TopOverlap => quarters_of(block_weight(nb - 1, nb, nb - 1, nb)),
            Projection::TopGroupOverlap { width } => quarters_of(
                block_weight(nb - width, nb, nb - width, nb),
            ),
            Projection::DiagonalAgreement => quarters_of(diagonal_weight()),
            Projection::BandAgreement { radius } => quarters_of(band_weight(radius as int)),
            Projection::BucketL1Distance => quarters_of(distance_weight()),
            Projection::RankQuantSymmetric => centred_weight(nb),
        }
    }

    /// Evaluate this projection, in quarters: every projection is the table
    /// summed under its weight matrix, and all weights are multiples of one
    /// quarter.
    pub fn score(self, contingency: &Contingency) -> (quarters: i64)
        requires
            contingency.wf(),
            self matches Projection::TopGroupOverlap { width } ==> 0 < width <= contingency.nb(),
        ensures
            quarters == projected(
                contingency.table(),
                contingency.nb(),
                self.quarter_weights(contingency.nb()),
            ),
    {
        let ghost t = contingency.table();
        let ghost n = contingency.nb();
        match self {
            Projection::TopOverlap => {
                let v: u32 = contingency.top_group_overlap(1);
                proof {
                    lemma_quarters(t, n, block_weight(n - 1, n, n - 1, n));
                }
                4 * v as i64
            },
            Projection::TopGroupOverlap { width } => {
                let v: u32 = contingency.top_group_overlap(width);
                proof {
                    lemma_quarters(t, n, block_weight(n - width, n, n - width, n));
                }
                4 * v as i64
            },
            Projection::DiagonalAgreement => {
                let v: u32 = contingency.diagonal_agreement();
                proof {
                    lemma_quarters(t, n, diagonal_weight());
                }
                4 * v as i64
            },
            Projection::BandAgreement { radius } => {
                let v: u32 = contingency.band_agreement(radius);
                proof {
                    lemma_quarters(t, n, band_weight(radius as int));
                }
                4 * v as i64
            },
            Projection::BucketL1Distance => {
                let v: u64 = contingency.bucket_l1_distance();
                proof {
                    contingency.lemma_bounded_weight(distance_weight(), 0, 255);
                    lemma_quarters(t, n, distance_weight());
                }
                4 * v as i64
            },
            Projection::RankQuantSymmetric => contingency.rankquant_symmetric_score(),
        }
    }
}

/// A row-major weight matrix as a function of the cell.
pub open spec fn matrix_of(w: Seq<i64>, nb: int) -> spec_fn(int, int) -> int {
    |a: int, b: int| w[a * nb + b] as int
}

/// A table projected under a row-major weight matrix.
pub(crate) fn project_table(counts: &[u32], nb: usize, weights: &[i64]) -> (acc: i128)
    requires
        nb <= 256,
        counts.len() == nb * nb,
        weights.len() == nb * nb,
    ensures
        acc == projected(counts@, nb as int, matrix_of(weights@, nb as int)),
{
    let ghost n = nb as int;
    let ghost f = weighted_cells(counts@, n, matrix_of(weights@, n));
    let ghost big = 0x1_0000_0000_0000_0000_0000_0000int;
    let mut acc: i128 = 0;
    let mut a: usize = 0;
    while a < nb
        invariant
            n == nb,
            nb <= 256,
            counts.len() == n * n,
            weights.len() == n * n,
            f == weighted_cells(counts@, n, matrix_of(weights@, n)),
            big == 0x1_0000_0000_0000_0000_0000_0000int,
            a <= nb,
            acc == sum_to(a as int, row_sums(n, f)),
            -(a * 256 * big) <= acc <= a * 256 * big,
        decreases nb - a,
    {
        let ghost before = acc as int;
        let mut b: usize = 0;
        while b < nb
            invariant
                n == nb,
                nb <= 256,
                a < nb,
                counts.len() == n * n,
                weights.len() == n * n,
                f == weighted_cells(counts@, n, matrix_of(weights@, n)),
                big == 0x1_0000_0000_0000_0000_0000_0000int,
                b <= nb,
                -(a * 256 * big) <= before <= a * 256 * big,
                acc == before + sum_to(b as int, row_of(f, a as int)),
                -(b * big) <= acc - before <= b * big,
            decreases nb - b,
        {
            proof {
                lemma_row_inside(a as int, n, n);
                assert(counts.len() == n * n);
            }
            let at: usize = a * nb + b;
            let w: i128 = weights[at] as i128;
            let c: i128 = counts[at] as i128;
            assert(-0x1_0000_0000_0000_0000_0000_0000int <= w * c
                <= 0x1_0000_0000_0000_0000_0000_0000int) by (nonlinear_arith)
                requires
                    -0x8000_0000_0000_0000 <= w <= 0x7FFF_FFFF_FFFF_FFFF,
                    0 <= c <= 0xFFFF_FFFF,
            ;
            assert(row_of(f, a as int)(b as int) == w * c);
            acc = acc + w * c;
            b = b + 1;
        }
        a = a + 1;
    }
    acc
}

impl Contingency {
    /// Project the table under any row-major weight matrix.
    pub fn project(&self, weights: &[i64]) -> (score: i128)
        requires
            self.wf(),
            weights.len() == self.nb() * self.nb(),
        ensures
            score == projected(self.table(), self.nb(), matrix_of(weights@, self.nb())),
    {
        project_table(self.counts.as_slice(), self.buckets, weights)
    }
}

/// A weight matrix in quarters.
pub open spec fn quarters_of(w: spec_fn(int, int) -> int) -> spec_fn(int, int) -> int {
    |a: int, b: int| 4 * w(a, b)
}

proof fn lemma_quarters(counts: Seq<u32>, nb: int, w: spec_fn(int, int) -> int)
    ensures
        projected(counts, nb, quarters_of(w)) == 4 * projected(counts, nb, w),
{
    let f = weighted_cells(counts, nb, w);
    let g = weighted_cells(counts, nb, quarters_of(w));
    assert forall|a: int, b: int| 0 <= a < nb && 0 <= b < nb implies #[trigger] g(a, b) == 4 * f(
        a,
        b,
    ) by {
        let c = counts[a * nb + b] as int;
        let x = w(a, b);
        assert((4 * x) * c == 4 * (x * c)) by (nonlinear_arith);
    }
    lemma_table_scale(nb, nb, 4, f, g);
}

} // verus!
