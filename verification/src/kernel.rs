//! Dithering kernels: the selectable weight matrices and the constants
//! derived from them (center column and total weight) that the engine's
//! residual propagation uses.

use vstd::prelude::*;
use crate::errors::Error;

verus! {

/// The selectable dithering weight matrices.
#[derive(Clone, Copy, PartialEq, Eq, Structural, Debug)]
pub enum DitheringMatrix {
    JarvisJudiceNinke,
    FloydSteinberg,
}

/// The weight matrix of a selector, as a sequence of rows.
pub open spec fn matrix_rows_spec(m: DitheringMatrix) -> Seq<Seq<usize>> {
    match m {
        DitheringMatrix::JarvisJudiceNinke => seq![
            seq![0usize, 0usize, 0usize, 7usize, 5usize],
            seq![3usize, 5usize, 7usize, 5usize, 3usize],
            seq![1usize, 3usize, 5usize, 3usize, 1usize],
        ],
        DitheringMatrix::FloydSteinberg => seq![
            seq![0usize, 0usize, 7usize],
            seq![3usize, 5usize, 1usize],
        ],
    }
}

impl DitheringMatrix {
    /// The fixed weight matrix this selector stands for.
    pub fn to_matrix(&self) -> (m: Vec<Vec<usize>>)
        ensures
            m.deep_view() == matrix_rows_spec(*self),
    {
        let m: Vec<Vec<usize>> = match self {
            DitheringMatrix::JarvisJudiceNinke => vec![
                vec![0, 0, 0, 7, 5],
                vec![3, 5, 7, 5, 3],
                vec![1, 3, 5, 3, 1],
            ],
            DitheringMatrix::FloydSteinberg => vec![vec![0, 0, 7], vec![3, 5, 1]],
        };
        proof {
            assert(m.deep_view() =~~= matrix_rows_spec(*self));
        }
        m
    }
}

impl core::str::FromStr for DitheringMatrix {
    type Err = &'static str;

    fn from_str(s: &str) -> Result<Self, Self::Err> {
        DitheringMatrix::parse(s)
    }
}

impl DitheringMatrix {
    /// Parses a selector name; exactly the two supported names are
    /// accepted.
    pub fn parse(s: &str) -> (r: Result<DitheringMatrix, &'static str>)
        ensures
            s@ == "JarvisJudiceNinke"@ ==> r == Ok::<DitheringMatrix, &'static str>(
                DitheringMatrix::JarvisJudiceNinke,
            ),
            s@ != "JarvisJudiceNinke"@ && s@ == "FloydSteinberg"@ ==> r == Ok::<
                DitheringMatrix,
                &'static str,
            >(DitheringMatrix::FloydSteinberg),
            s@ != "JarvisJudiceNinke"@ && s@ != "FloydSteinberg"@ ==> r is Err,
    {
        if crate::filter::str_eq(s, "JarvisJudiceNinke") {
            Ok(DitheringMatrix::JarvisJudiceNinke)
        } else if crate::filter::str_eq(s, "FloydSteinberg") {
            Ok(DitheringMatrix::FloydSteinberg)
        } else {
            Err("Invalid dithering algorithm.")
        }
    }
}

/// The sum of one row of weights.
pub open spec fn row_sum_spec(row: Seq<usize>) -> int
    decreases row.len(),
{
    if row.len() == 0 {
        0
    } else {
        row_sum_spec(row.drop_last()) + row.last()
    }
}

/// The sum of all weights of a matrix.
pub open spec fn matrix_sum_spec(rows: Seq<Seq<usize>>) -> int
    decreases rows.len(),
{
    if rows.len() == 0 {
        0
    } else {
        matrix_sum_spec(rows.drop_last()) + row_sum_spec(rows.last())
    }
}

/// A matrix is rectangular: at least one row, all rows of one positive width.
pub open spec fn rectangular_spec(rows: Seq<Seq<usize>>) -> bool {
    &&& rows.len() > 0
    &&& rows[0].len() > 0
    &&& forall|i: int| 0 <= i < rows.len() ==> #[trigger] rows[i].len() == rows[0].len()
}

/// A matrix makes a usable kernel: it is rectangular, its row 0 starts
/// with a zero weight and carries a nonzero weight somewhere after it (so
/// a center with weight strictly to its right exists), and its total
/// weight is small enough for the engine's integer arithmetic.
pub open spec fn usable_matrix_spec(rows: Seq<Seq<usize>>) -> bool {
    &&& rectangular_spec(rows)
    &&& rows[0][0] == 0
    &&& exists|j: int| 0 <= j < rows[0].len() && rows[0][j] != 0
    &&& matrix_sum_spec(rows) <= u32::MAX
}

/// A dithering kernel resolved once at startup: the weight matrix plus the
/// derived center column and total weight.
#[derive(Debug)]
pub struct Kernel {
    pub weights: Vec<Vec<usize>>,
    pub center_x: usize,
    pub total_weight: usize,
}

impl Kernel {
    /// Well-formedness: rectangular weights, the center is the column just
    /// before the first nonzero weight of row 0 (every weight at or before
    /// the center is zero, so row 0 reaches only columns strictly to the
    /// right of the cell being processed, the first of them its immediate
    /// right neighbor), and `total_weight` is the positive sum of all
    /// weights.
    pub open spec fn wf(self) -> bool {
        &&& rectangular_spec(self.weights.deep_view())
        &&& self.center_x + 1 < self.weights.deep_view()[0].len()
        &&& self.weights.deep_view()[0][self.center_x + 1] != 0
        &&& forall|j: int|
            0 <= j <= self.center_x ==> #[trigger] self.weights.deep_view()[0][j] == 0
        &&& self.total_weight == matrix_sum_spec(self.weights.deep_view())
        &&& 0 < self.total_weight <= u32::MAX
    }

    pub open spec fn rows_spec(self) -> int {
        self.weights.deep_view().len() as int
    }

    pub open spec fn cols_spec(self) -> int {
        self.weights.deep_view()[0].len() as int
    }

    /// The weight of one kernel cell.
    pub open spec fn weight_spec(self, kr: int, kc: int) -> int {
        self.weights.deep_view()[kr][kc] as int
    }

    /// Derives a kernel from a weight matrix. Returns the configuration
    /// error exactly on the degenerate matrices: an empty or ragged one, one
    /// whose row 0 is entirely zero-weight (no valid center), one whose row
    /// 0 begins with a nonzero weight (its first weight would land on an
    /// already-processed cell), or one whose total weight overflows the
    /// supported range.
    pub fn from_matrix(matrix: Vec<Vec<usize>>) -> (result: Result<Kernel, Error>)
        ensures
            result is Ok <==> usable_matrix_spec(matrix.deep_view()),
            result matches Ok(k) ==> {
                &&& k.wf()
                &&& k.weights.deep_view() == matrix.deep_view()
                &&& forall|j: int| 0 <= j <= k.center_x ==> matrix.deep_view()[0][j] == 0
            },
            result is Err ==> result == Err::<Kernel, Error>(Error::Configuration),
    {
        let ghost rows = matrix.deep_view();
        if matrix.len() == 0 {
            return Err(Error::Configuration);
        }
        let cols: usize = matrix[0].len();
        if cols == 0 {
            return Err(Error::Configuration);
        }
        // Rectangularity.
        let mut i: usize = 0;
        while i < matrix.len()
            invariant
                rows == matrix.deep_view(),
                cols == rows[0].len(),
                i <= matrix.len(),
                forall|t: int| 0 <= t < i ==> #[trigger] rows[t].len() == cols,
            decreases matrix.len() - i,
        {
            if matrix[i].len() != cols {
                proof {
                    assert(rows[i as int].len() != rows[0].len());
                    assert(!rectangular_spec(rows));
                }
                return Err(Error::Configuration);
            }
            i += 1;
        }
        assert(rectangular_spec(rows));
        // The first nonzero-weight column of row 0; the center sits just
        // before it, so its weight reaches the right-hand neighbor.
        let row0: &Vec<usize> = &matrix[0];
        let mut first_nz: usize = 0;
        while first_nz < cols && row0[first_nz] == 0
            invariant
                rows.len() > 0,
                rows == matrix.deep_view(),
                cols == rows[0].len(),
                row0.deep_view() == rows[0],
                first_nz <= cols,
                forall|j: int| 0 <= j < first_nz ==> rows[0][j] == 0,
            decreases cols - first_nz,
        {
            first_nz += 1;
        }
        if first_nz == cols {
            // Row 0 is entirely zero-weight: no valid center.
            assert(forall|j: int| 0 <= j < rows[0].len() ==> rows[0][j] == 0);
            return Err(Error::Configuration);
        }
        assert(rows[0][first_nz as int] != 0);
        if first_nz == 0 {
            // Row 0 starts with weight: it would reach the cell just
            // processed instead of its right-hand neighbor.
            return Err(Error::Configuration);
        }
        let center: usize = first_nz - 1;
        // The total weight, bounded so the engine's arithmetic stays exact.
        let mut total: usize = 0;
        let mut r: usize = 0;
        while r < matrix.len()
            invariant
                rows == matrix.deep_view(),
                r <= matrix.len(),
                total == matrix_sum_spec(rows.take(r as int)),
                total <= u32::MAX,
            decreases matrix.len() - r,
        {
            let row: &Vec<usize> = &matrix[r];
            let mut c: usize = 0;
            let mut rtot: usize = 0;
            while c < row.len()
                invariant
                    rows == matrix.deep_view(),
                    rows.len() > 0,
                    row.deep_view() == rows[r as int],
                    r < rows.len(),
                    c <= row.len(),
                    rtot == row_sum_spec(rows[r as int].take(c as int)),
                    rtot <= u32::MAX,
                    total <= u32::MAX,
                decreases row.len() - c,
            {
                let w: usize = row[c];
                if w > u32::MAX as usize || rtot > u32::MAX as usize - w {
                    proof {
                        assert(rows[r as int].take(c as int + 1).drop_last() =~= rows[r as int].take(c as int));
                        assert(rows[r as int].take(c as int + 1).last() == rows[r as int][c as int]);
                        assert(row_sum_spec(rows[r as int].take(c as int + 1)) == rtot + w);
                        lemma_row_prefix_le(rows[r as int], c as int + 1);
                        lemma_matrix_row_le(rows, r as int);
                        assert(matrix_sum_spec(rows) > u32::MAX);
                    }
                    return Err(Error::Configuration);
                }
                proof {
                    assert(rows[r as int].take(c as int + 1).drop_last() =~= rows[r as int].take(
                        c as int,
                    ));
                }
                rtot += w;
                c += 1;
            }
            proof {
                assert(rows[r as int].take(rows[r as int].len() as int) =~= rows[r as int]);
            }
            if rtot > 0 && total > u32::MAX as usize - rtot {
                proof {
                    lemma_matrix_prefix_le(rows, r as int + 1);
                    assert(rows.take(r as int + 1).drop_last() =~= rows.take(r as int));
                    lemma_row_sum_nonneg(rows[r as int]);
                }
                return Err(Error::Configuration);
            }
            proof {
                assert(rows.take(r as int + 1).drop_last() =~= rows.take(r as int));
                lemma_row_sum_nonneg(rows[r as int]);
            }
            total += rtot;
            r += 1;
        }
        proof {
            assert(rows.take(rows.len() as int) =~= rows);
        }
        if total == 0 {
            // All weights zero would leave nothing to distribute; the
            // nonzero weight found above already rules this out.
            proof {
                lemma_matrix_entry_le(rows, 0, first_nz as int);
            }
            return Err(Error::Configuration);
        }
        Ok(Kernel { weights: matrix, center_x: center, total_weight: total })
    }
}

/// A prefix of a row sums to at most the whole row.
pub proof fn lemma_row_prefix_le(row: Seq<usize>, n: int)
    requires
        0 <= n <= row.len(),
    ensures
        row_sum_spec(row.take(n)) <= row_sum_spec(row),
        row_sum_spec(row.take(n)) >= 0,
    decreases row.len() - n,
{
    lemma_row_sum_nonneg(row.take(n));
    if n < row.len() {
        lemma_row_prefix_le(row, n + 1);
        assert(row.take(n + 1).drop_last() =~= row.take(n));
    } else {
        assert(row.take(n) =~= row);
    }
}

/// Row sums are non-negative.
pub proof fn lemma_row_sum_nonneg(row: Seq<usize>)
    ensures
        row_sum_spec(row) >= 0,
    decreases row.len(),
{
    if row.len() > 0 {
        lemma_row_sum_nonneg(row.drop_last());
    }
}

/// A prefix of the rows sums to at most the whole matrix.
pub proof fn lemma_matrix_prefix_le(rows: Seq<Seq<usize>>, n: int)
    requires
        0 <= n <= rows.len(),
    ensures
        matrix_sum_spec(rows.take(n)) <= matrix_sum_spec(rows),
        matrix_sum_spec(rows.take(n)) >= 0,
    decreases rows.len() - n,
{
    lemma_matrix_prefix_nonneg(rows.take(n));
    if n < rows.len() {
        lemma_matrix_prefix_le(rows, n + 1);
        assert(rows.take(n + 1).drop_last() =~= rows.take(n));
        lemma_row_sum_nonneg(rows[n]);
    } else {
        assert(rows.take(n) =~= rows);
    }
}

/// One row's sum is at most the matrix total.
pub proof fn lemma_matrix_row_le(rows: Seq<Seq<usize>>, r: int)
    requires
        0 <= r < rows.len(),
    ensures
        row_sum_spec(rows[r]) <= matrix_sum_spec(rows),
    decreases rows.len(),
{
    if r == rows.len() - 1 {
        lemma_matrix_prefix_nonneg(rows.drop_last());
    } else {
        lemma_matrix_row_le(rows.drop_last(), r);
        lemma_row_sum_nonneg(rows.last());
    }
}

proof fn lemma_matrix_prefix_nonneg(rows: Seq<Seq<usize>>)
    ensures
        matrix_sum_spec(rows) >= 0,
    decreases rows.len(),
{
    if rows.len() > 0 {
        lemma_matrix_prefix_nonneg(rows.drop_last());
        lemma_row_sum_nonneg(rows.last());
    }
}

/// Every single weight is at most the matrix total.
pub proof fn lemma_matrix_entry_le(rows: Seq<Seq<usize>>, r: int, c: int)
    requires
        0 <= r < rows.len(),
        0 <= c < rows[r].len(),
    ensures
        rows[r][c] <= matrix_sum_spec(rows),
    decreases rows.len(),
{
    if r == rows.len() - 1 {
        lemma_matrix_prefix_nonneg(rows.drop_last());
        lemma_row_entry_le(rows[r], c);
    } else {
        lemma_matrix_entry_le(rows.drop_last(), r, c);
        lemma_row_sum_nonneg(rows.last());
    }
}

proof fn lemma_row_entry_le(row: Seq<usize>, c: int)
    requires
        0 <= c < row.len(),
    ensures
        row[c] <= row_sum_spec(row),
    decreases row.len(),
{
    if c == row.len() - 1 {
        lemma_row_sum_nonneg(row.drop_last());
    } else {
        lemma_row_entry_le(row.drop_last(), c);
    }
}

} // verus!
