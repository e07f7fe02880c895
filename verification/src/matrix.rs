//! The descriptor matrix: one row of bytes per detection, all rows of one width.
//!
//! The cells live in a `nalgebra::DMatrix<u8>`. Verus cannot look inside that
//! type, so the matrix is described by two abstract functions, [`matrix_rows`]
//! and [`matrix_width`], and a handful of small trusted functions that relate
//! nalgebra's methods to them. Everything else in this module is verified
//! against those few statements.

use vstd::prelude::*;
use nalgebra::DMatrix;

verus! {

/// A dense matrix of descriptor bytes.
///
/// Trusted: the struct is opaque to the verifier because its only field is a
/// `nalgebra::DMatrix<u8>`.
#[verifier::external_body]
#[derive(Debug)]
pub struct DescriptorMatrix {
    cells: DMatrix<u8>,
}

/// The rows of a descriptor matrix, first row first.
pub uninterp spec fn matrix_rows(m: DescriptorMatrix) -> Seq<Seq<u8>>;

/// The number of columns that a descriptor matrix was made with. It is kept
/// apart from the rows because a matrix without rows still has a width.
pub uninterp spec fn matrix_width(m: DescriptorMatrix) -> nat;

/// What a descriptor matrix holds.
pub struct MatrixView {
    pub rows: Seq<Seq<u8>>,
    pub width: nat,
}

impl MatrixView {
    /// Every row has exactly `width` cells.
    pub open spec fn rectangular(self) -> bool {
        forall|r: int| 0 <= r < self.rows.len() ==> (#[trigger] self.rows[r]).len() == self.width
    }

    /// The matrix whose cells are `data`, read row by row.
    pub open spec fn row_major(nrows: nat, ncols: nat, data: Seq<u8>) -> MatrixView {
        MatrixView {
            rows: Seq::new(nrows, |r: int| data.subrange(r * ncols, (r + 1) * ncols)),
            width: ncols,
        }
    }
}

impl View for DescriptorMatrix {
    type V = MatrixView;

    open spec fn view(&self) -> MatrixView {
        MatrixView { rows: matrix_rows(*self), width: matrix_width(*self) }
    }
}

/// Trusted: `DMatrix::from_row_slice`. nalgebra fills cell `(i, j)` with
/// `data[i * ncols + j]` and panics unless the slice holds exactly
/// `nrows * ncols` elements, which the precondition demands.
#[verifier::external_body]
fn matrix_from_row_slice(nrows: usize, ncols: usize, data: &[u8]) -> (m: DescriptorMatrix)
    requires
        nrows * ncols == data@.len(),
    ensures
        matrix_width(m) == ncols,
        matrix_rows(m) == MatrixView::row_major(nrows as nat, ncols as nat, data@).rows,
{
    DescriptorMatrix { cells: DMatrix::from_row_slice(nrows, ncols, data) }
}

/// Trusted: `Matrix::nrows`, the number of rows.
#[verifier::external_body]
fn matrix_nrows(m: &DescriptorMatrix) -> (n: usize)
    ensures
        n == matrix_rows(*m).len(),
{
    m.cells.nrows()
}

/// Trusted: `Matrix::ncols`, the number of columns, which is also the length
/// of every row.
#[verifier::external_body]
fn matrix_ncols(m: &DescriptorMatrix) -> (n: usize)
    ensures
        n == matrix_width(*m),
        forall|r: int| 0 <= r < matrix_rows(*m).len() ==> (#[trigger] matrix_rows(*m)[r]).len() == n,
{
    m.cells.ncols()
}

/// Trusted: `Index<(usize, usize)>` of `Matrix`, the cell at row `r` and
/// column `c`. nalgebra panics when either index is out of bounds, which the
/// precondition rules out.
#[verifier::external_body]
fn matrix_cell(m: &DescriptorMatrix, r: usize, c: usize) -> (b: u8)
    requires
        r < matrix_rows(*m).len(),
        c < matrix_width(*m),
    ensures
        b == matrix_rows(*m)[r as int][c as int],
{
    m.cells[(r, c)]
}

proof fn lemma_row_bounds(r: int, nrows: nat, ncols: nat)
    requires
        0 <= r < nrows,
    ensures
        0 <= r * ncols,
        (r + 1) * ncols <= nrows * ncols,
        (r + 1) * ncols - r * ncols == ncols,
{
    assert(0 <= r * ncols) by (nonlinear_arith)
        requires
            0 <= r,
            0 <= ncols,
    ;
    assert((r + 1) * ncols <= nrows * ncols) by (nonlinear_arith)
        requires
            r + 1 <= nrows,
            0 <= ncols,
    ;
    assert((r + 1) * ncols - r * ncols == ncols) by (nonlinear_arith);
}

/// A matrix read from `nrows * ncols` cells has `nrows` rows of `ncols` cells,
/// and cell `(r, c)` is the one at `r * ncols + c`.
pub proof fn lemma_row_major_cells(nrows: nat, ncols: nat, data: Seq<u8>)
    requires
        nrows * ncols == data.len(),
    ensures
        MatrixView::row_major(nrows, ncols, data).rectangular(),
        MatrixView::row_major(nrows, ncols, data).rows.len() == nrows,
        forall|r: int, c: int|
            0 <= r < nrows && 0 <= c < ncols ==> #[trigger] MatrixView::row_major(
                nrows,
                ncols,
                data,
            ).rows[r][c] == data[r * ncols + c],
{
    let v = MatrixView::row_major(nrows, ncols, data);
    assert forall|r: int| 0 <= r < v.rows.len() implies (#[trigger] v.rows[r]).len()
        == v.width by {
        lemma_row_bounds(r, nrows, ncols);
        assert(v.rows[r] == data.subrange(r * ncols, (r + 1) * ncols));
    }
    assert forall|r: int, c: int| 0 <= r < nrows && 0 <= c < ncols implies #[trigger] v.rows[r][c]
        == data[r * ncols + c] by {
        lemma_row_bounds(r, nrows, ncols);
        assert(v.rows[r] == data.subrange(r * ncols, (r + 1) * ncols));
    }
}

impl DescriptorMatrix {
    /// Builds the matrix with `nrows` rows and `ncols` columns from its cells
    /// listed row by row. Returns `None` when `data` does not hold exactly
    /// `nrows * ncols` bytes.
    pub fn from_row_slice(nrows: usize, ncols: usize, data: &[u8]) -> (r: Option<DescriptorMatrix>)
        ensures
            r is Some <==> nrows * ncols == data@.len(),
            r matches Some(m) ==> m@ == MatrixView::row_major(nrows as nat, ncols as nat, data@)
                && m@.rectangular() && m@.rows.len() == nrows,
    {
        let len: usize = data.len();
        match nrows.checked_mul(ncols) {
            Some(cells) => {
                if cells == len {
                    let m = matrix_from_row_slice(nrows, ncols, data);
                    proof {
                        lemma_row_major_cells(nrows as nat, ncols as nat, data@);
                    }
                    Some(m)
                } else {
                    None
                }
            },
            None => None,
        }
    }

    /// The number of rows.
    pub fn nrows(&self) -> (n: usize)
        ensures
            n == self@.rows.len(),
    {
        matrix_nrows(self)
    }

    /// The number of columns. Every row is that long.
    pub fn ncols(&self) -> (n: usize)
        ensures
            n == self@.width,
            self@.rectangular(),
    {
        matrix_ncols(self)
    }

    /// The cell at row `r`, column `c`, or `None` outside the matrix.
    pub fn get(&self, r: usize, c: usize) -> (cell: Option<u8>)
        ensures
            cell is Some <==> r < self@.rows.len() && c < self@.width,
            cell matches Some(b) ==> b == self@.rows[r as int][c as int],
    {
        if r < matrix_nrows(self) && c < matrix_ncols(self) {
            Some(matrix_cell(self, r, c))
        } else {
            None
        }
    }

    /// A copy of row `r`, or `None` when the matrix has no such row.
    pub fn row(&self, r: usize) -> (cells: Option<Vec<u8>>)
        ensures
            cells is Some <==> r < self@.rows.len(),
            cells matches Some(v) ==> v@ == self@.rows[r as int],
    {
        if r >= matrix_nrows(self) {
            return None;
        }
        let width: usize = matrix_ncols(self);
        let mut out: Vec<u8> = Vec::new();
        let mut c: usize = 0;
        while c < width
            invariant
                r < matrix_rows(*self).len(),
                width == matrix_width(*self),
                matrix_rows(*self)[r as int].len() == width,
                c <= width,
                out@ == matrix_rows(*self)[r as int].take(c as int),
            decreases width - c,
        {
            out.push(matrix_cell(self, r, c));
            c += 1;
        }
        Some(out)
    }
}

} // verus!
