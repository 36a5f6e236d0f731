//! The container in which the benchmarks exchange matrices of field elements:
//! the field, the number of matrices, their widths, and every matrix as its
//! entries in row-major order, each entry written as a string.
use std::marker::PhantomData;
use vstd::prelude::*;

verus! {

/// The field whose elements a container holds.
#[derive(Clone, Copy, Debug, PartialEq, Eq, Structural)]
pub enum Field {
    Babybear,
    Goldilocks,
    Mersenne61,
    Bn254Fr,
}

/// The rows of the first `i` entries of every column, one row after the other.
pub open spec fn rows_upto(cols: Seq<Vec<String>>, i: nat) -> Seq<String>
    decreases i,
{
    if i == 0 {
        Seq::empty()
    } else {
        rows_upto(cols, (i - 1) as nat) + Seq::new(cols.len(), |j: int| cols[j]@[i - 1])
    }
}

/// The entries of a matrix given by its columns, in row-major order; the
/// first column fixes the number of rows.
pub open spec fn row_major(cols: Seq<Vec<String>>) -> Seq<String> {
    rows_upto(cols, cols[0]@.len())
}

/// Every column is at least as long as the first one, and there is one.
pub open spec fn columns_ok(cols: Seq<Vec<String>>) -> bool {
    &&& cols.len() > 0
    &&& forall|j: int| 0 <= j < cols.len() ==> #[trigger] cols[j]@.len() >= cols[0]@.len()
}

/// The entries of a matrix given by its columns, row after row.
pub fn flatten_columns(matrix: &Vec<Vec<String>>) -> (r: Vec<String>)
    requires
        columns_ok(matrix@),
    ensures
        r@ == row_major(matrix@),
{
    let h = matrix[0].len();
    let w = matrix.len();
    let mut out: Vec<String> = Vec::new();
    let mut i: usize = 0;
    while i < h
        invariant
            h == matrix@[0]@.len(),
            w == matrix@.len(),
            columns_ok(matrix@),
            i <= h,
            out@ == rows_upto(matrix@, i as nat),
        decreases h - i,
    {
        let ghost base = out@;
        let mut j: usize = 0;
        while j < w
            invariant
                h == matrix@[0]@.len(),
                w == matrix@.len(),
                columns_ok(matrix@),
                i < h,
                j <= w,
                out@ == base + Seq::new(j as nat, |q: int| matrix@[q]@[i as int]),
            decreases w - j,
        {
            assert(matrix@[j as int]@.len() >= h);
            let s = matrix[j][i].clone();
            out.push(s);
            assert(out@ =~= base + Seq::new((j + 1) as nat, |q: int| matrix@[q]@[i as int]));
            j = j + 1;
        }
        i = i + 1;
    }
    out
}

/// Matrices of one field: their number, their widths, and their entries row-major.
#[derive(Clone, Debug, PartialEq, Eq)]
pub struct MatrixContainer {
    pub field: Field,
    pub matrices_num: usize,
    pub matrix_widths: Vec<usize>,
    pub matrices: Vec<Vec<String>>,
}

impl MatrixContainer {
    /// The container holding the given parts.
    pub fn new(
        field: Field,
        matrices_num: usize,
        matrix_widths: Vec<usize>,
        matrices: Vec<Vec<String>>,
    ) -> (r: Self)
        ensures
            r.field == field,
            r.matrices_num == matrices_num,
            r.matrix_widths@ == matrix_widths@,
            r.matrices@ == matrices@,
    {
        MatrixContainer { field, matrices_num, matrix_widths, matrices }
    }
}

/// Writes matrices of one field into a container.
pub struct Dumper<T> {
    pub field: Field,
    pub phantom: PhantomData<T>,
}

impl<T> Dumper<T> {
    /// A dumper for the field `field`.
    pub fn new(field: Field) -> (r: Self)
        ensures
            r.field == field,
    {
        Dumper { field, phantom: PhantomData }
    }

    /// The container of matrices given column by column, with every entry
    /// already written as a string: the number of matrices, the number of
    /// columns of each, and each matrix row-major.
    pub fn container(&self, multi_polys: &Vec<Vec<Vec<String>>>) -> (r: MatrixContainer)
        requires
            forall|m: int| 0 <= m < multi_polys.len() ==> #[trigger] columns_ok(multi_polys@[m]@),
        ensures
            r.field == self.field,
            r.matrices_num == multi_polys.len(),
            r.matrix_widths@ == Seq::new(multi_polys@.len(), |m: int| multi_polys@[m]@.len() as usize),
            r.matrices@.len() == multi_polys@.len(),
            forall|m: int| 0 <= m < multi_polys.len() ==> #[trigger] r.matrices@[m]@ == row_major(multi_polys@[m]@),
    {
        let mut widths: Vec<usize> = Vec::new();
        let mut matrices: Vec<Vec<String>> = Vec::new();
        let mut m: usize = 0;
        while m < multi_polys.len()
            invariant
                m <= multi_polys.len(),
                forall|q: int| 0 <= q < multi_polys.len() ==> #[trigger] columns_ok(multi_polys@[q]@),
                widths@ == Seq::new(m as nat, |q: int| multi_polys@[q]@.len() as usize),
                matrices@.len() == m,
                forall|q: int| 0 <= q < m ==> #[trigger] matrices@[q]@ == row_major(multi_polys@[q]@),
            decreases multi_polys.len() - m,
        {
            widths.push(multi_polys[m].len());
            assert(widths@ =~= Seq::new((m + 1) as nat, |q: int| multi_polys@[q]@.len() as usize));
            let flat = flatten_columns(&multi_polys[m]);
            let ghost before = matrices@;
            matrices.push(flat);
            assert forall|q: int| 0 <= q < m + 1 implies #[trigger] matrices@[q]@ == row_major(multi_polys@[q]@) by {
                if q < m {
                    assert(matrices@[q] == before[q]);
                }
            }
            m = m + 1;
        }
        MatrixContainer::new(self.field, multi_polys.len(), widths, matrices)
    }
}

/// Reads matrices of one field from a container.
pub struct Loader<T> {
    pub field: Field,
    pub phantom: PhantomData<T>,
}

impl<T> Loader<T> {
    /// A loader for the field `field`.
    pub fn new(field: Field) -> (r: Self)
        ensures
            r.field == field,
    {
        Loader { field, phantom: PhantomData }
    }

    /// The container holds elements of the loader's field.
    pub fn field_matches(&self, container: &MatrixContainer) -> (r: bool)
        ensures
            r == (container.field == self.field),
    {
        container.field == self.field
    }
}

} // verus!
