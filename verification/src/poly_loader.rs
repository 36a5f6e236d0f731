//! The container of the committed matrices of a proof run, round by round:
//! the sizes of the run, the field, and for each round the number of
//! matrices, their widths and their entries row-major, with the points at
//! which each commitment is opened.
use crate::matrix::{columns_ok, flatten_columns, row_major};
use std::collections::HashMap;
use vstd::prelude::*;

verus! {

/// The field whose elements a container holds.
#[derive(Clone, Copy, Debug, PartialEq, Eq, Structural)]
pub enum Field {
    Babybear,
    Goldilocks,
    Mersenne61,
    Bn254Fr,
}

/// The views of a list of width lists.
pub open spec fn widths_view(w: Seq<Vec<usize>>) -> Seq<Seq<usize>> {
    w.map_values(|v: Vec<usize>| v@)
}

/// The views of a list of rounds of matrices.
pub open spec fn rounds_view(m: Seq<Vec<Vec<String>>>) -> Seq<Seq<Seq<String>>> {
    m.map_values(|r: Vec<Vec<String>>| r@.map_values(|x: Vec<String>| x@))
}

/// The committed matrices of a run, round by round.
#[derive(Clone, Debug, PartialEq, Eq)]
pub struct MatrixContainer {
    pub poly_size: usize,
    pub batch_size: usize,
    pub field: Field,
    pub rounds: usize,
    pub matrices_num: Vec<usize>,
    pub matrix_widths: Vec<Vec<usize>>,
    pub matrices: Vec<Vec<Vec<String>>>,
    pub poly_points: HashMap<String, Vec<String>>,
}

impl MatrixContainer {
    /// An empty container for a run with the given sizes and field.
    pub fn new(poly_size: usize, batch_size: usize, field: Field) -> (r: Self)
        ensures
            r.poly_size == poly_size,
            r.batch_size == batch_size,
            r.field == field,
            r.rounds == 0,
            r.matrices_num@.len() == 0,
            r.matrix_widths@.len() == 0,
            r.matrices@.len() == 0,
            r.poly_points@ == Map::<String, Vec<String>>::empty(),
    {
        MatrixContainer {
            poly_size,
            batch_size,
            field,
            rounds: 0,
            matrices_num: Vec::new(),
            matrix_widths: Vec::new(),
            matrices: Vec::new(),
            poly_points: HashMap::new(),
        }
    }

    /// Opens a new round with no matrices.
    pub fn new_round(&mut self)
        ensures
            final(self).matrices_num@ == old(self).matrices_num@.push(0),
            widths_view(final(self).matrix_widths@) == widths_view(old(self).matrix_widths@).push(
                Seq::empty(),
            ),
            rounds_view(final(self).matrices@) == rounds_view(old(self).matrices@).push(Seq::empty()),
            final(self).poly_size == old(self).poly_size,
            final(self).batch_size == old(self).batch_size,
            final(self).field == old(self).field,
            final(self).rounds == old(self).rounds,
            final(self).poly_points@ == old(self).poly_points@,
    {
        let ghost w0 = widths_view(self.matrix_widths@);
        let ghost m0 = rounds_view(self.matrices@);
        self.matrices_num.push(0);
        self.matrix_widths.push(Vec::new());
        self.matrices.push(Vec::new());
        assert(widths_view(self.matrix_widths@) =~= w0.push(Seq::empty()));
        assert(self.matrices@.last()@.map_values(|x: Vec<String>| x@) =~= Seq::<Seq<String>>::empty());
        assert(rounds_view(self.matrices@) =~= m0.push(Seq::empty()));
    }

    /// Adds a matrix, given column by column, to the last round: one more
    /// matrix, its width, and its entries row-major.
    pub fn push_matrix(&mut self, matrix: Vec<Vec<String>>)
        requires
            columns_ok(matrix@),
            matrix@[0]@.len() > 0,
            old(self).matrices_num@.len() > 0,
            old(self).matrix_widths@.len() > 0,
            old(self).matrices@.len() > 0,
            old(self).matrices_num@.last() < usize::MAX,
        ensures
            final(self).matrices_num@ == old(self).matrices_num@.update(
                old(self).matrices_num@.len() - 1,
                (old(self).matrices_num@.last() + 1) as usize,
            ),
            widths_view(final(self).matrix_widths@) == widths_view(old(self).matrix_widths@).update(
                old(self).matrix_widths@.len() - 1,
                old(self).matrix_widths@.last()@.push(matrix@.len() as usize),
            ),
            rounds_view(final(self).matrices@) == rounds_view(old(self).matrices@).update(
                old(self).matrices@.len() - 1,
                rounds_view(old(self).matrices@).last().push(row_major(matrix@)),
            ),
            final(self).poly_size == old(self).poly_size,
            final(self).batch_size == old(self).batch_size,
            final(self).field == old(self).field,
            final(self).rounds == old(self).rounds,
            final(self).poly_points@ == old(self).poly_points@,
    {
        let n = self.matrices_num.len();
        let count = self.matrices_num[n - 1];
        self.matrices_num.set(n - 1, count + 1);
        let ghost w0 = widths_view(self.matrix_widths@);
        let mut widths = self.matrix_widths.pop().unwrap();
        widths.push(matrix.len());
        self.matrix_widths.push(widths);
        assert(widths_view(self.matrix_widths@) =~= w0.update(w0.len() - 1, w0.last().push(matrix@.len() as usize)));
        let flat = flatten_columns(&matrix);
        let ghost m0 = rounds_view(self.matrices@);
        let mut last = self.matrices.pop().unwrap();
        let ghost l0 = last@;
        last.push(flat);
        assert(last@.map_values(|x: Vec<String>| x@) =~= l0.map_values(|x: Vec<String>| x@).push(row_major(matrix@)));
        self.matrices.push(last);
        assert(rounds_view(self.matrices@) =~= m0.update(m0.len() - 1, m0.last().push(row_major(matrix@))));
    }
}

/// Writes containers out; the writing itself is left to the caller.
pub struct Dumper;

impl Dumper {
    /// A dumper.
    pub fn new() -> (r: Self) {
        Dumper
    }
}

/// Reads containers of one field.
pub struct Loader {
    pub field: Field,
}

impl Loader {
    /// A loader for the field `field`.
    pub fn new(field: Field) -> (r: Self)
        ensures
            r.field == field,
    {
        Loader { field }
    }

    /// The container holds elements of the loader's field.
    pub fn field_matches(&self, container: &MatrixContainer) -> (r: bool)
        ensures
            r == (container.field == self.field),
    {
        container.field == self.field
    }
}

} // verus!
