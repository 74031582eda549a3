//! Scalar arrays: the buffers that evaluation reads and writes, and the
//! sample matrices that it runs over. Both are `ndarray` arrays.

use crate::types::Scalar;
use ndarray::{Array1, Array2, Zip};
use vstd::prelude::*;

verus! {

/// A one-dimensional array of scalars.
#[verifier::external_body]
pub struct Buffer {
    inner: Array1<u32>,
}

/// A two-dimensional array of scalars: one row per sample, one column per
/// variable or parameter.
#[verifier::external_body]
pub struct Matrix {
    inner: Array2<u32>,
}

/// The elements of a buffer, in order.
pub uninterp spec fn buffer_items(buffer: Buffer) -> Seq<u32>;

/// The rows of a matrix, each from its first column to its last.
pub uninterp spec fn matrix_rows(matrix: Matrix) -> Seq<Seq<u32>>;

/// The number of columns of a matrix.
pub uninterp spec fn matrix_width(matrix: Matrix) -> nat;

impl View for Buffer {
    type V = Seq<Scalar>;

    open spec fn view(&self) -> Seq<Scalar> {
        buffer_items(*self)
    }
}

impl View for Matrix {
    type V = Seq<Seq<Scalar>>;

    open spec fn view(&self) -> Seq<Seq<Scalar>> {
        matrix_rows(*self)
    }
}

/// Whether an array of `n` scalars is small enough to be allocated.
pub open spec fn allocatable(n: nat) -> bool {
    4 * n <= isize::MAX
}

/// The rows of `cols` elements each that `items` holds one after the other.
pub open spec fn row_major(items: Seq<Scalar>, rows: nat, cols: nat) -> Seq<Seq<Scalar>> {
    Seq::new(rows, |i: int| Seq::new(cols, |j: int| items[i * cols + j]))
}

/// `Array1::from_vec`: an array of the elements of the vector.
#[verifier::external_body]
fn array_from_vec(items: Vec<u32>) -> (r: Buffer)
    ensures
        buffer_items(r) == items@,
{
    Buffer { inner: Array1::from_vec(items) }
}

/// `Array1::zeros`: `len` zeros. It panics on a length whose storage would
/// exceed `isize::MAX` bytes.
#[verifier::external_body]
fn array_zeros(len: usize) -> (r: Buffer)
    requires
        allocatable(len as nat),
    ensures
        buffer_items(r) == Seq::new(len as nat, |i: int| 0u32),
{
    Buffer { inner: Array1::zeros(len) }
}

/// `ArrayBase::len`: the number of elements.
#[verifier::external_body]
fn array_len(buffer: &Buffer) -> (n: usize)
    ensures
        n == buffer_items(*buffer).len(),
{
    buffer.inner.len()
}

/// Indexing a one-dimensional array, which panics out of bounds.
#[verifier::external_body]
fn array_get(buffer: &Buffer, i: usize) -> (r: u32)
    requires
        i < buffer_items(*buffer).len(),
    ensures
        r == buffer_items(*buffer)[i as int],
{
    buffer.inner[i]
}

/// Assignment to an element of a one-dimensional array, which panics out of
/// bounds.
#[verifier::external_body]
fn array_set(buffer: &mut Buffer, i: usize, value: u32)
    requires
        i < buffer_items(*old(buffer)).len(),
    ensures
        buffer_items(*final(buffer)) == buffer_items(*old(buffer)).update(i as int, value),
{
    buffer.inner[i] = value;
}

/// `ArrayBase::fill`: every element becomes `value`.
#[verifier::external_body]
fn array_fill(buffer: &mut Buffer, value: u32)
    ensures
        buffer_items(*final(buffer)) == Seq::new(
            buffer_items(*old(buffer)).len(),
            |i: int| value,
        ),
{
    buffer.inner.fill(value);
}

/// `ArrayBase::assign` from an array of the same length: an elementwise copy.
#[verifier::external_body]
fn array_assign(buffer: &mut Buffer, other: &Buffer)
    requires
        buffer_items(*old(buffer)).len() == buffer_items(*other).len(),
    ensures
        buffer_items(*final(buffer)) == buffer_items(*other),
{
    buffer.inner.assign(&other.inner);
}

/// `Array1::clone`: an array of the same elements.
#[verifier::external_body]
fn array_clone(buffer: &Buffer) -> (r: Buffer)
    ensures
        buffer_items(r) == buffer_items(*buffer),
{
    Buffer { inner: buffer.inner.clone() }
}

/// `ArrayBase::mapv`: the array of what `f` returns for each element.
#[verifier::external_body]
fn array_mapv<F: Fn(u32) -> u32>(buffer: &Buffer, f: F) -> (r: Buffer)
    requires
        forall|i: int|
            0 <= i < buffer_items(*buffer).len() ==> call_requires(
                f,
                (#[trigger] buffer_items(*buffer)[i],),
            ),
    ensures
        buffer_items(r).len() == buffer_items(*buffer).len(),
        forall|i: int|
            0 <= i < buffer_items(r).len() ==> call_ensures(
                f,
                (buffer_items(*buffer)[i],),
                #[trigger] buffer_items(r)[i],
            ),
{
    Buffer { inner: buffer.inner.mapv(f) }
}

/// `Zip::from(a).and(b).map_collect(f)`: the array of what `f` returns for
/// each pair of elements. It panics where the lengths differ.
#[verifier::external_body]
fn array_zip<F: Fn(&u32, &u32) -> u32>(a: &Buffer, b: &Buffer, f: F) -> (r: Buffer)
    requires
        buffer_items(*a).len() == buffer_items(*b).len(),
        forall|i: int|
            0 <= i < buffer_items(*a).len() ==> call_requires(
                f,
                (&#[trigger] buffer_items(*a)[i], &buffer_items(*b)[i]),
            ),
    ensures
        buffer_items(r).len() == buffer_items(*a).len(),
        forall|i: int|
            0 <= i < buffer_items(r).len() ==> call_ensures(
                f,
                (&buffer_items(*a)[i], &buffer_items(*b)[i]),
                #[trigger] buffer_items(r)[i],
            ),
{
    Buffer { inner: Zip::from(&a.inner).and(&b.inner).map_collect(f) }
}

/// `Array2::from_shape_vec` with a row-major shape: an error unless the shape
/// holds as many elements as the vector and both axes fit in `isize`.
#[verifier::external_body]
fn matrix_from_vec(rows: usize, cols: usize, items: Vec<u32>) -> (r: Option<Matrix>)
    ensures
        (rows * cols == items@.len() && rows <= isize::MAX && cols <= isize::MAX) == (r is Some),
        r is Some ==> matrix_width(r->0) == cols,
        r is Some ==> matrix_rows(r->0) == row_major(items@, rows as nat, cols as nat),
{
    match Array2::from_shape_vec((rows, cols), items) {
        Ok(inner) => Some(Matrix { inner }),
        Err(_) => None,
    }
}

/// `ArrayBase::nrows`: the number of rows.
#[verifier::external_body]
fn matrix_nrows(matrix: &Matrix) -> (n: usize)
    ensures
        n == matrix_rows(*matrix).len(),
{
    matrix.inner.nrows()
}

/// `ArrayBase::ncols`: the number of columns.
#[verifier::external_body]
fn matrix_ncols(matrix: &Matrix) -> (n: usize)
    ensures
        n == matrix_width(*matrix),
{
    matrix.inner.ncols()
}

/// Indexing a two-dimensional array, which panics out of bounds.
#[verifier::external_body]
fn matrix_get(matrix: &Matrix, row: usize, col: usize) -> (r: u32)
    requires
        row < matrix_rows(*matrix).len(),
        col < matrix_width(*matrix),
    ensures
        r == matrix_rows(*matrix)[row as int][col as int],
{
    matrix.inner[[row, col]]
}

/// `ArrayBase::column` and `to_owned`: one element of each row. It panics on
/// a column out of bounds.
#[verifier::external_body]
fn matrix_column(matrix: &Matrix, col: usize) -> (r: Buffer)
    requires
        col < matrix_width(*matrix),
    ensures
        buffer_items(r) == Seq::new(
            matrix_rows(*matrix).len(),
            |i: int| matrix_rows(*matrix)[i][col as int],
        ),
{
    Buffer { inner: matrix.inner.column(col).to_owned() }
}

/// `ArrayBase::assign` from a column view of the same length: an elementwise
/// copy of one element of each row.
#[verifier::external_body]
fn array_assign_column(buffer: &mut Buffer, matrix: &Matrix, col: usize)
    requires
        col < matrix_width(*matrix),
        buffer_items(*old(buffer)).len() == matrix_rows(*matrix).len(),
    ensures
        buffer_items(*final(buffer)) == Seq::new(
            matrix_rows(*matrix).len(),
            |i: int| matrix_rows(*matrix)[i][col as int],
        ),
{
    buffer.inner.assign(&matrix.inner.column(col));
}

impl Buffer {
    /// A buffer of the given elements.
    pub fn from_vec(items: Vec<Scalar>) -> (r: Self)
        ensures
            r@ == items@,
    {
        array_from_vec(items)
    }

    /// A buffer of `len` zeros.
    pub fn zeros(len: usize) -> (r: Self)
        requires
            allocatable(len as nat),
        ensures
            r@ == Seq::new(len as nat, |i: int| 0u32),
    {
        array_zeros(len)
    }

    /// Number of elements.
    pub fn len(&self) -> (n: usize)
        ensures
            n == self@.len(),
    {
        array_len(self)
    }

    /// The element at `i`.
    pub fn get(&self, i: usize) -> (r: Scalar)
        requires
            i < self@.len(),
        ensures
            r == self@[i as int],
    {
        array_get(self, i)
    }

    /// Writes the element at `i`.
    pub fn set(&mut self, i: usize, value: Scalar)
        requires
            i < old(self)@.len(),
        ensures
            final(self)@ == old(self)@.update(i as int, value),
    {
        array_set(self, i, value);
    }

    /// Writes `value` to every element.
    pub fn fill(&mut self, value: Scalar)
        ensures
            final(self)@ == Seq::new(old(self)@.len(), |i: int| value),
    {
        array_fill(self, value);
    }

    /// Copies the elements of a buffer of the same length.
    pub fn assign(&mut self, other: &Buffer)
        requires
            old(self)@.len() == other@.len(),
        ensures
            final(self)@ == other@,
    {
        array_assign(self, other);
    }

    /// Copies a column of as many rows as the buffer has elements.
    pub fn assign_column(&mut self, matrix: &Matrix, col: usize)
        requires
            col < matrix.width(),
            old(self)@.len() == matrix@.len(),
        ensures
            final(self)@ == matrix.column_items(col as int),
    {
        array_assign_column(self, matrix, col);
    }

    /// The buffer of what `f` returns for each element.
    pub fn mapv<F: Fn(Scalar) -> Scalar>(&self, f: F) -> (r: Buffer)
        requires
            forall|i: int| 0 <= i < self@.len() ==> call_requires(f, (#[trigger] self@[i],)),
        ensures
            r@.len() == self@.len(),
            forall|i: int|
                0 <= i < r@.len() ==> call_ensures(f, (self@[i],), #[trigger] r@[i]),
    {
        assert(self@ == buffer_items(*self));
        array_mapv(self, f)
    }

    /// The buffer of what `f` returns for each pair of elements of two buffers
    /// of the same length.
    pub fn zip_map<F: Fn(&Scalar, &Scalar) -> Scalar>(&self, other: &Buffer, f: F) -> (r: Buffer)
        requires
            self@.len() == other@.len(),
            forall|i: int|
                0 <= i < self@.len() ==> call_requires(f, (&#[trigger] self@[i], &other@[i])),
        ensures
            r@.len() == self@.len(),
            forall|i: int|
                0 <= i < r@.len() ==> call_ensures(f, (&self@[i], &other@[i]), #[trigger] r@[i]),
    {
        array_zip(self, other, f)
    }
}

impl Clone for Buffer {
    fn clone(&self) -> (r: Self)
        ensures
            r@ == self@,
    {
        array_clone(self)
    }
}

impl Matrix {
    /// Number of columns.
    pub open spec fn width(&self) -> nat {
        matrix_width(*self)
    }

    /// The elements of a column, from the first row to the last.
    pub open spec fn column_items(&self, col: int) -> Seq<Scalar> {
        Seq::new(self@.len(), |i: int| self@[i][col])
    }

    /// A matrix of `rows` rows and `cols` columns, filled row by row; `None`
    /// unless `items` holds exactly its elements.
    pub fn from_shape_vec(rows: usize, cols: usize, items: Vec<Scalar>) -> (r: Option<Self>)
        ensures
            r is Some <==> rows * cols == items@.len() && rows <= isize::MAX && cols <= isize::MAX,
            r matches Some(m) ==> {
                &&& m@ == row_major(items@, rows as nat, cols as nat)
                &&& m.width() == cols
            },
    {
        matrix_from_vec(rows, cols, items)
    }

    /// Number of rows.
    pub fn nrows(&self) -> (n: usize)
        ensures
            n == self@.len(),
    {
        matrix_nrows(self)
    }

    /// Number of columns.
    pub fn ncols(&self) -> (n: usize)
        ensures
            n == self.width(),
    {
        matrix_ncols(self)
    }

    /// The element at `row` and `col`.
    pub fn get(&self, row: usize, col: usize) -> (r: Scalar)
        requires
            row < self@.len(),
            col < self.width(),
        ensures
            r == self@[row as int][col as int],
    {
        matrix_get(self, row, col)
    }

    /// A copy of the column `col`.
    pub fn column(&self, col: usize) -> (r: Buffer)
        requires
            col < self.width(),
        ensures
            r@ == self.column_items(col as int),
    {
        matrix_column(self, col)
    }
}

} // verus!
