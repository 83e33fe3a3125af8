//! Dense two-dimensional tables of the `ndarray` crate, as the library sees
//! them. Each table type holds one array and speaks of its cells as rows of
//! a sequence.
use ndarray::{Array2, ShapeBuilder};
use vstd::prelude::*;

verus! {

/// A table of counts.
#[verifier::external_body]
pub struct CountTable {
    inner: Array2<u32>,
}

/// The cells of a table of counts, row by row.
pub uninterp spec fn count_cells(t: CountTable) -> Seq<Seq<u32>>;

/// A `rows` by `cols` table of zeros.
pub open spec fn zero_rows<T>(rows: nat, cols: nat, zero: T) -> Seq<Seq<T>> {
    Seq::new(rows, |_i: int| Seq::new(cols, |_j: int| zero))
}

/// Relies on `Array2::zeros`: a table of the given shape, all zero, laid out
/// by columns; it panics when an axis length or the number of cells overflows `isize`.
#[verifier::external_body]
pub(crate) fn count_table_zeros(rows: usize, cols: usize) -> (t: CountTable)
    requires
        rows <= isize::MAX,
        cols <= isize::MAX,
        rows * cols <= isize::MAX,
    ensures
        count_cells(t) == zero_rows(rows as nat, cols as nat, 0u32),
{
    CountTable { inner: Array2::zeros((rows, cols).f()) }
}

/// Relies on indexing an `Array2` by `(row, column)`: the cell's value; it
/// panics out of bounds.
#[verifier::external_body]
pub(crate) fn count_at(t: &CountTable, i: usize, j: usize) -> (r: u32)
    requires
        i < count_cells(*t).len(),
        j < count_cells(*t)[i as int].len(),
    ensures
        r == count_cells(*t)[i as int][j as int],
{
    t.inner[(i, j)]
}

/// Relies on mutable indexing of an `Array2` by `(row, column)`: writes one
/// cell; it panics out of bounds.
#[verifier::external_body]
pub(crate) fn count_set(t: &mut CountTable, i: usize, j: usize, v: u32)
    requires
        i < count_cells(*old(t)).len(),
        j < count_cells(*old(t))[i as int].len(),
    ensures
        count_cells(*final(t)) == count_cells(*old(t)).update(
            i as int,
            count_cells(*old(t))[i as int].update(j as int, v),
        ),
{
    t.inner[(i, j)] = v;
}

/// A table of scores.
#[verifier::external_body]
pub struct ScoreTable {
    inner: Array2<u128>,
}

/// The cells of a table of scores, row by row.
pub uninterp spec fn score_cells(t: ScoreTable) -> Seq<Seq<u128>>;

/// Relies on `Array2::zeros`: a table of the given shape, all zero, laid out
/// by columns; it panics when an axis length or the number of cells overflows `isize`.
#[verifier::external_body]
pub(crate) fn score_table_zeros(rows: usize, cols: usize) -> (t: ScoreTable)
    requires
        rows <= isize::MAX,
        cols <= isize::MAX,
        rows * cols <= isize::MAX,
    ensures
        score_cells(t) == zero_rows(rows as nat, cols as nat, 0u128),
{
    ScoreTable { inner: Array2::zeros((rows, cols).f()) }
}

/// Relies on indexing an `Array2` by `(row, column)`: the cell's value; it
/// panics out of bounds.
#[verifier::external_body]
pub(crate) fn score_at(t: &ScoreTable, i: usize, j: usize) -> (r: u128)
    requires
        i < score_cells(*t).len(),
        j < score_cells(*t)[i as int].len(),
    ensures
        r == score_cells(*t)[i as int][j as int],
{
    t.inner[(i, j)]
}

/// Relies on mutable indexing of an `Array2` by `(row, column)`: writes one
/// cell; it panics out of bounds.
#[verifier::external_body]
pub(crate) fn score_set(t: &mut ScoreTable, i: usize, j: usize, v: u128)
    requires
        i < score_cells(*old(t)).len(),
        j < score_cells(*old(t))[i as int].len(),
    ensures
        score_cells(*final(t)) == score_cells(*old(t)).update(
            i as int,
            score_cells(*old(t))[i as int].update(j as int, v),
        ),
{
    t.inner[(i, j)] = v;
}

/// A table of back pointers.
#[verifier::external_body]
pub struct StepTable {
    inner: Array2<u8>,
}

/// The cells of a table of back pointers, row by row.
pub uninterp spec fn step_cells(t: StepTable) -> Seq<Seq<u8>>;

/// Relies on `Array2::zeros`: a table of the given shape, all zero, laid out
/// by columns; it panics when an axis length or the number of cells overflows `isize`.
#[verifier::external_body]
pub(crate) fn step_table_zeros(rows: usize, cols: usize) -> (t: StepTable)
    requires
        rows <= isize::MAX,
        cols <= isize::MAX,
        rows * cols <= isize::MAX,
    ensures
        step_cells(t) == zero_rows(rows as nat, cols as nat, 0u8),
{
    StepTable { inner: Array2::zeros((rows, cols).f()) }
}

/// Relies on indexing an `Array2` by `(row, column)`: the cell's value; it
/// panics out of bounds.
#[verifier::external_body]
pub(crate) fn step_at(t: &StepTable, i: usize, j: usize) -> (r: u8)
    requires
        i < step_cells(*t).len(),
        j < step_cells(*t)[i as int].len(),
    ensures
        r == step_cells(*t)[i as int][j as int],
{
    t.inner[(i, j)]
}

/// Relies on mutable indexing of an `Array2` by `(row, column)`: writes one
/// cell; it panics out of bounds.
#[verifier::external_body]
pub(crate) fn step_set(t: &mut StepTable, i: usize, j: usize, v: u8)
    requires
        i < step_cells(*old(t)).len(),
        j < step_cells(*old(t))[i as int].len(),
    ensures
        step_cells(*final(t)) == step_cells(*old(t)).update(
            i as int,
            step_cells(*old(t))[i as int].update(j as int, v),
        ),
{
    t.inner[(i, j)] = v;
}

} // verus!
