//! The 9×9 matrix of candidate masks, held in a nalgebra matrix.

use vstd::prelude::*;

verus! {

#[verifier::external_type_specification]
#[verifier::external_body]
#[verifier::reject_recursive_types(T)]
#[verifier::reject_recursive_types(R)]
#[verifier::reject_recursive_types(C)]
#[verifier::reject_recursive_types(S)]
pub struct ExMatrix<T, R, C, S>(nalgebra::Matrix<T, R, C, S>);

#[verifier::external_type_specification]
#[verifier::external_body]
pub struct ExConst<const R: usize>(nalgebra::Const<R>);

#[verifier::external_type_specification]
#[verifier::external_body]
#[verifier::reject_recursive_types(T)]
pub struct ExArrayStorage<T, const R: usize, const C: usize>(nalgebra::ArrayStorage<T, R, C>);

/// The matrix that holds the masks of the grid's cells.
pub type Cells = nalgebra::SMatrix<u16, 9, 9>;

/// The entries of a matrix, row after row.
pub uninterp spec fn cells_of(m: nalgebra::SMatrix<u16, 9, 9>) -> Seq<u16>;

/// Relies on nalgebra's `Matrix::from_row_slice`: the slice is read row by row.
#[verifier::external_body]
pub(crate) fn cells_from_rows(v: &Vec<u16>) -> (r: Cells)
    requires
        v@.len() == 81,
    ensures
        cells_of(r) == v@,
{
    Cells::from_row_slice(v.as_slice())
}

/// Relies on nalgebra's `Index<(usize, usize)>` for matrices: the entry at row `r`, column `c`.
#[verifier::external_body]
pub(crate) fn cell_at(m: &Cells, r: usize, c: usize) -> (v: u16)
    requires
        r < 9,
        c < 9,
    ensures
        v == cells_of(*m)[r * 9 + c],
{
    m[(r, c)]
}

/// Relies on nalgebra's `IndexMut<(usize, usize)>` for matrices: only the entry at row `r`,
/// column `c` changes.
#[verifier::external_body]
pub(crate) fn set_cell(m: &mut Cells, r: usize, c: usize, v: u16)
    requires
        r < 9,
        c < 9,
        cells_of(*old(m)).len() == 81,
    ensures
        cells_of(*final(m)) == cells_of(*old(m)).update(r * 9 + c, v),
{
    m[(r, c)] = v;
}

/// Relies on nalgebra's `PartialEq` for matrices: same shape and equal entries.
#[verifier::external_body]
pub(crate) fn same_cells(a: &Cells, b: &Cells) -> (r: bool)
    ensures
        r == (cells_of(*a) == cells_of(*b)),
{
    a == b
}

} // verus!
