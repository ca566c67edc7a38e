//! The occupancy storage: a two-dimensional array of booleans kept in an
//! `array2d::Array2D`, reached through the trusted items of this module.
use array2d::Array2D;
use vstd::prelude::*;

verus! {

#[verifier::external_type_specification]
#[verifier::external_body]
#[verifier::reject_recursive_types(T)]
pub struct ExArray2D<T>(Array2D<T>);

#[verifier::external_type_specification]
#[verifier::external_body]
pub struct ExArray2DError(array2d::Error);

/// The rows of an array of booleans, each row listing its elements by column:
/// row `r` holds the stored elements `r * num_columns .. (r + 1) * num_columns`.
pub uninterp spec fn array_rows(a: Array2D<bool>) -> Seq<Seq<bool>>;

/// The number of columns an array of booleans was made with.
pub uninterp spec fn array_columns(a: Array2D<bool>) -> nat;

/// Relies on `array2d::Array2D::filled_with`: an array of `num_rows` rows and
/// `num_columns` columns, each element equal to `element`. The element count
/// `num_rows * num_columns` is computed in `usize`, hence the bound.
#[verifier::external_body]
pub(crate) fn array_filled_with(
    element: bool,
    num_rows: usize,
    num_columns: usize,
) -> (r: Array2D<bool>)
    requires
        num_rows * num_columns <= usize::MAX,
    ensures
        array_rows(r) == Seq::new(num_rows as nat, |i: int| Seq::new(num_columns as nat, |j: int| element)),
        array_columns(r) == num_columns,
{
    Array2D::filled_with(element, num_rows, num_columns)
}

/// Relies on `array2d::Array2D::get`: the element at (`row`, `column`) when both
/// are within the array's extent, `None` otherwise.
#[verifier::external_body]
pub(crate) fn array_get(a: &Array2D<bool>, row: usize, column: usize) -> (r: Option<bool>)
    ensures
        row < array_rows(*a).len() && column < array_columns(*a) ==> r == Some(
            array_rows(*a)[row as int][column as int],
        ),
        !(row < array_rows(*a).len() && column < array_columns(*a)) ==> r is None,
{
    a.get(row, column).copied()
}

/// Relies on `array2d::Array2D::set`: within the array's extent the element at
/// (`row`, `column`) is replaced and `Ok` returned; outside it nothing changes
/// and an error is returned.
#[verifier::external_body]
pub(crate) fn array_set(
    a: &mut Array2D<bool>,
    row: usize,
    column: usize,
    element: bool,
) -> (r: Result<(), array2d::Error>)
    ensures
        array_columns(*final(a)) == array_columns(*old(a)),
        row < array_rows(*old(a)).len() && column < array_columns(*old(a)) ==> r is Ok
            && array_rows(*final(a)) == array_rows(*old(a)).update(
            row as int,
            array_rows(*old(a))[row as int].update(column as int, element),
        ),
        !(row < array_rows(*old(a)).len() && column < array_columns(*old(a))) ==> r is Err
            && array_rows(*final(a)) == array_rows(*old(a)),
{
    a.set(row, column, element)
}

} // verus!
