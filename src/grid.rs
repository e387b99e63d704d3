//! The dense two-dimensional store that holds a maze's cells.
use crate::maze::{TileState, MAX_CELLS};
use ndarray::Array2;
use vstd::prelude::*;

verus! {

/// The cells of a maze, held in an `ndarray::Array2` indexed by `[x, y]`.
#[verifier::external_body]
#[derive(PartialEq, Eq, Debug)]
pub struct Grid {
    cells: Array2<TileState>,
}

/// The `(width, height)` of a grid.
pub uninterp spec fn grid_shape(g: Grid) -> (nat, nat);

/// The cells of a grid by `(x, y)`; meaningful inside its shape.
pub uninterp spec fn grid_cells(g: Grid) -> Map<(int, int), TileState>;

/// Relies on ndarray's `Array2::default`: an array of the given shape whose
/// every element is `TileState::default()`, which is `Empty`. It panics only
/// where the product of the non-zero axis lengths overflows `isize`.
#[verifier::external_body]
pub(crate) fn grid_default(shape: (usize, usize)) -> (r: Grid)
    requires
        shape.0 <= MAX_CELLS,
        shape.1 <= MAX_CELLS,
        shape.0 * shape.1 <= MAX_CELLS,
    ensures
        grid_shape(r) == (shape.0 as nat, shape.1 as nat),
        forall|x: int, y: int|
            0 <= x < shape.0 && 0 <= y < shape.1 ==> #[trigger] grid_cells(r)[(x, y)]
                == TileState::Empty,
{
    Grid { cells: Array2::default(shape) }
}

/// Relies on ndarray's `ArrayBase::dim`: the lengths of the two axes.
#[verifier::external_body]
pub(crate) fn grid_dim(g: &Grid) -> (r: (usize, usize))
    ensures
        r.0 == grid_shape(*g).0,
        r.1 == grid_shape(*g).1,
{
    g.cells.dim()
}

/// Relies on ndarray's `ArrayBase::get`: the element at `(x, y)`, or `None`
/// outside the shape.
#[verifier::external_body]
pub(crate) fn grid_get(g: &Grid, x: usize, y: usize) -> (r: Option<TileState>)
    ensures
        r == (if x < grid_shape(*g).0 && y < grid_shape(*g).1 {
            Some(grid_cells(*g)[(x as int, y as int)])
        } else {
            None::<TileState>
        }),
{
    g.cells.get((x, y)).copied()
}

/// Relies on ndarray's `IndexMut` for `[x, y]`: it writes one element and
/// panics outside the shape.
#[verifier::external_body]
pub(crate) fn grid_set(g: &mut Grid, x: usize, y: usize, v: TileState)
    requires
        x < grid_shape(*old(g)).0,
        y < grid_shape(*old(g)).1,
    ensures
        grid_shape(*final(g)) == grid_shape(*old(g)),
        grid_cells(*final(g)) == grid_cells(*old(g)).insert((x as int, y as int), v),
{
    g.cells[[x, y]] = v;
}

/// Relies on ndarray's `Clone` for an owned array: same shape, same elements.
#[verifier::external_body]
pub(crate) fn grid_clone(g: &Grid) -> (r: Grid)
    ensures
        grid_shape(r) == grid_shape(*g),
        grid_cells(r) == grid_cells(*g),
{
    Grid { cells: g.cells.clone() }
}

} // verus!
