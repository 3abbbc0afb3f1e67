//! Draws from the deterministic generator that the whole simulation is
//! seeded from. The generator itself is opaque here: what a draw returns is
//! only known to lie in the range that was asked for.

use crate::grid::FoodGrid;
use rand::Rng;
use rand_chacha::ChaCha8Rng;
use vstd::prelude::*;

verus! {

/// `rand_chacha::ChaCha8Rng`, carried through as an opaque value.
#[verifier::external_type_specification]
#[verifier::external_body]
pub struct ExChaCha8Rng(ChaCha8Rng);

/// `rand::Rng::gen_range` with the bounds `0` and `bound`: a number below
/// `bound`. The outside function panics on an empty range, so `bound` has
/// to be positive. Which number comes depends on the generator's state.
#[verifier::external_body]
fn draw_below(rng: &mut ChaCha8Rng, bound: usize) -> (r: usize)
    requires
        bound > 0,
    ensures
        r < bound,
{
    rng.gen_range(0, bound)
}

/// Draws the column, then the row, of one cell of `grid`.
pub fn pick_cell(rng: &mut ChaCha8Rng, grid: &FoodGrid) -> (cell: (usize, usize))
    requires
        grid.spec_width() > 0,
        grid.spec_height() > 0,
    ensures
        grid.in_bounds(cell.0 as int, cell.1 as int),
{
    let w = draw_below(rng, grid.width());
    let h = draw_below(rng, grid.height());
    (w, h)
}

} // verus!
