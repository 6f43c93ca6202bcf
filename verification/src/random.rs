//! Grids with obstacles scattered at random by a generator that the caller
//! hands in.

use crate::grid::GridMap;
use rand::rngs::StdRng;
use rand::Rng;
use vstd::prelude::*;

verus! {

#[verifier::external_type_specification]
#[verifier::external_body]
pub struct ExStdRng(rand::rngs::StdRng);

/// Draws one flag from the generator with `rand::Rng::gen_ratio`, which
/// gives `true` with a chance of `numerator` in `denominator`. Nothing is
/// proved of this call. Its contract states only what the crate documents of
/// every outcome: a chance of nought never gives `true`, a chance of one
/// always does. The crate panics on a `denominator` of nought and on a
/// `numerator` above the `denominator`, so both are asked of the caller.
#[verifier::external_body]
fn draw(rng: &mut StdRng, numerator: u32, denominator: u32) -> (flag: bool)
    requires
        denominator > 0,
        numerator <= denominator,
    ensures
        numerator == 0 ==> !flag,
        numerator == denominator ==> flag,
{
    rng.gen_ratio(numerator, denominator)
}

impl GridMap {
    /// The grid of the given size whose cells are blocked as `draws` says,
    /// cell by cell in row-major order; but the first cell `(0, 0)` and the
    /// last cell `(width - 1, height - 1)`, where a search across the grid
    /// starts and ends, are passable whatever was drawn for them.
    pub fn from_draws(width: usize, height: usize, draws: Vec<bool>) -> (map: GridMap)
        requires
            width > 0,
            height > 0,
            draws.len() == width * height,
        ensures
            map.wf(),
            map@.width == width,
            map@.height == height,
            !map@.cells[0],
            !map@.cells[width * height - 1],
            forall|i: int| 0 < i < width * height - 1 ==> #[trigger] map@.cells[i] == draws@[i],
    {
        assert(width * height >= 1) by (nonlinear_arith)
            requires
                width >= 1,
                height >= 1,
        ;
        let mut tiles: Vec<bool> = draws;
        let last: usize = tiles.len() - 1;
        tiles.set(0, false);
        tiles.set(last, false);
        GridMap::assemble(width, height, tiles)
    }

    /// A grid of the given size in which each cell is blocked with a chance
    /// of `numerator` in `denominator`, decided by `rng`: one flag is drawn
    /// for each cell, and [`GridMap::from_draws`] lays the flags out.
    pub fn random(width: usize, height: usize, numerator: u32, denominator: u32, rng: &mut StdRng) -> (map:
        GridMap)
        requires
            width > 0,
            height > 0,
            width * height <= usize::MAX,
            denominator > 0,
            numerator <= denominator,
        ensures
            map.wf(),
            map@.width == width,
            map@.height == height,
            !map@.cells[0],
            !map@.cells[width * height - 1],
            numerator == 0 ==> map@.clear(),
            numerator == denominator ==> forall|i: int|
                0 < i < width * height - 1 ==> #[trigger] map@.cells[i],
    {
        let area: usize = width * height;
        let mut draws: Vec<bool> = Vec::new();
        let mut i: usize = 0;
        while i < area
            invariant
                i <= area,
                draws.len() == i,
                denominator > 0,
                numerator <= denominator,
                numerator == 0 ==> forall|j: int| 0 <= j < i ==> !(#[trigger] draws[j]),
                numerator == denominator ==> forall|j: int| 0 <= j < i ==> #[trigger] draws[j],
            decreases area - i,
        {
            let flag = draw(rng, numerator, denominator);
            draws.push(flag);
            i = i + 1;
        }
        let map = GridMap::from_draws(width, height, draws);
        proof {
            if numerator == 0 {
                assert forall|j: int| 0 <= j < map@.cells.len() implies !map@.cells[j] by {
                    if 0 < j < width * height - 1 {
                        assert(map@.cells[j] == draws@[j]);
                    }
                }
            }
        }
        map
    }
}

} // verus!
