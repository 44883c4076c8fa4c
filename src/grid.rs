//! Placement on a square grid centred on the origin.
//!
//! Positions are given in half steps of the grid spacing, so that they are
//! exact integers: a tile whose `x_half_steps` is `h` stands at
//! `h * spacing / 2` along x, and likewise along z.
use vstd::prelude::*;

verus! {

/// `g` is the side of the smallest square grid with room for `n` items:
/// `g == ceil(sqrt(n))`.
pub open spec fn is_grid_size(n: nat, g: nat) -> bool {
    &&& g * g >= n
    &&& g == 0 || (g - 1) * (g - 1) < n
}

/// There is one grid size for each count of items.
pub proof fn lemma_grid_size_unique(n: nat, g1: nat, g2: nat)
    requires
        is_grid_size(n, g1),
        is_grid_size(n, g2),
    ensures
        g1 == g2,
{
    if g1 < g2 {
        assert((g1 as int) * (g1 as int) <= (g2 - 1) * (g2 - 1)) by (nonlinear_arith)
            requires g1 <= g2 - 1, g1 >= 0;
    }
    if g2 < g1 {
        assert((g2 as int) * (g2 as int) <= (g1 - 1) * (g1 - 1)) by (nonlinear_arith)
            requires g2 <= g1 - 1, g2 >= 0;
    }
}

/// The side of the smallest square grid with room for `count` items.
pub fn grid_size_for(count: usize) -> (g: usize)
    ensures
        is_grid_size(count as nat, g as nat),
{
    let mut g: usize = 0;
    loop
        invariant
            g <= count,
            g == 0 || (g - 1) * (g - 1) < count,
        ensures
            g * g >= count,
            g == 0 || (g - 1) * (g - 1) < count,
        decreases count - g,
    {
        assert((g as int) * (g as int) <= u128::MAX) by (nonlinear_arith)
            requires 0 <= g <= usize::MAX;
        if (g as u128) * (g as u128) >= count as u128 {
            break;
        }
        assert(g < count) by (nonlinear_arith)
            requires g * g < count, 0 <= g;
        g = g + 1;
    }
    g
}

/// Where one tile stands: its row and column, and its offset from the
/// origin in half steps of the spacing.
#[derive(Debug, Clone, Copy, PartialEq, Eq)]
pub struct GridPosition {
    pub row: usize,
    pub col: usize,
    pub x_half_steps: i128,
    pub z_half_steps: i128,
}

/// The place of item `index` on a grid of side `grid_size`: items fill the
/// rows in turn, and the grid is centred on the origin, so that column `c`
/// stands `2c - (grid_size - 1)` half steps along x and row `r` as many along z.
pub open spec fn grid_position(index: nat, grid_size: nat) -> GridPosition {
    GridPosition {
        row: (index / grid_size) as usize,
        col: (index % grid_size) as usize,
        x_half_steps: (2 * (index % grid_size) - (grid_size - 1)) as i128,
        z_half_steps: (2 * (index / grid_size) - (grid_size - 1)) as i128,
    }
}

/// The place of an item depends on its index and on the number of items
/// alone: any two grid sizes computed for the same count place it alike.
pub proof fn lemma_grid_position_deterministic(count: nat, index: nat, g1: nat, g2: nat)
    requires
        is_grid_size(count, g1),
        is_grid_size(count, g2),
    ensures
        grid_position(index, g1) == grid_position(index, g2),
{
    lemma_grid_size_unique(count, g1, g2);
}

/// The place of item `index` on a grid of side `grid_size`.
pub fn calculate_grid_position(index: usize, grid_size: usize) -> (r: GridPosition)
    requires
        grid_size > 0,
    ensures
        r == grid_position(index as nat, grid_size as nat),
{
    let row = index / grid_size;
    let col = index % grid_size;
    let offset = grid_size as i128 - 1;
    GridPosition {
        row,
        col,
        x_half_steps: 2 * (col as i128) - offset,
        z_half_steps: 2 * (row as i128) - offset,
    }
}

} // verus!
