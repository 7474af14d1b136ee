//! The Trapping Rain Water II algorithm.

use vstd::prelude::*;
use crate::flood::flood_levels;
use crate::grid::{
    cols_of, grid_view, hgt, in_grid, lemma_partial_within_total, lemma_spill_level_range, on_boundary, spill_level, trapped_at, water_surface,
    trapped_in_row, trapped_in_rows, trapped_total, wf_grid,
};

verus! {

/// Trapping Rain Water II.
pub struct TrappingRainWater;

impl TrappingRainWater {
    /// The final water surface height of every cell (in units).  Boundary
    /// cells give 0; an interior cell gives the higher of its spill level and
    /// its own height, so a dry cell's surface is its terrain.
    pub fn water_heights(height_map: &[Vec<u8>]) -> (water: Vec<Vec<i32>>)
        requires
            wf_grid(grid_view(height_map@)),
        ensures
            water@.len() == height_map@.len(),
            forall|r: int|
                0 <= r < height_map@.len() ==> #[trigger] water@[r]@.len() == cols_of(
                    grid_view(height_map@),
                ),
            forall|r: int, c: int|
                #![trigger water@[r]@[c]]
                in_grid(grid_view(height_map@), (r, c)) ==> water@[r]@[c] as int == water_surface(
                    grid_view(height_map@),
                    (r, c),
                ),
    {
        let ghost g = grid_view(height_map@);
        let rows = height_map.len();
        if rows == 0 {
            return Vec::new();
        }
        let cols = height_map[0].len();
        assert(g[0] == height_map@[0]@);
        if cols == 0 {
            let mut out: Vec<Vec<i32>> = Vec::new();
            let mut i: usize = 0;
            while i < rows
                invariant
                    i <= rows,
                    out@.len() == i,
                    forall|r: int| 0 <= r < i ==> #[trigger] out@[r]@.len() == 0,
                decreases rows - i,
            {
                out.push(Vec::new());
                i = i + 1;
            }
            return out;
        }
        let levels = flood_levels(height_map);
        let mut out: Vec<Vec<i32>> = Vec::new();
        let mut i: usize = 0;
        while i < rows
            invariant
                g == grid_view(height_map@),
                rows == g.len(),
                cols as int == cols_of(g),
                wf_grid(g),
                levels@.len() == rows,
                forall|r: int| 0 <= r < rows ==> #[trigger] levels@[r]@.len() == cols,
                forall|r: int, c: int|
                    #![trigger levels@[r]@[c]]
                    in_grid(g, (r, c)) ==> levels@[r]@[c] as int == (if on_boundary(g, (r, c)) {
                        0
                    } else {
                        spill_level(g, (r, c))
                    }),
                i <= rows,
                out@.len() == i,
                forall|r: int| 0 <= r < i ==> #[trigger] out@[r]@.len() == cols,
                forall|r: int, c: int|
                    #![trigger out@[r]@[c]]
                    0 <= r < i && 0 <= c < cols ==> out@[r]@[c] as int == water_surface(g, (r, c)),
            decreases rows - i,
        {
            let mut row: Vec<i32> = Vec::new();
            let mut j: usize = 0;
            assert(g[i as int] == height_map@[i as int]@);
            while j < cols
                invariant
                    g == grid_view(height_map@),
                    rows == g.len(),
                    cols as int == cols_of(g),
                    wf_grid(g),
                    i < rows,
                    levels@.len() == rows,
                    levels@[i as int]@.len() == cols,
                    cols <= height_map@[i as int]@.len(),
                    g[i as int] == height_map@[i as int]@,
                    forall|r: int, c: int|
                        #![trigger levels@[r]@[c]]
                        in_grid(g, (r, c)) ==> levels@[r]@[c] as int == (if on_boundary(
                            g,
                            (r, c),
                        ) {
                            0
                        } else {
                            spill_level(g, (r, c))
                        }),
                    j <= cols,
                    row@.len() == j,
                    forall|c: int|
                        0 <= c < j ==> #[trigger] row@[c] as int == water_surface(g, (i as int, c)),
                decreases cols - j,
            {
                let level = levels[i][j];
                let h = height_map[i][j] as i32;
                let inside = 0 < i && i + 1 < rows && 0 < j && j + 1 < cols;
                proof {
                    assert(in_grid(g, (i as int, j as int)));
                    assert(hgt(g, (i as int, j as int)) == h);
                }
                if inside && level < h {
                    row.push(h);
                } else {
                    row.push(level);
                }
                j = j + 1;
            }
            out.push(row);
            i = i + 1;
        }
        out
    }

    /// The depth of the water standing on every cell at equilibrium, in
    /// units: how far the surface rises above the terrain, 0 where it does not.
    pub fn water_depths(height_map: &[Vec<u8>]) -> (depths: Vec<Vec<usize>>)
        requires
            wf_grid(grid_view(height_map@)),
        ensures
            depths@.len() == height_map@.len(),
            forall|r: int|
                0 <= r < height_map@.len() ==> #[trigger] depths@[r]@.len() == cols_of(
                    grid_view(height_map@),
                ),
            forall|r: int, c: int|
                #![trigger depths@[r]@[c]]
                in_grid(grid_view(height_map@), (r, c)) ==> depths@[r]@[c] as int == trapped_at(
                    grid_view(height_map@),
                    (r, c),
                ),
    {
        let ghost g = grid_view(height_map@);
        let ghost cols = cols_of(g);
        let water = Self::water_heights(height_map);
        let mut depths: Vec<Vec<usize>> = Vec::new();
        let mut i: usize = 0;
        while i < water.len()
            invariant
                g == grid_view(height_map@),
                cols == cols_of(g),
                wf_grid(g),
                water@.len() == g.len(),
                height_map@.len() == g.len(),
                forall|r: int| 0 <= r < g.len() ==> #[trigger] water@[r]@.len() == cols,
                forall|r: int, c: int|
                    #![trigger water@[r]@[c]]
                    in_grid(g, (r, c)) ==> water@[r]@[c] as int == water_surface(g, (r, c)),
                i <= water@.len(),
                depths@.len() == i,
                forall|r: int| 0 <= r < i ==> #[trigger] depths@[r]@.len() == cols,
                forall|r: int, c: int|
                    #![trigger depths@[r]@[c]]
                    0 <= r < i && 0 <= c < cols ==> depths@[r]@[c] as int == trapped_at(g, (r, c)),
            decreases water@.len() - i,
        {
            let mut row: Vec<usize> = Vec::new();
            let mut j: usize = 0;
            assert(g[i as int] == height_map@[i as int]@);
            assert(cols <= g[i as int].len());
            while j < water[i].len()
                invariant
                    g == grid_view(height_map@),
                    cols == cols_of(g),
                    water@.len() == g.len(),
                    height_map@.len() == g.len(),
                    i < g.len(),
                    water@[i as int]@.len() == cols,
                    cols <= height_map@[i as int]@.len(),
                    g[i as int] == height_map@[i as int]@,
                    forall|r: int, c: int|
                        #![trigger water@[r]@[c]]
                        in_grid(g, (r, c)) ==> water@[r]@[c] as int == water_surface(g, (r, c)),
                    j <= cols,
                    row@.len() == j,
                    forall|c: int|
                        0 <= c < j ==> #[trigger] row@[c] as int == trapped_at(g, (i as int, c)),
                decreases cols - j,
            {
                let wh = water[i][j];
                let h = height_map[i][j];
                let ghost p = (i as int, j as int);
                proof {
                    assert(in_grid(g, p));
                    if !on_boundary(g, p) {
                        lemma_spill_level_range(g, p);
                    }
                    assert(hgt(g, p) == h);
                }
                if wh > h as i32 {
                    row.push((wh - h as i32) as usize);
                } else {
                    row.push(0);
                }
                j = j + 1;
            }
            depths.push(row);
            i = i + 1;
        }
        depths
    }

    /// The amount of water the grid traps, in 1x1x1 cubes: over the interior
    /// cells, the depth by which the spill level exceeds the terrain.  The
    /// total must fit in a `usize`.
    pub fn calculate(height_map: &[Vec<u8>]) -> (total: usize)
        requires
            wf_grid(grid_view(height_map@)),
            trapped_total(grid_view(height_map@)) <= usize::MAX,
        ensures
            total == trapped_total(grid_view(height_map@)),
    {
        let ghost g = grid_view(height_map@);
        let ghost cols = cols_of(g);
        let water = Self::water_heights(height_map);
        let mut total: usize = 0;
        let mut i: usize = 0;
        while i < water.len()
            invariant
                g == grid_view(height_map@),
                cols == cols_of(g),
                wf_grid(g),
                water@.len() == g.len(),
                height_map@.len() == g.len(),
                trapped_total(g) <= usize::MAX,
                forall|r: int| 0 <= r < g.len() ==> #[trigger] water@[r]@.len() == cols,
                forall|r: int, c: int|
                    #![trigger water@[r]@[c]]
                    in_grid(g, (r, c)) ==> water@[r]@[c] as int == water_surface(g, (r, c)),
                i <= water@.len(),
                total == trapped_in_rows(g, i as int),
            decreases water@.len() - i,
        {
            let mut j: usize = 0;
            assert(g[i as int] == height_map@[i as int]@);
            assert(cols <= g[i as int].len());
            while j < water[i].len()
                invariant
                    g == grid_view(height_map@),
                    cols == cols_of(g),
                    water@.len() == g.len(),
                    height_map@.len() == g.len(),
                    trapped_total(g) <= usize::MAX,
                    i < g.len(),
                    water@[i as int]@.len() == cols,
                    cols <= height_map@[i as int]@.len(),
                    g[i as int] == height_map@[i as int]@,
                    forall|r: int, c: int|
                        #![trigger water@[r]@[c]]
                        in_grid(g, (r, c)) ==> water@[r]@[c] as int == water_surface(g, (r, c)),
                    j <= cols,
                    total == trapped_in_rows(g, i as int) + trapped_in_row(g, i as int, j as int),
                decreases cols - j,
            {
                let wh = water[i][j];
                let h = height_map[i][j];
                let ghost p = (i as int, j as int);
                proof {
                    assert(in_grid(g, p));
                    if !on_boundary(g, p) {
                        lemma_spill_level_range(g, p);
                    }
                    assert(hgt(g, p) == h);
                    lemma_partial_within_total(g, i as int, j + 1);
                }
                if wh > h as i32 {
                    total = total + (wh - h as i32) as usize;
                }
                j = j + 1;
            }
            assert(trapped_in_rows(g, i + 1) == trapped_in_rows(g, i as int) + trapped_in_row(
                g,
                i as int,
                cols,
            ));
            i = i + 1;
        }
        total
    }
}

} // verus!
