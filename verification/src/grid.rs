//! Grids of terrain heights, drain paths, and the spill level of a cell:
//! the height at which water standing on the cell runs off the grid.

use vstd::prelude::*;

verus! {

/// The rows of a height map as sequences.
pub open spec fn grid_view(hm: Seq<Vec<u8>>) -> Seq<Seq<u8>> {
    hm.map_values(|row: Vec<u8>| row@)
}

/// A grid of heights, row by row.  Its width is the length of its first row.
pub open spec fn cols_of(g: Seq<Seq<u8>>) -> int {
    if g.len() == 0 {
        0
    } else {
        g[0].len() as int
    }
}

/// Every row is at least as long as the first one (longer rows are cut to it).
pub open spec fn wf_grid(g: Seq<Seq<u8>>) -> bool {
    forall|r: int| 0 <= r < g.len() ==> cols_of(g) <= #[trigger] g[r].len()
}

pub open spec fn in_grid(g: Seq<Seq<u8>>, p: (int, int)) -> bool {
    0 <= p.0 < g.len() && 0 <= p.1 < cols_of(g)
}

pub open spec fn on_boundary(g: Seq<Seq<u8>>, p: (int, int)) -> bool {
    in_grid(g, p) && (p.0 == 0 || p.0 == g.len() - 1 || p.1 == 0 || p.1 == cols_of(g) - 1)
}

pub open spec fn interior(g: Seq<Seq<u8>>, p: (int, int)) -> bool {
    in_grid(g, p) && !on_boundary(g, p)
}

/// The terrain height of a cell.
pub open spec fn hgt(g: Seq<Seq<u8>>, p: (int, int)) -> int {
    g[p.0][p.1] as int
}

/// Two cells share an edge.
pub open spec fn adjacent(a: (int, int), b: (int, int)) -> bool {
    ||| a.0 == b.0 && (a.1 == b.1 + 1 || b.1 == a.1 + 1)
    ||| a.1 == b.1 && (a.0 == b.0 + 1 || b.0 == a.0 + 1)
}

/// Step `i` of a path goes to a neighbouring cell.
pub open spec fn linked(path: Seq<(int, int)>, i: int) -> bool {
    adjacent(path[i], path[i + 1])
}

/// A walk through the grid from a boundary cell, one neighbour at a time.
pub open spec fn is_drain_path(g: Seq<Seq<u8>>, path: Seq<(int, int)>) -> bool {
    &&& path.len() >= 1
    &&& on_boundary(g, path[0])
    &&& forall|i: int| 0 <= i < path.len() ==> in_grid(g, #[trigger] path[i])
    &&& forall|i: int| 0 <= i < path.len() - 1 ==> #[trigger] linked(path, i)
}

/// A drain path that ends at `p`.
pub open spec fn ends_at(g: Seq<Seq<u8>>, path: Seq<(int, int)>, p: (int, int)) -> bool {
    is_drain_path(g, path) && path.last() == p
}

/// A drain path that reaches `p` from another cell: water on `p` can leave along it.
pub open spec fn drains_to(g: Seq<Seq<u8>>, path: Seq<(int, int)>, p: (int, int)) -> bool {
    ends_at(g, path, p) && path.len() >= 2
}

/// Every cell of the path before its last one is at most `w` high.
pub open spec fn prefix_below(g: Seq<Seq<u8>>, path: Seq<(int, int)>, w: int) -> bool {
    forall|i: int| 0 <= i < path.len() - 1 ==> hgt(g, #[trigger] path[i]) <= w
}

/// Some cell of the path before its last one is at least `w` high.
pub open spec fn prefix_reaches(g: Seq<Seq<u8>>, path: Seq<(int, int)>, w: int) -> bool {
    exists|i: int| 0 <= i < path.len() - 1 && hgt(g, #[trigger] path[i]) >= w
}

/// `w` is the spill level of `p`: some way off the grid crosses nothing higher
/// than `w`, and every way off the grid crosses something at least `w` high.
pub open spec fn is_spill_level(g: Seq<Seq<u8>>, p: (int, int), w: int) -> bool {
    &&& exists|path: Seq<(int, int)>| #[trigger] drains_to(g, path, p) && prefix_below(g, path, w)
    &&& forall|path: Seq<(int, int)>| #[trigger] drains_to(g, path, p) ==> prefix_reaches(g, path, w)
}

/// The spill level of an interior cell: the surface of the water it holds
/// once everything that can run off has run off.
pub open spec fn spill_level(g: Seq<Seq<u8>>, p: (int, int)) -> int {
    choose|w: int| is_spill_level(g, p, w)
}

/// The level water settles at on `q`, seen from a neighbour: its own
/// height on the boundary, else the higher of its height and its spill level.
pub open spec fn rest_level(g: Seq<Seq<u8>>, q: (int, int)) -> int {
    if on_boundary(g, q) {
        hgt(g, q)
    } else if spill_level(g, q) > hgt(g, q) {
        spill_level(g, q)
    } else {
        hgt(g, q)
    }
}

/// The surface a cell shows once the water has settled: 0 on the boundary,
/// inside the higher of its spill level and its own height (a dry cell's
/// surface is its terrain).
pub open spec fn water_surface(g: Seq<Seq<u8>>, p: (int, int)) -> int {
    if on_boundary(g, p) {
        0
    } else {
        rest_level(g, p)
    }
}

/// Water trapped above a cell, in unit cubes.
pub open spec fn trapped_at(g: Seq<Seq<u8>>, p: (int, int)) -> int {
    if interior(g, p) && spill_level(g, p) > hgt(g, p) {
        spill_level(g, p) - hgt(g, p)
    } else {
        0
    }
}

/// Water trapped in row `r`, columns `0..n`.
pub open spec fn trapped_in_row(g: Seq<Seq<u8>>, r: int, n: int) -> int
    decreases n,
{
    if n <= 0 {
        0
    } else {
        trapped_in_row(g, r, n - 1) + trapped_at(g, (r, n - 1))
    }
}

/// Water trapped in rows `0..k`.
pub open spec fn trapped_in_rows(g: Seq<Seq<u8>>, k: int) -> int
    decreases k,
{
    if k <= 0 {
        0
    } else {
        trapped_in_rows(g, k - 1) + trapped_in_row(g, k - 1, cols_of(g))
    }
}

/// All the water the grid holds, in unit cubes.
pub open spec fn trapped_total(g: Seq<Seq<u8>>) -> int {
    trapped_in_rows(g, g.len() as int)
}

/// The sum of the first `n` entries of a row of depths.
pub open spec fn row_sum(row: Seq<usize>, n: int) -> int
    decreases n,
{
    if n <= 0 {
        0
    } else {
        row_sum(row, n - 1) + row[n - 1] as int
    }
}

/// The sum of rows `0..k` of a grid of depths, each row taken whole.
pub open spec fn rows_sum(d: Seq<Seq<usize>>, k: int) -> int
    decreases k,
{
    if k <= 0 {
        0
    } else {
        rows_sum(d, k - 1) + row_sum(d[k - 1], d[k - 1].len() as int)
    }
}

/// The sum of every entry of a grid of depths.
pub open spec fn depth_total(d: Seq<Seq<usize>>) -> int {
    rows_sum(d, d.len() as int)
}

proof fn lemma_row_grows(g: Seq<Seq<u8>>, r: int, n: int, m: int)
    requires
        0 <= n <= m,
    ensures
        trapped_in_row(g, r, n) <= trapped_in_row(g, r, m),
    decreases m,
{
    if n < m {
        lemma_row_grows(g, r, n, m - 1);
    }
}

proof fn lemma_rows_grow(g: Seq<Seq<u8>>, k: int, l: int)
    requires
        0 <= k <= l,
    ensures
        trapped_in_rows(g, k) <= trapped_in_rows(g, l),
    decreases l,
{
    if k < l {
        lemma_rows_grow(g, k, l - 1);
        lemma_row_grows(g, l - 1, 0, cols_of(g));
    }
}

/// What has been counted up to cell `(i, j)`, row by row, is at most the total.
pub proof fn lemma_partial_within_total(g: Seq<Seq<u8>>, i: int, j: int)
    requires
        0 <= i < g.len(),
        0 <= j <= cols_of(g),
    ensures
        0 <= trapped_in_rows(g, i) + trapped_in_row(g, i, j) <= trapped_total(g),
{
    lemma_row_grows(g, i, 0, j);
    lemma_row_grows(g, i, j, cols_of(g));
    lemma_rows_grow(g, 0, i);
    lemma_rows_grow(g, i + 1, g.len() as int);
}

/// Some drain path to `p` crosses nothing higher than `w`.
spec fn reachable_below(g: Seq<Seq<u8>>, p: (int, int), w: int) -> bool {
    exists|path: Seq<(int, int)>| #[trigger] drains_to(g, path, p) && prefix_below(g, path, w)
}

/// The straight path down column `c` from the top row to `(r, c)`.
spec fn column_path(r: int, c: int) -> Seq<(int, int)> {
    Seq::new((r + 1) as nat, |i: int| (i, c))
}

proof fn lemma_column_path(g: Seq<Seq<u8>>, p: (int, int))
    requires
        interior(g, p),
    ensures
        drains_to(g, column_path(p.0, p.1), p),
        prefix_below(g, column_path(p.0, p.1), 255),
{
    let path = column_path(p.0, p.1);
    assert(on_boundary(g, path[0]));
    assert forall|i: int| 0 <= i < path.len() - 1 implies #[trigger] linked(path, i) by {}
    assert forall|i: int| 0 <= i < path.len() implies in_grid(g, #[trigger] path[i]) by {}
    assert forall|i: int| 0 <= i < path.len() - 1 implies hgt(g, #[trigger] path[i]) <= 255 by {}
}

proof fn lemma_spill_level_search(g: Seq<Seq<u8>>, p: (int, int), v: int)
    requires
        interior(g, p),
        v >= 0,
        reachable_below(g, p, v),
    ensures
        exists|w: int| is_spill_level(g, p, w),
    decreases v,
{
    if v > 0 && reachable_below(g, p, v - 1) {
        lemma_spill_level_search(g, p, v - 1);
    } else {
        assert forall|path: Seq<(int, int)>| #[trigger] drains_to(g, path, p) implies prefix_reaches(
            g,
            path,
            v,
        ) by {
            if !prefix_reaches(g, path, v) {
                if v == 0 {
                    assert(hgt(g, path[0]) >= 0);
                } else {
                    assert(prefix_below(g, path, v - 1));
                }
            }
        }
        assert(is_spill_level(g, p, v));
    }
}

/// Every interior cell has a spill level.
pub proof fn lemma_spill_level_exists(g: Seq<Seq<u8>>, p: (int, int))
    requires
        interior(g, p),
    ensures
        is_spill_level(g, p, spill_level(g, p)),
{
    lemma_column_path(g, p);
    assert(reachable_below(g, p, 255));
    lemma_spill_level_search(g, p, 255);
}

/// A cell has at most one spill level.
pub proof fn lemma_spill_level_unique(g: Seq<Seq<u8>>, p: (int, int), w1: int, w2: int)
    requires
        is_spill_level(g, p, w1),
        is_spill_level(g, p, w2),
    ensures
        w1 == w2,
{
    let a = choose|path: Seq<(int, int)>| #[trigger] drains_to(g, path, p) && prefix_below(g, path, w1);
    let b = choose|path: Seq<(int, int)>| #[trigger] drains_to(g, path, p) && prefix_below(g, path, w2);
    assert(prefix_reaches(g, a, w2));
    assert(prefix_reaches(g, b, w1));
}

/// A spill level is the spill level.
pub proof fn lemma_is_spill_level(g: Seq<Seq<u8>>, p: (int, int), w: int)
    requires
        is_spill_level(g, p, w),
    ensures
        spill_level(g, p) == w,
{
    lemma_spill_level_unique(g, p, w, spill_level(g, p));
}

/// The spill level of an interior cell lies between 0 and 255.
pub proof fn lemma_spill_level_range(g: Seq<Seq<u8>>, p: (int, int))
    requires
        interior(g, p),
    ensures
        0 <= spill_level(g, p) <= 255,
{
    lemma_spill_level_exists(g, p);
    let w = spill_level(g, p);
    let a = choose|path: Seq<(int, int)>| #[trigger] drains_to(g, path, p) && prefix_below(g, path, w);
    assert(prefix_reaches(g, a, w));
    assert(hgt(g, a[0]) >= 0);
}

proof fn lemma_below_neighbour(g: Seq<Seq<u8>>, p: (int, int), q: (int, int))
    requires
        interior(g, p),
        in_grid(g, q),
        adjacent(q, p),
    ensures
        spill_level(g, p) <= rest_level(g, q),
{
    lemma_spill_level_exists(g, p);
    let w = spill_level(g, p);
    if on_boundary(g, q) {
        let path = seq![q, p];
        assert(linked(path, 0));
        assert forall|i: int| 0 <= i < path.len() implies in_grid(g, #[trigger] path[i]) by {}
        assert(drains_to(g, path, p));
        assert(prefix_reaches(g, path, w));
    } else {
        lemma_spill_level_exists(g, q);
        let wq = spill_level(g, q);
        let a = choose|path: Seq<(int, int)>|
            #[trigger] drains_to(g, path, q) && prefix_below(g, path, wq);
        let path = a.push(p);
        assert forall|i: int| 0 <= i < path.len() - 1 implies #[trigger] linked(path, i) by {
            if i < a.len() - 1 {
                assert(linked(a, i));
            }
        }
        assert forall|i: int| 0 <= i < path.len() implies in_grid(g, #[trigger] path[i]) by {
            if i < a.len() {
                assert(in_grid(g, a[i]));
            }
        }
        assert(drains_to(g, path, p));
        assert(prefix_reaches(g, path, w));
        let k = choose|i: int| 0 <= i < path.len() - 1 && hgt(g, #[trigger] path[i]) >= w;
        if k < a.len() - 1 {
            assert(hgt(g, a[k]) <= wq);
        }
    }
}

proof fn lemma_neighbour_attains(g: Seq<Seq<u8>>, p: (int, int))
    requires
        interior(g, p),
    ensures
        exists|q: (int, int)|
            in_grid(g, q) && adjacent(q, p) && #[trigger] rest_level(g, q) <= spill_level(g, p),
{
    lemma_spill_level_exists(g, p);
    let w = spill_level(g, p);
    let a = choose|path: Seq<(int, int)>| #[trigger] drains_to(g, path, p) && prefix_below(g, path, w);
    let n = a.len() - 1;
    let q = a[n - 1];
    assert(linked(a, n - 1));
    assert(in_grid(g, a[n - 1]));
    assert(hgt(g, a[n - 1]) <= w);
    if !on_boundary(g, q) {
        lemma_spill_level_exists(g, q);
        let b = a.subrange(0, n);
        assert forall|i: int| 0 <= i < b.len() - 1 implies #[trigger] linked(b, i) by {
            assert(linked(a, i));
        }
        assert forall|i: int| 0 <= i < b.len() implies in_grid(g, #[trigger] b[i]) by {
            assert(in_grid(g, a[i]));
        }
        assert(b[0] == a[0]);
        assert(drains_to(g, b, q));
        assert(prefix_reaches(g, b, spill_level(g, q)));
        let k = choose|i: int| 0 <= i < b.len() - 1 && hgt(g, #[trigger] b[i]) >= spill_level(g, q);
        assert(hgt(g, a[k]) <= w);
    }
    assert(rest_level(g, q) <= w);
}

/// Water at rest: the surface held on an interior cell is exactly as high as
/// the lowest level among its four neighbours (a boundary neighbour's level
/// is its height; an interior neighbour's is its own surface or its height).
/// No held water is higher than a neighbour it could flow to, and every
/// pool is as full as its lowest rim allows.
pub proof fn law_water_at_rest(g: Seq<Seq<u8>>, p: (int, int))
    requires
        interior(g, p),
    ensures
        forall|q: (int, int)|
            in_grid(g, q) && adjacent(q, p) ==> spill_level(g, p) <= #[trigger] rest_level(g, q),
        exists|q: (int, int)|
            in_grid(g, q) && adjacent(q, p) && #[trigger] rest_level(g, q) == spill_level(g, p),
{
    assert forall|q: (int, int)|
        in_grid(g, q) && adjacent(q, p) implies spill_level(g, p) <= #[trigger] rest_level(g, q) by {
        lemma_below_neighbour(g, p, q);
    }
    lemma_neighbour_attains(g, p);
}

proof fn lemma_row_sum_zero(g: Seq<Seq<u8>>, r: int, n: int)
    requires
        forall|c: int| 0 <= c < n ==> #[trigger] trapped_at(g, (r, c)) == 0,
    ensures
        trapped_in_row(g, r, n) == 0,
    decreases n,
{
    if n > 0 {
        lemma_row_sum_zero(g, r, n - 1);
    }
}

proof fn lemma_rows_sum_zero(g: Seq<Seq<u8>>, k: int)
    requires
        forall|p: (int, int)| #[trigger] trapped_at(g, p) == 0,
    ensures
        trapped_in_rows(g, k) == 0,
    decreases k,
{
    if k > 0 {
        lemma_rows_sum_zero(g, k - 1);
        lemma_row_sum_zero(g, k - 1, cols_of(g));
    }
}

/// A grid that holds no water on any cell holds none in total.
proof fn lemma_nothing_trapped(g: Seq<Seq<u8>>)
    requires
        forall|p: (int, int)| #[trigger] trapped_at(g, p) == 0,
    ensures
        trapped_total(g) == 0,
{
    lemma_rows_sum_zero(g, g.len() as int);
}

/// A grid at most two cells wide or tall is all boundary and traps nothing.
pub proof fn law_thin_grid_traps_nothing(g: Seq<Seq<u8>>)
    requires
        g.len() <= 2 || cols_of(g) <= 2,
    ensures
        trapped_total(g) == 0,
{
    assert forall|p: (int, int)| #[trigger] trapped_at(g, p) == 0 by {
        if in_grid(g, p) {
            assert(on_boundary(g, p));
        }
    }
    lemma_nothing_trapped(g);
}

/// Terrain that never falls from left to right along any row traps no
/// water: every cell drains to the left edge over nothing higher than itself.
pub proof fn law_rising_terrain_traps_nothing(g: Seq<Seq<u8>>)
    requires
        wf_grid(g),
        forall|r: int, i: int, j: int|
            0 <= r < g.len() && 0 <= i <= j < cols_of(g) ==> #[trigger] g[r][i] <= #[trigger] g[r][j],
    ensures
        trapped_total(g) == 0,
{
    assert forall|p: (int, int)| #[trigger] trapped_at(g, p) == 0 by {
        if interior(g, p) {
            lemma_spill_level_exists(g, p);
            let path = Seq::new((p.1 + 1) as nat, |i: int| (p.0, i));
            assert(on_boundary(g, path[0]));
            assert forall|i: int| 0 <= i < path.len() - 1 implies #[trigger] linked(path, i) by {}
            assert forall|i: int| 0 <= i < path.len() implies in_grid(g, #[trigger] path[i]) by {}
            assert(drains_to(g, path, p));
            assert(prefix_reaches(g, path, spill_level(g, p)));
            let i = choose|i: int|
                0 <= i < path.len() - 1 && hgt(g, #[trigger] path[i]) >= spill_level(g, p);
            assert(g[p.0][i] <= g[p.0][p.1]);
        }
    }
    lemma_nothing_trapped(g);
}

proof fn lemma_row_sums_match(g: Seq<Seq<u8>>, d: Seq<Seq<usize>>, r: int, n: int)
    requires
        0 <= r < g.len(),
        0 <= n <= cols_of(g),
        forall|c: int|
            #![trigger d[r][c]]
            0 <= c < cols_of(g) ==> d[r][c] as int == trapped_at(g, (r, c)),
    ensures
        row_sum(d[r], n) == trapped_in_row(g, r, n),
    decreases n,
{
    if n > 0 {
        lemma_row_sums_match(g, d, r, n - 1);
        assert(d[r][n - 1] as int == trapped_at(g, (r, n - 1)));
    }
}

proof fn lemma_rows_sums_match(g: Seq<Seq<u8>>, d: Seq<Seq<usize>>, k: int)
    requires
        0 <= k <= g.len(),
        d.len() == g.len(),
        forall|r: int| 0 <= r < g.len() ==> #[trigger] d[r].len() == cols_of(g),
        forall|r: int, c: int|
            #![trigger d[r][c]]
            in_grid(g, (r, c)) ==> d[r][c] as int == trapped_at(g, (r, c)),
    ensures
        rows_sum(d, k) == trapped_in_rows(g, k),
    decreases k,
{
    if k > 0 {
        lemma_rows_sums_match(g, d, k - 1);
        assert(d[k - 1].len() == cols_of(g));
        assert forall|c: int|
            #![trigger d[k - 1][c]]
            0 <= c < cols_of(g) implies d[k - 1][c] as int == trapped_at(g, (k - 1, c)) by {
            assert(in_grid(g, (k - 1, c)));
        }
        lemma_row_sums_match(g, d, k - 1, cols_of(g));
    }
}

/// Depths that match the grid cell by cell add up to all the water the
/// grid holds: summing the water standing on each cell gives the trapped total.
pub proof fn law_depths_add_up(g: Seq<Seq<u8>>, d: Seq<Seq<usize>>)
    requires
        d.len() == g.len(),
        forall|r: int| 0 <= r < g.len() ==> #[trigger] d[r].len() == cols_of(g),
        forall|r: int, c: int|
            #![trigger d[r][c]]
            in_grid(g, (r, c)) ==> d[r][c] as int == trapped_at(g, (r, c)),
    ensures
        depth_total(d) == trapped_total(g),
{
    lemma_rows_sums_match(g, d, g.len() as int);
}

/// `lo` and `hi` have the same shape and no cell of `lo` is higher than in `hi`.
pub open spec fn lower_terrain(lo: Seq<Seq<u8>>, hi: Seq<Seq<u8>>) -> bool {
    &&& lo.len() == hi.len()
    &&& cols_of(lo) == cols_of(hi)
    &&& forall|p: (int, int)| in_grid(lo, p) ==> #[trigger] hgt(lo, p) <= hgt(hi, p)
}

proof fn lemma_spill_level_grows(lo: Seq<Seq<u8>>, hi: Seq<Seq<u8>>, p: (int, int))
    requires
        lower_terrain(lo, hi),
        interior(lo, p),
    ensures
        spill_level(lo, p) <= spill_level(hi, p),
{
    lemma_spill_level_exists(lo, p);
    lemma_spill_level_exists(hi, p);
    let w = spill_level(hi, p);
    let path = choose|path: Seq<(int, int)>|
        #[trigger] drains_to(hi, path, p) && prefix_below(hi, path, w);
    assert forall|i: int| 0 <= i < path.len() implies in_grid(lo, #[trigger] path[i]) by {
        assert(in_grid(hi, path[i]));
    }
    assert(drains_to(lo, path, p));
    assert(prefix_reaches(lo, path, spill_level(lo, p)));
    let i = choose|i: int| 0 <= i < path.len() - 1 && hgt(lo, #[trigger] path[i]) >= spill_level(lo, p);
    assert(in_grid(lo, path[i]));
    assert(hgt(lo, path[i]) <= hgt(hi, path[i]));
    assert(hgt(hi, path[i]) <= w);
}

/// Raising the terrain never lowers the water: where no cell of `lo` is
/// higher than in `hi` (same shape), every cell's settled surface on `lo`
/// is at most its surface on `hi`.
pub proof fn law_raising_terrain_raises_water(lo: Seq<Seq<u8>>, hi: Seq<Seq<u8>>, p: (int, int))
    requires
        lower_terrain(lo, hi),
        in_grid(lo, p),
    ensures
        water_surface(lo, p) <= water_surface(hi, p),
{
    if !on_boundary(lo, p) {
        lemma_spill_level_grows(lo, hi, p);
        assert(hgt(lo, p) <= hgt(hi, p));
    }
}

} // verus!
