//! The water a grid traps does not depend on which way it is looked at:
//! mirroring the rows, mirroring the columns or transposing the grid leaves
//! the trapped total unchanged.

use vstd::prelude::*;
use crate::grid::{
    adjacent, cols_of, drains_to, hgt, in_grid, interior, is_spill_level, lemma_is_spill_level,
    lemma_spill_level_exists, linked, on_boundary, prefix_below, prefix_reaches, spill_level,
    trapped_at, trapped_in_row, trapped_in_rows, trapped_total,
};

verus! {

/// Every row is exactly as long as the first.
pub open spec fn rectangular(g: Seq<Seq<u8>>) -> bool {
    forall|r: int| 0 <= r < g.len() ==> #[trigger] g[r].len() == cols_of(g)
}

/// The grid with its rows in reverse order.
pub open spec fn flip_rows(g: Seq<Seq<u8>>) -> Seq<Seq<u8>> {
    Seq::new(g.len(), |r: int| g[g.len() - 1 - r])
}

/// The grid with every row reversed.
pub open spec fn flip_cols(g: Seq<Seq<u8>>) -> Seq<Seq<u8>> {
    Seq::new(g.len(), |r: int| Seq::new(cols_of(g) as nat, |c: int| g[r][cols_of(g) - 1 - c]))
}

/// The grid with rows and columns exchanged.
pub open spec fn transpose(g: Seq<Seq<u8>>) -> Seq<Seq<u8>> {
    Seq::new(cols_of(g) as nat, |c: int| Seq::new(g.len(), |r: int| g[r][c]))
}

/// `f` takes every cell of `g` to a cell of `h` of the same height, on the
/// boundary exactly when the cell is, and neighbours to neighbours.
spec fn carries(g: Seq<Seq<u8>>, h: Seq<Seq<u8>>, f: spec_fn((int, int)) -> (int, int)) -> bool {
    &&& forall|p: (int, int)|
        in_grid(g, p) ==> {
            &&& in_grid(h, #[trigger] f(p))
            &&& hgt(h, f(p)) == hgt(g, p)
            &&& on_boundary(h, f(p)) == on_boundary(g, p)
        }
    &&& forall|a: (int, int), b: (int, int)| #[trigger] adjacent(a, b) ==> adjacent(f(a), f(b))
}

/// A drain path carried by `f` is a drain path of the other grid, over cells
/// of the same heights.
proof fn lemma_path_carried(
    g: Seq<Seq<u8>>,
    h: Seq<Seq<u8>>,
    f: spec_fn((int, int)) -> (int, int),
    a: Seq<(int, int)>,
    p: (int, int),
)
    requires
        carries(g, h, f),
        drains_to(g, a, p),
    ensures
        drains_to(h, a.map_values(f), f(p)),
        forall|i: int|
            0 <= i < a.len() ==> hgt(h, #[trigger] a.map_values(f)[i]) == hgt(g, a[i]),
{
    let b = a.map_values(f);
    assert forall|i: int| 0 <= i < b.len() implies in_grid(h, #[trigger] b[i]) && hgt(h, b[i])
        == hgt(g, a[i]) by {
        assert(in_grid(g, a[i]));
    }
    assert forall|i: int| 0 <= i < b.len() - 1 implies #[trigger] linked(b, i) by {
        assert(linked(a, i));
        assert(adjacent(a[i], a[i + 1]));
    }
    assert(in_grid(g, a[0]));
}

/// A cell keeps its spill level when the grid is carried onto another one
/// by a map that can be undone.
#[verifier::rlimit(30)]
proof fn lemma_spill_carried(
    g: Seq<Seq<u8>>,
    h: Seq<Seq<u8>>,
    f: spec_fn((int, int)) -> (int, int),
    fi: spec_fn((int, int)) -> (int, int),
    p: (int, int),
)
    requires
        carries(g, h, f),
        carries(h, g, fi),
        forall|q: (int, int)| in_grid(g, q) ==> #[trigger] fi(f(q)) == q,
        interior(g, p),
    ensures
        interior(h, f(p)),
        spill_level(h, f(p)) == spill_level(g, p),
{
    lemma_spill_level_exists(g, p);
    let w = spill_level(g, p);
    let a = choose|path: Seq<(int, int)>| #[trigger] drains_to(g, path, p) && prefix_below(g, path, w);
    lemma_path_carried(g, h, f, a, p);
    let b = a.map_values(f);
    assert forall|i: int| 0 <= i < b.len() - 1 implies hgt(h, #[trigger] b[i]) <= w by {
        assert(hgt(g, a[i]) <= w);
    }
    assert(prefix_below(h, b, w));
    assert(fi(f(p)) == p);
    assert forall|path: Seq<(int, int)>| #[trigger] drains_to(h, path, f(p)) implies prefix_reaches(
        h,
        path,
        w,
    ) by {
        lemma_path_carried(h, g, fi, path, f(p));
        let back = path.map_values(fi);
        assert(prefix_reaches(g, back, w));
        let k = choose|i: int| 0 <= i < back.len() - 1 && hgt(g, #[trigger] back[i]) >= w;
        assert(hgt(g, back[k]) == hgt(h, path[k]));
    }
    assert(is_spill_level(h, f(p), w));
    lemma_is_spill_level(h, f(p), w);
}

/// A cell carried onto another grid holds the same water there.
proof fn lemma_trapped_carried(
    g: Seq<Seq<u8>>,
    h: Seq<Seq<u8>>,
    f: spec_fn((int, int)) -> (int, int),
    fi: spec_fn((int, int)) -> (int, int),
    p: (int, int),
)
    requires
        carries(g, h, f),
        carries(h, g, fi),
        forall|q: (int, int)| in_grid(g, q) ==> #[trigger] fi(f(q)) == q,
        in_grid(g, p),
    ensures
        trapped_at(h, f(p)) == trapped_at(g, p),
{
    if !on_boundary(g, p) {
        lemma_spill_carried(g, h, f, fi, p);
    }
}

/// `f(0) + ... + f(n - 1)`.
pub open spec fn sum_to(f: spec_fn(int) -> int, n: int) -> int
    decreases n,
{
    if n <= 0 {
        0
    } else {
        sum_to(f, n - 1) + f(n - 1)
    }
}

/// The sum of `f(r, c)` over the first `cols` cells of row `r`.
pub open spec fn row_of(f: spec_fn(int, int) -> int, r: int, cols: int) -> int {
    sum_to(|c: int| f(r, c), cols)
}

/// The sum of `f(r, c)` over `rows` x `cols` cells, row by row.
pub open spec fn grid_sum(f: spec_fn(int, int) -> int, rows: int, cols: int) -> int {
    sum_to(|r: int| row_of(f, r, cols), rows)
}

proof fn lemma_sum_ext(f: spec_fn(int) -> int, h: spec_fn(int) -> int, n: int)
    requires
        forall|i: int| 0 <= i < n ==> #[trigger] f(i) == h(i),
    ensures
        sum_to(f, n) == sum_to(h, n),
    decreases n,
{
    if n > 0 {
        lemma_sum_ext(f, h, n - 1);
    }
}

proof fn lemma_sum_first(f: spec_fn(int) -> int, n: int)
    requires
        n >= 1,
    ensures
        sum_to(f, n) == f(0) + sum_to(|i: int| f(i + 1), n - 1),
    decreases n,
{
    if n > 1 {
        lemma_sum_first(f, n - 1);
        let g = |i: int| f(i + 1);
        lemma_sum_ext(g, |i: int| f(i + 1), n - 1);
        lemma_sum_ext(g, |i: int| f(i + 1), n - 2);
        assert(g(n - 2) == f(n - 1));
        assert(sum_to(g, n - 1) == sum_to(g, n - 2) + g(n - 2));
    } else {
        assert(sum_to(f, 0) == 0);
        assert(sum_to(|i: int| f(i + 1), 0) == 0);
    }
}

proof fn lemma_sum_reverse(f: spec_fn(int) -> int, n: int)
    ensures
        sum_to(|i: int| f(n - 1 - i), n) == sum_to(f, n),
    decreases n,
{
    if n > 0 {
        let g = |i: int| f(i + 1);
        lemma_sum_reverse(g, n - 1);
        lemma_sum_ext(|i: int| f(n - 1 - i), |i: int| g(n - 2 - i), n - 1);
        lemma_sum_first(f, n);
    }
}

proof fn lemma_sum_add(a: spec_fn(int) -> int, b: spec_fn(int) -> int, n: int)
    ensures
        sum_to(|i: int| a(i) + b(i), n) == sum_to(a, n) + sum_to(b, n),
    decreases n,
{
    if n > 0 {
        lemma_sum_add(a, b, n - 1);
    }
}

proof fn lemma_grid_sum_ext(f: spec_fn(int, int) -> int, h: spec_fn(int, int) -> int, rows: int, cols: int)
    requires
        forall|r: int, c: int| 0 <= r < rows && 0 <= c < cols ==> #[trigger] f(r, c) == h(r, c),
    ensures
        grid_sum(f, rows, cols) == grid_sum(h, rows, cols),
{
    assert forall|r: int| 0 <= r < rows implies #[trigger] row_of(f, r, cols) == row_of(h, r, cols) by {
        lemma_sum_ext(|c: int| f(r, c), |c: int| h(r, c), cols);
    }
    lemma_sum_ext(|r: int| row_of(f, r, cols), |r: int| row_of(h, r, cols), rows);
}

/// The sum of `f(r, c)` over the first `rows` cells of column `c`.
pub open spec fn col_of(f: spec_fn(int, int) -> int, c: int, rows: int) -> int {
    sum_to(|r: int| f(r, c), rows)
}

proof fn lemma_sum_zero(n: int)
    ensures
        sum_to(|i: int| 0, n) == 0,
    decreases n,
{
    if n > 0 {
        lemma_sum_zero(n - 1);
    }
}

/// Adding up column by column gives the same as row by row.
proof fn lemma_cols_sum(f: spec_fn(int, int) -> int, rows: int, cols: int)
    ensures
        sum_to(|c: int| col_of(f, c, rows), cols) == grid_sum(f, rows, cols),
    decreases rows,
{
    if rows <= 0 {
        lemma_sum_ext(|c: int| col_of(f, c, rows), |c: int| 0, cols);
        lemma_sum_zero(cols);
    } else {
        lemma_cols_sum(f, rows - 1, cols);
        let a = |c: int| col_of(f, c, rows - 1);
        let b = |c: int| f(rows - 1, c);
        lemma_sum_ext(|c: int| col_of(f, c, rows), |c: int| a(c) + b(c), cols);
        lemma_sum_add(a, b, cols);
        assert(sum_to(b, cols) == row_of(f, rows - 1, cols));
    }
}

/// Water held by each cell, as a function of its row and column.
pub open spec fn trapped_fn(g: Seq<Seq<u8>>) -> spec_fn(int, int) -> int {
    |r: int, c: int| trapped_at(g, (r, c))
}

proof fn lemma_row_as_sum(g: Seq<Seq<u8>>, r: int, n: int)
    ensures
        trapped_in_row(g, r, n) == row_of(trapped_fn(g), r, n),
    decreases n,
{
    if n > 0 {
        lemma_row_as_sum(g, r, n - 1);
    }
}

proof fn lemma_rows_as_sum(g: Seq<Seq<u8>>, k: int)
    ensures
        trapped_in_rows(g, k) == sum_to(|r: int| row_of(trapped_fn(g), r, cols_of(g)), k),
    decreases k,
{
    if k > 0 {
        lemma_rows_as_sum(g, k - 1);
        lemma_row_as_sum(g, k - 1, cols_of(g));
    }
}

/// The trapped total, as a sum over the cells.
proof fn lemma_total_as_sum(g: Seq<Seq<u8>>)
    ensures
        trapped_total(g) == grid_sum(trapped_fn(g), g.len() as int, cols_of(g)),
{
    lemma_rows_as_sum(g, g.len() as int);
}

proof fn lemma_grid_sum_empty(f: spec_fn(int, int) -> int, rows: int, cols: int)
    requires
        rows <= 0 || cols <= 0,
    ensures
        grid_sum(f, rows, cols) == 0,
{
    if rows > 0 {
        assert forall|r: int| 0 <= r < rows implies #[trigger] row_of(f, r, cols) == 0 by {}
        lemma_sum_ext(|r: int| row_of(f, r, cols), |r: int| 0, rows);
        lemma_sum_zero(rows);
    }
}

proof fn lemma_rows_reversed(f: spec_fn(int, int) -> int, rows: int, cols: int)
    ensures
        grid_sum(|r: int, c: int| f(rows - 1 - r, c), rows, cols) == grid_sum(f, rows, cols),
{
    let fr = |r: int, c: int| f(rows - 1 - r, c);
    let whole = |r: int| row_of(f, r, cols);
    assert forall|r: int| 0 <= r < rows implies #[trigger] row_of(fr, r, cols) == whole(
        rows - 1 - r,
    ) by {
        lemma_sum_ext(|c: int| fr(r, c), |c: int| f(rows - 1 - r, c), cols);
    }
    lemma_sum_ext(|r: int| row_of(fr, r, cols), |i: int| whole(rows - 1 - i), rows);
    lemma_sum_reverse(whole, rows);
}

proof fn lemma_cols_reversed(f: spec_fn(int, int) -> int, rows: int, cols: int)
    ensures
        grid_sum(|r: int, c: int| f(r, cols - 1 - c), rows, cols) == grid_sum(f, rows, cols),
{
    let fc = |r: int, c: int| f(r, cols - 1 - c);
    assert forall|r: int| 0 <= r < rows implies #[trigger] row_of(fc, r, cols) == row_of(
        f,
        r,
        cols,
    ) by {
        let fr = |c: int| f(r, c);
        lemma_sum_ext(|c: int| fc(r, c), |i: int| fr(cols - 1 - i), cols);
        lemma_sum_reverse(fr, cols);
    }
    lemma_sum_ext(|r: int| row_of(fc, r, cols), |r: int| row_of(f, r, cols), rows);
}

proof fn lemma_transposed(f: spec_fn(int, int) -> int, rows: int, cols: int)
    ensures
        grid_sum(|c: int, r: int| f(r, c), cols, rows) == grid_sum(f, rows, cols),
{
    let ft = |c: int, r: int| f(r, c);
    assert forall|c: int| 0 <= c < cols implies #[trigger] row_of(ft, c, rows) == col_of(
        f,
        c,
        rows,
    ) by {
        lemma_sum_ext(|r: int| ft(c, r), |r: int| f(r, c), rows);
    }
    lemma_sum_ext(|c: int| row_of(ft, c, rows), |c: int| col_of(f, c, rows), cols);
    lemma_cols_sum(f, rows, cols);
}

/// `(r, c)` mirrored top to bottom in a grid of `n` rows.
spec fn mirror_row(n: int) -> spec_fn((int, int)) -> (int, int) {
    |p: (int, int)| (n - 1 - p.0, p.1)
}

/// `(r, c)` mirrored left to right in a grid of `n` columns.
spec fn mirror_col(n: int) -> spec_fn((int, int)) -> (int, int) {
    |p: (int, int)| (p.0, n - 1 - p.1)
}

/// `(r, c)` with its coordinates exchanged.
spec fn swap_cell() -> spec_fn((int, int)) -> (int, int) {
    |p: (int, int)| (p.1, p.0)
}

proof fn lemma_flip_rows_carries(g: Seq<Seq<u8>>)
    requires
        rectangular(g),
        g.len() > 0,
    ensures
        carries(g, flip_rows(g), mirror_row(g.len() as int)),
        carries(flip_rows(g), g, mirror_row(g.len() as int)),
        forall|q: (int, int)|
            in_grid(g, q) ==> #[trigger] mirror_row(g.len() as int)(mirror_row(g.len() as int)(q))
                == q,
        cols_of(flip_rows(g)) == cols_of(g),
{
    let h = flip_rows(g);
    let n = g.len() as int;
    let f = mirror_row(n);
    assert(h[0] == g[n - 1]);
    assert(cols_of(h) == cols_of(g));
    assert forall|p: (int, int)| in_grid(g, p) implies {
        &&& in_grid(h, #[trigger] f(p))
        &&& hgt(h, f(p)) == hgt(g, p)
        &&& on_boundary(h, f(p)) == on_boundary(g, p)
    } by {
        assert(h[n - 1 - p.0] == g[p.0]);
    }
    assert forall|p: (int, int)| in_grid(h, p) implies {
        &&& in_grid(g, #[trigger] f(p))
        &&& hgt(g, f(p)) == hgt(h, p)
        &&& on_boundary(g, f(p)) == on_boundary(h, p)
    } by {
        assert(h[p.0] == g[n - 1 - p.0]);
    }
    assert forall|a: (int, int), b: (int, int)| #[trigger] adjacent(a, b) implies adjacent(
        f(a),
        f(b),
    ) by {}
}

proof fn lemma_flip_cols_carries(g: Seq<Seq<u8>>)
    requires
        rectangular(g),
        g.len() > 0,
    ensures
        carries(g, flip_cols(g), mirror_col(cols_of(g))),
        carries(flip_cols(g), g, mirror_col(cols_of(g))),
        forall|q: (int, int)|
            in_grid(g, q) ==> #[trigger] mirror_col(cols_of(g))(mirror_col(cols_of(g))(q)) == q,
        cols_of(flip_cols(g)) == cols_of(g),
        flip_cols(g).len() == g.len(),
{
    let h = flip_cols(g);
    let n = cols_of(g);
    let f = mirror_col(n);
    assert(h[0].len() == n);
    assert forall|p: (int, int)| in_grid(g, p) implies {
        &&& in_grid(h, #[trigger] f(p))
        &&& hgt(h, f(p)) == hgt(g, p)
        &&& on_boundary(h, f(p)) == on_boundary(g, p)
    } by {
        assert(h[p.0][n - 1 - p.1] == g[p.0][p.1]);
    }
    assert forall|p: (int, int)| in_grid(h, p) implies {
        &&& in_grid(g, #[trigger] f(p))
        &&& hgt(g, f(p)) == hgt(h, p)
        &&& on_boundary(g, f(p)) == on_boundary(h, p)
    } by {
        assert(h[p.0][p.1] == g[p.0][n - 1 - p.1]);
    }
    assert forall|a: (int, int), b: (int, int)| #[trigger] adjacent(a, b) implies adjacent(
        f(a),
        f(b),
    ) by {}
}

proof fn lemma_transpose_carries(g: Seq<Seq<u8>>)
    requires
        rectangular(g),
        g.len() > 0,
        cols_of(g) > 0,
    ensures
        carries(g, transpose(g), swap_cell()),
        carries(transpose(g), g, swap_cell()),
        forall|q: (int, int)| in_grid(g, q) ==> #[trigger] swap_cell()(swap_cell()(q)) == q,
        transpose(g).len() == cols_of(g),
        cols_of(transpose(g)) == g.len(),
{
    let h = transpose(g);
    let f = swap_cell();
    assert(h[0].len() == g.len());
    assert forall|p: (int, int)| in_grid(g, p) implies {
        &&& in_grid(h, #[trigger] f(p))
        &&& hgt(h, f(p)) == hgt(g, p)
        &&& on_boundary(h, f(p)) == on_boundary(g, p)
    } by {
        assert(h[p.1][p.0] == g[p.0][p.1]);
    }
    assert forall|p: (int, int)| in_grid(h, p) implies {
        &&& in_grid(g, #[trigger] f(p))
        &&& hgt(g, f(p)) == hgt(h, p)
        &&& on_boundary(g, f(p)) == on_boundary(h, p)
    } by {
        assert(h[p.0][p.1] == g[p.1][p.0]);
    }
    assert forall|a: (int, int), b: (int, int)| #[trigger] adjacent(a, b) implies adjacent(
        f(a),
        f(b),
    ) by {}
}

/// The water a rectangular grid traps does not depend on how the grid is
/// turned: mirroring its rows, mirroring its columns or transposing it
/// leaves the trapped total unchanged.
pub proof fn law_symmetric_grids_trap_alike(g: Seq<Seq<u8>>)
    requires
        rectangular(g),
    ensures
        trapped_total(flip_rows(g)) == trapped_total(g),
        trapped_total(flip_cols(g)) == trapped_total(g),
        trapped_total(transpose(g)) == trapped_total(g),
{
    let rows = g.len() as int;
    let cols = cols_of(g);
    let tg = trapped_fn(g);
    lemma_total_as_sum(g);
    lemma_total_as_sum(flip_rows(g));
    lemma_total_as_sum(flip_cols(g));
    lemma_total_as_sum(transpose(g));
    if rows == 0 || cols == 0 {
        lemma_grid_sum_empty(tg, rows, cols);
        lemma_grid_sum_empty(trapped_fn(flip_rows(g)), rows, cols_of(flip_rows(g)));
        lemma_grid_sum_empty(trapped_fn(flip_cols(g)), rows, cols_of(flip_cols(g)));
        lemma_grid_sum_empty(
            trapped_fn(transpose(g)),
            cols,
            cols_of(transpose(g)),
        );
    } else {
        let h = flip_rows(g);
        lemma_flip_rows_carries(g);
        assert forall|r: int, c: int| 0 <= r < rows && 0 <= c < cols implies #[trigger] trapped_fn(
            h,
        )(r, c) == tg(rows - 1 - r, c) by {
            lemma_trapped_carried(g, h, mirror_row(rows), mirror_row(rows), (rows - 1 - r, c));
        }
        lemma_grid_sum_ext(trapped_fn(h), |r: int, c: int| tg(rows - 1 - r, c), rows, cols);
        lemma_rows_reversed(tg, rows, cols);

        let h = flip_cols(g);
        lemma_flip_cols_carries(g);
        assert forall|r: int, c: int| 0 <= r < rows && 0 <= c < cols implies #[trigger] trapped_fn(
            h,
        )(r, c) == tg(r, cols - 1 - c) by {
            lemma_trapped_carried(g, h, mirror_col(cols), mirror_col(cols), (r, cols - 1 - c));
        }
        lemma_grid_sum_ext(trapped_fn(h), |r: int, c: int| tg(r, cols - 1 - c), rows, cols);
        lemma_cols_reversed(tg, rows, cols);

        let h = transpose(g);
        lemma_transpose_carries(g);
        assert forall|c: int, r: int| 0 <= c < cols && 0 <= r < rows implies #[trigger] trapped_fn(
            h,
        )(c, r) == tg(r, c) by {
            lemma_trapped_carried(g, h, swap_cell(), swap_cell(), (r, c));
        }
        lemma_grid_sum_ext(trapped_fn(h), |c: int, r: int| tg(r, c), cols, rows);
        lemma_transposed(tg, rows, cols);
    }
}

} // verus!
