//! The priority flood behind Trapping Rain Water II: cells are taken off a
//! frontier lowest first, starting from the boundary, and each cell reached
//! for the first time gets the highest level taken off so far.  The proof
//! keeps, for every reached cell, a drain path that gets there no higher than
//! its level, and shows that no drain path gets there lower.

use vstd::prelude::*;
use crate::frontier::Frontier;
use crate::grid::{
    adjacent, cols_of, drains_to, ends_at, grid_view, hgt, in_grid, interior, is_drain_path,
    is_spill_level,
    lemma_is_spill_level, linked, on_boundary, prefix_below, prefix_reaches, spill_level, wf_grid,
};

verus! {

/// The rows of a flag matrix as sequences.
spec fn flags(v: Seq<Vec<bool>>) -> Seq<Seq<bool>> {
    v.map_values(|row: Vec<bool>| row@)
}

spec fn flag(v: Seq<Seq<bool>>, p: (int, int)) -> bool {
    v[p.0][p.1]
}

spec fn imax(a: int, b: int) -> int {
    if a >= b {
        a
    } else {
        b
    }
}

/// Every cell of the path is at most `w` high.
spec fn all_below(g: Seq<Seq<u8>>, path: Seq<(int, int)>, w: int) -> bool {
    forall|i: int| 0 <= i < path.len() ==> hgt(g, #[trigger] path[i]) <= w
}

/// Some cell of the path is at least `w` high.
spec fn some_reaches(g: Seq<Seq<u8>>, path: Seq<(int, int)>, w: int) -> bool {
    exists|i: int| 0 <= i < path.len() && hgt(g, #[trigger] path[i]) >= w
}

/// Every drain path ending at `p` (from anywhere on the boundary) climbs to `w`.
spec fn guarded(g: Seq<Seq<u8>>, p: (int, int), w: int) -> bool {
    forall|path: Seq<(int, int)>| #[trigger] ends_at(g, path, p) ==> some_reaches(g, path, w)
}

/// The four neighbours of `p` that lie in the grid are flagged.
spec fn nbrs_flagged(g: Seq<Seq<u8>>, v: Seq<Seq<bool>>, p: (int, int)) -> bool {
    &&& p.0 > 0 ==> flag(v, (p.0 - 1, p.1))
    &&& p.0 + 1 < g.len() ==> flag(v, (p.0 + 1, p.1))
    &&& p.1 > 0 ==> flag(v, (p.0, p.1 - 1))
    &&& p.1 + 1 < cols_of(g) ==> flag(v, (p.0, p.1 + 1))
}

/// Number of `false` entries.
spec fn count_row(s: Seq<bool>) -> nat
    decreases s.len(),
{
    if s.len() == 0 {
        0
    } else {
        count_row(s.drop_last()) + if s.last() {
            0nat
        } else {
            1nat
        }
    }
}

spec fn count_false(s: Seq<Seq<bool>>) -> nat
    decreases s.len(),
{
    if s.len() == 0 {
        0
    } else {
        count_false(s.drop_last()) + count_row(s.last())
    }
}

proof fn lemma_count_row_set(s: Seq<bool>, c: int)
    requires
        0 <= c < s.len(),
        !s[c],
    ensures
        count_row(s.update(c, true)) + 1 == count_row(s),
    decreases s.len(),
{
    let t = s.update(c, true);
    if c == s.len() - 1 {
        assert(t.drop_last() =~= s.drop_last());
    } else {
        lemma_count_row_set(s.drop_last(), c);
        assert(t.drop_last() =~= s.drop_last().update(c, true));
    }
}

proof fn lemma_count_set(s: Seq<Seq<bool>>, r: int, c: int)
    requires
        0 <= r < s.len(),
        0 <= c < s[r].len(),
        !s[r][c],
    ensures
        count_false(s.update(r, s[r].update(c, true))) + 1 == count_false(s),
    decreases s.len(),
{
    let t = s.update(r, s[r].update(c, true));
    if r == s.len() - 1 {
        assert(t.drop_last() =~= s.drop_last());
        lemma_count_row_set(s[r], c);
    } else {
        lemma_count_set(s.drop_last(), r, c);
        assert(t.drop_last() =~= s.drop_last().update(r, s[r].update(c, true)));
    }
}

/// Along a path that starts flagged and ends unflagged, some flagged cell is
/// followed by an unflagged one.
proof fn lemma_exit(v: Seq<Seq<bool>>, path: Seq<(int, int)>, k: int)
    requires
        0 < k < path.len(),
        flag(v, path[0]),
        !flag(v, path[k]),
    ensures
        exists|j: int| 0 <= j < k && flag(v, #[trigger] path[j]) && !flag(v, path[j + 1]),
    decreases k,
{
    if flag(v, path[k - 1]) {
        assert(flag(v, path[k - 1]) && !flag(v, path[k - 1 + 1]));
    } else {
        lemma_exit(v, path, k - 1);
    }
}

/// Facts about a flood that every cell not yet reached inherits.
spec fn reach_facts(
    g: Seq<Seq<u8>>,
    v: Seq<Seq<bool>>,
    done: Seq<Seq<bool>>,
    m: int,
    k: int,
) -> bool {
    &&& forall|p: (int, int)| #[trigger] on_boundary(g, p) ==> flag(v, p)
    &&& forall|p: (int, int)| in_grid(g, p) && #[trigger] flag(done, p) ==> nbrs_flagged(g, v, p)
    &&& forall|p: (int, int)|
        in_grid(g, p) && #[trigger] flag(v, p) && !flag(done, p) ==> guarded(
            g,
            p,
            imax(m, hgt(g, p)),
        ) && k <= hgt(g, p)
}

/// Every drain path from the boundary to `q` climbs to `w`.
spec fn sealed(g: Seq<Seq<u8>>, q: (int, int), w: int) -> bool {
    forall|path: Seq<(int, int)>| #[trigger] drains_to(g, path, q) ==> prefix_reaches(g, path, w)
}

/// A cell with an unreached neighbour has not been expanded.
proof fn lemma_not_expanded(
    g: Seq<Seq<u8>>,
    v: Seq<Seq<bool>>,
    done: Seq<Seq<bool>>,
    p: (int, int),
    q: (int, int),
)
    requires
        in_grid(g, p),
        in_grid(g, q),
        adjacent(p, q),
        flag(done, p) ==> nbrs_flagged(g, v, p),
        !flag(v, q),
    ensures
        !flag(done, p),
{
}

/// The first `j + 1` cells of a drain path form a drain path to its `j`-th cell.
proof fn lemma_path_prefix(g: Seq<Seq<u8>>, path: Seq<(int, int)>, j: int)
    requires
        is_drain_path(g, path),
        0 <= j < path.len(),
    ensures
        ends_at(g, path.subrange(0, j + 1), path[j]),
        forall|i: int| 0 <= i <= j ==> #[trigger] path.subrange(0, j + 1)[i] == path[i],
{
    let sub = path.subrange(0, j + 1);
    assert forall|i: int| 0 <= i < sub.len() - 1 implies #[trigger] linked(sub, i) by {
        assert(linked(path, i));
    }
    assert forall|i: int| 0 <= i < sub.len() implies in_grid(g, #[trigger] sub[i]) by {
        assert(in_grid(g, path[i]));
    }
}

#[verifier::rlimit(30)]
proof fn lemma_unreached_path(
    g: Seq<Seq<u8>>,
    v: Seq<Seq<bool>>,
    done: Seq<Seq<bool>>,
    m: int,
    k: int,
    q: (int, int),
    path: Seq<(int, int)>,
)
    requires
        reach_facts(g, v, done, m, k),
        in_grid(g, q),
        !flag(v, q),
        drains_to(g, path, q),
    ensures
        prefix_reaches(g, path, imax(m, k)),
{
    let n = path.len() - 1;
    assert(on_boundary(g, path[0]));
    assert(flag(v, path[0]));
    lemma_exit(v, path, n);
    let j = choose|j: int| 0 <= j < n && flag(v, #[trigger] path[j]) && !flag(v, path[j + 1]);
    let p = path[j];
    assert(linked(path, j));
    assert(in_grid(g, path[j]));
    assert(in_grid(g, path[j + 1]));
    assert(flag(done, p) ==> nbrs_flagged(g, v, p));
    lemma_not_expanded(g, v, done, p, path[j + 1]);
    lemma_path_prefix(g, path, j);
    let sub = path.subrange(0, j + 1);
    assert(guarded(g, p, imax(m, hgt(g, p))));
    assert(some_reaches(g, sub, imax(m, hgt(g, p))));
    let i = choose|i: int| 0 <= i < sub.len() && hgt(g, #[trigger] sub[i]) >= imax(m, hgt(g, p));
    assert(sub[i] == path[i]);
    assert(hgt(g, path[i]) >= imax(m, k));
}

/// Once the cells of least level `max(m, k)` are settled, every way off the
/// grid from a cell not yet reached climbs to that level.
proof fn lemma_unreached_are_sealed(
    g: Seq<Seq<u8>>,
    v: Seq<Seq<bool>>,
    done: Seq<Seq<bool>>,
    m: int,
    k: int,
)
    requires
        reach_facts(g, v, done, m, k),
    ensures
        forall|q: (int, int)| in_grid(g, q) && !#[trigger] flag(v, q) ==> sealed(g, q, imax(m, k)),
{
    assert forall|q: (int, int)| in_grid(g, q) && !#[trigger] flag(v, q) implies sealed(
        g,
        q,
        imax(m, k),
    ) by {
        assert forall|path: Seq<(int, int)>| #[trigger] drains_to(g, path, q) implies prefix_reaches(
            g,
            path,
            imax(m, k),
        ) by {
            lemma_unreached_path(g, v, done, m, k, q, path);
        }
    }
}

/// The state of a flood in progress, as mathematical values.
struct FloodView {
    /// Cells reached.
    vis: Seq<Seq<bool>>,
    /// Cells taken off the frontier.
    fin: Seq<Seq<bool>>,
    /// Surface levels assigned so far.
    water: Seq<Seq<i32>>,
    /// The frontier: `(height, row, col)` of every reached cell not yet taken off it.
    front: Set<(int, int, int)>,
    /// For each reached cell, a drain path that gets there.
    paths: spec_fn((int, int)) -> Seq<(int, int)>,
}

#[verifier::opaque]
spec fn fv_shaped(g: Seq<Seq<u8>>, s: FloodView) -> bool {
    &&& s.vis.len() == g.len()
    &&& s.fin.len() == g.len()
    &&& s.water.len() == g.len()
    &&& forall|r: int| 0 <= r < g.len() ==> #[trigger] s.vis[r].len() == cols_of(g)
    &&& forall|r: int| 0 <= r < g.len() ==> #[trigger] s.fin[r].len() == cols_of(g)
    &&& forall|r: int| 0 <= r < g.len() ==> #[trigger] s.water[r].len() == cols_of(g)
}

#[verifier::opaque]
spec fn fv_front(g: Seq<Seq<u8>>, s: FloodView) -> bool {
    &&& forall|e: (int, int, int)|
        #[trigger] s.front.contains(e) ==> in_grid(g, (e.1, e.2)) && e.0 == hgt(g, (e.1, e.2))
            && flag(s.vis, (e.1, e.2)) && !flag(s.fin, (e.1, e.2))
    &&& forall|p: (int, int)|
        in_grid(g, p) && #[trigger] flag(s.vis, p) && !flag(s.fin, p) ==> s.front.contains(
            (hgt(g, p), p.0, p.1),
        )
}

#[verifier::opaque]
spec fn fv_fin_vis(g: Seq<Seq<u8>>, s: FloodView) -> bool {
    forall|p: (int, int)| in_grid(g, p) && #[trigger] flag(s.fin, p) ==> flag(s.vis, p)
}

#[verifier::opaque]
spec fn fv_bnd_vis(g: Seq<Seq<u8>>, s: FloodView) -> bool {
    forall|p: (int, int)| #[trigger] on_boundary(g, p) ==> flag(s.vis, p)
}

#[verifier::opaque]
spec fn fv_closed(g: Seq<Seq<u8>>, s: FloodView, ex: Option<(int, int)>) -> bool {
    forall|p: (int, int)|
        in_grid(g, p) && #[trigger] flag(s.fin, p) && ex != Some(p) ==> nbrs_flagged(g, s.vis, p)
}

#[verifier::opaque]
spec fn fv_paths(g: Seq<Seq<u8>>, s: FloodView, m: int) -> bool {
    forall|p: (int, int)|
        in_grid(g, p) && #[trigger] flag(s.vis, p) ==> ends_at(g, (s.paths)(p), p) && all_below(
            g,
            (s.paths)(p),
            imax(m, hgt(g, p)),
        )
}

#[verifier::opaque]
spec fn fv_guard(g: Seq<Seq<u8>>, s: FloodView, m: int) -> bool {
    forall|p: (int, int)|
        in_grid(g, p) && #[trigger] flag(s.vis, p) && !flag(s.fin, p) ==> guarded(
            g,
            p,
            imax(m, hgt(g, p)),
        )
}

#[verifier::opaque]
spec fn fv_spill(g: Seq<Seq<u8>>, s: FloodView) -> bool {
    forall|p: (int, int)|
        interior(g, p) && #[trigger] flag(s.vis, p) ==> is_spill_level(
            g,
            p,
            s.water[p.0][p.1] as int,
        )
}

#[verifier::opaque]
spec fn fv_bnd_water(g: Seq<Seq<u8>>, s: FloodView) -> bool {
    forall|p: (int, int)| #[trigger] on_boundary(g, p) ==> s.water[p.0][p.1] == 0
}

/// The flood invariant at level `m`; `ex` is the cell being expanded, whose
/// neighbours may not all be reached yet.
spec fn fv_inv(g: Seq<Seq<u8>>, s: FloodView, m: int, ex: Option<(int, int)>) -> bool {
    &&& 0 <= m <= 255
    &&& fv_shaped(g, s)
    &&& fv_front(g, s)
    &&& fv_fin_vis(g, s)
    &&& fv_bnd_vis(g, s)
    &&& fv_closed(g, s, ex)
    &&& fv_paths(g, s, m)
    &&& fv_guard(g, s, m)
    &&& fv_spill(g, s)
    &&& fv_bnd_water(g, s)
}

spec fn set2<T>(v: Seq<Seq<T>>, p: (int, int), x: T) -> Seq<Seq<T>> {
    v.update(p.0, v[p.0].update(p.1, x))
}

/// The state after reaching the unreached cell `n` from `x` at level `m`.
spec fn discovered(g: Seq<Seq<u8>>, s: FloodView, x: (int, int), n: (int, int), m: int) -> FloodView {
    FloodView {
        vis: set2(s.vis, n, true),
        fin: s.fin,
        water: set2(s.water, n, m as i32),
        front: s.front.insert((hgt(g, n), n.0, n.1)),
        paths: |p: (int, int)|
            if p == n {
                (s.paths)(x).push(n)
            } else {
                (s.paths)(p)
            },
    }
}

/// The state after taking `x` (of height `k`) off the frontier.
spec fn taken(s: FloodView, k: int, x: (int, int)) -> FloodView {
    FloodView {
        vis: s.vis,
        fin: set2(s.fin, x, true),
        water: s.water,
        front: s.front.remove((k, x.0, x.1)),
        paths: s.paths,
    }
}

proof fn lemma_discover_shape_front(
    g: Seq<Seq<u8>>,
    s: FloodView,
    x: (int, int),
    n: (int, int),
    m: int,
)
    requires
        fv_shaped(g, s),
        fv_front(g, s),
        fv_fin_vis(g, s),
        in_grid(g, n),
        !flag(s.vis, n),
    ensures
        fv_shaped(g, discovered(g, s, x, n, m)),
        fv_front(g, discovered(g, s, x, n, m)),
        fv_fin_vis(g, discovered(g, s, x, n, m)),
        !s.front.contains((hgt(g, n), n.0, n.1)),
{
    reveal(fv_shaped);
    reveal(fv_front);
    reveal(fv_fin_vis);
    let t = discovered(g, s, x, n, m);
    assert(s.vis[n.0].len() == cols_of(g));
    assert(s.water[n.0].len() == cols_of(g));
    assert forall|p: (int, int)| in_grid(g, p) implies #[trigger] flag(t.vis, p) == (flag(s.vis, p)
        || p == n) by {
        assert(s.vis[p.0].len() == cols_of(g));
    }
    assert(!flag(s.fin, n));
    assert forall|r: int| 0 <= r < g.len() implies #[trigger] t.vis[r].len() == cols_of(g) by {
        assert(s.vis[r].len() == cols_of(g));
    }
    assert forall|r: int| 0 <= r < g.len() implies #[trigger] t.water[r].len() == cols_of(g) by {
        assert(s.water[r].len() == cols_of(g));
    }
    assert forall|e: (int, int, int)| #[trigger] t.front.contains(e) implies in_grid(g, (e.1, e.2))
        && e.0 == hgt(g, (e.1, e.2)) && flag(t.vis, (e.1, e.2)) && !flag(t.fin, (e.1, e.2)) by {
        if e != (hgt(g, n), n.0, n.1) {
            assert(s.front.contains(e));
        }
    }
    assert forall|p: (int, int)|
        in_grid(g, p) && #[trigger] flag(t.vis, p) && !flag(t.fin, p) implies t.front.contains(
        (hgt(g, p), p.0, p.1),
    ) by {
        if p != n {
            assert(flag(s.vis, p));
        }
    }
    assert forall|p: (int, int)| in_grid(g, p) && #[trigger] flag(t.fin, p) implies flag(t.vis, p) by {
        assert(flag(s.fin, p));
    }
}

proof fn lemma_discover_reach(g: Seq<Seq<u8>>, s: FloodView, x: (int, int), n: (int, int), m: int)
    requires
        fv_shaped(g, s),
        fv_bnd_vis(g, s),
        fv_closed(g, s, Some(x)),
        fv_bnd_water(g, s),
        in_grid(g, n),
        !flag(s.vis, n),
    ensures
        fv_bnd_vis(g, discovered(g, s, x, n, m)),
        fv_closed(g, discovered(g, s, x, n, m), Some(x)),
        fv_bnd_water(g, discovered(g, s, x, n, m)),
        interior(g, n),
{
    reveal(fv_shaped);
    reveal(fv_bnd_vis);
    reveal(fv_closed);
    reveal(fv_bnd_water);
    let t = discovered(g, s, x, n, m);
    assert(!on_boundary(g, n));
    assert(s.vis[n.0].len() == cols_of(g));
    assert forall|p: (int, int)| in_grid(g, p) implies #[trigger] flag(t.vis, p) == (flag(s.vis, p)
        || p == n) by {
        assert(s.vis[p.0].len() == cols_of(g));
    }
    assert forall|p: (int, int)| #[trigger] on_boundary(g, p) implies flag(t.vis, p) by {
        assert(flag(s.vis, p));
    }
    assert forall|p: (int, int)|
        in_grid(g, p) && #[trigger] flag(t.fin, p) && Some(x) != Some(p) implies nbrs_flagged(
        g,
        t.vis,
        p,
    ) by {
        assert(nbrs_flagged(g, s.vis, p));
    }
    assert forall|p: (int, int)| #[trigger] on_boundary(g, p) implies t.water[p.0][p.1] == 0 by {
        assert(s.water[p.0][p.1] == 0);
    }
}

proof fn lemma_discover_levels(
    g: Seq<Seq<u8>>,
    s: FloodView,
    x: (int, int),
    n: (int, int),
    m: int,
    v_old: Seq<Seq<bool>>,
)
    requires
        0 <= m <= 255,
        fv_shaped(g, s),
        fv_paths(g, s, m),
        fv_guard(g, s, m),
        fv_spill(g, s),
        in_grid(g, x),
        interior(g, n),
        adjacent(x, n),
        flag(s.vis, x),
        hgt(g, x) <= m,
        !flag(s.vis, n),
        forall|p: (int, int)| in_grid(g, p) && #[trigger] flag(v_old, p) ==> flag(s.vis, p),
        forall|q: (int, int)| in_grid(g, q) && !#[trigger] flag(v_old, q) ==> sealed(g, q, m),
    ensures
        fv_paths(g, discovered(g, s, x, n, m), m),
        fv_guard(g, discovered(g, s, x, n, m), m),
        fv_spill(g, discovered(g, s, x, n, m)),
{
    reveal(fv_shaped);
    reveal(fv_paths);
    reveal(fv_guard);
    reveal(fv_spill);
    let t = discovered(g, s, x, n, m);
    assert(s.vis[n.0].len() == cols_of(g));
    assert(s.water[n.0].len() == cols_of(g));
    assert forall|p: (int, int)| in_grid(g, p) implies #[trigger] flag(t.vis, p) == (flag(s.vis, p)
        || p == n) by {
        assert(s.vis[p.0].len() == cols_of(g));
    }
    assert(t.water[n.0][n.1] == m as i32);
    assert(!flag(v_old, n));
    assert(sealed(g, n, m));
    // the new drain path
    let px = (s.paths)(x);
    let np = px.push(n);
    assert(ends_at(g, px, x) && all_below(g, px, imax(m, hgt(g, x))));
    assert forall|i: int| 0 <= i < np.len() - 1 implies #[trigger] linked(np, i) by {
        if i < px.len() - 1 {
            assert(linked(px, i));
        }
    }
    assert forall|i: int| 0 <= i < np.len() implies in_grid(g, #[trigger] np[i]) by {
        if i < px.len() {
            assert(in_grid(g, px[i]));
        }
    }
    assert(drains_to(g, np, n));
    assert forall|i: int| 0 <= i < np.len() - 1 implies hgt(g, #[trigger] np[i]) <= m by {
        assert(hgt(g, px[i]) <= imax(m, hgt(g, x)));
    }
    assert(prefix_below(g, np, m));
    assert(is_spill_level(g, n, m));
    assert forall|i: int| 0 <= i < np.len() implies hgt(g, #[trigger] np[i]) <= imax(m, hgt(g, n)) by {
        if i < px.len() {
            assert(hgt(g, px[i]) <= imax(m, hgt(g, x)));
        }
    }
    assert forall|path: Seq<(int, int)>| #[trigger] ends_at(g, path, n) implies some_reaches(
        g,
        path,
        imax(m, hgt(g, n)),
    ) by {
        assert(path.len() >= 2);
        assert(drains_to(g, path, n));
        if m >= hgt(g, n) {
            assert(prefix_reaches(g, path, m));
            let i = choose|i: int| 0 <= i < path.len() - 1 && hgt(g, #[trigger] path[i]) >= m;
            assert(hgt(g, path[i]) >= imax(m, hgt(g, n)));
        } else {
            assert(hgt(g, path[path.len() - 1]) >= imax(m, hgt(g, n)));
        }
    }
    assert(guarded(g, n, imax(m, hgt(g, n))));
    assert forall|p: (int, int)|
        in_grid(g, p) && #[trigger] flag(t.vis, p) implies ends_at(g, (t.paths)(p), p) && all_below(
        g,
        (t.paths)(p),
        imax(m, hgt(g, p)),
    ) by {
        if p != n {
            assert(flag(s.vis, p));
        }
    }
    assert forall|p: (int, int)|
        in_grid(g, p) && #[trigger] flag(t.vis, p) && !flag(t.fin, p) implies guarded(
        g,
        p,
        imax(m, hgt(g, p)),
    ) by {
        if p != n {
            assert(flag(s.vis, p));
        }
    }
    assert forall|p: (int, int)| interior(g, p) && #[trigger] flag(t.vis, p) implies is_spill_level(
        g,
        p,
        t.water[p.0][p.1] as int,
    ) by {
        if p != n {
            assert(flag(s.vis, p));
            assert(t.water[p.0][p.1] == s.water[p.0][p.1]);
        }
    }
}

/// Reaching an unreached neighbour keeps the invariant.
proof fn lemma_discover(
    g: Seq<Seq<u8>>,
    s: FloodView,
    x: (int, int),
    n: (int, int),
    m: int,
    v_old: Seq<Seq<bool>>,
)
    requires
        fv_inv(g, s, m, Some(x)),
        in_grid(g, x),
        in_grid(g, n),
        adjacent(x, n),
        flag(s.vis, x),
        hgt(g, x) <= m,
        !flag(s.vis, n),
        forall|p: (int, int)| in_grid(g, p) && #[trigger] flag(v_old, p) ==> flag(s.vis, p),
        forall|q: (int, int)| in_grid(g, q) && !#[trigger] flag(v_old, q) ==> sealed(g, q, m),
    ensures
        fv_inv(g, discovered(g, s, x, n, m), m, Some(x)),
        !s.front.contains((hgt(g, n), n.0, n.1)),
{
    lemma_discover_shape_front(g, s, x, n, m);
    lemma_discover_reach(g, s, x, n, m);
    lemma_discover_levels(g, s, x, n, m, v_old);
}

proof fn lemma_take_state(g: Seq<Seq<u8>>, s: FloodView, m: int, k: int, x: (int, int))
    requires
        fv_inv(g, s, m, None),
        s.front.contains((k, x.0, x.1)),
        forall|e: (int, int, int)| #[trigger] s.front.contains(e) ==> k <= e.0,
    ensures
        fv_shaped(g, taken(s, k, x)),
        fv_front(g, taken(s, k, x)),
        fv_fin_vis(g, taken(s, k, x)),
        fv_bnd_vis(g, taken(s, k, x)),
        fv_closed(g, taken(s, k, x), Some(x)),
        fv_spill(g, taken(s, k, x)),
        fv_bnd_water(g, taken(s, k, x)),
        in_grid(g, x),
        flag(s.vis, x),
        hgt(g, x) == k,
        count_false(taken(s, k, x).fin) + 1 == count_false(s.fin),
{
    reveal(fv_shaped);
    reveal(fv_front);
    reveal(fv_fin_vis);
    reveal(fv_bnd_vis);
    reveal(fv_closed);
    reveal(fv_spill);
    reveal(fv_bnd_water);
    let t = taken(s, k, x);
    assert(in_grid(g, x) && k == hgt(g, x) && flag(s.vis, x) && !flag(s.fin, x));
    assert(s.fin[x.0].len() == cols_of(g));
    lemma_count_set(s.fin, x.0, x.1);
    assert forall|p: (int, int)| in_grid(g, p) implies #[trigger] flag(t.fin, p) == (flag(s.fin, p)
        || p == x) by {
        assert(s.fin[p.0].len() == cols_of(g));
    }
    assert forall|r: int| 0 <= r < g.len() implies #[trigger] t.fin[r].len() == cols_of(g) by {
        assert(s.fin[r].len() == cols_of(g));
    }
    assert forall|e: (int, int, int)| #[trigger] t.front.contains(e) implies in_grid(g, (e.1, e.2))
        && e.0 == hgt(g, (e.1, e.2)) && flag(t.vis, (e.1, e.2)) && !flag(t.fin, (e.1, e.2)) by {
        assert(s.front.contains(e));
    }
    assert forall|p: (int, int)|
        in_grid(g, p) && #[trigger] flag(t.vis, p) && !flag(t.fin, p) implies t.front.contains(
        (hgt(g, p), p.0, p.1),
    ) by {
        assert(!flag(s.fin, p));
    }
    assert forall|p: (int, int)| in_grid(g, p) && #[trigger] flag(t.fin, p) implies flag(t.vis, p) by {
        if p != x {
            assert(flag(s.fin, p));
        }
    }
    assert forall|p: (int, int)|
        in_grid(g, p) && #[trigger] flag(t.fin, p) && Some(x) != Some(p) implies nbrs_flagged(
        g,
        t.vis,
        p,
    ) by {
        assert(flag(s.fin, p));
    }
}

proof fn lemma_take_levels(g: Seq<Seq<u8>>, s: FloodView, m: int, k: int, x: (int, int))
    requires
        fv_inv(g, s, m, None),
        s.front.contains((k, x.0, x.1)),
        forall|e: (int, int, int)| #[trigger] s.front.contains(e) ==> k <= e.0,
    ensures
        fv_paths(g, taken(s, k, x), imax(m, k)),
        fv_guard(g, taken(s, k, x), imax(m, k)),
        forall|q: (int, int)| in_grid(g, q) && !#[trigger] flag(s.vis, q) ==> sealed(g, q, imax(m, k)),
        0 <= k <= 255,
{
    reveal(fv_shaped);
    reveal(fv_front);
    reveal(fv_bnd_vis);
    reveal(fv_closed);
    reveal(fv_paths);
    reveal(fv_guard);
    let t = taken(s, k, x);
    let m2 = imax(m, k);
    assert(in_grid(g, x) && k == hgt(g, x));
    assert forall|p: (int, int)| in_grid(g, p) implies #[trigger] flag(t.fin, p) == (flag(s.fin, p)
        || p == x) by {
        assert(s.fin[p.0].len() == cols_of(g));
    }
    assert forall|p: (int, int)|
        in_grid(g, p) && #[trigger] flag(t.vis, p) implies ends_at(g, (t.paths)(p), p) && all_below(
        g,
        (t.paths)(p),
        imax(m2, hgt(g, p)),
    ) by {
        assert(all_below(g, (s.paths)(p), imax(m, hgt(g, p))));
        assert forall|i: int| 0 <= i < (t.paths)(p).len() implies hgt(g, #[trigger] (t.paths)(p)[i])
            <= imax(m2, hgt(g, p)) by {
            assert(hgt(g, (s.paths)(p)[i]) <= imax(m, hgt(g, p)));
        }
    }
    assert forall|p: (int, int)|
        in_grid(g, p) && #[trigger] flag(t.vis, p) && !flag(t.fin, p) implies guarded(
        g,
        p,
        imax(m2, hgt(g, p)),
    ) by {
        assert(!flag(s.fin, p));
        assert(s.front.contains((hgt(g, p), p.0, p.1)));
        assert(imax(m2, hgt(g, p)) == imax(m, hgt(g, p)));
    }
    assert forall|p: (int, int)|
        in_grid(g, p) && #[trigger] flag(s.vis, p) && !flag(s.fin, p) implies guarded(
        g,
        p,
        imax(m, hgt(g, p)),
    ) && k <= hgt(g, p) by {
        assert(s.front.contains((hgt(g, p), p.0, p.1)));
    }
    assert(reach_facts(g, s.vis, s.fin, m, k));
    lemma_unreached_are_sealed(g, s.vis, s.fin, m, k);
}

/// Taking a cell of least height off the frontier raises the level to its
/// height and keeps the invariant, with that cell still to be expanded.
proof fn lemma_take(g: Seq<Seq<u8>>, s: FloodView, m: int, k: int, x: (int, int))
    requires
        fv_inv(g, s, m, None),
        s.front.contains((k, x.0, x.1)),
        forall|e: (int, int, int)| #[trigger] s.front.contains(e) ==> k <= e.0,
    ensures
        fv_inv(g, taken(s, k, x), imax(m, k), Some(x)),
        in_grid(g, x),
        flag(s.vis, x),
        hgt(g, x) == k,
        forall|q: (int, int)| in_grid(g, q) && !#[trigger] flag(s.vis, q) ==> sealed(g, q, imax(m, k)),
        count_false(taken(s, k, x).fin) + 1 == count_false(s.fin),
{
    lemma_take_state(g, s, m, k, x);
    lemma_take_levels(g, s, m, k, x);
}

/// Once every neighbour of the expanded cell is reached, nothing is exempt.
proof fn lemma_close(g: Seq<Seq<u8>>, s: FloodView, m: int, x: (int, int))
    requires
        fv_inv(g, s, m, Some(x)),
        nbrs_flagged(g, s.vis, x),
    ensures
        fv_inv(g, s, m, None),
{
    reveal(fv_closed);
}

proof fn lemma_rows_reached(g: Seq<Seq<u8>>, s: FloodView, m: int, r: int)
    requires
        fv_inv(g, s, m, None),
        s.front == Set::<(int, int, int)>::empty(),
        0 <= r < g.len(),
    ensures
        forall|c: int| 0 <= c < cols_of(g) ==> #[trigger] flag(s.vis, (r, c)),
    decreases r,
{
    reveal(fv_bnd_vis);
    reveal(fv_front);
    reveal(fv_closed);
    if r == 0 {
        assert forall|c: int| 0 <= c < cols_of(g) implies #[trigger] flag(s.vis, (r, c)) by {
            assert(on_boundary(g, (r, c)));
        }
    } else {
        lemma_rows_reached(g, s, m, r - 1);
        assert forall|c: int| 0 <= c < cols_of(g) implies #[trigger] flag(s.vis, (r, c)) by {
            let p = (r - 1, c);
            assert(flag(s.vis, p));
            if !flag(s.fin, p) {
                assert(s.front.contains((hgt(g, p), p.0, p.1)));
            }
            assert(nbrs_flagged(g, s.vis, p));
        }
    }
}

/// With the frontier empty, every cell has its final level.
proof fn lemma_finish(g: Seq<Seq<u8>>, s: FloodView, m: int)
    requires
        fv_inv(g, s, m, None),
        s.front == Set::<(int, int, int)>::empty(),
    ensures
        forall|p: (int, int)|
            #[trigger] in_grid(g, p) ==> s.water[p.0][p.1] as int == (if on_boundary(g, p) {
                0
            } else {
                spill_level(g, p)
            }),
{
    reveal(fv_spill);
    reveal(fv_bnd_water);
    assert forall|p: (int, int)| #[trigger] in_grid(g, p) implies s.water[p.0][p.1] as int == (
    if on_boundary(g, p) {
        0
    } else {
        spill_level(g, p)
    }) by {
        lemma_rows_reached(g, s, m, p.0);
        assert(flag(s.vis, (p.0, p.1)));
        if !on_boundary(g, p) {
            lemma_is_spill_level(g, p, s.water[p.0][p.1] as int);
        }
    }
}

/// The state right after seeding the frontier with the boundary.
proof fn lemma_seeded(g: Seq<Seq<u8>>, s: FloodView)
    requires
        g.len() >= 1,
        cols_of(g) >= 1,
        s.vis.len() == g.len(),
        s.fin.len() == g.len(),
        s.water.len() == g.len(),
        forall|r: int| 0 <= r < g.len() ==> #[trigger] s.vis[r].len() == cols_of(g),
        forall|r: int| 0 <= r < g.len() ==> #[trigger] s.fin[r].len() == cols_of(g),
        forall|r: int| 0 <= r < g.len() ==> #[trigger] s.water[r].len() == cols_of(g),
        forall|p: (int, int)| #[trigger] in_grid(g, p) ==> flag(s.vis, p) == on_boundary(g, p),
        forall|p: (int, int)| #[trigger] in_grid(g, p) ==> !flag(s.fin, p),
        forall|p: (int, int)| #[trigger] in_grid(g, p) ==> s.water[p.0][p.1] == 0,
        forall|e: (int, int, int)|
            #[trigger] s.front.contains(e) == (on_boundary(g, (e.1, e.2)) && e.0 == hgt(
                g,
                (e.1, e.2),
            )),
        forall|p: (int, int)| #[trigger] (s.paths)(p) == seq![p],
    ensures
        fv_inv(g, s, 0, None),
{
    reveal(fv_shaped);
    reveal(fv_front);
    reveal(fv_fin_vis);
    reveal(fv_bnd_vis);
    reveal(fv_closed);
    reveal(fv_paths);
    reveal(fv_guard);
    reveal(fv_spill);
    reveal(fv_bnd_water);
    assert forall|p: (int, int)|
        in_grid(g, p) && #[trigger] flag(s.vis, p) implies ends_at(g, (s.paths)(p), p) && all_below(
        g,
        (s.paths)(p),
        imax(0, hgt(g, p)),
    ) by {
        let path = (s.paths)(p);
        assert(path[0] == p);
        assert forall|i: int| 0 <= i < path.len() implies in_grid(g, #[trigger] path[i]) by {}
        assert forall|i: int| 0 <= i < path.len() implies hgt(g, #[trigger] path[i]) <= imax(
            0,
            hgt(g, p),
        ) by {}
    }
    assert forall|p: (int, int)|
        in_grid(g, p) && #[trigger] flag(s.vis, p) && !flag(s.fin, p) implies guarded(
        g,
        p,
        imax(0, hgt(g, p)),
    ) by {
        assert forall|path: Seq<(int, int)>| #[trigger] ends_at(g, path, p) implies some_reaches(
            g,
            path,
            imax(0, hgt(g, p)),
        ) by {
            assert(hgt(g, path[path.len() - 1]) >= imax(0, hgt(g, p)));
        }
    }
    assert forall|p: (int, int)| #[trigger] on_boundary(g, p) implies flag(s.vis, p) by {
        assert(in_grid(g, p));
    }
    assert forall|p: (int, int)| #[trigger] on_boundary(g, p) implies s.water[p.0][p.1] == 0 by {
        assert(in_grid(g, p));
    }
    assert forall|p: (int, int)| in_grid(g, p) && #[trigger] flag(s.fin, p) implies flag(s.vis, p) by {}
    assert forall|e: (int, int, int)| #[trigger] s.front.contains(e) implies in_grid(g, (e.1, e.2))
        && e.0 == hgt(g, (e.1, e.2)) && flag(s.vis, (e.1, e.2)) && !flag(s.fin, (e.1, e.2)) by {
        assert(in_grid(g, (e.1, e.2)));
    }
    assert forall|p: (int, int)|
        in_grid(g, p) && #[trigger] flag(s.vis, p) && !flag(s.fin, p) implies s.front.contains(
        (hgt(g, p), p.0, p.1),
    ) by {}
}

/// The rows of a level matrix as sequences.
spec fn levels(v: Seq<Vec<i32>>) -> Seq<Seq<i32>> {
    v.map_values(|row: Vec<i32>| row@)
}

/// A flood in progress.
struct Flood {
    rows: usize,
    cols: usize,
    water: Vec<Vec<i32>>,
    visited: Vec<Vec<bool>>,
    frontier: Frontier,
    done: Ghost<Seq<Seq<bool>>>,
    paths: Ghost<spec_fn((int, int)) -> Seq<(int, int)>>,
}

impl Flood {
    spec fn view(&self) -> FloodView {
        FloodView {
            vis: flags(self.visited@),
            fin: self.done@,
            water: levels(self.water@),
            front: self.frontier@,
            paths: self.paths@,
        }
    }

    /// A `rows` x `cols` flood whose frontier holds the boundary cells.
    fn seed(hm: &[Vec<u8>]) -> (st: Flood)
        requires
            wf_grid(grid_view(hm@)),
            hm@.len() >= 1,
            hm@[0]@.len() >= 1,
        ensures
            fv_inv(grid_view(hm@), st.view(), 0, None),
            st.frontier.wf(),
            st.rows == hm@.len(),
            st.cols == cols_of(grid_view(hm@)),
    {
        let ghost g = grid_view(hm@);
        let rows = hm.len();
        let cols = hm[0].len();
        assert(g[0] == hm@[0]@);
        let mut water: Vec<Vec<i32>> = Vec::new();
        let mut visited: Vec<Vec<bool>> = Vec::new();
        let mut frontier = Frontier::new();
        let mut i: usize = 0;
        while i < rows
            invariant
                g == grid_view(hm@),
                rows == g.len(),
                rows == hm@.len(),
                cols == cols_of(g),
                wf_grid(g),
                i <= rows,
                water@.len() == i,
                visited@.len() == i,
                frontier.wf(),
                forall|r: int| 0 <= r < i ==> #[trigger] water@[r]@.len() == cols,
                forall|r: int| 0 <= r < i ==> #[trigger] visited@[r]@.len() == cols,
                forall|r: int, c: int| 0 <= r < i && 0 <= c < cols ==> water@[r]@[c] == 0,
                forall|r: int, c: int|
                    0 <= r < i && 0 <= c < cols ==> visited@[r]@[c] == on_boundary(g, (r, c)),
                forall|e: (int, int, int)|
                    #[trigger] frontier@.contains(e) == (0 <= e.1 < i && on_boundary(g, (e.1, e.2))
                        && e.0 == hgt(g, (e.1, e.2))),
            decreases rows - i,
        {
            let mut wrow: Vec<i32> = Vec::new();
            let mut vrow: Vec<bool> = Vec::new();
            let mut j: usize = 0;
            assert(g[i as int] == hm@[i as int]@);
            assert(cols <= g[i as int].len());
            while j < cols
                invariant
                    g == grid_view(hm@),
                    rows == g.len(),
                    rows == hm@.len(),
                    cols == cols_of(g),
                    i < rows,
                    j <= cols,
                    cols <= hm@[i as int]@.len(),
                    g[i as int] == hm@[i as int]@,
                    wrow@.len() == j,
                    vrow@.len() == j,
                    frontier.wf(),
                    forall|c: int| 0 <= c < j ==> wrow@[c] == 0,
                    forall|c: int| 0 <= c < j ==> vrow@[c] == on_boundary(g, (i as int, c)),
                    forall|e: (int, int, int)|
                        #[trigger] frontier@.contains(e) == ((0 <= e.1 < i || (e.1 == i && 0 <= e.2
                            < j)) && on_boundary(g, (e.1, e.2)) && e.0 == hgt(g, (e.1, e.2))),
                decreases cols - j,
            {
                let edge = i == 0 || i == rows - 1 || j == 0 || j == cols - 1;
                assert(edge == on_boundary(g, (i as int, j as int)));
                wrow.push(0);
                vrow.push(edge);
                if edge {
                    let h = hm[i][j];
                    assert(!frontier@.contains((h as int, i as int, j as int)));
                    frontier.push(h, i, j);
                }
                j = j + 1;
            }
            water.push(wrow);
            visited.push(vrow);
            i = i + 1;
        }
        let ghost done = Seq::new(rows as nat, |r: int| Seq::new(cols as nat, |c: int| false));
        let st = Flood {
            rows,
            cols,
            water,
            visited,
            frontier,
            done: Ghost(done),
            paths: Ghost(|p: (int, int)| seq![p]),
        };
        proof {
            let s = st.view();
            assert forall|e: (int, int, int)|
                #[trigger] s.front.contains(e) == (on_boundary(g, (e.1, e.2)) && e.0 == hgt(
                    g,
                    (e.1, e.2),
                )) by {}
            lemma_seeded(g, s);
        }
        st
    }

    /// Reaches neighbour `n` of the cell `x` being expanded at level `m`,
    /// unless it was reached before.
    fn discover(
        &mut self,
        hm: &[Vec<u8>],
        x: usize,
        y: usize,
        nx: usize,
        ny: usize,
        m: i32,
        Ghost(v_old): Ghost<Seq<Seq<bool>>>,
    )
        requires
            wf_grid(grid_view(hm@)),
            fv_inv(grid_view(hm@), old(self).view(), m as int, Some((x as int, y as int))),
            old(self).frontier.wf(),
            in_grid(grid_view(hm@), (x as int, y as int)),
            in_grid(grid_view(hm@), (nx as int, ny as int)),
            adjacent((x as int, y as int), (nx as int, ny as int)),
            flag(old(self).view().vis, (x as int, y as int)),
            hgt(grid_view(hm@), (x as int, y as int)) <= m,
            forall|p: (int, int)|
                in_grid(grid_view(hm@), p) && #[trigger] flag(v_old, p) ==> flag(
                    old(self).view().vis,
                    p,
                ),
            forall|q: (int, int)|
                in_grid(grid_view(hm@), q) && !#[trigger] flag(v_old, q) ==> sealed(
                    grid_view(hm@),
                    q,
                    m as int,
                ),
        ensures
            fv_inv(grid_view(hm@), final(self).view(), m as int, Some((x as int, y as int))),
            final(self).frontier.wf(),
            final(self).rows == old(self).rows,
            final(self).cols == old(self).cols,
            flag(final(self).view().vis, (nx as int, ny as int)),
            forall|p: (int, int)|
                in_grid(grid_view(hm@), p) && #[trigger] flag(old(self).view().vis, p) ==> flag(
                    final(self).view().vis,
                    p,
                ),
            final(self).view().fin == old(self).view().fin,
            count_false(final(self).view().vis) <= count_false(old(self).view().vis),
    {
        let ghost g = grid_view(hm@);
        let ghost n = (nx as int, ny as int);
        let ghost xy = (x as int, y as int);
        let ghost s = self.view();
        proof {
            reveal(fv_shaped);
            assert(s.vis[nx as int].len() == cols_of(g));
            assert(s.water[nx as int].len() == cols_of(g));
            assert(flags(self.visited@)[nx as int] == self.visited@[nx as int]@);
            assert(levels(self.water@)[nx as int] == self.water@[nx as int]@);
        }
        if !self.visited[nx][ny] {
            proof {
                lemma_discover(g, s, xy, n, m as int, v_old);
                assert(g[nx as int] == hm@[nx as int]@);
                assert(cols_of(g) <= g[nx as int].len());
            }
            let h = hm[nx][ny];
            self.visited[nx].set(ny, true);
            self.water[nx].set(ny, m);
            self.frontier.push(h, nx, ny);
            self.paths = Ghost(discovered(g, s, xy, n, m as int).paths);
            proof {
                let t = discovered(g, s, xy, n, m as int);
                assert(flags(self.visited@) =~= t.vis);
                assert(levels(self.water@) =~= t.water);
                assert(self.view() == t);
                lemma_count_set(s.vis, nx as int, ny as int);
                reveal(fv_shaped);
                assert forall|p: (int, int)|
                    in_grid(g, p) && #[trigger] flag(s.vis, p) implies flag(t.vis, p) by {
                    assert(s.vis[p.0].len() == cols_of(g));
                }
            }
        }
    }

    /// Reaches every neighbour of the cell `x` just taken off the frontier.
    fn expand(&mut self, hm: &[Vec<u8>], x: usize, y: usize, m: i32, Ghost(v_old): Ghost<Seq<Seq<bool>>>)
        requires
            wf_grid(grid_view(hm@)),
            fv_inv(grid_view(hm@), old(self).view(), m as int, Some((x as int, y as int))),
            old(self).frontier.wf(),
            old(self).rows == hm@.len(),
            old(self).cols == cols_of(grid_view(hm@)),
            in_grid(grid_view(hm@), (x as int, y as int)),
            flag(old(self).view().vis, (x as int, y as int)),
            hgt(grid_view(hm@), (x as int, y as int)) <= m,
            forall|p: (int, int)|
                in_grid(grid_view(hm@), p) && #[trigger] flag(v_old, p) ==> flag(
                    old(self).view().vis,
                    p,
                ),
            forall|q: (int, int)|
                in_grid(grid_view(hm@), q) && !#[trigger] flag(v_old, q) ==> sealed(
                    grid_view(hm@),
                    q,
                    m as int,
                ),
        ensures
            fv_inv(grid_view(hm@), final(self).view(), m as int, None),
            final(self).frontier.wf(),
            final(self).rows == old(self).rows,
            final(self).cols == old(self).cols,
            final(self).view().fin == old(self).view().fin,
            count_false(final(self).view().vis) <= count_false(old(self).view().vis),
    {
        let ghost g = grid_view(hm@);
        let ghost xy = (x as int, y as int);
        if y + 1 < self.cols {
            self.discover(hm, x, y, x, y + 1, m, Ghost(v_old));
        }
        if y > 0 {
            self.discover(hm, x, y, x, y - 1, m, Ghost(v_old));
        }
        if x + 1 < self.rows {
            self.discover(hm, x, y, x + 1, y, m, Ghost(v_old));
        }
        if x > 0 {
            self.discover(hm, x, y, x - 1, y, m, Ghost(v_old));
        }
        proof {
            assert(nbrs_flagged(g, self.view().vis, xy));
            lemma_close(g, self.view(), m as int, xy);
        }
    }
}


/// The surface level of every cell of a non-empty grid: 0 on the boundary,
/// the spill level inside.
pub(crate) fn flood_levels(height_map: &[Vec<u8>]) -> (water: Vec<Vec<i32>>)
    requires
        wf_grid(grid_view(height_map@)),
        height_map@.len() >= 1,
        height_map@[0]@.len() >= 1,
    ensures
        water@.len() == height_map@.len(),
        forall|r: int|
            0 <= r < height_map@.len() ==> #[trigger] water@[r]@.len() == cols_of(
                grid_view(height_map@),
            ),
        forall|r: int, c: int|
            #![trigger water@[r]@[c]]
            in_grid(grid_view(height_map@), (r, c)) ==> water@[r]@[c] as int == (if on_boundary(
                grid_view(height_map@),
                (r, c),
            ) {
                0
            } else {
                spill_level(grid_view(height_map@), (r, c))
            }),
{
    let ghost g = grid_view(height_map@);
    let mut st = Flood::seed(height_map);
    let mut m: i32 = 0;
    loop
        invariant
            wf_grid(g),
            g == grid_view(height_map@),
            fv_inv(g, st.view(), m as int, None),
            st.frontier.wf(),
            st.rows == height_map@.len(),
            st.cols == cols_of(g),
        ensures
            fv_inv(g, st.view(), m as int, None),
            st.view().front == Set::<(int, int, int)>::empty(),
        decreases count_false(st.view().vis) + count_false(st.view().fin),
    {
        let ghost s0 = st.view();
        match st.frontier.pop() {
            None => {
                assert(st.view() == s0);
                break ;
            },
            Some((k, x, y)) => {
                let ghost xy = (x as int, y as int);
                proof {
                    lemma_take(g, s0, m as int, k as int, xy);
                }
                st.done = Ghost(set2(st.done@, xy, true));
                assert(st.view() == taken(s0, k as int, xy));
                let ghost m0 = m as int;
                if (k as i32) > m {
                    m = k as i32;
                }
                assert(m as int == imax(m0, k as int));
                st.expand(height_map, x, y, m, Ghost(s0.vis));
            },
        }
    }
    proof {
        lemma_finish(g, st.view(), m as int);
        reveal(fv_shaped);
        assert forall|r: int, c: int|
            #![trigger st.water@[r]@[c]]
            in_grid(g, (r, c)) implies st.water@[r]@[c] as int == (if on_boundary(g, (r, c)) {
            0
        } else {
            spill_level(g, (r, c))
        }) by {
            assert(in_grid(g, (r, c)));
            assert(levels(st.water@)[r] == st.water@[r]@);
        }
        assert forall|r: int| 0 <= r < height_map@.len() implies #[trigger] st.water@[r]@.len()
            == cols_of(g) by {
            assert(levels(st.water@)[r] == st.water@[r]@);
        }
    }
    st.water
}

} // verus!
