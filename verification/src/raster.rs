//! Integer rasterisation onto a braille canvas: each terminal cell holds a
//! 2 x 4 block of dots, and lines are drawn with Bresenham's algorithm.

use vstd::arithmetic::div_mod::{
    lemma_div_is_ordered, lemma_fundamental_div_mod, lemma_fundamental_div_mod_converse,
};
use vstd::prelude::*;

verus! {

/// Parameters for a single model render.
pub struct RenderOpts {
    /// Canvas region (x, y, width, height)
    pub region: (usize, usize, usize, usize),
    /// Whether to show the axes (shown only when rendering the terrain)
    pub show_axes: bool,
    /// Edge colour number
    pub edge_color: u8,
    /// Whether to keep the depth buffer of the previous render
    pub keep_depth: bool,
}

/// The terminal cell that holds dot `(x, y)` on a canvas `cw` cells wide.
pub open spec fn dot_cell(x: int, y: int, cw: int) -> int {
    (y / 4) * cw + x / 2
}

/// The bit of a cell's braille pattern that stands for dot `(x, y)`: the
/// column within the cell (0 or 1) plus twice the row within it (0 to 3).
pub open spec fn dot_bit(x: int, y: int) -> u8 {
    (1u8 << ((x % 2) + 2 * (y % 4)) as u8) as u8
}

/// Sets dot `(x, y)` and colours its cell; dots off the `px_w` x `px_h`
/// canvas are ignored.
pub fn paint_dot(
    x: usize,
    y: usize,
    color: u8,
    cw: usize,
    px_w: usize,
    px_h: usize,
    dots: &mut [u8],
    colors: &mut [u8],
)
    requires
        x < px_w && y < px_h ==> dot_cell(x as int, y as int, cw as int) < old(dots)@.len()
            && dot_cell(x as int, y as int, cw as int) < old(colors)@.len(),
    ensures
        x < px_w && y < px_h ==> {
            let c = dot_cell(x as int, y as int, cw as int);
            &&& final(dots)@ == old(dots)@.update(c, old(dots)@[c] | dot_bit(x as int, y as int))
            &&& final(colors)@ == old(colors)@.update(c, color)
        },
        !(x < px_w && y < px_h) ==> final(dots)@ == old(dots)@ && final(colors)@ == old(colors)@,
{
    if x >= px_w || y >= px_h {
        return;
    }
    assert((y >> 2usize) == y / 4 && (x >> 1usize) == x / 2 && (x & 1) == x % 2 && (y & 3) == y % 4)
        by (bit_vector);
    assert((y / 4) * cw <= dot_cell(x as int, y as int, cw as int));
    assert(dots@.len() == dots.len()) by {
        broadcast use vstd::slice::axiom_spec_len;
    }
    let cell = (y >> 2) * cw + (x >> 1);
    let bit: u8 = 1 << ((x & 1) + 2 * (y & 3)) as u8;
    dots[cell] = dots[cell] | bit;
    colors[cell] = color;
}

/// How far the minor coordinate has moved after `i` steps along the major
/// one, on a line that moves `minor` for `major` steps: `i * minor / major`
/// rounded to the nearest whole number, halves rounded down.
pub open spec fn minor_offset(i: int, major: int, minor: int) -> int {
    if major <= 0 {
        0
    } else {
        (2 * i * minor + major - 1) / (2 * major)
    }
}

/// The points of a line from `(a1, b1)` to `(a2, b2)` along its major axis
/// `a` (`a1 <= a2`), as `(a, b)` pairs.
pub open spec fn line_points(a1: int, b1: int, a2: int, b2: int) -> Seq<(int, int)> {
    let major = a2 - a1;
    let minor = if b1 > b2 {
        b1 - b2
    } else {
        b2 - b1
    };
    Seq::new(
        (major + 1) as nat,
        |i: int|
            (a1 + i, if b1 > b2 {
                b1 - minor_offset(i, major, minor)
            } else {
                b1 + minor_offset(i, major, minor)
            }),
    )
}

/// The pairs with their coordinates exchanged.
pub open spec fn swapped(s: Seq<(int, int)>) -> Seq<(int, int)> {
    s.map_values(|p: (int, int)| (p.1, p.0))
}

/// The points of the line from `(x1, y1)` to `(x2, y2)`, in drawing order.
pub open spec fn bresenham_points(x1: int, y1: int, x2: int, y2: int) -> Seq<(int, int)> {
    let dx = if x2 > x1 {
        x2 - x1
    } else {
        x1 - x2
    };
    let dy = if y2 > y1 {
        y2 - y1
    } else {
        y1 - y2
    };
    let (ylo, yhi) = if y1 < y2 {
        (y1, y2)
    } else {
        (y2, y1)
    };
    let (xlo, xhi) = if x1 < x2 {
        (x1, x2)
    } else {
        (x2, x1)
    };
    if dx == 0 {
        Seq::new((yhi - ylo + 1) as nat, |i: int| (x1, ylo + i))
    } else if dy == 0 {
        Seq::new((xhi - xlo + 1) as nat, |i: int| (xlo + i, y1))
    } else if dy < dx {
        if x1 > x2 {
            line_points(x2, y2, x1, y1)
        } else {
            line_points(x1, y1, x2, y2)
        }
    } else {
        if y1 > y2 {
            swapped(line_points(y2, x2, y1, x1))
        } else {
            swapped(line_points(y1, x1, y2, x2))
        }
    }
}

/// The points as integer pairs.
pub open spec fn as_ints(s: Seq<(usize, usize)>) -> Seq<(int, int)> {
    s.map_values(|p: (usize, usize)| (p.0 as int, p.1 as int))
}

proof fn lemma_offset_start(major: int, minor: int)
    requires
        major > 0,
        minor >= 0,
    ensures
        minor_offset(0, major, minor) == 0,
{
    assert(2 * 0 * minor == 0) by (nonlinear_arith);
    lemma_fundamental_div_mod_converse(major - 1, 2 * major, 0, major - 1);
}

proof fn lemma_offset_bound(i: int, major: int, minor: int)
    requires
        0 <= minor <= major,
        major > 0,
        0 <= i <= major,
    ensures
        0 <= minor_offset(i, major, minor) <= minor,
{
    assert(0 <= 2 * i * minor) by (nonlinear_arith)
        requires
            0 <= i,
            0 <= minor,
    ;
    assert(2 * i * minor <= 2 * major * minor) by (nonlinear_arith)
        requires
            0 <= i <= major,
            0 <= minor,
    ;
    lemma_div_is_ordered(0, 2 * i * minor + major - 1, 2 * major);
    lemma_div_is_ordered(2 * i * minor + major - 1, 2 * major * minor + major - 1, 2 * major);
    assert(2 * major * minor + major - 1 == minor * (2 * major) + (major - 1)) by (nonlinear_arith);
    lemma_fundamental_div_mod_converse(2 * major * minor + major - 1, 2 * major, minor, major - 1);
    lemma_div_is_ordered(0, major - 1, 2 * major);
    lemma_fundamental_div_mod_converse(major - 1, 2 * major, 0, major - 1);
}

/// One Bresenham step: with the decision value `d` that goes with the offset
/// `k` after `i` steps, the next offset is `k + 1` exactly when `d > 0`, and
/// `d` stays within `(2 minor - 2 major, 2 minor]`.
proof fn lemma_offset_step(i: int, major: int, minor: int)
    requires
        0 <= minor <= major,
        major > 0,
        0 <= i,
    ensures
        ({
            let k = minor_offset(i, major, minor);
            let d = 2 * minor * (i + 1) - major - 2 * major * k;
            &&& minor_offset(i + 1, major, minor) == if d > 0 {
                k + 1
            } else {
                k
            }
            &&& 2 * minor - 2 * major < d <= 2 * minor
        }),
{
    let a = 2 * i * minor + major - 1;
    let b = 2 * major;
    let k = minor_offset(i, major, minor);
    let d = 2 * minor * (i + 1) - major - 2 * major * k;
    lemma_fundamental_div_mod(a, b);
    let r = a % b;
    assert(a == b * k + r);
    assert(0 <= r < b);
    let a2 = 2 * (i + 1) * minor + major - 1;
    assert(2 * (i + 1) * minor == 2 * i * minor + 2 * minor) by (nonlinear_arith);
    assert(a2 == a + 2 * minor);
    assert(2 * minor * (i + 1) == 2 * i * minor + 2 * minor) by (nonlinear_arith);
    assert(b * k == 2 * major * k) by (nonlinear_arith)
        requires
            b == 2 * major,
    ;
    assert(d == r + 2 * minor + 1 - b);
    if d > 0 {
        assert(a2 == b * (k + 1) + (r + 2 * minor - b)) by (nonlinear_arith)
            requires
                a == b * k + r,
                a2 == a + 2 * minor,
        ;
        lemma_fundamental_div_mod_converse(a2, b, k + 1, r + 2 * minor - b);
    } else {
        lemma_fundamental_div_mod_converse(a2, b, k, r + 2 * minor);
    }
}

proof fn lemma_offset_end(major: int, minor: int)
    requires
        0 <= minor <= major,
        major > 0,
    ensures
        minor_offset(major, major, minor) == minor,
{
    assert(2 * major * minor + major - 1 == minor * (2 * major) + (major - 1)) by (nonlinear_arith);
    lemma_fundamental_div_mod_converse(2 * major * minor + major - 1, 2 * major, minor, major - 1);
}

/// The points of `line_points` start and end at the given ends, and each
/// step moves one along the major axis and at most one across.
proof fn lemma_line_points_joined(a1: int, b1: int, a2: int, b2: int)
    requires
        a1 < a2,
        (if b1 > b2 {
            b1 - b2
        } else {
            b2 - b1
        }) <= a2 - a1,
    ensures
        ({
            let s = line_points(a1, b1, a2, b2);
            &&& s.len() == a2 - a1 + 1
            &&& s[0] == (a1, b1)
            &&& s[s.len() - 1] == (a2, b2)
            &&& forall|i: int|
                0 <= i < s.len() - 1 ==> #[trigger] s[i + 1].0 == s[i].0 + 1 && -1 <= s[i + 1].1
                    - s[i].1 <= 1
        }),
{
    let major = a2 - a1;
    let minor = if b1 > b2 {
        b1 - b2
    } else {
        b2 - b1
    };
    let s = line_points(a1, b1, a2, b2);
    lemma_offset_start(major, minor);
    lemma_offset_end(major, minor);
    assert forall|i: int| 0 <= i < s.len() - 1 implies #[trigger] s[i + 1].0 == s[i].0 + 1 && -1
        <= s[i + 1].1 - s[i].1 <= 1 by {
        lemma_offset_step(i, major, minor);
    }
}

/// A line joins its two ends: it has one point per step along its longer
/// side plus one, its first and last points are the two ends (from whichever
/// end it is drawn), and consecutive points touch, sides or corners.
pub proof fn law_line_joins_ends(x1: int, y1: int, x2: int, y2: int)
    ensures
        ({
            let s = bresenham_points(x1, y1, x2, y2);
            let dx = if x2 > x1 {
                x2 - x1
            } else {
                x1 - x2
            };
            let dy = if y2 > y1 {
                y2 - y1
            } else {
                y1 - y2
            };
            &&& s.len() == (if dx > dy {
                dx
            } else {
                dy
            }) + 1
            &&& (s[0] == (x1, y1) && s[s.len() - 1] == (x2, y2)) || (s[0] == (x2, y2) && s[s.len()
                - 1] == (x1, y1))
            &&& forall|i: int|
                0 <= i < s.len() - 1 ==> -1 <= #[trigger] s[i + 1].0 - s[i].0 <= 1 && -1 <= s[i
                    + 1].1 - s[i].1 <= 1
        }),
{
    let s = bresenham_points(x1, y1, x2, y2);
    let dx = if x2 > x1 {
        x2 - x1
    } else {
        x1 - x2
    };
    let dy = if y2 > y1 {
        y2 - y1
    } else {
        y1 - y2
    };
    if dx == 0 || dy == 0 {
    } else if dy < dx {
        if x1 > x2 {
            lemma_line_points_joined(x2, y2, x1, y1);
        } else {
            lemma_line_points_joined(x1, y1, x2, y2);
        }
    } else {
        let t = if y1 > y2 {
            line_points(y2, x2, y1, x1)
        } else {
            line_points(y1, x1, y2, x2)
        };
        if y1 > y2 {
            lemma_line_points_joined(y2, x2, y1, x1);
        } else {
            lemma_line_points_joined(y1, x1, y2, x2);
        }
        assert(s == swapped(t));
        assert forall|i: int| 0 <= i < s.len() - 1 implies -1 <= #[trigger] s[i + 1].0 - s[i].0
            <= 1 && -1 <= s[i + 1].1 - s[i].1 <= 1 by {
            assert(t[i + 1].0 == t[i].0 + 1);
        }
    }
}

/// Appends the points of a line whose `x` grows faster than `y`, walking `x`
/// from `x1` to `x2`.
fn line_low(x1: usize, y1: usize, x2: usize, y2: usize, pts: &mut Vec<(usize, usize)>)
    requires
        x1 <= x2,
        (if y1 > y2 {
            y1 - y2
        } else {
            y2 - y1
        }) <= x2 - x1,
        x2 - x1 <= isize::MAX / 4,
    ensures
        as_ints(final(pts)@) == as_ints(old(pts)@) + line_points(
            x1 as int,
            y1 as int,
            x2 as int,
            y2 as int,
        ),
{
    let ghost line = line_points(x1 as int, y1 as int, x2 as int, y2 as int);
    let ghost start = old(pts)@;
    let dxu = x2 - x1;
    let dyu = if y1 > y2 {
        y1 - y2
    } else {
        y2 - y1
    };
    let dx = dxu as isize;
    let dy = dyu as isize;
    let mut d: isize = 2 * dy - dx;
    let mut y = y1;
    let mut i: usize = 0;
    proof {
        if dxu > 0 {
            lemma_offset_start(dx as int, dy as int);
        }
    }
    while i <= dxu
        invariant
            x1 <= x2,
            dxu == x2 - x1,
            dyu == (if y1 > y2 {
                y1 - y2
            } else {
                y2 - y1
            }),
            dx == dxu,
            dy == dyu,
            dyu <= dxu,
            dxu <= isize::MAX / 4,
            line == line_points(x1 as int, y1 as int, x2 as int, y2 as int),
            i <= dxu + 1,
            i <= dxu ==> {
                let k = minor_offset(i as int, dx as int, dy as int);
                &&& y as int == (if y1 > y2 {
                    y1 - k
                } else {
                    y1 + k
                })
                &&& d as int == 2 * dy * (i + 1) - dx - 2 * dx * k
            },
            as_ints(pts@) == as_ints(start) + line.subrange(0, i as int),
        decreases dxu + 1 - i,
    {
        proof {
            if dxu > 0 {
                lemma_offset_step(i as int, dx as int, dy as int);
                lemma_offset_bound(i as int, dx as int, dy as int);
                if i < dxu {
                    lemma_offset_bound(i + 1, dx as int, dy as int);
                }
            }
        }
        let ghost before = pts@;
        pts.push((x1 + i, y));
        proof {
            assert(line[i as int] == ((x1 + i) as int, y as int));
            assert(as_ints(pts@) =~= as_ints(before).push(((x1 + i) as int, y as int)));
            assert(line.subrange(0, i + 1) =~= line.subrange(0, i as int).push(line[i as int]));
            assert(as_ints(pts@) =~= as_ints(start) + line.subrange(0, i + 1));
        }
        let ghost k = minor_offset(i as int, dx as int, dy as int);
        let ghost d0 = d as int;
        if d > 0 {
            y = if y1 > y2 {
                y.saturating_sub(1)
            } else {
                y.saturating_add(1)
            };
            d -= 2 * dx;
        }
        d += 2 * dy;
        proof {
            assert(2 * dy * (i + 2) == 2 * dy * (i + 1) + 2 * dy) by (nonlinear_arith);
            assert(2 * dx * (k + 1) == 2 * dx * k + 2 * dx) by (nonlinear_arith);
        }
        i = i + 1;
    }
    assert(line.subrange(0, dxu + 1) =~= line);
}

/// Appends the points of a line whose `y` grows at least as fast as `x`,
/// walking `y` from `y1` to `y2`.
fn line_high(x1: usize, y1: usize, x2: usize, y2: usize, pts: &mut Vec<(usize, usize)>)
    requires
        y1 <= y2,
        (if x1 > x2 {
            x1 - x2
        } else {
            x2 - x1
        }) <= y2 - y1,
        y2 - y1 <= isize::MAX / 4,
    ensures
        as_ints(final(pts)@) == as_ints(old(pts)@) + swapped(
            line_points(y1 as int, x1 as int, y2 as int, x2 as int),
        ),
{
    let ghost line = swapped(line_points(y1 as int, x1 as int, y2 as int, x2 as int));
    let ghost start = old(pts)@;
    let dyu = y2 - y1;
    let dxu = if x1 > x2 {
        x1 - x2
    } else {
        x2 - x1
    };
    let dx = dxu as isize;
    let dy = dyu as isize;
    let mut d: isize = 2 * dx - dy;
    let mut x = x1;
    let mut i: usize = 0;
    proof {
        if dyu > 0 {
            lemma_offset_start(dy as int, dx as int);
        }
    }
    while i <= dyu
        invariant
            y1 <= y2,
            dyu == y2 - y1,
            dxu == (if x1 > x2 {
                x1 - x2
            } else {
                x2 - x1
            }),
            dx == dxu,
            dy == dyu,
            dxu <= dyu,
            dyu <= isize::MAX / 4,
            line == swapped(line_points(y1 as int, x1 as int, y2 as int, x2 as int)),
            i <= dyu + 1,
            i <= dyu ==> {
                let k = minor_offset(i as int, dy as int, dx as int);
                &&& x as int == (if x1 > x2 {
                    x1 - k
                } else {
                    x1 + k
                })
                &&& d as int == 2 * dx * (i + 1) - dy - 2 * dy * k
            },
            as_ints(pts@) == as_ints(start) + line.subrange(0, i as int),
        decreases dyu + 1 - i,
    {
        proof {
            if dyu > 0 {
                lemma_offset_step(i as int, dy as int, dx as int);
                lemma_offset_bound(i as int, dy as int, dx as int);
                if i < dyu {
                    lemma_offset_bound(i + 1, dy as int, dx as int);
                }
            }
        }
        let ghost before = pts@;
        pts.push((x, y1 + i));
        proof {
            assert(line[i as int] == (x as int, (y1 + i) as int));
            assert(as_ints(pts@) =~= as_ints(before).push((x as int, (y1 + i) as int)));
            assert(line.subrange(0, i + 1) =~= line.subrange(0, i as int).push(line[i as int]));
            assert(as_ints(pts@) =~= as_ints(start) + line.subrange(0, i + 1));
        }
        let ghost k = minor_offset(i as int, dy as int, dx as int);
        let ghost d0 = d as int;
        if d > 0 {
            x = if x1 > x2 {
                x.saturating_sub(1)
            } else {
                x.saturating_add(1)
            };
            d -= 2 * dy;
        }
        d += 2 * dx;
        proof {
            assert(2 * dx * (i + 2) == 2 * dx * (i + 1) + 2 * dx) by (nonlinear_arith);
            assert(2 * dy * (k + 1) == 2 * dy * k + 2 * dy) by (nonlinear_arith);
        }
        i = i + 1;
    }
    assert(line.subrange(0, dyu + 1) =~= line);
}

/// The points of the line from `(x1, y1)` to `(x2, y2)`, both ends included,
/// in the order they are drawn: a vertical or horizontal line from its lower
/// end, otherwise from the end with the smaller major coordinate, each step
/// moving one along the major axis and picking the nearest point across.
pub fn bresenham(x1: usize, y1: usize, x2: usize, y2: usize) -> (pts: Vec<(usize, usize)>)
    requires
        (if x2 > x1 {
            x2 - x1
        } else {
            x1 - x2
        }) <= isize::MAX / 4,
        (if y2 > y1 {
            y2 - y1
        } else {
            y1 - y2
        }) <= isize::MAX / 4,
    ensures
        as_ints(pts@) == bresenham_points(x1 as int, y1 as int, x2 as int, y2 as int),
{
    let dx = if x2 > x1 {
        x2 - x1
    } else {
        x1 - x2
    };
    let dy = if y2 > y1 {
        y2 - y1
    } else {
        y1 - y2
    };
    let ghost target = bresenham_points(x1 as int, y1 as int, x2 as int, y2 as int);
    let mut pts: Vec<(usize, usize)> = Vec::new();
    if dx == 0 {
        let lo = if y1 < y2 {
            y1
        } else {
            y2
        };
        let mut i: usize = 0;
        while i <= dy
            invariant
                dx == 0,
                x1 == x2,
                lo == (if y1 < y2 {
                    y1
                } else {
                    y2
                }),
                dy == (if y2 > y1 {
                    y2 - y1
                } else {
                    y1 - y2
                }),
                dy <= isize::MAX / 4,
                i <= dy + 1,
                target == bresenham_points(x1 as int, y1 as int, x2 as int, y2 as int),
                as_ints(pts@) == target.subrange(0, i as int),
            decreases dy + 1 - i,
        {
            let ghost before = pts@;
            pts.push((x1, lo + i));
            proof {
                assert(target.len() == dy + 1);
                assert(target[i as int] == (x1 as int, (lo + i) as int));
                assert(as_ints(pts@) =~= as_ints(before).push((x1 as int, (lo + i) as int)));
                assert(target.subrange(0, i + 1) =~= target.subrange(0, i as int).push(target[i as int]));
            }
            i = i + 1;
        }
        assert(target.subrange(0, dy + 1) =~= target);
    } else if dy == 0 {
        let lo = if x1 < x2 {
            x1
        } else {
            x2
        };
        let mut i: usize = 0;
        while i <= dx
            invariant
                dy == 0,
                dx != 0,
                y1 == y2,
                lo == (if x1 < x2 {
                    x1
                } else {
                    x2
                }),
                dx == (if x2 > x1 {
                    x2 - x1
                } else {
                    x1 - x2
                }),
                dx <= isize::MAX / 4,
                i <= dx + 1,
                target == bresenham_points(x1 as int, y1 as int, x2 as int, y2 as int),
                as_ints(pts@) == target.subrange(0, i as int),
            decreases dx + 1 - i,
        {
            let ghost before = pts@;
            pts.push((lo + i, y1));
            proof {
                assert(target.len() == dx + 1);
                assert(target[i as int] == ((lo + i) as int, y1 as int));
                assert(as_ints(pts@) =~= as_ints(before).push(((lo + i) as int, y1 as int)));
                assert(target.subrange(0, i + 1) =~= target.subrange(0, i as int).push(target[i as int]));
            }
            i = i + 1;
        }
        assert(target.subrange(0, dx + 1) =~= target);
    } else if dy < dx {
        if x1 > x2 {
            line_low(x2, y2, x1, y1, &mut pts);
        } else {
            line_low(x1, y1, x2, y2, &mut pts);
        }
        assert(as_ints(pts@) =~= target);
    } else if y1 > y2 {
        line_high(x2, y2, x1, y1, &mut pts);
        assert(as_ints(pts@) =~= target);
    } else {
        line_high(x1, y1, x2, y2, &mut pts);
        assert(as_ints(pts@) =~= target);
    }
    pts
}

} // verus!
