//! Integer Bresenham line traversal over grid cells.

use vstd::arithmetic::div_mod::{lemma_fundamental_div_mod, lemma_fundamental_div_mod_converse};
use vstd::prelude::*;

verus! {

/// `|b - a|`.
pub open spec fn gap(a: i64, b: i64) -> int {
    if a <= b {
        b - a
    } else {
        a - b
    }
}

/// The number of cells that a line visits, its end excluded: the Chebyshev
/// distance of its ends.
pub open spec fn line_len(from: (i64, i64), to: (i64, i64)) -> int {
    let (dx, dy) = (gap(from.0, to.0), gap(from.1, to.1));
    if dx >= dy {
        dx
    } else {
        dy
    }
}

/// `k / n * d`, rounded to the nearest integer; halves round up.
pub open spec fn nearest_step(k: int, d: int, n: int) -> int {
    (2 * k * d + n) / (2 * n)
}

/// The coordinate reached from `a` towards `b` after `k` of the `n` steps of a
/// line.
pub open spec fn line_coord(a: i64, b: i64, k: int, n: int) -> int {
    let s = nearest_step(k, gap(a, b), n);
    if a < b {
        a + s
    } else {
        a - s
    }
}

/// The `k`-th cell of the line: each coordinate is the one nearest to the ideal
/// line.
pub open spec fn line_cell(from: (i64, i64), to: (i64, i64), k: int) -> (i64, i64) {
    let n = line_len(from, to);
    (line_coord(from.0, to.0, k, n) as i64, line_coord(from.1, to.1, k, n) as i64)
}

/// The cells of the line from `from` to `to`, excluding `to`.
pub open spec fn line(from: (i64, i64), to: (i64, i64)) -> Seq<(i64, i64)> {
    Seq::new(line_len(from, to) as nat, |k: int| line_cell(from, to, k))
}

/// The ends are close enough for the doubled error term, which reaches three
/// times their distance, to fit in `i64`.
pub open spec fn traceable(from: (i64, i64), to: (i64, i64)) -> bool {
    3 * gap(from.0, to.0) <= i64::MAX && 3 * gap(from.1, to.1) <= i64::MAX
}

/// A walk along a line, one cell at a time, without allocation.
pub struct Ray {
    x: i64,
    y: i64,
    to: (i64, i64),
    dx: i64,
    dy: i64,
    sx: i64,
    sy: i64,
    err: i64,
    from: Ghost<(i64, i64)>,
    step: Ghost<int>,
}

impl Ray {
    /// First cell of the line.
    pub closed spec fn start(&self) -> (i64, i64) {
        self.from@
    }

    /// End of the line, which the walk does not visit.
    pub closed spec fn end(&self) -> (i64, i64) {
        self.to
    }

    /// Number of cells visited so far.
    pub closed spec fn visited(&self) -> int {
        self.step@
    }

    /// The walk stands on the next cell of its line.
    pub closed spec fn wf(&self) -> bool {
        let (from, to) = (self.from@, self.to);
        let n = line_len(from, to);
        let (dx, dy) = (gap(from.0, to.0), gap(from.1, to.1));
        let (i, j) = (nearest_step(self.step@, dx, n), nearest_step(self.step@, dy, n));
        &&& traceable(from, to)
        &&& 0 <= self.step@ <= n
        &&& self.dx == dx
        &&& self.dy == -dy
        &&& self.sx == (if from.0 < to.0 {
            1int
        } else {
            -1
        })
        &&& self.sy == (if from.1 < to.1 {
            1int
        } else {
            -1
        })
        &&& n > 0 ==> {
            &&& self.x == line_coord(from.0, to.0, self.step@, n)
            &&& self.y == line_coord(from.1, to.1, self.step@, n)
            &&& self.err == (j + 1) * dx - (i + 1) * dy
        }
        &&& n == 0 ==> self.x == to.0 && self.y == to.1
    }

    /// Start a walk from `from` to `to`.
    pub fn new(from: (i64, i64), to: (i64, i64)) -> (r: Ray)
        requires
            traceable(from, to),
        ensures
            r.wf(),
            r.start() == from,
            r.end() == to,
            r.visited() == 0,
    {
        let dx: i64 = if from.0 < to.0 {
            to.0 - from.0
        } else {
            from.0 - to.0
        };
        let dy: i64 = if from.1 < to.1 {
            from.1 - to.1
        } else {
            to.1 - from.1
        };
        let sx: i64 = if from.0 < to.0 {
            1
        } else {
            -1
        };
        let sy: i64 = if from.1 < to.1 {
            1
        } else {
            -1
        };
        proof {
            let n = line_len(from, to);
            if n > 0 {
                lemma_nearest_step_ends(gap(from.0, to.0), n);
                lemma_nearest_step_ends(gap(from.1, to.1), n);
            }
            assert((0 + 1) * gap(from.0, to.0) - (0 + 1) * gap(from.1, to.1) == dx + dy)
                by (nonlinear_arith)
                requires
                    dx == gap(from.0, to.0),
                    dy == -gap(from.1, to.1),
            ;
        }
        Ray {
            x: from.0,
            y: from.1,
            to,
            dx,
            dy,
            sx,
            sy,
            err: dx + dy,
            from: Ghost(from),
            step: Ghost(0),
        }
    }

    /// The next cell of the line, or `None` once the end is reached.
    pub fn next(&mut self) -> (r: Option<(i64, i64)>)
        requires
            old(self).wf(),
        ensures
            final(self).wf(),
            final(self).start() == old(self).start(),
            final(self).end() == old(self).end(),
            r is None <==> old(self).visited() == line_len(old(self).start(), old(self).end()),
            r is None ==> final(self).visited() == old(self).visited(),
            r matches Some(c) ==> {
                &&& c == line_cell(old(self).start(), old(self).end(), old(self).visited())
                &&& final(self).visited() == old(self).visited() + 1
            },
    {
        let ghost (from, to) = (self.from@, self.to);
        let ghost n = line_len(from, to);
        let ghost k = self.step@;
        let ghost (dx, dy) = (gap(from.0, to.0), gap(from.1, to.1));
        if self.x == self.to.0 && self.y == self.to.1 {
            proof {
                if n > 0 && k < n {
                    lemma_not_at_end(k, dx, dy, n);
                }
            }
            return None;
        }
        proof {
            if k == n && n > 0 {
                lemma_nearest_step_ends(dx, n);
                lemma_nearest_step_ends(dy, n);
            }
            lemma_nearest_step_range(k, dx, n);
            lemma_nearest_step_range(k, dy, n);
            lemma_advance(k, dx, dy, n);
            lemma_nearest_step_range(k + 1, dx, n);
            lemma_nearest_step_range(k + 1, dy, n);
        }
        let cell = (self.x, self.y);
        let e2: i64 = 2 * self.err;
        if e2 >= self.dy {
            self.err = self.err + self.dy;
            self.x = self.x + self.sx;
        }
        if e2 <= self.dx {
            self.err = self.err + self.dx;
            self.y = self.y + self.sy;
        }
        self.step = Ghost(k + 1);
        proof {
            let i = nearest_step(k, dx, n);
            let j = nearest_step(k, dy, n);
            let i2 = nearest_step(k + 1, dx, n);
            let j2 = nearest_step(k + 1, dy, n);
            let e = (j + 1) * dx - (i + 1) * dy;
            assert(self.err == e - (if i2 > i {
                dy
            } else {
                0
            }) + (if j2 > j {
                dx
            } else {
                0
            }));
            assert(self.err == (j2 + 1) * dx - (i2 + 1) * dy) by (nonlinear_arith)
                requires
                    e == (j + 1) * dx - (i + 1) * dy,
                    i2 == i || i2 == i + 1,
                    j2 == j || j2 == j + 1,
                    self.err == e - (if i2 > i {
                        dy
                    } else {
                        0
                    }) + (if j2 > j {
                        dx
                    } else {
                        0
                    }),
            ;
        }
        Some(cell)
    }
}

/// Every cell on the line from `from` to `to`, **excluding** `to`: a beam gives
/// the cells along its way a miss and its end cell a hit, and the end cell must
/// not get both. Empty if `from == to`.
pub fn trace(from: (i64, i64), to: (i64, i64)) -> (cells: Vec<(i64, i64)>)
    requires
        traceable(from, to),
    ensures
        cells@ == line(from, to),
{
    let mut cells: Vec<(i64, i64)> = Vec::new();
    let mut ray = Ray::new(from, to);
    loop
        invariant
            ray.wf(),
            ray.start() == from,
            ray.end() == to,
            ray.visited() == cells.len(),
            cells.len() <= line_len(from, to),
            forall|k: int| 0 <= k < cells.len() ==> cells@[k] == line_cell(from, to, k),
        ensures
            cells@ == line(from, to),
        decreases line_len(from, to) - cells.len(),
    {
        proof {
            lemma_visited_range(&ray);
        }
        match ray.next() {
            Some(cell) => {
                cells.push(cell);
                proof {
                    lemma_visited_range(&ray);
                }
            },
            None => {
                break ;
            },
        }
    }
    cells
}

/// A walk visits no more cells than its line has.
pub proof fn lemma_visited_range(ray: &Ray)
    requires
        ray.wf(),
    ensures
        0 <= ray.visited() <= line_len(ray.start(), ray.end()),
        traceable(ray.start(), ray.end()),
{
}

/// A line between different cells starts at its first end; between equal cells
/// it is empty.
pub proof fn law_line_starts_at_from(from: (i64, i64), to: (i64, i64))
    ensures
        line(from, to).len() == line_len(from, to),
        line(from, to).len() == 0 <==> from == to,
        from != to ==> line(from, to)[0] == from,
{
    if from != to {
        lemma_nearest_step_ends(gap(from.0, to.0), line_len(from, to));
        lemma_nearest_step_ends(gap(from.1, to.1), line_len(from, to));
    }
}

/// The end of a line is not among its cells.
pub proof fn law_line_excludes_to(from: (i64, i64), to: (i64, i64))
    ensures
        !line(from, to).contains(to),
{
    let n = line_len(from, to);
    assert forall|k: int| 0 <= k < n implies line_cell(from, to, k) != to by {
        lemma_coords_fit(from, to, k);
        lemma_not_at_end(k, gap(from.0, to.0), gap(from.1, to.1), n);
    }
}

/// Consecutive cells of a line touch, at least at a corner, and so does the
/// last of them with the end.
pub proof fn law_line_is_connected(from: (i64, i64), to: (i64, i64), k: int)
    requires
        0 <= k < line_len(from, to),
    ensures
        ({
            let cell = line(from, to)[k];
            let next = if k + 1 < line_len(from, to) {
                line(from, to)[k + 1]
            } else {
                to
            };
            gap(cell.0, next.0) <= 1 && gap(cell.1, next.1) <= 1 && cell != next
        }),
{
    let n = line_len(from, to);
    let (dx, dy) = (gap(from.0, to.0), gap(from.1, to.1));
    lemma_coords_fit(from, to, k);
    lemma_coords_fit(from, to, k + 1);
    lemma_advance(k, dx, dy, n);
    lemma_major_step(k, n);
    lemma_major_step(k + 1, n);
    if k + 1 == n {
        lemma_nearest_step_ends(dx, n);
        lemma_nearest_step_ends(dy, n);
    }
}

/// Each cell of a line lies within half a cell of the ideal line between its
/// ends, on both axes.
pub proof fn law_line_is_straight(from: (i64, i64), to: (i64, i64), k: int)
    requires
        0 <= k < line_len(from, to),
    ensures
        ({
            let n = line_len(from, to);
            let cell = line(from, to)[k];
            &&& -n <= 2 * (n * (cell.0 - from.0) - k * (to.0 - from.0)) <= n
            &&& -n <= 2 * (n * (cell.1 - from.1) - k * (to.1 - from.1)) <= n
        }),
{
    lemma_coords_fit(from, to, k);
    lemma_coord_is_near(from.0, to.0, k, line_len(from, to));
    lemma_coord_is_near(from.1, to.1, k, line_len(from, to));
}

/// One coordinate of a line cell lies within half a cell of the ideal one.
proof fn lemma_coord_is_near(a: i64, b: i64, k: int, n: int)
    requires
        gap(a, b) <= n,
        0 <= k <= n,
        n > 0,
    ensures
        -n <= 2 * (n * (line_coord(a, b, k, n) - a) - k * (b - a)) <= n,
{
    let d = gap(a, b);
    let s = nearest_step(k, d, n);
    lemma_nearest_step_range(k, d, n);
    if a < b {
        assert(2 * (n * s - k * d) == 2 * n * s - 2 * k * d) by (nonlinear_arith);
    } else {
        assert(2 * (n * (-s) - k * (-d)) == 2 * k * d - 2 * n * s) by (nonlinear_arith);
    }
}

/// The coordinates of a line lie between those of its ends.
proof fn lemma_coords_fit(from: (i64, i64), to: (i64, i64), k: int)
    requires
        0 <= k <= line_len(from, to),
        0 < line_len(from, to),
    ensures
        ({
            let n = line_len(from, to);
            let cell = line_cell(from, to, k);
            &&& cell.0 == line_coord(from.0, to.0, k, n)
            &&& cell.1 == line_coord(from.1, to.1, k, n)
        }),
{
    lemma_nearest_step_range(k, gap(from.0, to.0), line_len(from, to));
    lemma_nearest_step_range(k, gap(from.1, to.1), line_len(from, to));
}

/// A line starts at its first end and arrives at its last.
proof fn lemma_nearest_step_ends(d: int, n: int)
    requires
        0 <= d <= n,
        n > 0,
    ensures
        nearest_step(0, d, n) == 0,
        nearest_step(n, d, n) == d,
{
    assert(2 * 0 * d + n == n) by (nonlinear_arith);
    lemma_fundamental_div_mod_converse(n, 2 * n, 0, n);
    assert(2 * n * d + n == d * (2 * n) + n) by (nonlinear_arith);
    lemma_fundamental_div_mod_converse(2 * n * d + n, 2 * n, d, n);
}

/// The rounded step lies within half a cell of the ideal one.
proof fn lemma_nearest_step_range(k: int, d: int, n: int)
    requires
        0 <= d <= n,
        n > 0,
        k >= 0,
    ensures
        ({
            let s = nearest_step(k, d, n);
            &&& 2 * n * s <= 2 * k * d + n < 2 * n * s + 2 * n
            &&& 0 <= s <= k
            &&& k <= n ==> s <= d
        }),
{
    let a = 2 * k * d + n;
    let m = 2 * n;
    let s = a / m;
    lemma_fundamental_div_mod(a, m);
    assert(m * s == 2 * n * s) by (nonlinear_arith)
        requires
            m == 2 * n,
    ;
    assert(0 <= s) by (nonlinear_arith)
        requires
            a == m * s + a % m,
            a % m < m,
            a >= 0,
            m > 0,
            a == 2 * k * d + n,
            k >= 0,
            d >= 0,
            n > 0,
    {
        assert(2 * k * d >= 0);
    }
    assert(s <= k) by (nonlinear_arith)
        requires
            2 * n * s <= 2 * k * d + n,
            0 <= d <= n,
            k >= 0,
            n > 0,
    {
        assert(2 * k * d <= 2 * k * n);
        assert(2 * n * s <= 2 * n * k + n);
        if s >= k + 1 {
            assert(2 * n * s >= 2 * n * (k + 1));
        }
    }
    if k <= n {
        assert(s <= d) by (nonlinear_arith)
            requires
                2 * n * s <= 2 * k * d + n,
                0 <= k <= n,
                0 <= d,
                n > 0,
        {
            assert(2 * k * d <= 2 * n * d);
            if s >= d + 1 {
                assert(2 * n * s >= 2 * n * (d + 1));
            }
        }
    }
}

/// Before its last step a line has not arrived.
proof fn lemma_not_at_end(k: int, dx: int, dy: int, n: int)
    requires
        0 <= dx <= n,
        0 <= dy <= n,
        n == dx || n == dy,
        0 <= k < n,
    ensures
        nearest_step(k, dx, n) != dx || nearest_step(k, dy, n) != dy,
{
    lemma_major_step(k, n);
}

/// Along the longer axis every step moves on by one.
proof fn lemma_major_step(k: int, n: int)
    requires
        n > 0,
    ensures
        nearest_step(k, n, n) == k,
{
    assert(2 * k * n + n == k * (2 * n) + n) by (nonlinear_arith);
    lemma_fundamental_div_mod_converse(2 * k * n + n, 2 * n, k, n);
}

/// The doubled error term tells which coordinates move in the next step.
proof fn lemma_advance(k: int, dx: int, dy: int, n: int)
    requires
        0 <= dx <= n,
        0 <= dy <= n,
        n == dx || n == dy,
        0 <= k < n,
    ensures
        ({
            let (i, j) = (nearest_step(k, dx, n), nearest_step(k, dy, n));
            let e = (j + 1) * dx - (i + 1) * dy;
            &&& nearest_step(k + 1, dx, n) == (if 2 * e >= -dy {
                i + 1
            } else {
                i
            })
            &&& nearest_step(k + 1, dy, n) == (if 2 * e <= dx {
                j + 1
            } else {
                j
            })
            &&& -3 * n <= 2 * e <= 3 * n
        }),
{
    let (i, j) = (nearest_step(k, dx, n), nearest_step(k, dy, n));
    lemma_nearest_step_range(k, dx, n);
    lemma_nearest_step_range(k, dy, n);
    lemma_nearest_step_range(k + 1, dx, n);
    lemma_nearest_step_range(k + 1, dy, n);
    if dx == n {
        lemma_major_step(k, n);
        lemma_major_step(k + 1, n);
        let e = (j + 1) * n - (k + 1) * dy;
        assert(2 * e == 2 * n * j + 2 * n - 2 * k * dy - 2 * dy) by (nonlinear_arith)
            requires
                e == (j + 1) * n - (k + 1) * dy,
        ;
        lemma_minor_step(k, j, dy, n);
    } else {
        lemma_major_step(k, n);
        lemma_major_step(k + 1, n);
        let e = (k + 1) * dx - (i + 1) * n;
        assert(2 * e == 2 * k * dx + 2 * dx - 2 * n * i - 2 * n) by (nonlinear_arith)
            requires
                e == (k + 1) * dx - (i + 1) * n,
        ;
        lemma_minor_step(k, i, dx, n);
    }
}

/// The shorter coordinate moves on exactly if the ideal line passes the next
/// half.
proof fn lemma_minor_step(k: int, s: int, d: int, n: int)
    requires
        0 <= d <= n,
        n > 0,
        k >= 0,
        s == nearest_step(k, d, n),
    ensures
        nearest_step(k + 1, d, n) == (if 2 * n * s + n <= 2 * k * d + 2 * d {
            s + 1
        } else {
            s
        }),
{
    lemma_nearest_step_range(k, d, n);
    assert(2 * (k + 1) * d == 2 * k * d + 2 * d) by (nonlinear_arith);
    let t: int = if 2 * n * s + n <= 2 * k * d + 2 * d {
        s + 1
    } else {
        s
    };
    assert(t * (2 * n) == 2 * n * s + 2 * n * (t - s)) by (nonlinear_arith);
    let a = 2 * (k + 1) * d + n;
    if t == s + 1 {
        assert(2 * n * (t - s) == 2 * n) by (nonlinear_arith)
            requires
                t - s == 1,
        ;
    } else {
        assert(2 * n * (t - s) == 0) by (nonlinear_arith)
            requires
                t - s == 0,
        ;
    }
    lemma_fundamental_div_mod_converse(a, 2 * n, t, a - t * (2 * n));
}

/// A line visits each of its cells once.
pub proof fn law_line_visits_each_cell_once(from: (i64, i64), to: (i64, i64), j: int, k: int)
    requires
        0 <= j < k < line_len(from, to),
    ensures
        line(from, to)[j] != line(from, to)[k],
{
    let n = line_len(from, to);
    lemma_coords_fit(from, to, j);
    lemma_coords_fit(from, to, k);
    lemma_major_step(j, n);
    lemma_major_step(k, n);
}

} // verus!
