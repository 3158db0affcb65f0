//! Antialiased line rasterization in the style of Xiaolin Wu, on endpoints that
//! have already been rounded to pixel coordinates.
//!
//! A line becomes a sequence of [`Coverage`] writes: pixel `(x, y)` receives the
//! fraction `weight / scale` of the colour's alpha. Axis-aligned and diagonal
//! lines are solid runs; every other slope steps along its dominant axis and
//! splits each step between the two pixels that the exact line passes between.
use vstd::prelude::*;
use vstd::arithmetic::div_mod::{lemma_fundamental_div_mod, lemma_fundamental_div_mod_converse};

verus! {

/// One pixel write: pixel `(x, y)` receives `weight / scale` of the alpha.
#[derive(Clone, Copy, Debug, PartialEq, Eq, Structural)]
pub struct Coverage {
    pub x: i64,
    pub y: i64,
    pub weight: u64,
    pub scale: u64,
}

impl View for Coverage {
    type V = (int, int, int, int);

    open spec fn view(&self) -> (int, int, int, int) {
        (self.x as int, self.y as int, self.weight as int, self.scale as int)
    }
}

/// The mathematical content of a sequence of writes.
pub open spec fn views(s: Seq<Coverage>) -> Seq<(int, int, int, int)> {
    s.map_values(|c: Coverage| c@)
}

pub open spec fn abs(a: int) -> int {
    if a < 0 { -a } else { a }
}

pub open spec fn min(a: int, b: int) -> int {
    if a < b { a } else { b }
}

/// `count` fully covered pixels, starting at `(sx, sy)` and stepping by `(mx, my)`.
pub open spec fn solid_run(sx: int, sy: int, mx: int, my: int, count: int) -> Seq<(int, int, int, int)> {
    Seq::new(count as nat, |i: int| (sx + i * mx, sy + i * my, 1int, 1int))
}

/// `n` steps from `(bx, by)` along the major direction `(mx, my)` for a line that
/// advances `m` pixels along the minor direction `(nx, ny)` over those `n` steps
/// (`0 <= m < n`). Step `i` lies `q = floor(i * m / n)` pixels along the minor
/// axis with remainder `r = i * m mod n`; it gives `(n - r) / n` to its own
/// pixel and `r / n` to the next one along the minor axis.
pub open spec fn split_run(
    bx: int,
    by: int,
    mx: int,
    my: int,
    nx: int,
    ny: int,
    n: int,
    m: int,
) -> Seq<(int, int, int, int)> {
    Seq::new(
        (2 * n) as nat,
        |k: int|
            {
                let i = k / 2;
                let q = (i * m) / n;
                let r = (i * m) % n;
                let px = bx + i * mx + q * nx;
                let py = by + i * my + q * ny;
                if k % 2 == 0 {
                    (px, py, n - r, n)
                } else {
                    (px + nx, py + ny, r, n)
                }
            },
    )
}

/// The writes that draw the line from `(x1, y1)` to `(x2, y2)`.
///
/// A line whose endpoints coincide writes nothing. Vertical, horizontal and
/// diagonal lines are solid and include both
/// endpoints. Any other line is first oriented so that `dx + dy > 0`, then split
/// by octant; its fractional run takes one step per unit of the dominant axis
/// and leaves out the far endpoint.
pub open spec fn line_spec(x1: int, y1: int, x2: int, y2: int) -> Seq<(int, int, int, int)> {
    let dx = x2 - x1;
    let dy = y2 - y1;
    if dx == 0 && dy == 0 {
        Seq::empty()
    } else if dx == 0 {
        solid_run(x1, min(y1, y2), 0, 1, abs(dy) + 1)
    } else if dy == 0 {
        solid_run(min(x1, x2), y1, 1, 0, abs(dx) + 1)
    } else if dx == dy {
        if dx < 0 {
            solid_run(x2, y2, 1, 1, -dx + 1)
        } else {
            solid_run(x1, y1, 1, 1, dx + 1)
        }
    } else if dx == -dy {
        if dx < 0 {
            solid_run(x2, y2, 1, -1, -dx + 1)
        } else {
            solid_run(x1, y1, 1, -1, dx + 1)
        }
    } else {
        let ax = if dx + dy < 0 { x2 } else { x1 };
        let ay = if dx + dy < 0 { y2 } else { y1 };
        let bx = if dx + dy < 0 { x1 } else { x2 };
        let by = if dx + dy < 0 { y1 } else { y2 };
        let ddx = bx - ax;
        let ddy = by - ay;
        if 0 < ddy < ddx {
            split_run(ax, ay, 1, 0, 0, 1, ddx, ddy)
        } else if 0 < ddx < ddy {
            split_run(ax, ay, 0, 1, 1, 0, ddy, ddx)
        } else if 0 < -ddy < ddx {
            split_run(ax, ay, 1, 0, 0, -1, ddx, -ddy)
        } else {
            split_run(bx, by - 1, 0, -1, 1, 0, ddy, -ddx)
        }
    }
}

/// The writes of a polyline: one line per pair of consecutive points, in order.
pub open spec fn polyline_spec(p: Seq<(i32, i32)>) -> Seq<(int, int, int, int)>
    decreases p.len(),
{
    if p.len() < 2 {
        Seq::empty()
    } else {
        let a = p[p.len() - 2];
        let b = p[p.len() - 1];
        polyline_spec(p.drop_last()) + line_spec(a.0 as int, a.1 as int, b.0 as int, b.1 as int)
    }
}

/// A line writes the same pixels with the same coverage whichever of its
/// endpoints is given first.
pub proof fn lemma_line_direction_free(x1: int, y1: int, x2: int, y2: int)
    ensures
        line_spec(x1, y1, x2, y2) == line_spec(x2, y2, x1, y1),
{
}

pub open spec fn is_unit(a: i64) -> bool {
    -1 <= a <= 1
}

pub open spec fn small(a: i64) -> bool {
    -0x4_0000_0000 <= a <= 0x4_0000_0000
}

fn push_solid_run(out: &mut Vec<Coverage>, sx: i64, sy: i64, mx: i64, my: i64, count: u64)
    requires
        small(sx),
        small(sy),
        is_unit(mx),
        is_unit(my),
        count <= 0x1_0000_0001,
    ensures
        views(final(out)@) == views(old(out)@) + solid_run(
            sx as int,
            sy as int,
            mx as int,
            my as int,
            count as int,
        ),
{
    let ghost start = views(out@);
    let ghost run = solid_run(sx as int, sy as int, mx as int, my as int, count as int);
    let mut i: u64 = 0;
    while i < count
        invariant
            i <= count,
            small(sx),
            small(sy),
            is_unit(mx),
            is_unit(my),
            count <= 0x1_0000_0001,
            run == solid_run(sx as int, sy as int, mx as int, my as int, count as int),
            views(out@) == start + run.take(i as int),
        decreases count - i,
    {
        let ii = i as i64;
        proof {
            assert(-0x1_0000_0001 <= ii * mx <= 0x1_0000_0001) by (nonlinear_arith)
                requires 0 <= ii <= 0x1_0000_0001, -1 <= mx <= 1;
            assert(-0x1_0000_0001 <= ii * my <= 0x1_0000_0001) by (nonlinear_arith)
                requires 0 <= ii <= 0x1_0000_0001, -1 <= my <= 1;
        }
        let c = Coverage { x: sx + ii * mx, y: sy + ii * my, weight: 1, scale: 1 };
        let ghost before = out@;
        out.push(c);
        i = i + 1;
        proof {
            assert(run.len() == count);
            assert(run[i - 1] == c@);
            assert(run.take(i as int) =~= run.take(i - 1) + seq![c@]);
            assert(views(out@) =~= views(before) + seq![c@]);
        }
    }
    proof {
        assert(run.take(count as int) =~= run);
    }
}

proof fn lemma_step(i: int, m: int, n: int, q: int, r: int)
    requires
        0 <= m < n,
        0 <= i,
        q == (i * m) / n,
        r == (i * m) % n,
    ensures
        r + m < n ==> (q == ((i + 1) * m) / n && r + m == ((i + 1) * m) % n),
        r + m >= n ==> (q + 1 == ((i + 1) * m) / n && r + m - n == ((i + 1) * m) % n),
{
    lemma_fundamental_div_mod(i * m, n);
    assert((i + 1) * m == i * m + m) by (nonlinear_arith);
    assert(0 <= r < n) by {
        vstd::arithmetic::div_mod::lemma_mod_bound(i * m, n);
    }
    if r + m < n {
        assert((i + 1) * m == q * n + (r + m)) by (nonlinear_arith)
            requires i * m == n * q + r, (i + 1) * m == i * m + m;
        lemma_fundamental_div_mod_converse((i + 1) * m, n, q, r + m);
    } else {
        assert((i + 1) * m == (q + 1) * n + (r + m - n)) by (nonlinear_arith)
            requires i * m == n * q + r, (i + 1) * m == i * m + m;
        lemma_fundamental_div_mod_converse((i + 1) * m, n, q + 1, r + m - n);
    }
}

fn push_split_run(
    out: &mut Vec<Coverage>,
    bx: i64,
    by: i64,
    mx: i64,
    my: i64,
    nx: i64,
    ny: i64,
    n: u64,
    m: u64,
)
    requires
        small(bx),
        small(by),
        is_unit(mx),
        is_unit(my),
        is_unit(nx),
        is_unit(ny),
        m < n <= 0x1_0000_0000,
    ensures
        views(final(out)@) == views(old(out)@) + split_run(
            bx as int,
            by as int,
            mx as int,
            my as int,
            nx as int,
            ny as int,
            n as int,
            m as int,
        ),
{
    let ghost start = views(out@);
    let ghost run = split_run(
        bx as int,
        by as int,
        mx as int,
        my as int,
        nx as int,
        ny as int,
        n as int,
        m as int,
    );
    let mut i: u64 = 0;
    let mut q: u64 = 0;
    let mut r: u64 = 0;
    proof {
        assert((0 * m as int) / n as int == 0);
        assert((0 * m as int) % n as int == 0);
    }
    while i < n
        invariant
            i <= n,
            small(bx),
            small(by),
            is_unit(mx),
            is_unit(my),
            is_unit(nx),
            is_unit(ny),
            m < n <= 0x1_0000_0000,
            q == (i * m) / n as int,
            r == (i * m) % n as int,
            q <= i,
            r < n,
            run == split_run(
                bx as int,
                by as int,
                mx as int,
                my as int,
                nx as int,
                ny as int,
                n as int,
                m as int,
            ),
            views(out@) == start + run.take(2 * i),
        decreases n - i,
    {
        let ii = i as i64;
        let qq = q as i64;
        proof {
            assert(-0x1_0000_0000 <= ii * mx <= 0x1_0000_0000) by (nonlinear_arith)
                requires 0 <= ii <= 0x1_0000_0000, -1 <= mx <= 1;
            assert(-0x1_0000_0000 <= ii * my <= 0x1_0000_0000) by (nonlinear_arith)
                requires 0 <= ii <= 0x1_0000_0000, -1 <= my <= 1;
            assert(-0x1_0000_0000 <= qq * nx <= 0x1_0000_0000) by (nonlinear_arith)
                requires 0 <= qq <= 0x1_0000_0000, -1 <= nx <= 1;
            assert(-0x1_0000_0000 <= qq * ny <= 0x1_0000_0000) by (nonlinear_arith)
                requires 0 <= qq <= 0x1_0000_0000, -1 <= ny <= 1;
        }
        let px = bx + ii * mx + qq * nx;
        let py = by + ii * my + qq * ny;
        let near = Coverage { x: px, y: py, weight: n - r, scale: n };
        let far = Coverage { x: px + nx, y: py + ny, weight: r, scale: n };
        let ghost before = out@;
        out.push(near);
        out.push(far);
        proof {
            let k0 = 2 * i as int;
            assert(run.len() == 2 * n);
            assert(k0 / 2 == i as int);
            assert((k0 + 1) / 2 == i as int);
            assert(k0 % 2 == 0);
            assert((k0 + 1) % 2 == 1);
            assert(run[k0] == near@);
            assert(run[k0 + 1] == far@);
            assert(run.take(k0 + 2) =~= run.take(k0) + seq![near@, far@]);
            assert(views(out@) =~= views(before) + seq![near@, far@]);
            lemma_step(i as int, m as int, n as int, q as int, r as int);
        }
        if r + m >= n {
            q = q + 1;
            r = r + m - n;
        } else {
            r = r + m;
        }
        i = i + 1;
        proof {
            assert(q <= i);
        }
    }
    proof {
        assert(run.take(2 * n as int) =~= run);
    }
}

fn abs_diff(a: i64, b: i64) -> (r: u64)
    requires
        small(a),
        small(b),
    ensures
        r == abs(a - b),
{
    if a >= b {
        (a - b) as u64
    } else {
        (b - a) as u64
    }
}

/// Appends the writes of the line from `(x1, y1)` to `(x2, y2)` to `out`.
fn push_line(out: &mut Vec<Coverage>, x1: i32, y1: i32, x2: i32, y2: i32)
    ensures
        views(final(out)@) == views(old(out)@) + line_spec(x1 as int, y1 as int, x2 as int, y2 as int),
{
    let x1 = x1 as i64;
    let y1 = y1 as i64;
    let x2 = x2 as i64;
    let y2 = y2 as i64;
    let dx = x2 - x1;
    let dy = y2 - y1;
    if dx == 0 && dy == 0 {
        proof {
            assert(views(out@) =~= views(out@) + Seq::<(int, int, int, int)>::empty());
        }
    } else if dx == 0 {
        let sy = if y1 < y2 { y1 } else { y2 };
        push_solid_run(out, x1, sy, 0, 1, abs_diff(y2, y1) + 1);
    } else if dy == 0 {
        let sx = if x1 < x2 { x1 } else { x2 };
        push_solid_run(out, sx, y1, 1, 0, abs_diff(x2, x1) + 1);
    } else if dx == dy {
        if dx < 0 {
            push_solid_run(out, x2, y2, 1, 1, (-dx + 1) as u64);
        } else {
            push_solid_run(out, x1, y1, 1, 1, (dx + 1) as u64);
        }
    } else if dx == -dy {
        if dx < 0 {
            push_solid_run(out, x2, y2, 1, -1, (-dx + 1) as u64);
        } else {
            push_solid_run(out, x1, y1, 1, -1, (dx + 1) as u64);
        }
    } else {
        let (ax, ay, bx, by) = if dx + dy < 0 {
            (x2, y2, x1, y1)
        } else {
            (x1, y1, x2, y2)
        };
        let ddx = bx - ax;
        let ddy = by - ay;
        if 0 < ddy && ddy < ddx {
            push_split_run(out, ax, ay, 1, 0, 0, 1, ddx as u64, ddy as u64);
        } else if 0 < ddx && ddx < ddy {
            push_split_run(out, ax, ay, 0, 1, 1, 0, ddy as u64, ddx as u64);
        } else if 0 < -ddy && -ddy < ddx {
            push_split_run(out, ax, ay, 1, 0, 0, -1, ddx as u64, (-ddy) as u64);
        } else {
            push_split_run(out, bx, by - 1, 0, -1, 1, 0, ddy as u64, (-ddx) as u64);
        }
    }
}

/// The pixel writes that draw the line from `(x1, y1)` to `(x2, y2)`.
pub fn line_coverage(x1: i32, y1: i32, x2: i32, y2: i32) -> (r: Vec<Coverage>)
    ensures
        views(r@) == line_spec(x1 as int, y1 as int, x2 as int, y2 as int),
{
    let mut out: Vec<Coverage> = Vec::new();
    push_line(&mut out, x1, y1, x2, y2);
    proof {
        assert(views(Seq::<Coverage>::empty()) =~= Seq::empty());
        assert(Seq::<(int, int, int, int)>::empty() + line_spec(x1 as int, y1 as int, x2 as int, y2 as int)
            =~= line_spec(x1 as int, y1 as int, x2 as int, y2 as int));
    }
    out
}

/// The pixel writes that draw the polyline through `points`: each pair of
/// consecutive points is drawn as one line, in order, with no join handling.
/// Fewer than two points draw nothing.
pub fn polyline_coverage(points: &Vec<(i32, i32)>) -> (r: Vec<Coverage>)
    ensures
        views(r@) == polyline_spec(points@),
{
    let mut out: Vec<Coverage> = Vec::new();
    proof {
        assert(views(out@) =~= Seq::empty());
    }
    if points.len() < 2 {
        return out;
    }
    let mut i: usize = 1;
    proof {
        assert(points@.take(1).len() < 2);
    }
    while i < points.len()
        invariant
            1 <= i <= points.len(),
            views(out@) == polyline_spec(points@.take(i as int)),
        decreases points.len() - i,
    {
        let a = points[i - 1];
        let b = points[i];
        push_line(&mut out, a.0, a.1, b.0, b.1);
        i = i + 1;
        proof {
            let t = points@.take(i as int);
            assert(t.drop_last() =~= points@.take(i - 1));
            assert(t[t.len() - 2] == a);
            assert(t[t.len() - 1] == b);
        }
    }
    proof {
        assert(points@.take(points.len() as int) =~= points@);
    }
    out
}

} // verus!
