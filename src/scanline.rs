//! Scanline polygon fill with an active edge list, on vertices that have
//! already been truncated to pixel coordinates.
//!
//! Edge `k` joins vertex `k - 1` (vertex `n - 1` for `k == 0`) to vertex `k`
//! and is oriented so that its start has the smaller `y`. Rows are swept in
//! increasing `y` from the lowest vertex. On row `y`, edges that start at `y`
//! join the active list and edges that end at `y` leave it, so horizontal
//! edges never stay; when any edge started on the row, the list is stably
//! re-sorted by the exact crossing `x` on this row, ties broken by the slope
//! (so that the edge that stays left comes first) and then by the end `x`,
//! and otherwise it keeps the order of the row before. Consecutive pairs of
//! active edges then bound the filled spans. The sweep ends at the first row
//! whose list is empty. The
//! crossing of an edge on row `y` is the exact rational
//! `sx + (y - sy) * (ex - sx) / (ey - sy)`, truncated toward zero for filling.
use vstd::prelude::*;

verus! {

/// The pixels `left < x <= right` of row `y`.
#[derive(Clone, Copy, Debug, PartialEq, Eq, Structural)]
pub struct Span {
    pub y: i32,
    pub left: i32,
    pub right: i32,
}

impl View for Span {
    type V = (int, int, int);

    open spec fn view(&self) -> (int, int, int) {
        (self.y as int, self.left as int, self.right as int)
    }
}

pub open spec fn span_views(s: Seq<Span>) -> Seq<(int, int, int)> {
    s.map_values(|p: Span| p@)
}

/// Index of the vertex before vertex `k`, wrapping around.
pub open spec fn prev_index(n: int, k: int) -> int {
    if k == 0 { n - 1 } else { k - 1 }
}

/// Edge `k` as `(sx, sy, ex, ey)` with `sy <= ey`.
pub open spec fn edge(v: Seq<(i32, i32)>, k: int) -> (int, int, int, int) {
    let a = v[prev_index(v.len() as int, k)];
    let b = v[k];
    if b.1 > a.1 {
        (a.0 as int, a.1 as int, b.0 as int, b.1 as int)
    } else {
        (b.0 as int, b.1 as int, a.0 as int, a.1 as int)
    }
}

/// Numerator of the crossing of edge `e` on row `y`, over the denominator `ey - sy`.
pub open spec fn cross_num(e: (int, int, int, int), y: int) -> int {
    e.0 * (e.3 - e.1) + (y - e.1) * (e.2 - e.0)
}

pub open spec fn cross_den(e: (int, int, int, int)) -> int {
    e.3 - e.1
}

/// Whether edge `a` comes strictly before edge `b` on row `y`: a smaller
/// crossing; on an equal crossing, a smaller slope `dx / dy`, so that of two
/// edges leaving one point the one that stays left comes first; on an equal
/// slope too, a smaller end `x`.
pub open spec fn edge_before(v: Seq<(i32, i32)>, a: usize, b: usize, y: int) -> bool {
    let ea = edge(v, a as int);
    let eb = edge(v, b as int);
    let l = cross_num(ea, y) * cross_den(eb);
    let r = cross_num(eb, y) * cross_den(ea);
    let sl = (ea.2 - ea.0) * cross_den(eb);
    let sr = (eb.2 - eb.0) * cross_den(ea);
    l < r || (l == r && (sl < sr || (sl == sr && ea.2 < eb.2)))
}

/// `a / b` rounded toward zero, for `b > 0`.
pub open spec fn trunc_div(a: int, b: int) -> int {
    if a >= 0 { a / b } else { -((-a) / b) }
}

/// The truncated crossing of edge `k` on row `y`.
pub open spec fn cross_x(v: Seq<(i32, i32)>, k: usize, y: int) -> int {
    let e = edge(v, k as int);
    trunc_div(cross_num(e, y), cross_den(e))
}

/// The non-horizontal edges among the first `upto` that start on row `y`, by
/// descending index.
pub open spec fn starting(v: Seq<(i32, i32)>, y: int, upto: int) -> Seq<usize>
    decreases upto,
{
    if upto <= 0 {
        Seq::empty()
    } else {
        let e = edge(v, upto - 1);
        let head: Seq<usize> = if e.1 == y && e.3 > y { seq![(upto - 1) as usize] } else { Seq::empty() };
        head + starting(v, y, upto - 1)
    }
}

/// Whether some edge, horizontal or not, starts on row `y`.
pub open spec fn any_starting(v: Seq<(i32, i32)>, y: int) -> bool {
    exists|k: int| 0 <= k < v.len() && #[trigger] edge(v, k).1 == y
}

/// `s` without the edges that end on row `y`, order kept.
pub open spec fn without_ending(v: Seq<(i32, i32)>, s: Seq<usize>, y: int) -> Seq<usize>
    decreases s.len(),
{
    if s.len() == 0 {
        s
    } else {
        let rest = without_ending(v, s.drop_last(), y);
        if edge(v, s.last() as int).3 == y { rest } else { rest.push(s.last()) }
    }
}

/// Inserts `k` into `s` after every element that it does not come before.
pub open spec fn insert_edge(v: Seq<(i32, i32)>, s: Seq<usize>, k: usize, y: int) -> Seq<usize>
    decreases s.len(),
{
    if s.len() == 0 {
        seq![k]
    } else if edge_before(v, k, s[0], y) {
        seq![k] + s
    } else {
        seq![s[0]] + insert_edge(v, s.drop_first(), k, y)
    }
}

/// The stable sort of `s` by [`edge_before`] on row `y`.
pub open spec fn sort_edges(v: Seq<(i32, i32)>, s: Seq<usize>, y: int) -> Seq<usize>
    decreases s.len(),
{
    if s.len() == 0 {
        s
    } else {
        insert_edge(v, sort_edges(v, s.drop_last(), y), s.last(), y)
    }
}

/// The active list on row `y`, given the list `prev` of the row below.
pub open spec fn active_on(v: Seq<(i32, i32)>, prev: Seq<usize>, y: int) -> Seq<usize> {
    let joined = without_ending(v, prev, y) + starting(v, y, v.len() as int);
    if any_starting(v, y) { sort_edges(v, joined, y) } else { joined }
}

/// The spans of row `y` for the active list `s`: one per pair of consecutive
/// edges, first with second, third with fourth, and so on.
pub open spec fn row_spans(v: Seq<(i32, i32)>, s: Seq<usize>, y: int) -> Seq<(int, int, int)> {
    Seq::new(
        s.len() / 2,
        |j: int| (y, cross_x(v, s[2 * j], y), cross_x(v, s[2 * j + 1], y)),
    )
}

/// The spans of row `y` and the rows above it, for at most `rows` rows; the
/// sweep ends at the first row whose active list is empty.
pub open spec fn sweep(v: Seq<(i32, i32)>, prev: Seq<usize>, y: int, rows: nat) -> Seq<(int, int, int)>
    decreases rows,
{
    let s = active_on(v, prev, y);
    if rows == 0 || s.len() == 0 {
        Seq::empty()
    } else {
        row_spans(v, s, y) + sweep(v, s, y + 1, (rows - 1) as nat)
    }
}

pub open spec fn min_y(v: Seq<(i32, i32)>) -> int
    decreases v.len(),
{
    if v.len() <= 1 {
        if v.len() == 1 { v[0].1 as int } else { 0 }
    } else {
        let m = min_y(v.drop_last());
        if (v.last().1 as int) < m { v.last().1 as int } else { m }
    }
}

pub open spec fn max_y(v: Seq<(i32, i32)>) -> int
    decreases v.len(),
{
    if v.len() <= 1 {
        if v.len() == 1 { v[0].1 as int } else { 0 }
    } else {
        let m = max_y(v.drop_last());
        if (v.last().1 as int) > m { v.last().1 as int } else { m }
    }
}

/// The spans that fill the polygon with vertices `v`: rows from the lowest
/// vertex up, while any edge is active. Fewer than three vertices fill nothing.
pub open spec fn fill_spec(v: Seq<(i32, i32)>) -> Seq<(int, int, int)> {
    if v.len() < 3 {
        Seq::empty()
    } else {
        sweep(v, Seq::empty(), min_y(v), (max_y(v) - min_y(v)) as nat)
    }
}

/// An edge with its start on the lower row, in machine integers.
struct Edge {
    sx: i64,
    sy: i64,
    ex: i64,
    ey: i64,
}

impl View for Edge {
    type V = (int, int, int, int);

    closed spec fn view(&self) -> (int, int, int, int) {
        (self.sx as int, self.sy as int, self.ex as int, self.ey as int)
    }
}

spec fn in_i32(a: int) -> bool {
    i32::MIN <= a <= i32::MAX
}

spec fn edges_match(edges: Seq<Edge>, v: Seq<(i32, i32)>) -> bool {
    &&& edges.len() == v.len()
    &&& forall|k: int| 0 <= k < v.len() ==> #[trigger] edges[k]@ == edge(v, k)
}

proof fn lemma_edge_bounds(v: Seq<(i32, i32)>, k: int)
    requires
        v.len() >= 1,
        0 <= k < v.len(),
    ensures
        in_i32(edge(v, k).0),
        in_i32(edge(v, k).1),
        in_i32(edge(v, k).2),
        in_i32(edge(v, k).3),
        edge(v, k).1 <= edge(v, k).3,
{
}

fn build_edges(v: &Vec<(i32, i32)>) -> (r: Vec<Edge>)
    requires
        v.len() >= 1,
    ensures
        edges_match(r@, v@),
{
    let n = v.len();
    let mut out: Vec<Edge> = Vec::new();
    let mut last = v[n - 1];
    let mut k: usize = 0;
    while k < n
        invariant
            n == v.len(),
            k <= n,
            out.len() == k,
            last == v@[prev_index(n as int, k as int)],
            forall|j: int| 0 <= j < k ==> #[trigger] out@[j]@ == edge(v@, j),
        decreases n - k,
    {
        let cur = v[k];
        let e = if cur.1 > last.1 {
            Edge { sx: last.0 as i64, sy: last.1 as i64, ex: cur.0 as i64, ey: cur.1 as i64 }
        } else {
            Edge { sx: cur.0 as i64, sy: cur.1 as i64, ex: last.0 as i64, ey: last.1 as i64 }
        };
        out.push(e);
        last = cur;
        k = k + 1;
    }
    out
}

fn y_range(v: &Vec<(i32, i32)>) -> (r: (i64, i64))
    requires
        v.len() >= 1,
    ensures
        r.0 == min_y(v@),
        r.1 == max_y(v@),
        in_i32(r.0 as int),
        in_i32(r.1 as int),
        r.0 <= r.1,
{
    let mut lo = v[0].1 as i64;
    let mut hi = v[0].1 as i64;
    let mut i: usize = 1;
    proof {
        assert(v@.take(1) =~= seq![v@[0]]);
    }
    while i < v.len()
        invariant
            1 <= i <= v.len(),
            lo == min_y(v@.take(i as int)),
            hi == max_y(v@.take(i as int)),
            in_i32(lo as int),
            in_i32(hi as int),
            lo <= hi,
        decreases v.len() - i,
    {
        let y = v[i].1 as i64;
        proof {
            assert(v@.take(i + 1).drop_last() =~= v@.take(i as int));
        }
        if y < lo {
            lo = y;
        }
        if y > hi {
            hi = y;
        }
        i = i + 1;
    }
    proof {
        assert(v@.take(v.len() as int) =~= v@);
    }
    (lo, hi)
}

spec fn edge_ok(e: (int, int, int, int)) -> bool {
    in_i32(e.0) && in_i32(e.1) && in_i32(e.2) && in_i32(e.3) && e.1 <= e.3
}

fn cross_num_exec(e: &Edge, y: i64) -> (r: i128)
    requires
        edge_ok(e@),
        in_i32(y as int),
    ensures
        r == cross_num(e@, y as int),
        -0x4_0000_0000_0000_0000 <= r <= 0x4_0000_0000_0000_0000,
{
    let sx = e.sx as i128;
    let sy = e.sy as i128;
    let ex = e.ex as i128;
    let ey = e.ey as i128;
    let yy = y as i128;
    proof {
        assert(-0x8000_0000_0000_0000 <= sx * (ey - sy) <= 0x8000_0000_0000_0000) by (nonlinear_arith)
            requires -0x8000_0000 <= sx <= 0x8000_0000, 0 <= ey - sy <= 0x1_0000_0000;
        assert(-0x1_0000_0000_0000_0000 <= (yy - sy) * (ex - sx) <= 0x1_0000_0000_0000_0000)
            by (nonlinear_arith)
            requires
                -0x1_0000_0000 <= yy - sy <= 0x1_0000_0000,
                -0x1_0000_0000 <= ex - sx <= 0x1_0000_0000,
        ;
    }
    sx * (ey - sy) + (yy - sy) * (ex - sx)
}

fn edge_before_exec(v: &Vec<(i32, i32)>, edges: &Vec<Edge>, a: usize, b: usize, y: i64) -> (r: bool)
    requires
        v.len() >= 1,
        edges_match(edges@, v@),
        a < v.len(),
        b < v.len(),
        in_i32(y as int),
    ensures
        r == edge_before(v@, a, b, y as int),
{
    let ea = &edges[a];
    let eb = &edges[b];
    proof {
        lemma_edge_bounds(v@, a as int);
        lemma_edge_bounds(v@, b as int);
        assert(edges@[a as int]@ == edge(v@, a as int));
        assert(edges@[b as int]@ == edge(v@, b as int));
    }
    let na = cross_num_exec(ea, y);
    let nb = cross_num_exec(eb, y);
    let da = (ea.ey - ea.sy) as i128;
    let db = (eb.ey - eb.sy) as i128;
    proof {
        assert(-0x4_0000_0000_0000_0000_0000_0000 <= na * db <= 0x4_0000_0000_0000_0000_0000_0000)
            by (nonlinear_arith)
            requires -0x4_0000_0000_0000_0000 <= na <= 0x4_0000_0000_0000_0000, 0 <= db <= 0x1_0000_0000;
        assert(-0x4_0000_0000_0000_0000_0000_0000 <= nb * da <= 0x4_0000_0000_0000_0000_0000_0000)
            by (nonlinear_arith)
            requires -0x4_0000_0000_0000_0000 <= nb <= 0x4_0000_0000_0000_0000, 0 <= da <= 0x1_0000_0000;
    }
    let l = na * db;
    let r = nb * da;
    let wa = (ea.ex - ea.sx) as i128;
    let wb = (eb.ex - eb.sx) as i128;
    proof {
        assert(-0x1_0000_0000_0000_0000 <= wa * db <= 0x1_0000_0000_0000_0000) by (nonlinear_arith)
            requires -0x1_0000_0000 <= wa <= 0x1_0000_0000, 0 <= db <= 0x1_0000_0000;
        assert(-0x1_0000_0000_0000_0000 <= wb * da <= 0x1_0000_0000_0000_0000) by (nonlinear_arith)
            requires -0x1_0000_0000 <= wb <= 0x1_0000_0000, 0 <= da <= 0x1_0000_0000;
    }
    let sl = wa * db;
    let sr = wb * da;
    l < r || (l == r && (sl < sr || (sl == sr && ea.ex < eb.ex)))
}

/// The edges that start on row `y` and are not horizontal, by descending
/// index, and whether any edge at all starts on row `y`.
fn starting_exec(v: &Vec<(i32, i32)>, edges: &Vec<Edge>, y: i64) -> (r: (Vec<usize>, bool))
    requires
        v.len() >= 1,
        edges_match(edges@, v@),
    ensures
        r.0@ == starting(v@, y as int, v.len() as int),
        r.1 == any_starting(v@, y as int),
        forall|j: int| 0 <= j < r.0@.len() ==> #[trigger] r.0@[j] < v.len(),
        all_active(v@, r.0@, y as int),
{
    let n = edges.len();
    let mut out: Vec<usize> = Vec::new();
    let mut any = false;
    let mut k: usize = n;
    while k > 0
        invariant
            n == v.len(),
            edges_match(edges@, v@),
            k <= n,
            out@ + starting(v@, y as int, k as int) == starting(v@, y as int, n as int),
            any <==> exists|j: int| k <= j < n && #[trigger] edge(v@, j).1 == y,
            forall|j: int| 0 <= j < out@.len() ==> #[trigger] out@[j] < n,
            all_active(v@, out@, y as int),
        decreases k,
    {
        let e = &edges[k - 1];
        proof {
            assert(edges@[k - 1]@ == edge(v@, k - 1));
        }
        let ghost prev = out@;
        if e.sy == y && e.ey > y {
            out.push(k - 1);
        }
        if e.sy == y {
            any = true;
        }
        proof {
            let head: Seq<usize> = if edge(v@, k - 1).1 == y && edge(v@, k - 1).3 > y {
                seq![(k - 1) as usize]
            } else {
                Seq::empty()
            };
            assert(starting(v@, y as int, k as int) == head + starting(v@, y as int, k - 1));
            assert(out@ == prev + head);
            assert(out@ + starting(v@, y as int, k - 1) =~= prev + (head + starting(v@, y as int, k - 1)));
            let w = k - 1;
            if edge(v@, w).1 == y {
                assert(w <= w < n && edge(v@, w).1 == y);
            }
        }
        k = k - 1;
    }
    proof {
        assert(out@ =~= out@ + starting(v@, y as int, 0));
    }
    (out, any)
}

spec fn all_below(s: Seq<usize>, n: int) -> bool {
    forall|j: int| 0 <= j < s.len() ==> #[trigger] s[j] < n
}

/// Edge `k` exists and crosses row `y`.
pub open spec fn active_at(v: Seq<(i32, i32)>, k: usize, y: int) -> bool {
    k < v.len() && edge(v, k as int).1 <= y < edge(v, k as int).3
}

pub open spec fn all_active(v: Seq<(i32, i32)>, s: Seq<usize>, y: int) -> bool {
    forall|j: int| 0 <= j < s.len() ==> active_at(v, #[trigger] s[j], y)
}

fn without_ending_exec(v: &Vec<(i32, i32)>, edges: &Vec<Edge>, s: &Vec<usize>, y: i64) -> (r: Vec<usize>)
    requires
        v.len() >= 1,
        edges_match(edges@, v@),
        all_below(s@, v.len() as int),
        all_active(v@, s@, y - 1),
    ensures
        r@ == without_ending(v@, s@, y as int),
        all_below(r@, v.len() as int),
        all_active(v@, r@, y as int),
{
    let mut out: Vec<usize> = Vec::new();
    let mut i: usize = 0;
    proof {
        assert(s@.take(0) =~= Seq::<usize>::empty());
    }
    while i < s.len()
        invariant
            v.len() >= 1,
            edges_match(edges@, v@),
            all_below(s@, v.len() as int),
            i <= s.len(),
            out@ == without_ending(v@, s@.take(i as int), y as int),
            all_below(out@, v.len() as int),
            all_active(v@, s@, y - 1),
            all_active(v@, out@, y as int),
        decreases s.len() - i,
    {
        let k = s[i];
        proof {
            assert(s@[i as int] < v.len());
            assert(edges@[k as int]@ == edge(v@, k as int));
            assert(s@.take(i + 1).drop_last() =~= s@.take(i as int));
            assert(s@.take(i + 1).last() == k);
        }
        if edges[k].ey != y {
            out.push(k);
        }
        i = i + 1;
    }
    proof {
        assert(s@.take(s.len() as int) =~= s@);
    }
    out
}

proof fn lemma_insert_at(v: Seq<(i32, i32)>, s: Seq<usize>, k: usize, y: int, p: int)
    requires
        0 <= p <= s.len(),
        forall|j: int| 0 <= j < p ==> !edge_before(v, k, #[trigger] s[j], y),
        p < s.len() ==> edge_before(v, k, s[p], y),
    ensures
        insert_edge(v, s, k, y) == s.take(p) + seq![k] + s.skip(p),
    decreases s.len(),
{
    if s.len() == 0 {
        assert(s.take(p) + seq![k] + s.skip(p) =~= seq![k]);
    } else if p == 0 {
        assert(s.take(p) + seq![k] + s.skip(p) =~= seq![k] + s);
    } else {
        let t = s.drop_first();
        assert forall|j: int| 0 <= j < p - 1 implies !edge_before(v, k, #[trigger] t[j], y) by {
            assert(t[j] == s[j + 1]);
        }
        if p < s.len() {
            assert(t[p - 1] == s[p]);
        }
        lemma_insert_at(v, t, k, y, p - 1);
        assert(!edge_before(v, k, s[0], y));
        assert(seq![s[0]] + (t.take(p - 1) + seq![k] + t.skip(p - 1)) =~= s.take(p) + seq![k]
            + s.skip(p));
    }
}

fn insert_exec(v: &Vec<(i32, i32)>, edges: &Vec<Edge>, s: &mut Vec<usize>, k: usize, y: i64)
    requires
        v.len() >= 1,
        edges_match(edges@, v@),
        all_below(old(s)@, v.len() as int),
        all_active(v@, old(s)@, y as int),
        active_at(v@, k, y as int),
        k < v.len(),
        in_i32(y as int),
    ensures
        final(s)@ == insert_edge(v@, old(s)@, k, y as int),
        all_below(final(s)@, v.len() as int),
        all_active(v@, final(s)@, y as int),
{
    let mut p: usize = 0;
    while p < s.len()
        invariant
            v.len() >= 1,
            edges_match(edges@, v@),
            all_below(s@, v.len() as int),
            k < v.len(),
            in_i32(y as int),
            p <= s.len(),
            forall|j: int| 0 <= j < p ==> !edge_before(v@, k, #[trigger] s@[j], y as int),
        ensures
            p <= s.len(),
            forall|j: int| 0 <= j < p ==> !edge_before(v@, k, #[trigger] s@[j], y as int),
            p < s.len() ==> edge_before(v@, k, s@[p as int], y as int),
        decreases s.len() - p,
    {
        if edge_before_exec(v, edges, k, s[p], y) {
            break;
        }
        p = p + 1;
    }
    proof {
        lemma_insert_at(v@, s@, k, y as int, p as int);
        assert(s@.insert(p as int, k) =~= s@.take(p as int) + seq![k] + s@.skip(p as int));
    }
    let ghost before = s@;
    s.insert(p, k);
    proof {
        assert forall|j: int| 0 <= j < s@.len() implies #[trigger] s@[j] < v.len() && active_at(
            v@,
            s@[j],
            y as int,
        ) by {
            if j < p {
                assert(s@[j] == before[j]);
            } else if j > p {
                assert(s@[j] == before[j - 1]);
            }
        }
    }
}

fn sort_exec(v: &Vec<(i32, i32)>, edges: &Vec<Edge>, s: &Vec<usize>, y: i64) -> (r: Vec<usize>)
    requires
        v.len() >= 1,
        edges_match(edges@, v@),
        all_below(s@, v.len() as int),
        all_active(v@, s@, y as int),
        in_i32(y as int),
    ensures
        r@ == sort_edges(v@, s@, y as int),
        all_below(r@, v.len() as int),
        all_active(v@, r@, y as int),
{
    let mut out: Vec<usize> = Vec::new();
    let mut i: usize = 0;
    proof {
        assert(s@.take(0) =~= Seq::<usize>::empty());
    }
    while i < s.len()
        invariant
            v.len() >= 1,
            edges_match(edges@, v@),
            all_below(s@, v.len() as int),
            in_i32(y as int),
            i <= s.len(),
            out@ == sort_edges(v@, s@.take(i as int), y as int),
            all_below(out@, v.len() as int),
            all_active(v@, s@, y as int),
            all_active(v@, out@, y as int),
        decreases s.len() - i,
    {
        proof {
            assert(s@.take(i + 1).drop_last() =~= s@.take(i as int));
            assert(s@.take(i + 1).last() == s@[i as int]);
        }
        insert_exec(v, edges, &mut out, s[i], y);
        i = i + 1;
    }
    proof {
        assert(s@.take(s.len() as int) =~= s@);
    }
    out
}

proof fn lemma_div_between(a: int, d: int, lo: int, hi: int)
    requires
        d > 0,
        lo * d <= a <= hi * d,
    ensures
        lo <= a / d <= hi,
{
    vstd::arithmetic::div_mod::lemma_fundamental_div_mod(a, d);
    vstd::arithmetic::div_mod::lemma_mod_bound(a, d);
    let q = a / d;
    let r = a % d;
    assert(lo <= q) by (nonlinear_arith)
        requires lo * d <= a, a == d * q + r, 0 <= r < d, d > 0;
    assert(q <= hi) by (nonlinear_arith)
        requires a <= hi * d, a == d * q + r, 0 <= r, d > 0;
}

proof fn lemma_trunc_between(a: int, d: int, lo: int, hi: int)
    requires
        d > 0,
        lo * d <= a <= hi * d,
    ensures
        lo <= trunc_div(a, d) <= hi,
{
    if a >= 0 {
        lemma_div_between(a, d, lo, hi);
    } else {
        assert((-hi) * d <= -a <= (-lo) * d) by (nonlinear_arith)
            requires lo * d <= a <= hi * d;
        lemma_div_between(-a, d, -hi, -lo);
    }
}

/// The truncated crossing of an edge on a row it crosses lies between its end
/// `x` values.
proof fn lemma_cross_between(e: (int, int, int, int), y: int)
    requires
        e.1 <= y < e.3,
    ensures
        e.0 <= e.2 ==> e.0 <= trunc_div(cross_num(e, y), cross_den(e)) <= e.2,
        e.2 < e.0 ==> e.2 <= trunc_div(cross_num(e, y), cross_den(e)) <= e.0,
{
    let d = e.3 - e.1;
    let t = y - e.1;
    let num = cross_num(e, y);
    assert(num == e.0 * d + t * (e.2 - e.0));
    if e.0 <= e.2 {
        assert(e.0 * d <= num <= e.2 * d) by (nonlinear_arith)
            requires num == e.0 * d + t * (e.2 - e.0), 0 <= t < d, e.0 <= e.2;
        lemma_trunc_between(num, d, e.0, e.2);
    } else {
        assert(e.2 * d <= num <= e.0 * d) by (nonlinear_arith)
            requires num == e.0 * d + t * (e.2 - e.0), 0 <= t < d, e.2 < e.0;
        lemma_trunc_between(num, d, e.2, e.0);
    }
}

fn cross_x_exec(v: &Vec<(i32, i32)>, edges: &Vec<Edge>, k: usize, y: i64) -> (r: i32)
    requires
        v.len() >= 1,
        edges_match(edges@, v@),
        active_at(v@, k, y as int),
    ensures
        r == cross_x(v@, k, y as int),
{
    let e = &edges[k];
    proof {
        lemma_edge_bounds(v@, k as int);
        assert(edges@[k as int]@ == edge(v@, k as int));
        lemma_cross_between(e@, y as int);
    }
    let num = cross_num_exec(e, y);
    let d = (e.ey - e.sy) as i128;
    let q: i128 = if num >= 0 {
        ((num as u128) / (d as u128)) as i128
    } else {
        -(((-num) as u128 / (d as u128)) as i128)
    };
    q as i32
}

fn push_row_spans(
    v: &Vec<(i32, i32)>,
    edges: &Vec<Edge>,
    s: &Vec<usize>,
    y: i64,
    out: &mut Vec<Span>,
)
    requires
        v.len() >= 1,
        edges_match(edges@, v@),
        all_active(v@, s@, y as int),
        in_i32(y as int),
    ensures
        span_views(final(out)@) == span_views(old(out)@) + row_spans(v@, s@, y as int),
{
    let ghost start = span_views(out@);
    let ghost row = row_spans(v@, s@, y as int);
    let half = s.len() / 2;
    let mut j: usize = 0;
    while j < half
        invariant
            v.len() >= 1,
            edges_match(edges@, v@),
            all_active(v@, s@, y as int),
            in_i32(y as int),
            half == s.len() / 2,
            j <= half,
            row == row_spans(v@, s@, y as int),
            span_views(out@) == start + row.take(j as int),
        decreases half - j,
    {
        let a = s[2 * j];
        let b = s[2 * j + 1];
        proof {
            assert(active_at(v@, s@[2 * j as int], y as int));
            assert(active_at(v@, s@[2 * j + 1], y as int));
        }
        let left = cross_x_exec(v, edges, a, y);
        let right = cross_x_exec(v, edges, b, y);
        let sp = Span { y: y as i32, left, right };
        let ghost before = out@;
        out.push(sp);
        proof {
            assert(row[j as int] == sp@);
            assert(row.take(j + 1) =~= row.take(j as int) + seq![sp@]);
            assert(span_views(out@) =~= span_views(before) + seq![sp@]);
        }
        j = j + 1;
    }
    proof {
        assert(row.take(half as int) =~= row);
    }
}

/// The spans that fill the polygon with vertices `vertices`.
///
/// The rows lie in `[lowest vertex y, highest vertex y)`. For a polygon that
/// crosses itself the pairing of edges follows the same rule and the result is
/// whatever that rule gives.
pub fn fill_spans(vertices: &Vec<(i32, i32)>) -> (r: Vec<Span>)
    ensures
        span_views(r@) == fill_spec(vertices@),
{
    let v = vertices;
    let mut out: Vec<Span> = Vec::new();
    proof {
        assert(span_views(out@) =~= Seq::empty());
    }
    if v.len() < 3 {
        return out;
    }
    let edges = build_edges(v);
    let (lo, hi) = y_range(v);
    let mut prev: Vec<usize> = Vec::new();
    let mut y: i64 = lo;
    let mut rows: u64 = (hi - lo) as u64;
    proof {
        assert(span_views(out@) + sweep(v@, prev@, y as int, rows as nat) =~= fill_spec(v@));
    }
    loop
        invariant
            v.len() >= 3,
            edges_match(edges@, v@),
            in_i32(lo as int),
            in_i32(hi as int),
            lo <= y <= hi,
            rows == hi - y,
            all_below(prev@, v.len() as int),
            all_active(v@, prev@, y - 1),
            span_views(out@) + sweep(v@, prev@, y as int, rows as nat) == fill_spec(v@),
        ensures
            span_views(out@) == fill_spec(v@),
        decreases rows,
    {
        let (mut joined, any) = {
            let (mut started, any) = starting_exec(v, &edges, y);
            let mut kept = without_ending_exec(v, &edges, &prev, y);
            let ghost k0 = kept@;
            let ghost s0 = started@;
            kept.append(&mut started);
            proof {
                assert(kept@ == k0 + s0);
                assert forall|j: int| 0 <= j < kept@.len() implies #[trigger] kept@[j] < v.len()
                    && active_at(v@, kept@[j], y as int) by {
                    if j >= k0.len() {
                        assert(kept@[j] == s0[j - k0.len()]);
                    }
                }
            }
            (kept, any)
        };
        let s = if any {
            sort_exec(v, &edges, &joined, y)
        } else {
            joined
        };
        proof {
            assert(s@ == active_on(v@, prev@, y as int));
        }
        if rows == 0 || s.len() == 0 {
            proof {
                assert(sweep(v@, prev@, y as int, rows as nat) =~= Seq::empty());
                assert(span_views(out@) =~= span_views(out@) + Seq::<(int, int, int)>::empty());
            }
            break;
        }
        let ghost before = span_views(out@);
        push_row_spans(v, &edges, &s, y, &mut out);
        proof {
            assert(sweep(v@, prev@, y as int, rows as nat) == row_spans(v@, s@, y as int) + sweep(
                v@,
                s@,
                y + 1,
                (rows - 1) as nat,
            ));
            assert(span_views(out@) + sweep(v@, s@, y + 1, (rows - 1) as nat) =~= before + sweep(
                v@,
                prev@,
                y as int,
                rows as nat,
            ));
        }
        prev = s;
        y = y + 1;
        rows = rows - 1;
    }
    out
}

/// `s` holds each edge that crosses row `y` exactly once, and no other edge.
pub open spec fn exact_active(v: Seq<(i32, i32)>, s: Seq<usize>, y: int) -> bool {
    &&& s.no_duplicates()
    &&& forall|k: usize| s.contains(k) <==> active_at(v, k, y)
}

/// Edges `a` and `b` are distinct and are the only edges crossing row `y`.
pub open spec fn crossing_pair(v: Seq<(i32, i32)>, y: int, a: usize, b: usize) -> bool {
    a != b && forall|k: usize| active_at(v, k, y) <==> (k == a || k == b)
}

/// Exactly two distinct edges cross row `y`.
pub open spec fn two_crossings(v: Seq<(i32, i32)>, y: int) -> bool {
    exists|a: usize, b: usize| #[trigger] crossing_pair(v, y, a, b)
}

proof fn lemma_without_ending(v: Seq<(i32, i32)>, s: Seq<usize>, y: int)
    requires
        s.no_duplicates(),
    ensures
        without_ending(v, s, y).no_duplicates(),
        forall|k: usize| #[trigger] without_ending(v, s, y).contains(k) <==> (s.contains(k)
            && edge(v, k as int).3 != y),
    decreases s.len(),
{
    if s.len() > 0 {
        let t = s.drop_last();
        assert(t.no_duplicates());
        lemma_without_ending(v, t, y);
        let rest = without_ending(v, t, y);
        assert forall|k: usize| s.contains(k) <==> (t.contains(k) || k == s.last()) by {
            if s.contains(k) {
                let j = choose|j: int| 0 <= j < s.len() && s[j] == k;
                if j < s.len() - 1 {
                    assert(t[j] == k);
                }
            }
            if t.contains(k) {
                let j = choose|j: int| 0 <= j < t.len() && t[j] == k;
                assert(s[j] == k);
            }
            if k == s.last() {
                assert(s[s.len() - 1] == k);
            }
        }
        assert(!t.contains(s.last())) by {
            if t.contains(s.last()) {
                let j = choose|j: int| 0 <= j < t.len() && t[j] == s.last();
                assert(s[j] == s[s.len() - 1]);
            }
        }
        if edge(v, s.last() as int).3 != y {
            let r = rest.push(s.last());
            assert forall|k: usize| r.contains(k) <==> (rest.contains(k) || k == s.last()) by {
                if r.contains(k) {
                    let j = choose|j: int| 0 <= j < r.len() && r[j] == k;
                    if j < rest.len() {
                        assert(rest[j] == k);
                    }
                }
                if rest.contains(k) {
                    let j = choose|j: int| 0 <= j < rest.len() && rest[j] == k;
                    assert(r[j] == k);
                }
                if k == s.last() {
                    assert(r[r.len() - 1] == k);
                }
            }
            assert(r.no_duplicates()) by {
                assert forall|i: int, j: int| 0 <= i < r.len() && 0 <= j < r.len() && i != j
                    implies r[i] != r[j] by {
                    if i < rest.len() && j < rest.len() {
                    } else if i < rest.len() {
                        assert(rest.contains(r[i]));
                    } else if j < rest.len() {
                        assert(rest.contains(r[j]));
                    }
                }
            }
        }
    }
}

proof fn lemma_starting(v: Seq<(i32, i32)>, y: int, upto: int)
    requires
        0 <= upto <= v.len() <= usize::MAX,
    ensures
        starting(v, y, upto).no_duplicates(),
        forall|k: usize| #[trigger] starting(v, y, upto).contains(k) <==> (k < upto && edge(
            v,
            k as int,
        ).1 == y && edge(v, k as int).3 > y),
    decreases upto,
{
    if upto > 0 {
        lemma_starting(v, y, upto - 1);
        let rest = starting(v, y, upto - 1);
        let e = edge(v, upto - 1);
        let h = (upto - 1) as usize;
        if e.1 == y && e.3 > y {
            let r = seq![h] + rest;
            assert(r == starting(v, y, upto));
            assert forall|k: usize| r.contains(k) <==> (rest.contains(k) || k == h) by {
                if r.contains(k) {
                    let j = choose|j: int| 0 <= j < r.len() && r[j] == k;
                    if j > 0 {
                        assert(rest[j - 1] == k);
                    }
                }
                if rest.contains(k) {
                    let j = choose|j: int| 0 <= j < rest.len() && rest[j] == k;
                    assert(r[j + 1] == k);
                }
                if k == h {
                    assert(r[0] == k);
                }
            }
            assert(r.no_duplicates()) by {
                assert forall|i: int, j: int| 0 <= i < r.len() && 0 <= j < r.len() && i != j
                    implies r[i] != r[j] by {
                    if i > 0 && j > 0 {
                        assert(r[i] == rest[i - 1] && r[j] == rest[j - 1]);
                    } else if i > 0 {
                        assert(rest.contains(r[i]));
                    } else {
                        assert(rest.contains(r[j]));
                    }
                }
            }
        } else {
            assert(starting(v, y, upto) =~= rest);
        }
    }
}

proof fn lemma_insert_edge(v: Seq<(i32, i32)>, s: Seq<usize>, k: usize, y: int)
    ensures
        forall|x: usize| #[trigger] insert_edge(v, s, k, y).contains(x) <==> (s.contains(x) || x
            == k),
        s.no_duplicates() && !s.contains(k) ==> insert_edge(v, s, k, y).no_duplicates(),
    decreases s.len(),
{
    let r = insert_edge(v, s, k, y);
    if s.len() == 0 {
        assert forall|x: usize| r.contains(x) <==> (s.contains(x) || x == k) by {
            if x == k {
                assert(r[0] == k);
            }
        }
    } else {
        let t = s.drop_first();
        lemma_insert_edge(v, t, k, y);
        let (h, tail) = if edge_before(v, k, s[0], y) { (k, s) } else { (s[0], insert_edge(v, t, k, y)) };
        assert(r == seq![h] + tail);
        assert forall|x: usize| s.contains(x) <==> (t.contains(x) || x == s[0]) by {
            if s.contains(x) {
                let j = choose|j: int| 0 <= j < s.len() && s[j] == x;
                if j > 0 {
                    assert(t[j - 1] == x);
                }
            }
            if t.contains(x) {
                let j = choose|j: int| 0 <= j < t.len() && t[j] == x;
                assert(s[j + 1] == x);
            }
        }
        assert forall|x: usize| r.contains(x) <==> (tail.contains(x) || x == h) by {
            if r.contains(x) {
                let j = choose|j: int| 0 <= j < r.len() && r[j] == x;
                if j > 0 {
                    assert(tail[j - 1] == x);
                }
            }
            if tail.contains(x) {
                let j = choose|j: int| 0 <= j < tail.len() && tail[j] == x;
                assert(r[j + 1] == x);
            }
            if x == h {
                assert(r[0] == x);
            }
        }
        if s.no_duplicates() && !s.contains(k) {
            assert(t.no_duplicates());
            assert(!t.contains(s[0])) by {
                if t.contains(s[0]) {
                    let j = choose|j: int| 0 <= j < t.len() && t[j] == s[0];
                    assert(s[j + 1] == s[0]);
                }
            }
            assert(!t.contains(k)) by {
                if t.contains(k) {
                    let j = choose|j: int| 0 <= j < t.len() && t[j] == k;
                    assert(s[j + 1] == k);
                }
            }
            assert(tail.no_duplicates());
            assert(!tail.contains(h));
            assert(r.no_duplicates()) by {
                assert forall|i: int, j: int| 0 <= i < r.len() && 0 <= j < r.len() && i != j
                    implies r[i] != r[j] by {
                    if i > 0 && j > 0 {
                        assert(r[i] == tail[i - 1] && r[j] == tail[j - 1]);
                    } else if i > 0 {
                        assert(tail.contains(r[i]));
                    } else {
                        assert(tail.contains(r[j]));
                    }
                }
            }
        }
    }
}

proof fn lemma_sort_edges(v: Seq<(i32, i32)>, s: Seq<usize>, y: int)
    ensures
        forall|x: usize| #[trigger] sort_edges(v, s, y).contains(x) <==> s.contains(x),
        s.no_duplicates() ==> sort_edges(v, s, y).no_duplicates(),
    decreases s.len(),
{
    if s.len() > 0 {
        let t = s.drop_last();
        lemma_sort_edges(v, t, y);
        let st = sort_edges(v, t, y);
        lemma_insert_edge(v, st, s.last(), y);
        assert forall|x: usize| s.contains(x) <==> (t.contains(x) || x == s.last()) by {
            if s.contains(x) {
                let j = choose|j: int| 0 <= j < s.len() && s[j] == x;
                if j < s.len() - 1 {
                    assert(t[j] == x);
                }
            }
            if t.contains(x) {
                let j = choose|j: int| 0 <= j < t.len() && t[j] == x;
                assert(s[j] == x);
            }
            if x == s.last() {
                assert(s[s.len() - 1] == x);
            }
        }
        if s.no_duplicates() {
            assert(t.no_duplicates());
            assert(!t.contains(s.last())) by {
                if t.contains(s.last()) {
                    let j = choose|j: int| 0 <= j < t.len() && t[j] == s.last();
                    assert(s[j] == s[s.len() - 1]);
                }
            }
        }
    }
}

/// The active list is exact on every row: if the list of the row below holds
/// each edge crossing that row exactly once, the list built for row `y` holds
/// each edge crossing row `y` exactly once, and nothing else.
pub proof fn lemma_active_list_exact(v: Seq<(i32, i32)>, prev: Seq<usize>, y: int)
    requires
        v.len() <= usize::MAX,
        exact_active(v, prev, y - 1),
    ensures
        exact_active(v, active_on(v, prev, y), y),
{
    let kept = without_ending(v, prev, y);
    let st = starting(v, y, v.len() as int);
    lemma_without_ending(v, prev, y);
    lemma_starting(v, y, v.len() as int);
    let joined = kept + st;
    assert forall|k: usize| joined.contains(k) <==> (kept.contains(k) || st.contains(k)) by {
        if joined.contains(k) {
            let j = choose|j: int| 0 <= j < joined.len() && joined[j] == k;
            if j < kept.len() {
                assert(kept[j] == k);
            } else {
                assert(st[j - kept.len()] == k);
            }
        }
        if kept.contains(k) {
            let j = choose|j: int| 0 <= j < kept.len() && kept[j] == k;
            assert(joined[j] == k);
        }
        if st.contains(k) {
            let j = choose|j: int| 0 <= j < st.len() && st[j] == k;
            assert(joined[j + kept.len()] == k);
        }
    }
    assert forall|k: usize| joined.contains(k) <==> active_at(v, k, y) by {
        if active_at(v, k, y) && edge(v, k as int).1 < y {
            assert(active_at(v, k, y - 1));
        }
    }
    assert(joined.no_duplicates()) by {
        assert forall|i: int, j: int| 0 <= i < joined.len() && 0 <= j < joined.len() && i != j
            implies joined[i] != joined[j] by {
            if i < kept.len() && j < kept.len() {
                assert(joined[i] == kept[i] && joined[j] == kept[j]);
            } else if i >= kept.len() && j >= kept.len() {
                assert(joined[i] == st[i - kept.len()] && joined[j] == st[j - kept.len()]);
            } else if i < kept.len() {
                assert(kept.contains(joined[i]));
                assert(st.contains(joined[j]));
                assert(active_at(v, joined[i], y - 1));
            } else {
                assert(kept.contains(joined[j]));
                assert(st.contains(joined[i]));
                assert(active_at(v, joined[j], y - 1));
            }
        }
    }
    lemma_sort_edges(v, joined, y);
}

proof fn lemma_min_y_below(v: Seq<(i32, i32)>, i: int)
    requires
        0 <= i < v.len(),
    ensures
        min_y(v) <= v[i].1 <= max_y(v),
    decreases v.len(),
{
    if v.len() > 1 && i < v.len() - 1 {
        lemma_min_y_below(v.drop_last(), i);
    }
}

proof fn lemma_no_edge_below(v: Seq<(i32, i32)>)
    requires
        v.len() >= 1,
    ensures
        exact_active(v, Seq::empty(), min_y(v) - 1),
{
    assert forall|k: usize| !#[trigger] active_at(v, k, min_y(v) - 1) by {
        if k < v.len() {
            lemma_min_y_below(v, k as int);
            lemma_min_y_below(v, prev_index(v.len() as int, k as int));
        }
    }
}

proof fn lemma_sweep_rows(v: Seq<(i32, i32)>, prev: Seq<usize>, y: int, rows: nat)
    ensures
        forall|i: int| 0 <= i < sweep(v, prev, y, rows).len() ==> y <= #[trigger] sweep(
            v,
            prev,
            y,
            rows,
        )[i].0 < y + rows,
    decreases rows,
{
    let s = active_on(v, prev, y);
    if rows > 0 && s.len() > 0 {
        lemma_sweep_rows(v, s, y + 1, (rows - 1) as nat);
        let a = row_spans(v, s, y);
        let b = sweep(v, s, y + 1, (rows - 1) as nat);
        assert forall|i: int| 0 <= i < (a + b).len() implies y <= #[trigger] (a + b)[i].0 < y
            + rows by {
            if i >= a.len() {
                assert((a + b)[i] == b[i - a.len()]);
            }
        }
    }
}

/// No row outside the polygon's vertical extent is filled: every span lies on
/// a row in `[lowest vertex y, highest vertex y)`.
pub proof fn lemma_fill_rows_within_extent(v: Seq<(i32, i32)>)
    ensures
        forall|i: int| 0 <= i < fill_spec(v).len() ==> min_y(v) <= #[trigger] fill_spec(v)[i].0
            < max_y(v),
{
    if v.len() >= 3 {
        lemma_min_y_below(v, 0);
        lemma_sweep_rows(v, Seq::empty(), min_y(v), (max_y(v) - min_y(v)) as nat);
    }
}

proof fn lemma_pair_len(s: Seq<usize>, a: usize, b: usize)
    requires
        s.no_duplicates(),
        a != b,
        forall|k: usize| s.contains(k) <==> (k == a || k == b),
    ensures
        s.len() == 2,
{
    s.unique_seq_to_set();
    assert(s.to_set() =~= Set::empty().insert(a).insert(b)) by {
        assert forall|k: usize| s.to_set().contains(k) <==> s.contains(k) by {}
    }
}

proof fn lemma_sweep_one_span_per_row(v: Seq<(i32, i32)>, prev: Seq<usize>, y: int, rows: nat)
    requires
        v.len() <= usize::MAX,
        exact_active(v, prev, y - 1),
        forall|z: int| y <= z < y + rows ==> two_crossings(v, z),
    ensures
        sweep(v, prev, y, rows).len() == rows,
        forall|i: int| 0 <= i < rows ==> #[trigger] sweep(v, prev, y, rows)[i].0 == y + i,
    decreases rows,
{
    if rows > 0 {
        let s = active_on(v, prev, y);
        lemma_active_list_exact(v, prev, y);
        assert(two_crossings(v, y));
        let (a, b) = choose|a: usize, b: usize| #[trigger] crossing_pair(v, y, a, b);
        lemma_pair_len(s, a, b);
        lemma_sweep_one_span_per_row(v, s, y + 1, (rows - 1) as nat);
        let r = row_spans(v, s, y);
        let rest = sweep(v, s, y + 1, (rows - 1) as nat);
        assert(sweep(v, prev, y, rows) == r + rest);
        assert forall|i: int| 0 <= i < rows implies #[trigger] (r + rest)[i].0 == y + i by {
            if i > 0 {
                assert((r + rest)[i] == rest[i - 1]);
            }
        }
    }
}

/// A polygon whose every row is crossed by exactly two edges (a convex
/// polygon, for instance) gets exactly one span, a single interval
/// `left < x <= right`, on each row of its vertical extent, from the lowest
/// row up, and none on any other row.
pub proof fn lemma_two_crossings_one_span_per_row(v: Seq<(i32, i32)>)
    requires
        3 <= v.len() <= usize::MAX,
        forall|y: int| min_y(v) <= y < max_y(v) ==> two_crossings(v, y),
    ensures
        fill_spec(v).len() == max_y(v) - min_y(v),
        forall|i: int| 0 <= i < fill_spec(v).len() ==> #[trigger] fill_spec(v)[i].0 == min_y(v) + i,
{
    lemma_min_y_below(v, 0);
    lemma_no_edge_below(v);
    lemma_sweep_one_span_per_row(v, Seq::empty(), min_y(v), (max_y(v) - min_y(v)) as nat);
}

/// Every row of a triangle's vertical extent is crossed by exactly two of its
/// edges.
proof fn lemma_triangle_two_crossings(v: Seq<(i32, i32)>, y: int)
    requires
        v.len() == 3,
        min_y(v) <= y < max_y(v),
    ensures
        two_crossings(v, y),
{
    reveal_with_fuel(min_y, 3);
    reveal_with_fuel(max_y, 3);
    let c0 = active_at(v, 0, y);
    let c1 = active_at(v, 1, y);
    let c2 = active_at(v, 2, y);
    if !c0 {
        assert(crossing_pair(v, y, 1, 2));
    } else if !c1 {
        assert(crossing_pair(v, y, 0, 2));
    } else {
        assert(crossing_pair(v, y, 0, 1));
    }
}

/// A triangle, the simplest convex polygon, gets exactly one span, a single
/// interval `left < x <= right`, on each row of its vertical extent, from the
/// lowest row up, and none on any other row.
pub proof fn lemma_triangle_one_span_per_row(v: Seq<(i32, i32)>)
    requires
        v.len() == 3,
    ensures
        fill_spec(v).len() == max_y(v) - min_y(v),
        forall|i: int| 0 <= i < fill_spec(v).len() ==> #[trigger] fill_spec(v)[i].0 == min_y(v) + i,
{
    assert forall|y: int| min_y(v) <= y < max_y(v) implies two_crossings(v, y) by {
        lemma_triangle_two_crossings(v, y);
    }
    lemma_two_crossings_one_span_per_row(v);
}

/// `t` reduced into `[0, n)`, for `0 <= t < 2n`.
pub open spec fn wrap(n: int, t: int) -> int {
    if t < n { t } else { t - n }
}

/// The `y` of the vertex `i` steps after vertex `lo`, going around.
pub open spec fn y_after(v: Seq<(i32, i32)>, lo: int, i: int) -> int {
    v[wrap(v.len() as int, lo + i)].1 as int
}

pub open spec fn rising_step(v: Seq<(i32, i32)>, lo: int, i: int) -> bool {
    y_after(v, lo, i) <= y_after(v, lo, i + 1)
}

pub open spec fn falling_step(v: Seq<(i32, i32)>, lo: int, i: int) -> bool {
    y_after(v, lo, i) >= y_after(v, lo, i + 1)
}

/// Read around from vertex `lo`, the vertex rows never fall for `h` steps,
/// then never rise back to vertex `lo`: the shape of every convex polygon,
/// kept when its coordinates are truncated.
pub open spec fn rises_then_falls(v: Seq<(i32, i32)>, lo: int, h: int) -> bool {
    &&& 0 <= lo < v.len()
    &&& 0 <= h <= v.len()
    &&& forall|i: int| 0 <= i < h ==> #[trigger] rising_step(v, lo, i)
    &&& forall|i: int| h <= i < v.len() ==> #[trigger] falling_step(v, lo, i)
}

/// The number of steps from vertex `lo` to vertex `k`, in `[1, n]`.
spec fn steps_to(lo: int, k: int, n: int) -> int {
    if k > lo { k - lo } else { k - lo + n }
}

proof fn lemma_rise(v: Seq<(i32, i32)>, lo: int, h: int, i: int, j: int)
    requires
        rises_then_falls(v, lo, h),
        0 <= i <= j <= h,
    ensures
        y_after(v, lo, i) <= y_after(v, lo, j),
    decreases j - i,
{
    if i < j {
        lemma_rise(v, lo, h, i, j - 1);
        assert(rising_step(v, lo, j - 1));
    }
}

proof fn lemma_fall(v: Seq<(i32, i32)>, lo: int, h: int, i: int, j: int)
    requires
        rises_then_falls(v, lo, h),
        h <= i <= j <= v.len(),
    ensures
        y_after(v, lo, i) >= y_after(v, lo, j),
    decreases j - i,
{
    if i < j {
        lemma_fall(v, lo, h, i, j - 1);
        assert(falling_step(v, lo, j - 1));
    }
}

proof fn lemma_rise_crossing(v: Seq<(i32, i32)>, lo: int, h: int, b: int, y: int) -> (i: int)
    requires
        rises_then_falls(v, lo, h),
        0 <= b <= h,
        y_after(v, lo, 0) <= y < y_after(v, lo, b),
    ensures
        1 <= i <= b,
        y_after(v, lo, i - 1) <= y < y_after(v, lo, i),
    decreases b,
{
    if y < y_after(v, lo, b - 1) {
        lemma_rise_crossing(v, lo, h, b - 1, y)
    } else {
        b
    }
}

proof fn lemma_fall_crossing(v: Seq<(i32, i32)>, lo: int, h: int, b: int, y: int) -> (i: int)
    requires
        rises_then_falls(v, lo, h),
        h <= b <= v.len(),
        y_after(v, lo, b) <= y < y_after(v, lo, h),
    ensures
        h < i <= b,
        y_after(v, lo, i) <= y < y_after(v, lo, i - 1),
    decreases b,
{
    if y_after(v, lo, b - 1) <= y {
        lemma_fall_crossing(v, lo, h, b - 1, y)
    } else {
        b
    }
}

proof fn lemma_min_y_attained(v: Seq<(i32, i32)>) -> (j: int)
    requires
        v.len() >= 1,
    ensures
        0 <= j < v.len(),
        v[j].1 == min_y(v),
        exists|k: int| 0 <= k < v.len() && v[k].1 == max_y(v),
    decreases v.len(),
{
    if v.len() == 1 {
        assert(v[0].1 == max_y(v));
        0
    } else {
        let t = v.drop_last();
        let j0 = lemma_min_y_attained(t);
        let k0 = choose|k: int| 0 <= k < t.len() && t[k].1 == max_y(t);
        assert(v[k0] == t[k0]);
        if (v.last().1 as int) > max_y(t) {
            assert(v[v.len() - 1].1 == max_y(v));
        } else {
            assert(v[k0].1 == max_y(v));
        }
        if (v.last().1 as int) < min_y(t) {
            v.len() - 1
        } else {
            assert(v[j0] == t[j0]);
            j0
        }
    }
}

/// Every row of the vertical extent of a polygon that rises then falls is
/// crossed by exactly two of its edges.
proof fn lemma_rise_fall_two_crossings(v: Seq<(i32, i32)>, lo: int, h: int, y: int)
    requires
        3 <= v.len() <= usize::MAX,
        rises_then_falls(v, lo, h),
        min_y(v) <= y < max_y(v),
    ensures
        two_crossings(v, y),
{
    let n = v.len() as int;
    assert(y_after(v, lo, n) == y_after(v, lo, 0));
    assert forall|i: int| 0 <= i <= n implies y_after(v, lo, 0) <= #[trigger] y_after(v, lo, i)
        <= y_after(v, lo, h) by {
        if i <= h {
            lemma_rise(v, lo, h, 0, i);
            lemma_rise(v, lo, h, i, h);
        } else {
            lemma_fall(v, lo, h, h, i);
            lemma_fall(v, lo, h, i, n);
        }
    }
    let jmin = lemma_min_y_attained(v);
    let jmax = choose|k: int| 0 <= k < v.len() && v[k].1 == max_y(v);
    assert(v[jmin].1 == y_after(v, lo, steps_to(lo, jmin, n)));
    assert(v[jmax].1 == y_after(v, lo, steps_to(lo, jmax, n)));
    let i1 = lemma_rise_crossing(v, lo, h, h, y);
    let i2 = lemma_fall_crossing(v, lo, h, n, y);
    let a = wrap(n, lo + i1) as usize;
    let b = wrap(n, lo + i2) as usize;
    assert forall|k: usize| active_at(v, k, y) <==> (k == a || k == b) by {
        if k < n {
            let i = steps_to(lo, k as int, n);
            assert(wrap(n, lo + i) == k);
            assert(prev_index(n, k as int) == wrap(n, lo + i - 1));
            if i <= h {
                assert(rising_step(v, lo, i - 1));
                if active_at(v, k, y) && i != i1 {
                    if i < i1 {
                        lemma_rise(v, lo, h, i, i1 - 1);
                    } else {
                        lemma_rise(v, lo, h, i1, i - 1);
                    }
                }
                assert(steps_to(lo, b as int, n) == i2);
                assert(steps_to(lo, a as int, n) == i1);
            } else {
                assert(falling_step(v, lo, i - 1));
                if active_at(v, k, y) && i != i2 {
                    if i < i2 {
                        lemma_fall(v, lo, h, i, i2 - 1);
                    } else {
                        lemma_fall(v, lo, h, i2, i - 1);
                    }
                }
                assert(steps_to(lo, b as int, n) == i2);
                assert(steps_to(lo, a as int, n) == i1);
            }
        }
    }
    assert(crossing_pair(v, y, a, b));
}

/// A polygon whose vertex rows rise and then fall (every convex polygon) gets
/// exactly one span, a single interval `left < x <= right`, on each row of its
/// vertical extent, from the lowest row up, and none on any other row. That
/// the interval is not reversed is [`lemma_rise_fall_spans_ordered`].
pub proof fn lemma_rise_fall_one_span_per_row(v: Seq<(i32, i32)>, lo: int, h: int)
    requires
        3 <= v.len() <= usize::MAX,
        rises_then_falls(v, lo, h),
    ensures
        fill_spec(v).len() == max_y(v) - min_y(v),
        forall|i: int| 0 <= i < fill_spec(v).len() ==> #[trigger] fill_spec(v)[i].0 == min_y(v) + i,
{
    assert forall|y: int| min_y(v) <= y < max_y(v) implies two_crossings(v, y) by {
        lemma_rise_fall_two_crossings(v, lo, h, y);
    }
    lemma_two_crossings_one_span_per_row(v);
}

/// Edge `a` crosses row `y` strictly left of edge `b`.
pub open spec fn crosses_left_of(v: Seq<(i32, i32)>, a: usize, b: usize, y: int) -> bool {
    cross_num(edge(v, a as int), y) * cross_den(edge(v, b as int)) < cross_num(edge(v, b as int), y)
        * cross_den(edge(v, a as int))
}

/// No two edges swap sides between two rows that both of them cross; every
/// simple polygon, convex ones included, has this property.
pub open spec fn edges_do_not_cross(v: Seq<(i32, i32)>) -> bool {
    forall|a: usize, b: usize, y1: int, y2: int|
        #![trigger crosses_left_of(v, a, b, y1), crosses_left_of(v, b, a, y2)]
        y1 <= y2 && active_at(v, a, y1) && active_at(v, b, y1) && active_at(v, a, y2) && active_at(
            v,
            b,
            y2,
        ) && crosses_left_of(v, a, b, y1) ==> !crosses_left_of(v, b, a, y2)
}

/// Two edges sorted on row `y0` are still in order on a later row `y` that
/// both cross, when no two edges cross.
proof fn lemma_order_kept(v: Seq<(i32, i32)>, a: usize, b: usize, y0: int, y: int)
    requires
        edges_do_not_cross(v),
        y0 <= y,
        active_at(v, a, y0),
        active_at(v, b, y0),
        active_at(v, a, y),
        active_at(v, b, y),
        !edge_before(v, b, a, y0),
    ensures
        !crosses_left_of(v, b, a, y),
{
    if !crosses_left_of(v, a, b, y0) {
        let ea = edge(v, a as int);
        let eb = edge(v, b as int);
        let da = cross_den(ea);
        let db = cross_den(eb);
        let l = cross_num(ea, y0) * db;
        let r = cross_num(eb, y0) * da;
        let sa = (ea.2 - ea.0) * db;
        let sb = (eb.2 - eb.0) * da;
        assert(l == r);
        assert(sa <= sb);
        let t = y - y0;
        assert(cross_num(ea, y) == cross_num(ea, y0) + t * (ea.2 - ea.0)) by (nonlinear_arith)
            requires
                cross_num(ea, y) == ea.0 * (ea.3 - ea.1) + (y - ea.1) * (ea.2 - ea.0),
                cross_num(ea, y0) == ea.0 * (ea.3 - ea.1) + (y0 - ea.1) * (ea.2 - ea.0),
                t == y - y0,
        ;
        assert(cross_num(eb, y) == cross_num(eb, y0) + t * (eb.2 - eb.0)) by (nonlinear_arith)
            requires
                cross_num(eb, y) == eb.0 * (eb.3 - eb.1) + (y - eb.1) * (eb.2 - eb.0),
                cross_num(eb, y0) == eb.0 * (eb.3 - eb.1) + (y0 - eb.1) * (eb.2 - eb.0),
                t == y - y0,
        ;
        assert(cross_num(eb, y) * da >= cross_num(ea, y) * db) by (nonlinear_arith)
            requires
                cross_num(ea, y) == cross_num(ea, y0) + t * (ea.2 - ea.0),
                cross_num(eb, y) == cross_num(eb, y0) + t * (eb.2 - eb.0),
                cross_num(ea, y0) * db == cross_num(eb, y0) * da,
                (ea.2 - ea.0) * db <= (eb.2 - eb.0) * da,
                t >= 0,
        ;
    }
}

proof fn lemma_floor_mono(a0: int, d0: int, a1: int, d1: int)
    requires
        d0 > 0,
        d1 > 0,
        a0 * d1 <= a1 * d0,
    ensures
        a0 / d0 <= a1 / d1,
{
    vstd::arithmetic::div_mod::lemma_fundamental_div_mod(a0, d0);
    vstd::arithmetic::div_mod::lemma_mod_bound(a0, d0);
    vstd::arithmetic::div_mod::lemma_fundamental_div_mod(a1, d1);
    vstd::arithmetic::div_mod::lemma_mod_bound(a1, d1);
    let q0 = a0 / d0;
    let q1 = a1 / d1;
    if q0 > q1 {
        assert(a0 >= (q1 + 1) * d0) by (nonlinear_arith)
            requires a0 == d0 * q0 + a0 % d0, a0 % d0 >= 0, q0 >= q1 + 1, d0 > 0;
        assert(a1 < (q1 + 1) * d1) by (nonlinear_arith)
            requires a1 == d1 * q1 + a1 % d1, a1 % d1 < d1;
        assert(false) by (nonlinear_arith)
            requires
                a0 >= (q1 + 1) * d0,
                a1 < (q1 + 1) * d1,
                a0 * d1 <= a1 * d0,
                d0 > 0,
                d1 > 0,
        ;
    }
}

/// Truncation toward zero keeps the order of two fractions.
proof fn lemma_trunc_mono(a0: int, d0: int, a1: int, d1: int)
    requires
        d0 > 0,
        d1 > 0,
        a0 * d1 <= a1 * d0,
    ensures
        trunc_div(a0, d0) <= trunc_div(a1, d1),
{
    if a0 >= 0 {
        assert(a1 >= 0) by (nonlinear_arith)
            requires a0 >= 0, d1 > 0, d0 > 0, a0 * d1 <= a1 * d0;
        lemma_floor_mono(a0, d0, a1, d1);
    } else if a1 >= 0 {
        assert((-a0) / d0 >= 0) by {
            vstd::arithmetic::div_mod::lemma_div_pos_is_pos(-a0, d0);
        }
        assert(a1 / d1 >= 0) by {
            vstd::arithmetic::div_mod::lemma_div_pos_is_pos(a1, d1);
        }
    } else {
        assert((-a1) * d0 <= (-a0) * d1) by (nonlinear_arith)
            requires a0 * d1 <= a1 * d0;
        lemma_floor_mono(-a1, d1, -a0, d0);
    }
}

proof fn lemma_edge_before_asym(v: Seq<(i32, i32)>, a: usize, b: usize, y: int)
    ensures
        edge_before(v, a, b, y) ==> !edge_before(v, b, a, y),
{
    let ea = edge(v, a as int);
    let eb = edge(v, b as int);
    assert(cross_num(ea, y) * cross_den(eb) == cross_den(eb) * cross_num(ea, y)) by (nonlinear_arith);
}

/// Sorting two edges puts them in order.
proof fn lemma_sort_two(v: Seq<(i32, i32)>, s: Seq<usize>, y: int)
    requires
        s.len() == 2,
    ensures
        sort_edges(v, s, y).len() == 2,
        !edge_before(v, sort_edges(v, s, y)[1], sort_edges(v, s, y)[0], y),
{
    let p = s[0];
    let q = s[1];
    assert(s.drop_last().drop_last() =~= Seq::<usize>::empty());
    assert(s.drop_last() =~= seq![p]);
    assert(sort_edges(v, seq![p], y) == insert_edge(v, sort_edges(v, Seq::empty(), y), p, y));
    assert(sort_edges(v, seq![p], y) == seq![p]);
    let r = sort_edges(v, s, y);
    assert(r == insert_edge(v, seq![p], q, y));
    lemma_edge_before_asym(v, q, p, y);
    if edge_before(v, q, p, y) {
        assert(r == seq![q] + seq![p]);
    } else {
        assert(seq![p].drop_first() =~= Seq::<usize>::empty());
        assert(r == seq![p] + insert_edge(v, Seq::empty(), q, y));
        assert(r =~= seq![p, q]);
    }
}

proof fn lemma_sort_len(v: Seq<(i32, i32)>, s: Seq<usize>, y: int)
    ensures
        sort_edges(v, s, y).len() == s.len(),
    decreases s.len(),
{
    if s.len() > 0 {
        lemma_sort_len(v, s.drop_last(), y);
        lemma_insert_len(v, sort_edges(v, s.drop_last(), y), s.last(), y);
    }
}

proof fn lemma_insert_len(v: Seq<(i32, i32)>, s: Seq<usize>, k: usize, y: int)
    ensures
        insert_edge(v, s, k, y).len() == s.len() + 1,
    decreases s.len(),
{
    if s.len() > 0 {
        lemma_insert_len(v, s.drop_first(), k, y);
    }
}

proof fn lemma_without_ending_len(v: Seq<(i32, i32)>, s: Seq<usize>, y: int)
    ensures
        without_ending(v, s, y).len() <= s.len(),
        without_ending(v, s, y).len() == s.len() ==> without_ending(v, s, y) == s,
    decreases s.len(),
{
    if s.len() > 0 {
        lemma_without_ending_len(v, s.drop_last(), y);
        if edge(v, s.last() as int).3 != y {
            let rest = without_ending(v, s.drop_last(), y);
            if rest.len() == s.len() - 1 {
                assert(rest.push(s.last()) =~= s);
            }
        }
    }
}

proof fn lemma_sweep_spans_ordered(
    v: Seq<(i32, i32)>,
    lo: int,
    h: int,
    prev: Seq<usize>,
    y: int,
    rows: nat,
    y0: int,
)
    requires
        3 <= v.len() <= usize::MAX,
        rises_then_falls(v, lo, h),
        edges_do_not_cross(v),
        exact_active(v, prev, y - 1),
        min_y(v) <= y,
        y + rows <= max_y(v),
        prev.len() == 0 || (prev.len() == 2 && y0 <= y - 1 && active_at(v, prev[0], y0)
            && active_at(v, prev[1], y0) && !edge_before(v, prev[1], prev[0], y0)),
    ensures
        forall|i: int| 0 <= i < sweep(v, prev, y, rows).len() ==> #[trigger] sweep(
            v,
            prev,
            y,
            rows,
        )[i].1 <= sweep(v, prev, y, rows)[i].2,
    decreases rows,
{
    let sw = sweep(v, prev, y, rows);
    if rows > 0 {
        let s = active_on(v, prev, y);
        lemma_active_list_exact(v, prev, y);
        lemma_rise_fall_two_crossings(v, lo, h, y);
        let (a, b) = choose|a: usize, b: usize| #[trigger] crossing_pair(v, y, a, b);
        lemma_pair_len(s, a, b);
        assert(s.contains(s[0]) && s.contains(s[1]));
        let kept = without_ending(v, prev, y);
        let st = starting(v, y, v.len() as int);
        let joined = kept + st;
        let ny0 = if any_starting(v, y) { y } else { y0 };
        if any_starting(v, y) {
            lemma_without_ending(v, prev, y);
            lemma_starting(v, y, v.len() as int);
            lemma_sort_edges(v, joined, y);
            lemma_sort_len(v, joined, y);
            lemma_sort_two(v, joined, y);
        } else {
            lemma_starting(v, y, v.len() as int);
            if st.len() > 0 {
                assert(st.contains(st[0]));
                assert(edge(v, st[0] as int).1 == y);
            }
            assert(joined =~= kept);
            lemma_without_ending_len(v, prev, y);
            assert(s == prev);
        }
        assert(!crosses_left_of(v, s[1], s[0], y)) by {
            lemma_order_kept(v, s[0], s[1], ny0, y);
        }
        lemma_edge_bounds(v, s[0] as int);
        lemma_edge_bounds(v, s[1] as int);
        lemma_trunc_mono(
            cross_num(edge(v, s[0] as int), y),
            cross_den(edge(v, s[0] as int)),
            cross_num(edge(v, s[1] as int), y),
            cross_den(edge(v, s[1] as int)),
        );
        let r = row_spans(v, s, y);
        assert(r.len() == 1);
        assert(r[0].1 <= r[0].2);
        lemma_sweep_spans_ordered(v, lo, h, s, y + 1, (rows - 1) as nat, ny0);
        let rest = sweep(v, s, y + 1, (rows - 1) as nat);
        assert(sw == r + rest);
        assert forall|i: int| 0 <= i < sw.len() implies #[trigger] sw[i].1 <= sw[i].2 by {
            if i > 0 {
                assert(sw[i] == rest[i - 1]);
            }
        }
    }
}

/// A polygon whose vertex rows rise then fall and whose edges do not cross
/// (every convex polygon) gets, on each row, a span whose left end does not
/// exceed its right end.
pub proof fn lemma_rise_fall_spans_ordered(v: Seq<(i32, i32)>, lo: int, h: int)
    requires
        3 <= v.len() <= usize::MAX,
        rises_then_falls(v, lo, h),
        edges_do_not_cross(v),
    ensures
        forall|i: int| 0 <= i < fill_spec(v).len() ==> #[trigger] fill_spec(v)[i].1 <= fill_spec(
            v,
        )[i].2,
{
    lemma_min_y_below(v, 0);
    lemma_no_edge_below(v);
    lemma_sweep_spans_ordered(
        v,
        lo,
        h,
        Seq::empty(),
        min_y(v),
        (max_y(v) - min_y(v)) as nat,
        min_y(v),
    );
}

} // verus!
