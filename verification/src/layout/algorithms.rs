//! Algorithms on rectilinear layout geometry with integer coordinates.
//!
//! Points are unit cells: the point `(x, y)` stands for the square from `(x, y)`
//! to `(x + 1, y + 1)`, so a rectangle from `(x0, y0)` to `(x1, y1)` holds the
//! points with `x0 <= x < x1` and `y0 <= y < y1`.

use itertools::Itertools;
use vstd::prelude::*;

verus! {

/// Orientation of an axis-parallel edge.
#[derive(Clone, Copy, Debug, PartialEq, Eq, Structural)]
pub enum REdgeOrientation {
    Horizontal,
    Vertical,
}

/// An axis-parallel edge from `start` to `end` along its direction, at
/// distance `offset` from the axis: a vertical edge runs from `(offset, start)`
/// to `(offset, end)`, a horizontal one from `(start, offset)` to `(end, offset)`.
#[derive(Clone, Copy, Debug, PartialEq, Eq, Structural)]
pub struct REdgeI {
    pub start: i32,
    pub end: i32,
    pub offset: i32,
    pub orientation: REdgeOrientation,
}

/// An axis-parallel rectangle with lower left corner `(x0, y0)` and upper right
/// corner `(x1, y1)`.
#[derive(Clone, Copy, Debug, PartialEq, Eq, Structural)]
pub struct RectI {
    pub x0: i32,
    pub y0: i32,
    pub x1: i32,
    pub y1: i32,
}

/// A vertical edge of non-zero length.
pub open spec fn is_vertical(e: REdgeI) -> bool {
    e.orientation == REdgeOrientation::Vertical && e.start != e.end
}

/// How edge `e` changes the winding number at a point on its right: a downward
/// edge enters the polygon, an upward one leaves it. The edge covers the heights
/// from its lower end up to, but without, its upper end.
pub open spec fn crossing(e: REdgeI, y: int) -> int {
    if is_vertical(e) && (e.start <= y < e.end || e.end <= y < e.start) {
        if e.start > e.end { 1 } else { -1 }
    } else {
        0
    }
}

/// The winding number of the edges around point `(x, y)`: the sum of the
/// crossings of the edges at or left of `x`.
pub open spec fn winding(es: Seq<REdgeI>, x: int, y: int) -> int
    decreases es.len(),
{
    if es.len() == 0 {
        0
    } else {
        winding(es.drop_last(), x, y) + if es.last().offset <= x { crossing(es.last(), y) } else { 0 }
    }
}

/// The sum of the crossings of all edges at height `y`.
pub open spec fn total_crossing(es: Seq<REdgeI>, y: int) -> int
    decreases es.len(),
{
    if es.len() == 0 {
        0
    } else {
        total_crossing(es.drop_last(), y) + crossing(es.last(), y)
    }
}

/// The edges bound closed polygons: every horizontal line crosses them downward
/// as often as upward.
pub open spec fn rectilinear_closed(es: Seq<REdgeI>) -> bool {
    forall|y: int| #[trigger] total_crossing(es, y) == 0
}

/// The points around which the edges wind a non-zero number of times.
pub open spec fn interior(es: Seq<REdgeI>) -> Set<(int, int)> {
    Set::new(|p: (int, int)| winding(es, p.0, p.1) != 0)
}

/// Whether rectangle `r` holds point `(x, y)`.
pub open spec fn in_rect(r: RectI, x: int, y: int) -> bool {
    r.x0 <= x < r.x1 && r.y0 <= y < r.y1
}

/// The points held by some rectangle of `rs`.
pub open spec fn covered_points(rs: Seq<RectI>) -> Set<(int, int)> {
    Set::new(|p: (int, int)| exists|i: int| 0 <= i < rs.len() && #[trigger] in_rect(rs[i], p.0, p.1))
}

/// No point is held by two rectangles of `rs`.
pub open spec fn pairwise_disjoint(rs: Seq<RectI>) -> bool {
    forall|i: int, j: int, x: int, y: int| 0 <= i < rs.len() && 0 <= j < rs.len() && i != j
        && #[trigger] in_rect(rs[i], x, y) ==> !#[trigger] in_rect(rs[j], x, y)
}

/// Every rectangle of `rs` holds points: it is wider and higher than zero.
pub open spec fn non_empty_rects(rs: Seq<RectI>) -> bool {
    forall|i: int| 0 <= i < rs.len() ==> (#[trigger] rs[i]).x0 < rs[i].x1 && rs[i].y0 < rs[i].y1
}

/// The point where edge `e` starts.
pub open spec fn edge_start(e: REdgeI) -> (int, int) {
    if e.orientation == REdgeOrientation::Vertical { (e.offset as int, e.start as int) } else { (e.start as int, e.offset as int) }
}

/// The point where edge `e` ends.
pub open spec fn edge_end(e: REdgeI) -> (int, int) {
    if e.orientation == REdgeOrientation::Vertical { (e.offset as int, e.end as int) } else { (e.end as int, e.offset as int) }
}

/// The edges form one closed chain: each edge ends where the next starts, and
/// the last ends where the first starts.
pub open spec fn closed_chain(es: Seq<REdgeI>) -> bool {
    forall|i: int| 0 <= i < es.len() ==> edge_end(#[trigger] es[i]) == edge_start(es[(i + 1) % (es.len() as int)])
}

/// Whether point `p` lies above height `y`, as a number.
pub open spec fn above(p: (int, int), y: int) -> int {
    if p.1 > y { 1 } else { 0 }
}

/// The crossing of an edge is the change of "above" from its start to its end.
proof fn lemma_crossing_telescopes(e: REdgeI, y: int)
    ensures
        crossing(e, y) == above(edge_start(e), y) - above(edge_end(e), y),
{
}

/// Along a prefix of a chain the crossings add up to the change of "above"
/// from the start of the first edge to the end of the last one.
proof fn lemma_chain_prefix(es: Seq<REdgeI>, k: int, y: int)
    requires
        1 <= k <= es.len(),
        forall|i: int| 0 <= i < k - 1 ==> edge_end(#[trigger] es[i]) == edge_start(es[i + 1]),
    ensures
        total_crossing(es.subrange(0, k), y) == above(edge_start(es[0]), y) - above(edge_end(es[k - 1]), y),
    decreases k,
{
    let s = es.subrange(0, k);
    assert(s.drop_last() =~= es.subrange(0, k - 1));
    assert(s.last() == es[k - 1]);
    assert(total_crossing(s, y) == total_crossing(es.subrange(0, k - 1), y) + crossing(es[k - 1], y));
    lemma_crossing_telescopes(es[k - 1], y);
    if k == 1 {
        assert(es.subrange(0, 0) =~= Seq::<REdgeI>::empty());
    } else {
        lemma_chain_prefix(es, k - 1, y);
        assert(edge_end(es[k - 2]) == edge_start(es[k - 1]));
    }
}

/// A closed chain of axis-parallel edges bounds closed polygons: every
/// horizontal line crosses it downward as often as upward.
pub proof fn law_closed_chain_is_closed(es: Seq<REdgeI>)
    requires
        closed_chain(es),
    ensures
        rectilinear_closed(es),
{
    assert forall|y: int| #[trigger] total_crossing(es, y) == 0 by {
        if es.len() > 0 {
            let n = es.len() as int;
            assert forall|i: int| 0 <= i < n - 1 implies edge_end(#[trigger] es[i]) == edge_start(es[i + 1]) by {
                vstd::arithmetic::div_mod::lemma_small_mod((i + 1) as nat, n as nat);
            }
            lemma_chain_prefix(es, n, y);
            assert(es.subrange(0, n) =~= es);
            assert(edge_end(es[n - 1]) == edge_start(es[(n - 1 + 1) % n]));
            vstd::arithmetic::div_mod::lemma_mod_self_0(n);
        }
    }
}

/// The crossings of two lists of edges add up.
proof fn lemma_total_crossing_concat(a: Seq<REdgeI>, b: Seq<REdgeI>, y: int)
    ensures
        total_crossing(a + b, y) == total_crossing(a, y) + total_crossing(b, y),
    decreases b.len(),
{
    if b.len() == 0 {
        assert(a + b =~= a);
    } else {
        assert((a + b).drop_last() =~= a + b.drop_last());
        assert((a + b).last() == b.last());
        lemma_total_crossing_concat(a, b.drop_last(), y);
    }
}

/// The edges of several closed polygons together bound closed polygons.
pub proof fn law_closed_concat(a: Seq<REdgeI>, b: Seq<REdgeI>)
    requires
        rectilinear_closed(a),
        rectilinear_closed(b),
    ensures
        rectilinear_closed(a + b),
{
    assert forall|y: int| #[trigger] total_crossing(a + b, y) == 0 by {
        lemma_total_crossing_concat(a, b, y);
        assert(total_crossing(a, y) == 0);
        assert(total_crossing(b, y) == 0);
    }
}

/// The points just left of `x0` and at `x1` on row `y` are outside.
pub open spec fn row_closed_at(es: Seq<REdgeI>, x0: int, x1: int, y: int) -> bool {
    winding(es, x0 - 1, y) == 0 && winding(es, x1, y) == 0
}

/// Every row of every rectangle is a maximal run of inside points: the points
/// just left and just right of it are outside.
pub open spec fn maximal_rows(es: Seq<REdgeI>, rs: Seq<RectI>) -> bool {
    forall|i: int, y: int| 0 <= i < rs.len() && rs[i].y0 <= y < rs[i].y1
        ==> #[trigger] row_closed_at(es, rs[i].x0 as int, rs[i].x1 as int, y)
}

/// Edge `e` is a vertical edge at `x` that runs across height `y`, with `y`
/// strictly between its ends.
pub open spec fn spans_edge(e: REdgeI, x: int, y: int) -> bool {
    &&& is_vertical(e)
    &&& e.offset == x
    &&& ((e.start < y && y < e.end) || (e.end < y && y < e.start))
}

/// Some vertical edge at `x` runs across height `y`.
pub open spec fn spans(es: Seq<REdgeI>, x: int, y: int) -> bool {
    exists|i: int| 0 <= i < es.len() && #[trigger] spans_edge(es[i], x, y)
}

/// The right side of every rectangle is not broken by the end of an edge:
/// every height strictly between its bottom and its top is run across by a
/// vertical edge at its right side.
pub open spec fn right_sides_unbroken(es: Seq<REdgeI>, rs: Seq<RectI>) -> bool {
    forall|i: int, y: int| 0 <= i < rs.len() && rs[i].y0 < y < rs[i].y1 ==> #[trigger] spans(es, rs[i].x1 as int, y)
}

/// Two rectangles with the same horizontal extent touch along a horizontal
/// edge only where their right boundary breaks: no vertical edge at their
/// right side runs across the height where they touch. Stacked rows of the
/// same extent that one edge closes are merged into one rectangle.
pub open spec fn twins_split_at_edge_ends(es: Seq<REdgeI>, rs: Seq<RectI>) -> bool {
    forall|i: int, j: int| 0 <= i < rs.len() && 0 <= j < rs.len() && i != j
        && (#[trigger] rs[i]).x0 == (#[trigger] rs[j]).x0 && rs[i].x1 == rs[j].x1 && rs[i].y1 == rs[j].y0
        ==> !spans(es, rs[i].x1 as int, rs[i].y1 as int)
}

/// Every rectangle starts at or below height `y`.
pub open spec fn all_start_below(rs: Seq<RectI>, y: int) -> bool {
    forall|i: int| 0 <= i < rs.len() ==> (#[trigger] rs[i]).y0 <= y
}

/// Strictly increasing.
pub open spec fn sorted(s: Seq<i32>) -> bool {
    forall|i: int, j: int| 0 <= i < j < s.len() ==> s[i] < s[j]
}

/// The coordinates of the vertical edges of `es` are among `xs` and `ys`.
pub open spec fn coords_listed(es: Seq<REdgeI>, xs: Seq<i32>, ys: Seq<i32>) -> bool {
    forall|i: int| 0 <= i < es.len() && is_vertical(#[trigger] es[i])
        ==> xs.contains(es[i].offset) && ys.contains(es[i].start) && ys.contains(es[i].end)
}

/// Within one cell of the grid of `xs` and `ys` the winding number is the same.
proof fn lemma_winding_const(es: Seq<REdgeI>, xs: Seq<i32>, ys: Seq<i32>, b: int, a: int, x: int, y: int)
    requires
        sorted(xs),
        sorted(ys),
        coords_listed(es, xs, ys),
        0 <= b < xs.len() - 1,
        0 <= a < ys.len() - 1,
        xs[b] <= x < xs[b + 1],
        ys[a] <= y < ys[a + 1],
    ensures
        winding(es, x, y) == winding(es, xs[b] as int, ys[a] as int),
    decreases es.len(),
{
    if es.len() > 0 {
        let d = es.drop_last();
        assert(coords_listed(d, xs, ys)) by {
            assert forall|i: int| 0 <= i < d.len() && is_vertical(#[trigger] d[i])
                implies xs.contains(d[i].offset) && ys.contains(d[i].start) && ys.contains(d[i].end) by {
                assert(d[i] == es[i]);
            }
        }
        lemma_winding_const(d, xs, ys, b, a, x, y);
        let e = es.last();
        assert(e == es[es.len() - 1]);
        if is_vertical(e) {
            let m = choose|m: int| 0 <= m < xs.len() && xs[m] == e.offset;
            let ms = choose|m: int| 0 <= m < ys.len() && ys[m] == e.start;
            let me = choose|m: int| 0 <= m < ys.len() && ys[m] == e.end;
            if m <= b {
                assert(xs[m] <= xs[b]);
            } else {
                assert(xs[b + 1] <= xs[m]);
            }
            if ms <= a {
                assert(ys[ms] <= ys[a]);
            } else {
                assert(ys[a + 1] <= ys[ms]);
            }
            if me <= a {
                assert(ys[me] <= ys[a]);
            } else {
                assert(ys[a + 1] <= ys[me]);
            }
        }
    }
}

/// At or right of every edge the winding number is the total crossing.
proof fn lemma_winding_right(es: Seq<REdgeI>, x: int, y: int)
    requires
        forall|i: int| 0 <= i < es.len() && is_vertical(#[trigger] es[i]) ==> es[i].offset <= x,
    ensures
        winding(es, x, y) == total_crossing(es, y),
    decreases es.len(),
{
    if es.len() > 0 {
        let d = es.drop_last();
        assert forall|i: int| 0 <= i < d.len() && is_vertical(#[trigger] d[i]) implies d[i].offset <= x by {
            assert(d[i] == es[i]);
        }
        lemma_winding_right(d, x, y);
        assert(es.last() == es[es.len() - 1]);
    }
}

/// Left of every edge, below or above all of them, the winding number is zero.
proof fn lemma_winding_zero(es: Seq<REdgeI>, x: int, y: int)
    requires
        forall|i: int| 0 <= i < es.len() && is_vertical(#[trigger] es[i]) ==>
            x < es[i].offset || (y < es[i].start && y < es[i].end) || (y >= es[i].start && y >= es[i].end),
    ensures
        winding(es, x, y) == 0,
    decreases es.len(),
{
    if es.len() > 0 {
        let d = es.drop_last();
        assert forall|i: int| 0 <= i < d.len() && is_vertical(#[trigger] d[i]) implies
            x < d[i].offset || (y < d[i].start && y < d[i].end) || (y >= d[i].start && y >= d[i].end) by {
            assert(d[i] == es[i]);
        }
        lemma_winding_zero(d, x, y);
        assert(es.last() == es[es.len() - 1]);
    }
}

/// Outside the grid of `xs` and `ys` the winding number of closed polygons is zero.
proof fn lemma_winding_outside(es: Seq<REdgeI>, xs: Seq<i32>, ys: Seq<i32>, x: int, y: int)
    requires
        sorted(xs),
        sorted(ys),
        coords_listed(es, xs, ys),
        rectilinear_closed(es),
        xs.len() < 2 || ys.len() < 2 || x < xs[0] || x >= xs[xs.len() - 1] || y < ys[0] || y >= ys[ys.len() - 1],
    ensures
        winding(es, x, y) == 0,
{
    if xs.len() >= 1 && x >= xs[xs.len() - 1] {
        assert forall|i: int| 0 <= i < es.len() && is_vertical(#[trigger] es[i]) implies es[i].offset <= x by {
            let m = choose|m: int| 0 <= m < xs.len() && xs[m] == es[i].offset;
            assert(xs[m] <= xs[xs.len() - 1]);
        }
        lemma_winding_right(es, x, y);
        assert(total_crossing(es, y) == 0);
    } else {
        assert forall|i: int| 0 <= i < es.len() && is_vertical(#[trigger] es[i]) implies
            x < es[i].offset || (y < es[i].start && y < es[i].end) || (y >= es[i].start && y >= es[i].end) by {
            let m = choose|m: int| 0 <= m < xs.len() && xs[m] == es[i].offset;
            let ms = choose|m: int| 0 <= m < ys.len() && ys[m] == es[i].start;
            let me = choose|m: int| 0 <= m < ys.len() && ys[m] == es[i].end;
            assert(xs[0] <= xs[m]);
            assert(ys[0] <= ys[ms] && ys[ms] <= ys[ys.len() - 1]);
            assert(ys[0] <= ys[me] && ys[me] <= ys[ys.len() - 1]);
        }
        lemma_winding_zero(es, x, y);
    }
}

/// A value inside the range of a sorted list lies between two neighbours.
proof fn lemma_find_slot(xs: Seq<i32>, x: int) -> (b: int)
    requires
        sorted(xs),
        xs.len() >= 2,
        xs[0] <= x < xs[xs.len() - 1],
    ensures
        0 <= b < xs.len() - 1,
        xs[b] <= x < xs[b + 1],
    decreases xs.len(),
{
    if x >= xs[xs.len() - 2] {
        (xs.len() - 2) as int
    } else {
        let d = xs.drop_last();
        assert(d[d.len() - 1] == xs[xs.len() - 2]);
        lemma_find_slot(d, x)
    }
}

/// `Itertools::sorted` on a list of coordinates: claims what its documentation
/// says, the same values (counted with repetition) in ascending order.
#[verifier::external_body]
fn sorted_coords(v: Vec<i32>) -> (res: Vec<i32>)
    ensures
        res@.to_multiset() == v@.to_multiset(),
        forall|i: int, j: int| 0 <= i < j < res@.len() ==> res@[i] <= res@[j],
{
    v.into_iter().sorted().collect()
}

/// The distinct values of the ascending list `v`, strictly increasing.
fn distinct_sorted(v: &Vec<i32>) -> (res: Vec<i32>)
    requires
        forall|i: int, j: int| 0 <= i < j < v@.len() ==> v@[i] <= v@[j],
    ensures
        sorted(res@),
        forall|x: i32| res@.contains(x) <==> v@.contains(x),
{
    let mut res: Vec<i32> = Vec::new();
    let mut k: usize = 0;
    while k < v.len()
        invariant
            k <= v@.len(),
            forall|i: int, j: int| 0 <= i < j < v@.len() ==> v@[i] <= v@[j],
            sorted(res@),
            forall|x: i32| res@.contains(x) <==> v@.subrange(0, k as int).contains(x),
            res@.len() > 0 ==> k > 0 && res@.last() == v@[k - 1],
        decreases v@.len() - k,
    {
        let x = v[k];
        let ghost r0 = res@;
        let ghost pre = v@.subrange(0, k as int);
        let ghost post = v@.subrange(0, k + 1);
        proof {
            assert(post == pre.push(x));
        }
        if res.len() == 0 || res[res.len() - 1] < x {
            res.push(x);
            proof {
                assert forall|i: int, j: int| 0 <= i < j < res@.len() implies res@[i] < res@[j] by {
                    if j == res@.len() - 1 && i < j {
                        assert(r0[i] <= r0.last());
                    }
                }
                assert forall|y: i32| res@.contains(y) <==> post.contains(y) by {
                    if res@.contains(y) && y != x {
                        let m = choose|m: int| 0 <= m < res@.len() && res@[m] == y;
                        assert(r0[m] == y);
                        assert(r0.contains(y));
                    }
                    if post.contains(y) && y != x {
                        let m = choose|m: int| 0 <= m < post.len() && post[m] == y;
                        assert(pre[m] == y);
                        assert(r0.contains(y));
                        let n = choose|n: int| 0 <= n < r0.len() && r0[n] == y;
                        assert(res@[n] == y);
                    }
                    if y == x {
                        assert(res@[res@.len() - 1] == x);
                        assert(post[k as int] == x);
                    }
                }
            }
        } else {
            proof {
                assert(v@[k - 1] <= x);
                assert(res@.last() == x);
                assert forall|y: i32| res@.contains(y) <==> post.contains(y) by {
                    if post.contains(y) && y != x {
                        let m = choose|m: int| 0 <= m < post.len() && post[m] == y;
                        assert(pre[m] == y);
                    }
                    if res@.contains(y) {
                        assert(pre.contains(y));
                        let m = choose|m: int| 0 <= m < pre.len() && pre[m] == y;
                        assert(post[m] == y);
                    }
                }
            }
        }
        k = k + 1;
    }
    proof {
        assert(v@.subrange(0, k as int) =~= v@);
    }
    res
}

/// The coordinates in `v`, ascending and each once.
fn coordinate_list(v: Vec<i32>) -> (res: Vec<i32>)
    ensures
        sorted(res@),
        forall|x: i32| res@.contains(x) <==> v@.contains(x),
{
    let ghost v0 = v@;
    let s = sorted_coords(v);
    proof {
        v0.to_multiset_ensures();
        s@.to_multiset_ensures();
        assert forall|x: i32| s@.contains(x) <==> v0.contains(x) by {
            assert(s@.to_multiset().count(x) == v0.to_multiset().count(x));
        }
    }
    distinct_sorted(&s)
}

/// The winding number of the edges around point `(x, y)`.
fn winding_at(es: &Vec<REdgeI>, x: i32, y: i32) -> (w: i64)
    requires
        es@.len() <= i64::MAX,
    ensures
        w == winding(es@, x as int, y as int),
{
    let mut w: i64 = 0;
    let mut i: usize = 0;
    while i < es.len()
        invariant
            i <= es@.len(),
            es@.len() <= i64::MAX,
            w == winding(es@.subrange(0, i as int), x as int, y as int),
            -(i as int) <= w <= i,
        decreases es@.len() - i,
    {
        let e = es[i];
        proof {
            let s1 = es@.subrange(0, i + 1);
            assert(s1.drop_last() =~= es@.subrange(0, i as int));
            assert(s1.last() == e);
        }
        if e.offset <= x && e.orientation == REdgeOrientation::Vertical && e.start != e.end
            && ((e.start <= y && y < e.end) || (e.end <= y && y < e.start)) {
            if e.start > e.end {
                w = w + 1;
            } else {
                w = w - 1;
            }
        }
        i = i + 1;
    }
    proof {
        assert(es@.subrange(0, i as int) =~= es@);
    }
    w
}

/// The points of a horizontal band from `y0` to `y1` between `x0` and `x1`.
pub open spec fn band_points(x0: int, x1: int, y0: int, y1: int) -> Set<(int, int)> {
    Set::new(|p: (int, int)| x0 <= p.0 < x1 && y0 <= p.1 < y1)
}

/// Whether a vertical edge at `x` runs across height `y`.
fn spans_at(edges: &Vec<REdgeI>, x: i32, y: i32) -> (res: bool)
    ensures
        res == spans(edges@, x as int, y as int),
{
    let mut i: usize = 0;
    while i < edges.len()
        invariant
            i <= edges@.len(),
            forall|j: int| 0 <= j < i ==> !#[trigger] spans_edge(edges@[j], x as int, y as int),
        decreases edges@.len() - i,
    {
        let e = edges[i];
        if e.orientation == REdgeOrientation::Vertical && e.start != e.end && e.offset == x
            && ((e.start < y && y < e.end) || (e.end < y && y < e.start)) {
            proof {
                assert(spans_edge(edges@[i as int], x as int, y as int));
            }
            return true;
        }
        i = i + 1;
    }
    false
}

/// Where the winding number changes from `x - 1` to `x`, a vertical edge at `x`
/// crosses height `y`.
proof fn lemma_winding_step(es: Seq<REdgeI>, x: int, y: int)
    ensures
        winding(es, x, y) != winding(es, x - 1, y) ==> exists|i: int| 0 <= i < es.len() && is_vertical(es[i])
            && es[i].offset == x && #[trigger] crossing(es[i], y) != 0,
    decreases es.len(),
{
    if es.len() > 0 {
        let d = es.drop_last();
        lemma_winding_step(d, x, y);
        if winding(es, x, y) != winding(es, x - 1, y) {
            if winding(d, x, y) != winding(d, x - 1, y) {
                let i = choose|i: int| 0 <= i < d.len() && is_vertical(d[i]) && d[i].offset == x && #[trigger] crossing(d[i], y) != 0;
                assert(es[i] == d[i]);
            } else {
                assert(es[es.len() - 1] == es.last());
                assert(crossing(es[es.len() - 1], y) != 0);
            }
        }
    }
}

/// At the right end of a run of inside columns in band `a`, every height
/// strictly inside the band is run across by a vertical edge.
proof fn lemma_run_right_spans(es: Seq<REdgeI>, xs: Seq<i32>, ys: Seq<i32>, a: int, s: int, e: int)
    requires
        sorted(xs),
        sorted(ys),
        coords_listed(es, xs, ys),
        0 <= a < ys.len() - 1,
        0 <= s < e <= xs.len() - 1,
        forall|x: int, y: int| #[trigger] band_points(xs[s] as int, xs[e] as int, ys[a] as int, ys[a + 1] as int).contains((x, y))
            ==> winding(es, x, y) != 0,
        forall|y: int| ys[a] <= y < ys[a + 1] ==> #[trigger] row_closed_at(es, xs[s] as int, xs[e] as int, y),
    ensures
        forall|y: int| ys[a] < y < ys[a + 1] ==> #[trigger] spans(es, xs[e] as int, y),
{
    assert forall|y: int| ys[a] < y < ys[a + 1] implies #[trigger] spans(es, xs[e] as int, y) by {
        let x1 = xs[e] as int;
        assert(xs[s] < xs[e]);
        assert(band_points(xs[s] as int, xs[e] as int, ys[a] as int, ys[a + 1] as int).contains((x1 - 1, y)));
        assert(row_closed_at(es, xs[s] as int, x1, y));
        lemma_winding_step(es, x1, y);
        let i = choose|i: int| 0 <= i < es.len() && is_vertical(es[i]) && es[i].offset == x1 && #[trigger] crossing(es[i], y) != 0;
        let ed = es[i];
        assert(ys.contains(ed.start) && ys.contains(ed.end));
        let ms = choose|m: int| 0 <= m < ys.len() && ys[m] == ed.start;
        let me = choose|m: int| 0 <= m < ys.len() && ys[m] == ed.end;
        if ed.start <= y < ed.end {
            if ms > a {
                assert(ys[a + 1] <= ys[ms]);
            }
            assert(ed.start < y);
        } else {
            if me > a {
                assert(ys[a + 1] <= ys[me]);
            }
            assert(ed.end < y);
        }
        assert(spans_edge(es[i], x1, y));
    }
}

/// Add the points from `x0` to `x1` of the band from `y0` to `y1` to the
/// rectangles: by growing the rectangle that ends at `y0` with the same
/// horizontal extent, or else as a new rectangle.
fn add_run(rects: &mut Vec<RectI>, x0: i32, x1: i32, y0: i32, y1: i32, edges: &Vec<REdgeI>, Ghost(es): Ghost<Seq<REdgeI>>)
    requires
        edges@ == es,
        forall|y: int| y0 < y < y1 ==> #[trigger] spans(es, x1 as int, y),
        x0 < x1,
        y0 < y1,
        non_empty_rects(old(rects)@),
        pairwise_disjoint(old(rects)@),
        forall|x: int, y: int| band_points(x0 as int, x1 as int, y0 as int, y1 as int).contains((x, y))
            ==> !covered_points(old(rects)@).contains((x, y)),
        maximal_rows(es, old(rects)@),
        twins_split_at_edge_ends(es, old(rects)@),
        right_sides_unbroken(es, old(rects)@),
        all_start_below(old(rects)@, y0 as int),
        forall|y: int| y0 <= y < y1 ==> #[trigger] row_closed_at(es, x0 as int, x1 as int, y),
    ensures
        maximal_rows(es, final(rects)@),
        twins_split_at_edge_ends(es, final(rects)@),
        right_sides_unbroken(es, final(rects)@),
        all_start_below(final(rects)@, y0 as int),
        non_empty_rects(final(rects)@),
        pairwise_disjoint(final(rects)@),
        covered_points(final(rects)@) == covered_points(old(rects)@)
            + band_points(x0 as int, x1 as int, y0 as int, y1 as int),
{
    let ghost r0 = rects@;
    let ghost band = band_points(x0 as int, x1 as int, y0 as int, y1 as int);
    // A rectangle below that ends where this run starts grows by the run when
    // one edge closes both.
    let sp = spans_at(edges, x1, y0);
    let mut k: usize = 0;
    while sp && k < rects.len()
        invariant
            sp == spans(es, x1 as int, y0 as int),
            forall|y: int| y0 < y < y1 ==> #[trigger] spans(es, x1 as int, y),
            rects@ == r0,
            r0 == old(rects)@,
            k <= r0.len(),
            x0 < x1,
            y0 < y1,
            non_empty_rects(r0),
            pairwise_disjoint(r0),
            band == band_points(x0 as int, x1 as int, y0 as int, y1 as int),
            forall|x: int, y: int| band.contains((x, y)) ==> !covered_points(r0).contains((x, y)),
            maximal_rows(es, r0),
            twins_split_at_edge_ends(es, r0),
            right_sides_unbroken(es, r0),
            all_start_below(r0, y0 as int),
            forall|y: int| y0 <= y < y1 ==> #[trigger] row_closed_at(es, x0 as int, x1 as int, y),
            forall|i: int| 0 <= i < k ==> !((#[trigger] r0[i]).y1 == y0 && r0[i].x0 == x0 && r0[i].x1 == x1),
        decreases r0.len() - k,
    {
        let r = rects[k];
        if r.y1 == y0 && r.x0 == x0 && r.x1 == x1 {
            let grown = RectI { x0: r.x0, y0: r.y0, x1: r.x1, y1: y1 };
            rects.set(k, grown);
            proof {
                let r1 = rects@;
                assert(r == r0[k as int]);
                assert(r0[k as int].y0 < r0[k as int].y1);
                assert forall|i: int, y: int| 0 <= i < r1.len() && r1[i].y0 <= y < r1[i].y1
                    implies #[trigger] row_closed_at(es, r1[i].x0 as int, r1[i].x1 as int, y) by {
                    if i != k {
                        assert(r1[i] == r0[i]);
                    } else if y < y0 {
                        assert(row_closed_at(es, r0[i].x0 as int, r0[i].x1 as int, y));
                    } else {
                        assert(row_closed_at(es, x0 as int, x1 as int, y));
                    }
                }
                assert forall|i: int, j: int| 0 <= i < r1.len() && 0 <= j < r1.len() && i != j
                    && (#[trigger] r1[i]).x0 == (#[trigger] r1[j]).x0 && r1[i].x1 == r1[j].x1 && r1[i].y1 == r1[j].y0
                    implies !spans(es, r1[i].x1 as int, r1[i].y1 as int) by {
                    if i == k {
                        assert(r1[j] == r0[j]);
                        assert(r0[j].y0 <= y0);
                    } else if j == k {
                        assert(r1[i] == r0[i]);
                        assert(r0[i].x0 == r0[k as int].x0 && r0[i].x1 == r0[k as int].x1 && r0[i].y1 == r0[k as int].y0);
                    } else {
                        assert(r1[i] == r0[i] && r1[j] == r0[j]);
                    }
                }
                assert forall|i: int, y: int| 0 <= i < r1.len() && r1[i].y0 < y < r1[i].y1
                    implies #[trigger] spans(es, r1[i].x1 as int, y) by {
                    if i != k {
                        assert(r1[i] == r0[i]);
                    } else if y < y0 {
                        assert(r0[i].y0 < y < r0[i].y1);
                    }
                }
                assert forall|i: int| 0 <= i < r1.len() implies (#[trigger] r1[i]).y0 <= y0 by {
                    assert(r0[i].y0 <= y0);
                }
                assert forall|x: int, y: int| in_rect(grown, x, y) <==> in_rect(r, x, y) || band.contains((x, y)) by {}
                assert forall|i: int, j: int, x: int, y: int| 0 <= i < r1.len() && 0 <= j < r1.len() && i != j
                    && #[trigger] in_rect(r1[i], x, y) implies !#[trigger] in_rect(r1[j], x, y) by {
                    if i == k || j == k {
                        let o = if i == k { j } else { i };
                        if in_rect(r1[o], x, y) && in_rect(grown, x, y) {
                            assert(r1[o] == r0[o]);
                            assert(in_rect(r0[o], x, y));
                            if band.contains((x, y)) {
                                assert(covered_points(r0).contains((x, y)));
                            } else {
                                assert(in_rect(r0[k as int], x, y));
                            }
                        }
                    } else {
                        assert(r1[i] == r0[i] && r1[j] == r0[j]);
                    }
                }
                {
                    assert forall|p: (int, int)| #[trigger] covered_points(r1).contains(p) <==> (covered_points(r0) + band).contains(p) by {
                        if covered_points(r1).contains(p) {
                            let i = choose|i: int| 0 <= i < r1.len() && #[trigger] in_rect(r1[i], p.0, p.1);
                            if i != k {
                                assert(r1[i] == r0[i]);
                            } else {
                                assert(in_rect(grown, p.0, p.1));
                                if !band.contains(p) {
                                    assert(in_rect(r0[i], p.0, p.1));
                                }
                            }
                        }
                        if covered_points(r0).contains(p) {
                            let i = choose|i: int| 0 <= i < r0.len() && #[trigger] in_rect(r0[i], p.0, p.1);
                            if i == k {
                                assert(in_rect(r1[i], p.0, p.1));
                            } else {
                                assert(r1[i] == r0[i]);
                            }
                        }
                        if band.contains(p) {
                            assert(in_rect(r1[k as int], p.0, p.1));
                        }
                    }
                }
                assert(covered_points(r1) =~= covered_points(r0) + band);
            }
            assert(covered_points(rects@) == covered_points(r0) + band);
            return;
        }
        proof {
            assert(r == r0[k as int]);
        }
        k = k + 1;
    }
    let fresh = RectI { x0, y0, x1, y1 };
    rects.push(fresh);
    proof {
        let r1 = rects@;
        assert(r1 == r0.push(fresh));
        assert forall|i: int, y: int| 0 <= i < r1.len() && r1[i].y0 <= y < r1[i].y1
            implies #[trigger] row_closed_at(es, r1[i].x0 as int, r1[i].x1 as int, y) by {
            if i < r0.len() {
                assert(r1[i] == r0[i]);
            } else {
                assert(row_closed_at(es, x0 as int, x1 as int, y));
            }
        }
        assert forall|i: int, j: int| 0 <= i < r1.len() && 0 <= j < r1.len() && i != j
            && (#[trigger] r1[i]).x0 == (#[trigger] r1[j]).x0 && r1[i].x1 == r1[j].x1 && r1[i].y1 == r1[j].y0
            implies !spans(es, r1[i].x1 as int, r1[i].y1 as int) by {
            if i == r0.len() {
                assert(r1[j] == r0[j]);
                assert(r0[j].y0 <= y0);
            } else if j == r0.len() {
                assert(r1[i] == r0[i]);
                if sp {
                    assert(!(r0[i].y1 == y0 && r0[i].x0 == x0 && r0[i].x1 == x1));
                }
            } else {
                assert(r1[i] == r0[i] && r1[j] == r0[j]);
            }
        }
        assert forall|i: int, y: int| 0 <= i < r1.len() && r1[i].y0 < y < r1[i].y1
            implies #[trigger] spans(es, r1[i].x1 as int, y) by {
            if i < r0.len() {
                assert(r1[i] == r0[i]);
            }
        }
        assert forall|i: int| 0 <= i < r1.len() implies (#[trigger] r1[i]).y0 <= y0 by {
            if i < r0.len() {
                assert(r1[i] == r0[i]);
            }
        }
        assert forall|i: int, j: int, x: int, y: int| 0 <= i < r1.len() && 0 <= j < r1.len() && i != j
            && #[trigger] in_rect(r1[i], x, y) implies !#[trigger] in_rect(r1[j], x, y) by {
            if i == r0.len() || j == r0.len() {
                let o = if i == r0.len() { j } else { i };
                if in_rect(r1[o], x, y) && in_rect(fresh, x, y) {
                    assert(r1[o] == r0[o]);
                    assert(in_rect(r0[o], x, y));
                    assert(band.contains((x, y)));
                    assert(covered_points(r0).contains((x, y)));
                }
            } else {
                assert(r1[i] == r0[i] && r1[j] == r0[j]);
            }
        }
        assert(covered_points(r1) =~= covered_points(r0) + band) by {
            assert forall|p: (int, int)| covered_points(r1).contains(p) <==> covered_points(r0).contains(p) || band.contains(p) by {
                if covered_points(r1).contains(p) {
                    let i = choose|i: int| 0 <= i < r1.len() && #[trigger] in_rect(r1[i], p.0, p.1);
                    if i < r0.len() {
                        assert(r1[i] == r0[i]);
                    }
                }
                if covered_points(r0).contains(p) {
                    let i = choose|i: int| 0 <= i < r0.len() && #[trigger] in_rect(r0[i], p.0, p.1);
                    assert(r1[i] == r0[i]);
                }
                if band.contains(p) {
                    assert(in_rect(r1[r0.len() as int], p.0, p.1));
                }
            }
        }
    }
}

/// The inside points below height `top`.
pub open spec fn inside_below(es: Seq<REdgeI>, top: int) -> Set<(int, int)> {
    Set::new(|p: (int, int)| winding(es, p.0, p.1) != 0 && p.1 < top)
}

/// The inside points of the band from `y0` to `y1` left of `xlim`.
pub open spec fn inside_band_left(es: Seq<REdgeI>, y0: int, y1: int, xlim: int) -> Set<(int, int)> {
    Set::new(|p: (int, int)| winding(es, p.0, p.1) != 0 && y0 <= p.1 < y1 && p.0 < xlim)
}

/// Where the columns `s` up to `e` of band `a` are inside, all their points are.
proof fn lemma_band_run(es: Seq<REdgeI>, xs: Seq<i32>, ys: Seq<i32>, a: int, s: int, e: int)
    requires
        sorted(xs),
        sorted(ys),
        coords_listed(es, xs, ys),
        0 <= a < ys.len() - 1,
        0 <= s < e <= xs.len() - 1,
        forall|c: int| s <= c < e ==> winding(es, #[trigger] xs[c] as int, ys[a] as int) != 0,
    ensures
        forall|x: int, y: int| #[trigger] band_points(xs[s] as int, xs[e] as int, ys[a] as int, ys[a + 1] as int).contains((x, y))
            ==> winding(es, x, y) != 0,
{
    assert forall|x: int, y: int| #[trigger] band_points(xs[s] as int, xs[e] as int, ys[a] as int, ys[a + 1] as int).contains((x, y))
        implies winding(es, x, y) != 0 by {
        assert(xs[0] <= xs[s]);
        assert(xs[e] <= xs[xs.len() - 1]);
        let c = lemma_find_slot(xs, x);
        if c >= e {
            assert(xs[e] <= xs[c]);
        }
        if c < s {
            assert(xs[c + 1] <= xs[s]);
        }
        lemma_winding_const(es, xs, ys, c, a, x, y);
    }
}

/// Where column `b` of band `a` is outside, all its points are.
proof fn lemma_band_gap(es: Seq<REdgeI>, xs: Seq<i32>, ys: Seq<i32>, a: int, b: int)
    requires
        sorted(xs),
        sorted(ys),
        coords_listed(es, xs, ys),
        0 <= a < ys.len() - 1,
        0 <= b < xs.len() - 1,
        winding(es, xs[b] as int, ys[a] as int) == 0,
    ensures
        forall|x: int, y: int| #[trigger] band_points(xs[b] as int, xs[b + 1] as int, ys[a] as int, ys[a + 1] as int).contains((x, y))
            ==> winding(es, x, y) == 0,
{
    assert forall|x: int, y: int| #[trigger] band_points(xs[b] as int, xs[b + 1] as int, ys[a] as int, ys[a + 1] as int).contains((x, y))
        implies winding(es, x, y) == 0 by {
        lemma_winding_const(es, xs, ys, b, a, x, y);
    }
}

/// What the contract of `decompose_rectangles` says of a list of rectangles.
pub open spec fn is_decomposition(es: Seq<REdgeI>, rs: Seq<RectI>) -> bool {
    &&& pairwise_disjoint(rs)
    &&& non_empty_rects(rs)
    &&& covered_points(rs) == interior(es)
    &&& maximal_rows(es, rs)
    &&& twins_split_at_edge_ends(es, rs)
    &&& right_sides_unbroken(es, rs)
}

/// A point of a rectangle of a decomposition is inside.
proof fn lemma_rect_point_inside(es: Seq<REdgeI>, rs: Seq<RectI>, i: int, x: int, y: int)
    requires
        covered_points(rs) == interior(es),
        0 <= i < rs.len(),
        in_rect(rs[i], x, y),
    ensures
        winding(es, x, y) != 0,
{
    assert(covered_points(rs).contains((x, y)));
    assert(interior(es).contains((x, y)));
}

/// Two rectangles of two decompositions that share a point have the same
/// horizontal extent: both rows there are the maximal run through the point.
proof fn lemma_same_extent(es: Seq<REdgeI>, ra: Seq<RectI>, i: int, rb: Seq<RectI>, j: int, x: int, y: int)
    requires
        covered_points(ra) == interior(es),
        covered_points(rb) == interior(es),
        maximal_rows(es, ra),
        maximal_rows(es, rb),
        0 <= i < ra.len(),
        0 <= j < rb.len(),
        in_rect(ra[i], x, y),
        in_rect(rb[j], x, y),
    ensures
        ra[i].x0 == rb[j].x0,
        ra[i].x1 == rb[j].x1,
{
    let r = ra[i];
    let t = rb[j];
    assert(row_closed_at(es, r.x0 as int, r.x1 as int, y));
    assert(row_closed_at(es, t.x0 as int, t.x1 as int, y));
    if r.x0 < t.x0 {
        lemma_rect_point_inside(es, ra, i, t.x0 - 1, y);
    }
    if t.x0 < r.x0 {
        lemma_rect_point_inside(es, rb, j, r.x0 - 1, y);
    }
    if r.x1 < t.x1 {
        lemma_rect_point_inside(es, rb, j, r.x1 as int, y);
    }
    if t.x1 < r.x1 {
        lemma_rect_point_inside(es, ra, i, t.x1 as int, y);
    }
}

/// A rectangle `s` of a decomposition that holds a point of rectangle `r` of
/// another decomposition, starting at the same height, also ends there, and
/// one that holds its lower left corner starts at the same height.
proof fn lemma_same_rect(es: Seq<REdgeI>, ra: Seq<RectI>, i: int, rb: Seq<RectI>, j: int)
    requires
        is_decomposition(es, ra),
        is_decomposition(es, rb),
        0 <= i < ra.len(),
        0 <= j < rb.len(),
        in_rect(rb[j], ra[i].x0 as int, ra[i].y0 as int),
    ensures
        rb[j] == ra[i],
{
    let r = ra[i];
    let s = rb[j];
    assert(in_rect(r, r.x0 as int, r.y0 as int));
    lemma_same_extent(es, ra, i, rb, j, r.x0 as int, r.y0 as int);
    // Both start at the same height.
    if s.y0 < r.y0 {
        let q = r.y0 - 1;
        assert(in_rect(s, r.x0 as int, q));
        assert(covered_points(rb).contains((r.x0 as int, q)));
        assert(covered_points(ra).contains((r.x0 as int, q)));
        let t = choose|t: int| 0 <= t < ra.len() && #[trigger] in_rect(ra[t], (r.x0 as int, q).0, (r.x0 as int, q).1);
        assert(in_rect(ra[t], r.x0 as int, q));
        lemma_same_extent(es, ra, t, rb, j, r.x0 as int, q);
        assert(t != i);
        if ra[t].y1 > r.y0 {
            assert(in_rect(ra[t], r.x0 as int, r.y0 as int));
        }
        assert(ra[t].x0 == ra[i].x0 && ra[t].x1 == ra[i].x1);
    }
    if r.y0 < s.y0 {
        let q = s.y0 - 1;
        assert(in_rect(r, r.x0 as int, q));
        assert(covered_points(ra).contains((r.x0 as int, q)));
        assert(covered_points(rb).contains((r.x0 as int, q)));
        let u = choose|u: int| 0 <= u < rb.len() && #[trigger] in_rect(rb[u], (r.x0 as int, q).0, (r.x0 as int, q).1);
        assert(in_rect(rb[u], r.x0 as int, q));
        lemma_same_extent(es, ra, i, rb, u, r.x0 as int, q);
        assert(u != j);
        if rb[u].y1 > s.y0 {
            assert(in_rect(rb[u], r.x0 as int, s.y0 as int));
            assert(in_rect(rb[j], r.x0 as int, s.y0 as int));
        }
        assert(rb[u].x0 == rb[j].x0 && rb[u].x1 == rb[j].x1);
    }
    assert(s.y0 == r.y0);
    // Both end at the same height.
    if s.y1 < r.y1 {
        let q = s.y1 as int;
        assert(in_rect(r, r.x0 as int, q));
        assert(covered_points(ra).contains((r.x0 as int, q)));
        assert(covered_points(rb).contains((r.x0 as int, q)));
        let u = choose|u: int| 0 <= u < rb.len() && #[trigger] in_rect(rb[u], (r.x0 as int, q).0, (r.x0 as int, q).1);
        assert(in_rect(rb[u], r.x0 as int, q));
        lemma_same_extent(es, ra, i, rb, u, r.x0 as int, q);
        assert(u != j);
        if rb[u].y0 < s.y1 {
            assert(in_rect(rb[u], r.x0 as int, q - 1));
            assert(in_rect(rb[j], r.x0 as int, q - 1));
        }
        assert(rb[j].x0 == rb[u].x0 && rb[j].x1 == rb[u].x1);
    }
    if r.y1 < s.y1 {
        let q = r.y1 as int;
        assert(in_rect(s, r.x0 as int, q));
        assert(covered_points(rb).contains((r.x0 as int, q)));
        assert(covered_points(ra).contains((r.x0 as int, q)));
        let t = choose|t: int| 0 <= t < ra.len() && #[trigger] in_rect(ra[t], (r.x0 as int, q).0, (r.x0 as int, q).1);
        assert(in_rect(ra[t], r.x0 as int, q));
        lemma_same_extent(es, ra, t, rb, j, r.x0 as int, q);
        assert(t != i);
        if ra[t].y0 < r.y1 {
            assert(in_rect(ra[t], r.x0 as int, q - 1));
            assert(in_rect(ra[i], r.x0 as int, q - 1));
        }
        assert(ra[i].x0 == ra[t].x0 && ra[i].x1 == ra[t].x1);
    }
}

/// Every rectangle of a decomposition is a rectangle of any other.
proof fn lemma_rect_in_other(es: Seq<REdgeI>, ra: Seq<RectI>, rb: Seq<RectI>, i: int)
    requires
        is_decomposition(es, ra),
        is_decomposition(es, rb),
        0 <= i < ra.len(),
    ensures
        rb.contains(ra[i]),
{
    let r = ra[i];
    assert(in_rect(r, r.x0 as int, r.y0 as int));
    assert(covered_points(ra).contains((r.x0 as int, r.y0 as int)));
    assert(covered_points(rb).contains((r.x0 as int, r.y0 as int)));
    let j = choose|j: int| 0 <= j < rb.len() && #[trigger] in_rect(rb[j], (r.x0 as int, r.y0 as int).0, (r.x0 as int, r.y0 as int).1);
    assert(in_rect(rb[j], r.x0 as int, r.y0 as int));
    lemma_same_rect(es, ra, i, rb, j);
}

/// The contract of `decompose_rectangles` fixes its result up to order: two
/// lists of rectangles that both cover the interior without overlap, with every
/// row a maximal run, every right side within the edges at it, and stacked
/// rectangles of the same extent split only where the right boundary breaks,
/// hold the same rectangles.
pub proof fn law_decomposition_unique(es: Seq<REdgeI>, ra: Seq<RectI>, rb: Seq<RectI>)
    requires
        is_decomposition(es, ra),
        is_decomposition(es, rb),
    ensures
        ra.to_set() == rb.to_set(),
{
    assert forall|r: RectI| ra.contains(r) <==> rb.contains(r) by {
        if ra.contains(r) {
            let i = choose|i: int| 0 <= i < ra.len() && ra[i] == r;
            lemma_rect_in_other(es, ra, rb, i);
        }
        if rb.contains(r) {
            let j = choose|j: int| 0 <= j < rb.len() && rb[j] == r;
            lemma_rect_in_other(es, rb, ra, j);
        }
    }
    assert(ra.to_set() =~= rb.to_set());
}

/// Rectangle `a` comes before `b`: its right edge lies further left, or at the
/// same place and it starts lower.
pub open spec fn rect_before(a: RectI, b: RectI) -> bool {
    a.x1 < b.x1 || (a.x1 == b.x1 && a.y0 < b.y0)
}

/// The rectangles are listed by their right edges from left to right, and
/// those with the same right edge from bottom to top.
pub open spec fn ordered_by_right_edge(rs: Seq<RectI>) -> bool {
    forall|i: int, j: int| 0 <= i < j < rs.len() ==> rect_before(#[trigger] rs[i], #[trigger] rs[j])
}

/// The rectangles of `rs` in the order of their right edges and lower edges.
fn sort_by_right_edge(rs: &Vec<RectI>) -> (res: Vec<RectI>)
    requires
        forall|i: int, j: int| 0 <= i < rs@.len() && 0 <= j < rs@.len() && i != j
            ==> rect_before(#[trigger] rs@[i], #[trigger] rs@[j]) || rect_before(rs@[j], rs@[i]),
    ensures
        ordered_by_right_edge(res@),
        res@.to_set() == rs@.to_set(),
{
    let mut out: Vec<RectI> = Vec::new();
    let mut k: usize = 0;
    proof {
        assert(out@.to_set() =~= rs@.subrange(0, 0).to_set());
    }
    while k < rs.len()
        invariant
            k <= rs@.len(),
            forall|i: int, j: int| 0 <= i < rs@.len() && 0 <= j < rs@.len() && i != j
                ==> rect_before(#[trigger] rs@[i], #[trigger] rs@[j]) || rect_before(rs@[j], rs@[i]),
            ordered_by_right_edge(out@),
            out@.to_set() == rs@.subrange(0, k as int).to_set(),
        decreases rs@.len() - k,
    {
        let r = rs[k];
        let mut p: usize = 0;
        while p < out.len() && (out[p].x1 < r.x1 || (out[p].x1 == r.x1 && out[p].y0 < r.y0))
            invariant
                p <= out@.len(),
                forall|i: int| 0 <= i < p ==> rect_before(#[trigger] out@[i], r),
            decreases out@.len() - p,
        {
            p = p + 1;
        }
        let ghost o0 = out@;
        let ghost pre = rs@.subrange(0, k as int);
        proof {
            assert forall|i: int| 0 <= i < o0.len() implies rect_before(#[trigger] o0[i], r) || rect_before(r, o0[i]) by {
                assert(o0.to_set().contains(o0[i]));
                assert(pre.to_set().contains(o0[i]));
                let m = choose|m: int| 0 <= m < pre.len() && pre[m] == o0[i];
                assert(rs@[m] == o0[i]);
                assert(rs@[k as int] == r);
            }
        }
        out.insert(p, r);
        proof {
            let o1 = out@;
            assert forall|i: int, j: int| 0 <= i < j < o1.len() implies rect_before(#[trigger] o1[i], #[trigger] o1[j]) by {
                if j < p {
                    assert(o1[i] == o0[i] && o1[j] == o0[j]);
                } else if j == p {
                    assert(o1[i] == o0[i]);
                } else if i < p {
                    assert(o1[i] == o0[i] && o1[j] == o0[j - 1]);
                    assert(rect_before(o0[i], r));
                    assert(!rect_before(o0[p as int], r));
                    assert(rect_before(r, o0[p as int]));
                    if j - 1 > p {
                        assert(rect_before(o0[p as int], o0[j - 1]));
                    }
                } else if i == p {
                    assert(o1[j] == o0[j - 1]);
                    assert(!rect_before(o0[p as int], r));
                    assert(rect_before(r, o0[p as int]));
                    if j - 1 > p {
                        assert(rect_before(o0[p as int], o0[j - 1]));
                    }
                } else {
                    assert(o1[i] == o0[i - 1] && o1[j] == o0[j - 1]);
                }
            }
            let post = rs@.subrange(0, k + 1);
            assert(post =~= pre.push(r));
            assert forall|x: RectI| o1.contains(x) <==> post.contains(x) by {
                if o1.contains(x) {
                    let m = choose|m: int| 0 <= m < o1.len() && o1[m] == x;
                    if m < p {
                        assert(o0[m] == x);
                        assert(o0.to_set().contains(x));
                        let q = choose|q: int| 0 <= q < pre.len() && pre[q] == x;
                        assert(post[q] == x);
                    } else if m > p {
                        assert(o0[m - 1] == x);
                        assert(o0.to_set().contains(x));
                        let q = choose|q: int| 0 <= q < pre.len() && pre[q] == x;
                        assert(post[q] == x);
                    } else {
                        assert(post[k as int] == x);
                    }
                }
                if post.contains(x) {
                    let q = choose|q: int| 0 <= q < post.len() && post[q] == x;
                    if q < k {
                        assert(pre[q] == x);
                        assert(pre.to_set().contains(x));
                        let m = choose|m: int| 0 <= m < o0.len() && o0[m] == x;
                        if m < p {
                            assert(o1[m] == x);
                        } else {
                            assert(o1[m + 1] == x);
                        }
                    } else {
                        assert(o1[p as int] == x);
                    }
                }
            }
            assert(o1.to_set() =~= post.to_set());
        }
        k = k + 1;
    }
    proof {
        assert(rs@.subrange(0, k as int) =~= rs@);
    }
    out
}

/// The rectangles of a decomposition are told apart by their right and lower
/// edges, for two of them with both equal would share the point at that corner.
proof fn lemma_decomposition_keys(es: Seq<REdgeI>, rs: Seq<RectI>)
    requires
        is_decomposition(es, rs),
    ensures
        forall|i: int, j: int| 0 <= i < rs.len() && 0 <= j < rs.len() && i != j
            ==> rect_before(#[trigger] rs[i], #[trigger] rs[j]) || rect_before(rs[j], rs[i]),
{
    assert forall|i: int, j: int| 0 <= i < rs.len() && 0 <= j < rs.len() && i != j
        implies rect_before(#[trigger] rs[i], #[trigger] rs[j]) || rect_before(rs[j], rs[i]) by {
        if rs[i].x1 == rs[j].x1 && rs[i].y0 == rs[j].y0 {
            assert(rs[i].x0 < rs[i].x1 && rs[i].y0 < rs[i].y1);
            assert(rs[j].x0 < rs[j].x1 && rs[j].y0 < rs[j].y1);
            assert(in_rect(rs[i], rs[i].x1 - 1, rs[i].y0 as int));
            assert(in_rect(rs[j], rs[i].x1 - 1, rs[i].y0 as int));
        }
    }
}

/// Listing the rectangles of a decomposition in another order, without
/// repetition, gives a decomposition.
proof fn lemma_reordered_decomposition(es: Seq<REdgeI>, ra: Seq<RectI>, rb: Seq<RectI>)
    requires
        is_decomposition(es, ra),
        rb.to_set() == ra.to_set(),
        ordered_by_right_edge(rb),
    ensures
        is_decomposition(es, rb),
{
    assert forall|i: int| 0 <= i < rb.len() implies exists|p: int| 0 <= p < ra.len() && ra[p] == #[trigger] rb[i] by {
        assert(rb.to_set().contains(rb[i]));
        assert(ra.to_set().contains(rb[i]));
    }
    assert forall|i: int, j: int| 0 <= i < rb.len() && 0 <= j < rb.len() && i != j implies rb[i] != rb[j] by {
        if i < j {
            assert(rect_before(rb[i], rb[j]));
        } else {
            assert(rect_before(rb[j], rb[i]));
        }
    }
    assert forall|i: int, j: int, x: int, y: int| 0 <= i < rb.len() && 0 <= j < rb.len() && i != j
        && #[trigger] in_rect(rb[i], x, y) implies !#[trigger] in_rect(rb[j], x, y) by {
        let p = choose|p: int| 0 <= p < ra.len() && ra[p] == rb[i];
        let q = choose|q: int| 0 <= q < ra.len() && ra[q] == rb[j];
        assert(rb[i] != rb[j]);
        assert(in_rect(ra[p], x, y));
    }
    assert forall|i: int| 0 <= i < rb.len() implies (#[trigger] rb[i]).x0 < rb[i].x1 && rb[i].y0 < rb[i].y1 by {
        let p = choose|p: int| 0 <= p < ra.len() && ra[p] == rb[i];
        assert(ra[p].x0 < ra[p].x1 && ra[p].y0 < ra[p].y1);
    }
    assert forall|i: int, y: int| 0 <= i < rb.len() && rb[i].y0 <= y < rb[i].y1
        implies #[trigger] row_closed_at(es, rb[i].x0 as int, rb[i].x1 as int, y) by {
        let p = choose|p: int| 0 <= p < ra.len() && ra[p] == rb[i];
        assert(row_closed_at(es, ra[p].x0 as int, ra[p].x1 as int, y));
    }
    assert forall|i: int, j: int| 0 <= i < rb.len() && 0 <= j < rb.len() && i != j
        && (#[trigger] rb[i]).x0 == (#[trigger] rb[j]).x0 && rb[i].x1 == rb[j].x1 && rb[i].y1 == rb[j].y0
        implies !spans(es, rb[i].x1 as int, rb[i].y1 as int) by {
        let p = choose|p: int| 0 <= p < ra.len() && ra[p] == rb[i];
        let q = choose|q: int| 0 <= q < ra.len() && ra[q] == rb[j];
        assert(rb[i] != rb[j]);
        assert(ra[p].x0 == ra[q].x0);
    }
    assert forall|i: int, y: int| 0 <= i < rb.len() && rb[i].y0 < y < rb[i].y1
        implies #[trigger] spans(es, rb[i].x1 as int, y) by {
        let p = choose|p: int| 0 <= p < ra.len() && ra[p] == rb[i];
        assert(ra[p].y0 < y < ra[p].y1);
    }
    assert(covered_points(rb) =~= covered_points(ra)) by {
        assert forall|pt: (int, int)| covered_points(rb).contains(pt) <==> covered_points(ra).contains(pt) by {
            if covered_points(rb).contains(pt) {
                let i = choose|i: int| 0 <= i < rb.len() && #[trigger] in_rect(rb[i], pt.0, pt.1);
                let p = choose|p: int| 0 <= p < ra.len() && ra[p] == rb[i];
                assert(in_rect(ra[p], pt.0, pt.1));
            }
            if covered_points(ra).contains(pt) {
                let p = choose|p: int| 0 <= p < ra.len() && #[trigger] in_rect(ra[p], pt.0, pt.1);
                assert(ra.to_set().contains(ra[p]));
                assert(rb.to_set().contains(ra[p]));
                let i = choose|i: int| 0 <= i < rb.len() && rb[i] == ra[p];
                assert(in_rect(rb[i], pt.0, pt.1));
            }
        }
    }
}

/// Two strictly ordered lists with the same elements agree on a prefix.
proof fn lemma_ordered_prefix(ra: Seq<RectI>, rb: Seq<RectI>, n: int)
    requires
        ordered_by_right_edge(ra),
        ordered_by_right_edge(rb),
        ra.to_set() == rb.to_set(),
        0 <= n <= ra.len(),
        n <= rb.len(),
    ensures
        forall|i: int| 0 <= i < n ==> ra[i] == rb[i],
    decreases n,
{
    if n > 0 {
        lemma_ordered_prefix(ra, rb, n - 1);
        let i = n - 1;
        assert(ra.to_set().contains(ra[i]));
        assert(rb.to_set().contains(rb[i]));
        let j = choose|j: int| 0 <= j < rb.len() && rb[j] == ra[i];
        let k = choose|k: int| 0 <= k < ra.len() && ra[k] == rb[i];
        if ra[i] != rb[i] {
            if j < i {
                assert(ra[j] == rb[j]);
                assert(rect_before(ra[j], ra[i]));
            }
            if k < i {
                assert(ra[k] == rb[k]);
                assert(rect_before(rb[k], rb[i]));
            }
            assert(j > i && k > i);
            assert(rect_before(rb[i], rb[j]));
            assert(rect_before(ra[i], ra[k]));
        }
    }
}

/// The contract of `decompose_rectangles` fixes its result: two lists of
/// rectangles that are both decompositions of the same edges, listed in the
/// order of their right and lower edges, are the same list.
pub proof fn law_decomposition_exact(es: Seq<REdgeI>, ra: Seq<RectI>, rb: Seq<RectI>)
    requires
        is_decomposition(es, ra),
        is_decomposition(es, rb),
        ordered_by_right_edge(ra),
        ordered_by_right_edge(rb),
    ensures
        ra == rb,
{
    law_decomposition_unique(es, ra, rb);
    let n = if ra.len() < rb.len() { ra.len() as int } else { rb.len() as int };
    lemma_ordered_prefix(ra, rb, n);
    if ra.len() < rb.len() {
        assert(rb.to_set().contains(rb[n]));
        let k = choose|k: int| 0 <= k < ra.len() && ra[k] == rb[n];
        assert(ra[k] == rb[k]);
        assert(rect_before(rb[k], rb[n]));
    }
    if rb.len() < ra.len() {
        assert(ra.to_set().contains(ra[n]));
        let k = choose|k: int| 0 <= k < rb.len() && rb[k] == ra[n];
        assert(ra[k] == rb[k]);
        assert(rect_before(ra[k], ra[n]));
    }
    assert(ra =~= rb);
}

/// The rows of a run of columns `s` up to `e` of band `a` are maximal where the
/// column before it and the column at its end are outside.
proof fn lemma_run_sides(es: Seq<REdgeI>, xs: Seq<i32>, ys: Seq<i32>, a: int, s: int, e: int)
    requires
        sorted(xs),
        sorted(ys),
        coords_listed(es, xs, ys),
        rectilinear_closed(es),
        0 <= a < ys.len() - 1,
        0 <= s < e <= xs.len() - 1,
        s == 0 || winding(es, xs[s - 1] as int, ys[a] as int) == 0,
        e == xs.len() - 1 || winding(es, xs[e] as int, ys[a] as int) == 0,
    ensures
        forall|y: int| ys[a] <= y < ys[a + 1] ==> #[trigger] row_closed_at(es, xs[s] as int, xs[e] as int, y),
{
    assert forall|y: int| ys[a] <= y < ys[a + 1] implies #[trigger] row_closed_at(es, xs[s] as int, xs[e] as int, y) by {
        if s == 0 {
            lemma_winding_outside(es, xs, ys, xs[0] - 1, y);
        } else {
            assert(xs[s - 1] < xs[s]);
            lemma_winding_const(es, xs, ys, s - 1, a, xs[s] - 1, y);
        }
        if e == xs.len() - 1 {
            lemma_winding_outside(es, xs, ys, xs[e] as int, y);
        } else {
            lemma_winding_const(es, xs, ys, e, a, xs[e] as int, y);
        }
    }
}

/// Decompose polygons with axis-parallel edges into non-overlapping horizontal
/// rectangles. The polygons are given by their edges. A point is inside when the
/// polygons wind around it a non-zero number of times. Every row of a rectangle
/// is a maximal run of inside points. A rectangle is closed on its right by one
/// vertical edge: rows of the same extent on top of each other belong to one
/// rectangle unless an edge on their right side ends between them. These
/// properties fix the rectangles (see `law_decomposition_exact`). They are
/// listed by their right edges from left to right, and those with the same right
/// edge from bottom to top.
///
/// The plane is cut into horizontal bands at the heights of the vertices; in each
/// band every maximal run of inside points between the vertical edges becomes a
/// rectangle, which grows the rectangle of the band below when that one has the
/// same horizontal extent and an edge on the right runs across both.
pub fn decompose_rectangles(edges: &Vec<REdgeI>) -> (res: Vec<RectI>)
    requires
        edges@.len() <= i64::MAX,
        rectilinear_closed(edges@),
    ensures
        pairwise_disjoint(res@),
        non_empty_rects(res@),
        covered_points(res@) == interior(edges@),
        maximal_rows(edges@, res@),
        twins_split_at_edge_ends(edges@, res@),
        right_sides_unbroken(edges@, res@),
        ordered_by_right_edge(res@),
{
    let ghost es = edges@;
    let mut raw_xs: Vec<i32> = Vec::new();
    let mut raw_ys: Vec<i32> = Vec::new();
    let mut i: usize = 0;
    proof {
        assert(coords_listed(es.subrange(0, 0), raw_xs@, raw_ys@));
    }
    while i < edges.len()
        invariant
            es == edges@,
            i <= es.len(),
            coords_listed(es.subrange(0, i as int), raw_xs@, raw_ys@),
        decreases es.len() - i,
    {
        let e = edges[i];
        let ghost xs0 = raw_xs@;
        let ghost ys0 = raw_ys@;
        if e.orientation == REdgeOrientation::Vertical && e.start != e.end {
            raw_xs.push(e.offset);
            raw_ys.push(e.start);
            raw_ys.push(e.end);
            proof {
                assert(raw_xs@.last() == e.offset);
                assert(raw_ys@[raw_ys@.len() - 2] == e.start);
                assert(raw_ys@.last() == e.end);
                assert forall|v: i32| xs0.contains(v) implies raw_xs@.contains(v) by {
                    let m = choose|m: int| 0 <= m < xs0.len() && xs0[m] == v;
                    assert(raw_xs@[m] == v);
                }
                assert forall|v: i32| ys0.contains(v) implies raw_ys@.contains(v) by {
                    let m = choose|m: int| 0 <= m < ys0.len() && ys0[m] == v;
                    assert(raw_ys@[m] == v);
                }
            }
        }
        proof {
            let s0 = es.subrange(0, i as int);
            let s1 = es.subrange(0, i + 1);
            assert forall|j: int| 0 <= j < s1.len() && is_vertical(#[trigger] s1[j])
                implies raw_xs@.contains(s1[j].offset) && raw_ys@.contains(s1[j].start) && raw_ys@.contains(s1[j].end) by {
                if j < i {
                    assert(s1[j] == s0[j]);
                    assert(xs0.contains(s0[j].offset) && ys0.contains(s0[j].start) && ys0.contains(s0[j].end));
                } else {
                    assert(s1[j] == e);
                }
            }
        }
        i = i + 1;
    }
    proof {
        assert(es.subrange(0, i as int) =~= es);
    }
    let xs = coordinate_list(raw_xs);
    let ys = coordinate_list(raw_ys);
    proof {
        assert(coords_listed(es, xs@, ys@));
    }
    let mut rects: Vec<RectI> = Vec::new();
    if xs.len() < 2 || ys.len() < 2 {
        proof {
            assert(covered_points(rects@) =~= interior(es)) by {
                assert forall|p: (int, int)| !interior(es).contains(p) by {
                    lemma_winding_outside(es, xs@, ys@, p.0, p.1);
                }
            }
        }
        return rects;
    }
    proof {
        assert(covered_points(rects@) =~= inside_below(es, ys@[0] as int)) by {
            assert forall|p: (int, int)| !inside_below(es, ys@[0] as int).contains(p) by {
                if p.1 < ys@[0] {
                    lemma_winding_outside(es, xs@, ys@, p.0, p.1);
                }
            }
        }
    }
    let mut a: usize = 0;
    while a < ys.len() - 1
        invariant
            es == edges@,
            rectilinear_closed(es),
            sorted(xs@),
            sorted(ys@),
            coords_listed(es, xs@, ys@),
            xs@.len() >= 2,
            ys@.len() >= 2,
            a + 1 <= ys@.len(),
            es.len() <= i64::MAX,
            pairwise_disjoint(rects@),
            non_empty_rects(rects@),
            covered_points(rects@) == inside_below(es, ys@[a as int] as int),
            maximal_rows(es, rects@),
            twins_split_at_edge_ends(es, rects@),
            right_sides_unbroken(es, rects@),
            all_start_below(rects@, ys@[a as int] as int),
        decreases ys@.len() - a,
    {
        let y0 = ys[a];
        let y1 = ys[a + 1];
        proof {
            assert(y0 < y1);
        }
        let mut b: usize = 0;
        let mut running: bool = false;
        let mut s: usize = 0;
        proof {
            assert(inside_band_left(es, y0 as int, y1 as int, xs@[0] as int) =~= Set::empty()) by {
                assert forall|p: (int, int)| !inside_band_left(es, y0 as int, y1 as int, xs@[0] as int).contains(p) by {
                    if p.0 < xs@[0] {
                        lemma_winding_outside(es, xs@, ys@, p.0, p.1);
                    }
                }
            }
            assert(covered_points(rects@) =~= inside_below(es, y0 as int) + inside_band_left(es, y0 as int, y1 as int, xs@[0] as int));
        }
        while b < xs.len() - 1
            invariant
                es == edges@,
                sorted(xs@),
                sorted(ys@),
                coords_listed(es, xs@, ys@),
                xs@.len() >= 2,
                a + 1 < ys@.len(),
                y0 == ys@[a as int],
                y1 == ys@[a + 1],
                y0 < y1,
                b + 1 <= xs@.len(),
                es.len() <= i64::MAX,
                running ==> s < b,
                running ==> forall|c: int| s <= c < b ==> winding(es, #[trigger] xs@[c] as int, y0 as int) != 0,
                running ==> (s == 0 || winding(es, xs@[s - 1] as int, y0 as int) == 0),
                !running ==> (b == 0 || winding(es, xs@[b - 1] as int, y0 as int) == 0),
                rectilinear_closed(es),
                maximal_rows(es, rects@),
                twins_split_at_edge_ends(es, rects@),
            right_sides_unbroken(es, rects@),
                all_start_below(rects@, y0 as int),
                pairwise_disjoint(rects@),
                non_empty_rects(rects@),
                covered_points(rects@) == inside_below(es, y0 as int)
                    + inside_band_left(es, y0 as int, y1 as int, xs@[if running { s as int } else { b as int }] as int),
            decreases xs@.len() - b,
        {
            let w = winding_at(edges, xs[b], y0);
            if w != 0 {
                if !running {
                    running = true;
                    s = b;
                }
            } else {
                proof {
                    lemma_band_gap(es, xs@, ys@, a as int, b as int);
                }
                if running {
                    proof {
                        lemma_band_run(es, xs@, ys@, a as int, s as int, b as int);
                        assert(xs@[s as int] < xs@[b as int]);
                        assert forall|x: int, y: int| band_points(xs@[s as int] as int, xs@[b as int] as int, y0 as int, y1 as int).contains((x, y))
                            implies !covered_points(rects@).contains((x, y)) by {
                        }
                    }
                    let ghost before = rects@;
                    proof {
                        lemma_run_sides(es, xs@, ys@, a as int, s as int, b as int);
                        lemma_run_right_spans(es, xs@, ys@, a as int, s as int, b as int);
                    }
                    add_run(&mut rects, xs[s], xs[b], y0, y1, edges, Ghost(es));
                    proof {
                        let band = band_points(xs@[s as int] as int, xs@[b as int] as int, y0 as int, y1 as int);
                        assert(inside_band_left(es, y0 as int, y1 as int, xs@[b + 1] as int)
                            =~= inside_band_left(es, y0 as int, y1 as int, xs@[s as int] as int) + band) by {
                            assert forall|p: (int, int)| inside_band_left(es, y0 as int, y1 as int, xs@[b + 1] as int).contains(p)
                                <==> (inside_band_left(es, y0 as int, y1 as int, xs@[s as int] as int) + band).contains(p) by {
                                if band.contains(p) {
                                    assert(band_points(xs@[s as int] as int, xs@[b as int] as int, ys@[a as int] as int, ys@[a + 1] as int).contains((p.0, p.1)));
                                }
                                if y0 <= p.1 < y1 && xs@[b as int] <= p.0 < xs@[b + 1] {
                                    assert(band_points(xs@[b as int] as int, xs@[b + 1] as int, ys@[a as int] as int, ys@[a + 1] as int).contains((p.0, p.1)));
                                }
                            }
                        }
                    }
                    running = false;
                } else {
                    proof {
                        assert(inside_band_left(es, y0 as int, y1 as int, xs@[b + 1] as int)
                            =~= inside_band_left(es, y0 as int, y1 as int, xs@[b as int] as int)) by {
                            assert forall|p: (int, int)| inside_band_left(es, y0 as int, y1 as int, xs@[b + 1] as int).contains(p)
                                <==> inside_band_left(es, y0 as int, y1 as int, xs@[b as int] as int).contains(p) by {
                                if y0 <= p.1 < y1 && xs@[b as int] <= p.0 < xs@[b + 1] {
                                    assert(band_points(xs@[b as int] as int, xs@[b + 1] as int, ys@[a as int] as int, ys@[a + 1] as int).contains((p.0, p.1)));
                                }
                            }
                        }
                    }
                }
            }
            b = b + 1;
        }
        let last = b;
        proof {
            assert(last == xs@.len() - 1);
        }
        if running {
            proof {
                lemma_band_run(es, xs@, ys@, a as int, s as int, last as int);
                assert(xs@[s as int] < xs@[last as int]);
                lemma_run_sides(es, xs@, ys@, a as int, s as int, last as int);
                lemma_run_right_spans(es, xs@, ys@, a as int, s as int, last as int);
            }
            add_run(&mut rects, xs[s], xs[last], y0, y1, edges, Ghost(es));
            proof {
                let band = band_points(xs@[s as int] as int, xs@[last as int] as int, y0 as int, y1 as int);
                assert(inside_band_left(es, y0 as int, y1 as int, xs@[last as int] as int)
                    =~= inside_band_left(es, y0 as int, y1 as int, xs@[s as int] as int) + band) by {
                    assert forall|p: (int, int)| inside_band_left(es, y0 as int, y1 as int, xs@[last as int] as int).contains(p)
                        <==> (inside_band_left(es, y0 as int, y1 as int, xs@[s as int] as int) + band).contains(p) by {
                        if band.contains(p) {
                            assert(band_points(xs@[s as int] as int, xs@[last as int] as int, ys@[a as int] as int, ys@[a + 1] as int).contains((p.0, p.1)));
                        }
                    }
                }
            }
        }
        proof {
            let xl = xs@[last as int] as int;
            assert(covered_points(rects@) == inside_below(es, y0 as int) + inside_band_left(es, y0 as int, y1 as int, xl));
            assert(inside_below(es, y0 as int) + inside_band_left(es, y0 as int, y1 as int, xl) =~= inside_below(es, y1 as int)) by {
                assert forall|p: (int, int)| (inside_below(es, y0 as int) + inside_band_left(es, y0 as int, y1 as int, xl)).contains(p)
                    <==> inside_below(es, y1 as int).contains(p) by {
                    if inside_below(es, y1 as int).contains(p) && p.1 >= y0 && p.0 >= xl {
                        lemma_winding_outside(es, xs@, ys@, p.0, p.1);
                    }
                }
            }
        }
        proof {
            assert forall|i: int| 0 <= i < rects@.len() implies (#[trigger] rects@[i]).y0 <= y1 by {
                assert(rects@[i].y0 <= y0);
            }
        }
        a = a + 1;
    }
    proof {
        assert(inside_below(es, ys@[a as int] as int) =~= interior(es)) by {
            assert forall|p: (int, int)| inside_below(es, ys@[a as int] as int).contains(p) <==> interior(es).contains(p) by {
                if interior(es).contains(p) && p.1 >= ys@[a as int] {
                    lemma_winding_outside(es, xs@, ys@, p.0, p.1);
                }
            }
        }
    }
    proof {
        lemma_decomposition_keys(es, rects@);
    }
    let ordered = sort_by_right_edge(&rects);
    proof {
        lemma_reordered_decomposition(es, rects@, ordered@);
    }
    ordered
}

} // verus!
