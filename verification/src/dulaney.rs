//! Incremental triangulation of a set of sites.
//!
//! Sites are added one at a time to a triangulation that begins with one
//! large triangle around all of them. Adding a site removes every triangle
//! whose circumcircle holds it and fills the hole with a fan of triangles from
//! the site to the rim of the hole. At the end the triangles that still touch
//! the large triangle are dropped.

use crate::point::Point;
use crate::ratio::trunc_div;
use crate::triangle::{
    collinear, cross, same_vertices, triangle_spec, GeometryError, Triangle,
};
use vstd::prelude::*;

verus! {

/// The corners of the triangle around the grid of `width` by `height`: the
/// apex above the middle at twice the height, the base from `-width` to
/// `2 * width` one row below the grid, so that the sites of the lowest row
/// lie strictly inside.
pub open spec fn super_corners(width: int, height: int) -> (Point, Point, Point) {
    (
        Point { x: trunc_div(width, 2) as i32, y: (2 * height) as i32 },
        Point { x: (-width) as i32, y: -1i32 },
        Point { x: (2 * width) as i32, y: -1i32 },
    )
}

/// The corners of the surrounding triangle fit into the coordinates.
pub open spec fn bounds_fit(width: int, height: int) -> bool {
    &&& -0x4000_0000 <= width < 0x4000_0000
    &&& -0x4000_0000 <= height < 0x4000_0000
}

/// Among the first `n` triangles, those whose circumcircle holds `p`.
pub open spec fn bad_triangles(ts: Seq<Triangle>, p: Point, n: int) -> Seq<Triangle>
    decreases n,
{
    if n <= 0 {
        Seq::empty()
    } else if ts[n - 1].contains_spec(p) {
        bad_triangles(ts, p, n - 1).push(ts[n - 1])
    } else {
        bad_triangles(ts, p, n - 1)
    }
}

/// Among the first `n` triangles, those whose circumcircle does not hold `p`.
pub open spec fn kept_triangles(ts: Seq<Triangle>, p: Point, n: int) -> Seq<Triangle>
    decreases n,
{
    if n <= 0 {
        Seq::empty()
    } else if ts[n - 1].contains_spec(p) {
        kept_triangles(ts, p, n - 1)
    } else {
        kept_triangles(ts, p, n - 1).push(ts[n - 1])
    }
}

/// The side `e` of `t`, in either direction, is also a side of one of the
/// first `n` triangles of `bad` that has other vertices than `t`.
pub open spec fn side_shared(bad: Seq<Triangle>, t: Triangle, e: (Point, Point), n: int) -> bool {
    exists|k: int|
        0 <= k < n && !same_vertices(t, #[trigger] bad[k]) && (bad[k].has_edge_spec(e)
            || bad[k].has_edge_spec((e.1, e.0)))
}

/// The first `m` sides of `t` that it shares with no other triangle of
/// `bad`.
pub open spec fn rim_of(bad: Seq<Triangle>, t: Triangle, m: int) -> Seq<(Point, Point)>
    decreases m,
{
    if m <= 0 {
        Seq::empty()
    } else if side_shared(bad, t, t.edges[m - 1], bad.len() as int) {
        rim_of(bad, t, m - 1)
    } else {
        rim_of(bad, t, m - 1).push(t.edges[m - 1])
    }
}

/// The rim of the hole that the triangles of `bad` leave: the sides that
/// belong to exactly one of them, triangle by triangle, for the first `n`.
pub open spec fn rim(bad: Seq<Triangle>, n: int) -> Seq<(Point, Point)>
    decreases n,
{
    if n <= 0 {
        Seq::empty()
    } else {
        rim(bad, n - 1) + rim_of(bad, bad[n - 1], 3)
    }
}

/// One of the first `n` sides lies on one line with `p`.
pub open spec fn fan_degenerate(sides: Seq<(Point, Point)>, p: Point, n: int) -> bool {
    exists|k: int| 0 <= k < n && collinear((#[trigger] sides[k]).0, sides[k].1, p)
}

/// The triangles from the first `n` sides to `p`.
pub open spec fn fan(sides: Seq<(Point, Point)>, p: Point, n: int) -> Seq<Triangle>
    decreases n,
{
    if n <= 0 {
        Seq::empty()
    } else {
        fan(sides, p, n - 1).push(triangle_spec(sides[n - 1].0, sides[n - 1].1, p))
    }
}

/// The sides around the hole that `p` makes in `ts`.
pub open spec fn hole_rim(ts: Seq<Triangle>, p: Point) -> Seq<(Point, Point)> {
    let bad = bad_triangles(ts, p, ts.len() as int);
    rim(bad, bad.len() as int)
}

/// Adding `p` fails: a side of the hole lies on one line with `p`.
pub open spec fn insert_degenerate(ts: Seq<Triangle>, p: Point) -> bool {
    let sides = hole_rim(ts, p);
    fan_degenerate(sides, p, sides.len() as int)
}

/// The triangulation after `p` is added: the triangles whose circumcircle
/// does not hold `p`, then the fan from the rim of the hole to `p`.
pub open spec fn insert_site(ts: Seq<Triangle>, p: Point) -> Seq<Triangle> {
    let sides = hole_rim(ts, p);
    kept_triangles(ts, p, ts.len() as int) + fan(sides, p, sides.len() as int)
}

/// The triangulation after the first `n` sites are added to `start`.
pub open spec fn insert_sites(start: Seq<Triangle>, points: Seq<Point>, n: int) -> Seq<Triangle>
    decreases n,
{
    if n <= 0 {
        start
    } else {
        insert_site(insert_sites(start, points, n - 1), points[n - 1])
    }
}

/// Adding one of the first `n` sites fails.
pub open spec fn sites_degenerate(start: Seq<Triangle>, points: Seq<Point>, n: int) -> bool {
    exists|k: int|
        0 <= k < n && insert_degenerate(#[trigger] insert_sites(start, points, k), points[k])
}

/// `t` has one of the three corners as a vertex.
pub open spec fn touches(t: Triangle, corners: (Point, Point, Point)) -> bool {
    t.has_vertex_spec(corners.0) || t.has_vertex_spec(corners.1) || t.has_vertex_spec(corners.2)
}

/// Among the first `n` triangles, those that touch none of the corners.
pub open spec fn inner_triangles(ts: Seq<Triangle>, corners: (Point, Point, Point), n: int) -> Seq<
    Triangle,
>
    decreases n,
{
    if n <= 0 {
        Seq::empty()
    } else if touches(ts[n - 1], corners) {
        inner_triangles(ts, corners, n - 1)
    } else {
        inner_triangles(ts, corners, n - 1).push(ts[n - 1])
    }
}

/// The triangulation fails: the surrounding triangle is flat, or a site
/// falls on one line with a side of its hole.
pub open spec fn triangulation_degenerate(points: Seq<Point>, width: int, height: int) -> bool {
    let corners = super_corners(width, height);
    collinear(corners.0, corners.1, corners.2) || sites_degenerate(
        seq![triangle_spec(corners.0, corners.1, corners.2)],
        points,
        points.len() as int,
    )
}

/// The triangles that the triangulation of `points` returns.
pub open spec fn triangulation_spec(points: Seq<Point>, width: int, height: int) -> Seq<Triangle> {
    let corners = super_corners(width, height);
    let all = insert_sites(
        seq![triangle_spec(corners.0, corners.1, corners.2)],
        points,
        points.len() as int,
    );
    inner_triangles(all, corners, all.len() as int)
}

/// No site gives no triangle: the surrounding triangle is all there is, and
/// it is dropped at the end.
pub proof fn lemma_no_sites(width: int, height: int)
    ensures
        triangulation_spec(Seq::empty(), width, height) == Seq::<Triangle>::empty(),
        triangulation_degenerate(Seq::empty(), width, height) <==> collinear(
            super_corners(width, height).0,
            super_corners(width, height).1,
            super_corners(width, height).2,
        ),
{
    let corners = super_corners(width, height);
    let first = triangle_spec(corners.0, corners.1, corners.2);
    let all = insert_sites(seq![first], Seq::<Point>::empty(), 0);
    assert(all =~= seq![first]);
    assert(touches(all[0], corners));
    assert(inner_triangles(all, corners, 0) =~= Seq::<Triangle>::empty());
    assert(inner_triangles(all, corners, 1) =~= Seq::<Triangle>::empty());
}

/// Every cell of a grid with positive sides lies strictly inside the
/// surrounding triangle: it is on the same side of all three sides, and on
/// none of them.
pub proof fn lemma_grid_inside_surrounding(width: int, height: int, p: Point)
    requires
        bounds_fit(width, height),
        0 <= p.x < width,
        0 <= p.y < height,
    ensures
        ({
            let corners = super_corners(width, height);
            &&& cross(corners.0, corners.1, p) > 0
            &&& cross(corners.1, corners.2, p) > 0
            &&& cross(corners.2, corners.0, p) > 0
            &&& cross(corners.0, corners.1, corners.2) > 0
        }),
{
    let a = trunc_div(width, 2);
    let (x, y) = (p.x as int, p.y as int);
    assert(2 * a <= width <= 2 * a + 1);
    // left side: (x + w)(2h + 1) > (w + a)(y + 1)
    assert((-width - a) * (y + 1) - (x + width) * (-1 - 2 * height) > 0) by (nonlinear_arith)
        requires
            0 <= x,
            0 <= y < height,
            0 < width,
            0 <= 2 * a <= width,
    ;
    // base: 3w (y + 1) > 0
    assert((2 * width + width) * (y + 1) - (x - 2 * width) * 0 > 0) by (nonlinear_arith)
        requires
            0 < width,
            0 <= y,
    ;
    // right side: (2w - a)(2h - y) > (x - a)(2h + 1)
    assert((a - 2 * width) * (y - 2 * height) - (x - a) * (2 * height + 1) > 0)
        by (nonlinear_arith)
        requires
            0 <= x < width,
            0 <= y < height,
            width <= 2 * a + 1,
            0 <= 2 * a <= width,
    ;
    // the triangle itself: 3w (2h + 1) > 0
    assert((-width - a) * 0 - (2 * width + width) * (-1 - 2 * height) > 0) by (nonlinear_arith)
        requires
            0 < width,
            0 < height,
    ;
}

/// `v` is a corner of the surrounding triangle or one of the first `k`
/// sites.
pub open spec fn site_or_corner(
    v: Point,
    points: Seq<Point>,
    k: int,
    corners: (Point, Point, Point),
) -> bool {
    v == corners.0 || v == corners.1 || v == corners.2 || exists|j: int|
        0 <= j < k && #[trigger] points[j] == v
}

/// What holds of every triangle of the triangulation after `k` sites: it is
/// well formed; its vertices are sites or corners; and it was made at some
/// moment `b`, as the surrounding triangle (`b == 0`) or with site `b - 1`
/// as its third vertex, and no site added since lies strictly inside its
/// circumcircle.
pub open spec fn settled(
    t: Triangle,
    points: Seq<Point>,
    k: int,
    corners: (Point, Point, Point),
) -> bool {
    &&& t.wf()
    &&& site_or_corner(t.p1, points, k, corners)
    &&& site_or_corner(t.p2, points, k, corners)
    &&& site_or_corner(t.p3, points, k, corners)
    &&& exists|b: int| #[trigger] born_at(t, points, k, corners, b)
}

/// `t` was made at moment `b` and no site from `b` up to `k` lies strictly
/// inside its circumcircle.
pub open spec fn born_at(
    t: Triangle,
    points: Seq<Point>,
    k: int,
    corners: (Point, Point, Point),
    b: int,
) -> bool {
    &&& 0 <= b <= k
    &&& b == 0 ==> t == triangle_spec(corners.0, corners.1, corners.2)
    &&& b > 0 ==> t.p3 == points[b - 1]
    &&& forall|j: int| b <= j < k ==> !#[trigger] t.contains_spec(points[j])
}

/// What holds of every triangle that the triangulation returns: it is well
/// formed, it touches no corner of the surrounding triangle, its vertices
/// are sites, its third vertex is the site with which it was made, and no
/// site that was added later lies strictly inside its circumcircle.
pub open spec fn free_of_later_sites(t: Triangle, points: Seq<Point>, corners: (Point, Point, Point)) -> bool {
    &&& t.wf()
    &&& !touches(t, corners)
    &&& points.contains(t.p1)
    &&& points.contains(t.p2)
    &&& points.contains(t.p3)
    &&& exists|b: int|
        0 <= b < points.len() && t.p3 == #[trigger] points[b] && forall|j: int|
            b < j < points.len() ==> !#[trigger] t.contains_spec(points[j])
}

/// Every kept triangle is one of the first `n` and does not hold `p`.
pub proof fn lemma_kept(ts: Seq<Triangle>, p: Point, n: int)
    requires
        0 <= n <= ts.len(),
    ensures
        forall|i: int|
            0 <= i < kept_triangles(ts, p, n).len() ==> {
                let t = #[trigger] kept_triangles(ts, p, n)[i];
                !t.contains_spec(p) && exists|j: int| 0 <= j < n && ts[j] == t
            },
    decreases n,
{
    if n > 0 {
        lemma_kept(ts, p, n - 1);
        let prev = kept_triangles(ts, p, n - 1);
        let cur = kept_triangles(ts, p, n);
        assert forall|i: int| 0 <= i < cur.len() implies {
            let t = #[trigger] cur[i];
            !t.contains_spec(p) && exists|j: int| 0 <= j < n && ts[j] == t
        } by {
            if i < prev.len() {
                let t = prev[i];
                let j = choose|j: int| 0 <= j < n - 1 && ts[j] == t;
                assert(0 <= j < n && ts[j] == t);
            } else {
                assert(ts[n - 1] == cur[i]);
            }
        }
    }
}

/// Every bad triangle is one of the first `n`.
pub proof fn lemma_bad(ts: Seq<Triangle>, p: Point, n: int)
    requires
        0 <= n <= ts.len(),
    ensures
        forall|i: int|
            0 <= i < bad_triangles(ts, p, n).len() ==> {
                let t = #[trigger] bad_triangles(ts, p, n)[i];
                t.contains_spec(p) && exists|j: int| 0 <= j < n && ts[j] == t
            },
    decreases n,
{
    if n > 0 {
        lemma_bad(ts, p, n - 1);
        let prev = bad_triangles(ts, p, n - 1);
        let cur = bad_triangles(ts, p, n);
        assert forall|i: int| 0 <= i < cur.len() implies {
            let t = #[trigger] cur[i];
            t.contains_spec(p) && exists|j: int| 0 <= j < n && ts[j] == t
        } by {
            if i < prev.len() {
                let t = prev[i];
                let j = choose|j: int| 0 <= j < n - 1 && ts[j] == t;
                assert(0 <= j < n && ts[j] == t);
            } else {
                assert(ts[n - 1] == cur[i]);
            }
        }
    }
}

/// Every side on the rim is a side of one of the first `n` bad triangles.
pub proof fn lemma_rim(bad: Seq<Triangle>, n: int)
    requires
        0 <= n <= bad.len(),
    ensures
        forall|i: int|
            0 <= i < rim(bad, n).len() ==> exists|j: int, m: int|
                0 <= j < n && 0 <= m < 3 && bad[j].edges[m] == #[trigger] rim(bad, n)[i],
    decreases n,
{
    if n > 0 {
        lemma_rim(bad, n - 1);
        let prev = rim(bad, n - 1);
        let t = bad[n - 1];
        let last = rim_of(bad, t, 3);
        lemma_rim_of(bad, t, 3);
        let cur = rim(bad, n);
        assert forall|i: int| 0 <= i < cur.len() implies exists|j: int, m: int|
            0 <= j < n && 0 <= m < 3 && bad[j].edges[m] == #[trigger] cur[i] by {
            if i < prev.len() {
                let e = prev[i];
                let (j, m) = choose|j: int, m: int|
                    0 <= j < n - 1 && 0 <= m < 3 && bad[j].edges[m] == e;
                assert(0 <= j < n && 0 <= m < 3 && bad[j].edges[m] == cur[i]);
            } else {
                let e = last[i - prev.len()];
                let m = choose|m: int| 0 <= m < 3 && t.edges[m] == e;
                assert(0 <= n - 1 < n && 0 <= m < 3 && bad[n - 1].edges[m] == cur[i]);
            }
        }
    }
}

/// Every side that `rim_of` gives is one of the first `m` sides of `t`.
pub proof fn lemma_rim_of(bad: Seq<Triangle>, t: Triangle, m: int)
    requires
        0 <= m <= 3,
    ensures
        forall|i: int|
            0 <= i < rim_of(bad, t, m).len() ==> exists|k: int|
                0 <= k < m && t.edges[k] == #[trigger] rim_of(bad, t, m)[i],
    decreases m,
{
    if m > 0 {
        lemma_rim_of(bad, t, m - 1);
        let prev = rim_of(bad, t, m - 1);
        let cur = rim_of(bad, t, m);
        assert forall|i: int| 0 <= i < cur.len() implies exists|k: int|
            0 <= k < m && t.edges[k] == #[trigger] cur[i] by {
            if i < prev.len() {
                let e = prev[i];
                let k = choose|k: int| 0 <= k < m - 1 && t.edges[k] == e;
                assert(0 <= k < m && t.edges[k] == cur[i]);
            } else {
                assert(0 <= m - 1 < m && t.edges[m - 1] == cur[i]);
            }
        }
    }
}

/// The fan has one triangle for each side, in the order of the sides.
pub proof fn lemma_fan(sides: Seq<(Point, Point)>, p: Point, n: int)
    requires
        0 <= n <= sides.len(),
    ensures
        fan(sides, p, n).len() == n,
        forall|i: int|
            0 <= i < n ==> #[trigger] fan(sides, p, n)[i] == triangle_spec(
                sides[i].0,
                sides[i].1,
                p,
            ),
    decreases n,
{
    if n > 0 {
        lemma_fan(sides, p, n - 1);
    }
}

/// The two ends of a side of a well-formed triangle are vertices of it.
pub proof fn lemma_side_ends(t: Triangle, m: int)
    requires
        t.wf(),
        0 <= m < 3,
    ensures
        t.has_vertex_spec(t.edges[m].0),
        t.has_vertex_spec(t.edges[m].1),
{
}

/// Adding a site keeps every triangle settled.
pub proof fn lemma_insert_settled(
    ts: Seq<Triangle>,
    points: Seq<Point>,
    k: int,
    corners: (Point, Point, Point),
)
    requires
        0 <= k < points.len(),
        forall|i: int| 0 <= i < ts.len() ==> settled(#[trigger] ts[i], points, k, corners),
        !insert_degenerate(ts, points[k]),
    ensures
        forall|i: int|
            0 <= i < insert_site(ts, points[k]).len() ==> settled(
                #[trigger] insert_site(ts, points[k])[i],
                points,
                k + 1,
                corners,
            ),
{
    let p = points[k];
    let kept = kept_triangles(ts, p, ts.len() as int);
    let bad = bad_triangles(ts, p, ts.len() as int);
    let sides = rim(bad, bad.len() as int);
    let new = fan(sides, p, sides.len() as int);
    let next = insert_site(ts, p);
    lemma_kept(ts, p, ts.len() as int);
    lemma_bad(ts, p, ts.len() as int);
    lemma_rim(bad, bad.len() as int);
    lemma_fan(sides, p, sides.len() as int);
    assert forall|i: int| 0 <= i < next.len() implies settled(
        #[trigger] next[i],
        points,
        k + 1,
        corners,
    ) by {
        let t = next[i];
        if i < kept.len() {
            assert(t == kept[i]);
            let j = choose|j: int| 0 <= j < ts.len() && ts[j] == t;
            assert(settled(ts[j], points, k, corners));
            lemma_site_stays(t.p1, points, k, corners);
            lemma_site_stays(t.p2, points, k, corners);
            lemma_site_stays(t.p3, points, k, corners);
            let b = choose|b: int| born_at(t, points, k, corners, b);
            assert(born_at(t, points, k + 1, corners, b));
        } else {
            let e = sides[i - kept.len()];
            assert(t == new[i - kept.len()]);
            assert(t == triangle_spec(e.0, e.1, p));
            assert(!collinear(e.0, e.1, p));
            let (j, m) = choose|j: int, m: int|
                0 <= j < bad.len() && 0 <= m < 3 && bad[j].edges[m] == e;
            let owner = bad[j];
            let o = choose|o: int| 0 <= o < ts.len() && ts[o] == owner;
            assert(settled(ts[o], points, k, corners));
            lemma_side_ends(owner, m);
            lemma_site_stays(owner.p1, points, k, corners);
            lemma_site_stays(owner.p2, points, k, corners);
            lemma_site_stays(owner.p3, points, k, corners);
            assert(points[k] == t.p3);
            assert(site_or_corner(t.p3, points, k + 1, corners));
            assert(born_at(t, points, k + 1, corners, k + 1));
        }
    }
}

/// A site or corner among the first `k` sites is one among the first
/// `k + 1`.
pub proof fn lemma_site_stays(v: Point, points: Seq<Point>, k: int, corners: (Point, Point, Point))
    requires
        site_or_corner(v, points, k, corners),
    ensures
        site_or_corner(v, points, k + 1, corners),
{
    if !(v == corners.0 || v == corners.1 || v == corners.2) {
        let j = choose|j: int| 0 <= j < k && #[trigger] points[j] == v;
        assert(0 <= j < k + 1 && points[j] == v);
    }
}

/// After any number of sites every triangle of the triangulation is settled.
pub proof fn lemma_sites_settled(points: Seq<Point>, k: int, corners: (Point, Point, Point))
    requires
        0 <= k <= points.len(),
        !collinear(corners.0, corners.1, corners.2),
        !sites_degenerate(seq![triangle_spec(corners.0, corners.1, corners.2)], points, k),
    ensures
        forall|i: int|
            0 <= i < insert_sites(
                seq![triangle_spec(corners.0, corners.1, corners.2)],
                points,
                k,
            ).len() ==> settled(
                #[trigger] insert_sites(
                    seq![triangle_spec(corners.0, corners.1, corners.2)],
                    points,
                    k,
                )[i],
                points,
                k,
                corners,
            ),
    decreases k,
{
    let first = triangle_spec(corners.0, corners.1, corners.2);
    let start = seq![first];
    if k == 0 {
        assert(born_at(first, points, 0, corners, 0));
    } else {
        let before = insert_sites(start, points, k - 1);
        assert(!sites_degenerate(start, points, k - 1)) by {
            if sites_degenerate(start, points, k - 1) {
                let j = choose|j: int|
                    0 <= j < k - 1 && insert_degenerate(
                        #[trigger] insert_sites(start, points, j),
                        points[j],
                    );
                assert(0 <= j < k && insert_degenerate(insert_sites(start, points, j), points[j]));
            }
        }
        lemma_sites_settled(points, k - 1, corners);
        assert(!insert_degenerate(before, points[k - 1])) by {
            if insert_degenerate(before, points[k - 1]) {
                assert(0 <= k - 1 < k && insert_degenerate(
                    insert_sites(start, points, k - 1),
                    points[k - 1],
                ));
            }
        }
        lemma_insert_settled(before, points, k - 1, corners);
    }
}

/// Every inner triangle is one of the first `n` and touches no corner.
pub proof fn lemma_inner(ts: Seq<Triangle>, corners: (Point, Point, Point), n: int)
    requires
        0 <= n <= ts.len(),
    ensures
        forall|i: int|
            0 <= i < inner_triangles(ts, corners, n).len() ==> {
                let t = #[trigger] inner_triangles(ts, corners, n)[i];
                !touches(t, corners) && exists|j: int| 0 <= j < n && ts[j] == t
            },
    decreases n,
{
    if n > 0 {
        lemma_inner(ts, corners, n - 1);
        let prev = inner_triangles(ts, corners, n - 1);
        let cur = inner_triangles(ts, corners, n);
        assert forall|i: int| 0 <= i < cur.len() implies {
            let t = #[trigger] cur[i];
            !touches(t, corners) && exists|j: int| 0 <= j < n && ts[j] == t
        } by {
            if i < prev.len() {
                let t = prev[i];
                let j = choose|j: int| 0 <= j < n - 1 && ts[j] == t;
                assert(0 <= j < n && ts[j] == t);
            } else {
                assert(ts[n - 1] == cur[i]);
            }
        }
    }
}

/// Every triangle that a triangulation without error returns is well
/// formed, away from the corners of the surrounding triangle, on three
/// sites, and has no site that was added after it strictly inside its
/// circumcircle. Of the sites that were added before it this says nothing.
pub proof fn lemma_later_sites_outside(points: Seq<Point>, width: int, height: int)
    requires
        !triangulation_degenerate(points, width, height),
    ensures
        forall|i: int|
            0 <= i < triangulation_spec(points, width, height).len() ==> free_of_later_sites(
                #[trigger] triangulation_spec(points, width, height)[i],
                points,
                super_corners(width, height),
            ),
{
    let corners = super_corners(width, height);
    let n = points.len() as int;
    let all = insert_sites(seq![triangle_spec(corners.0, corners.1, corners.2)], points, n);
    let out = triangulation_spec(points, width, height);
    lemma_sites_settled(points, n, corners);
    lemma_inner(all, corners, all.len() as int);
    assert forall|i: int| 0 <= i < out.len() implies free_of_later_sites(#[trigger] out[i], points, corners) by {
        let t = out[i];
        let j = choose|j: int| 0 <= j < all.len() && all[j] == t;
        assert(settled(all[j], points, n, corners));
        let b = choose|b: int| born_at(t, points, n, corners, b);
        assert(b > 0) by {
            if b == 0 {
                assert(t.has_vertex_spec(corners.0));
            }
        }
        assert(0 <= b - 1 < points.len() && t.p3 == points[b - 1]);
        assert forall|j: int| b - 1 < j < points.len() implies !#[trigger] t.contains_spec(
            points[j],
        ) by {}
        lemma_vertex_is_site(t.p1, points, n, corners);
        lemma_vertex_is_site(t.p2, points, n, corners);
        lemma_vertex_is_site(t.p3, points, n, corners);
    }
}

/// A site or corner that is no corner is a site.
pub proof fn lemma_vertex_is_site(v: Point, points: Seq<Point>, k: int, corners: (Point, Point, Point))
    requires
        0 <= k <= points.len(),
        site_or_corner(v, points, k, corners),
        v != corners.0,
        v != corners.1,
        v != corners.2,
    ensures
        points.contains(v),
{
    let j = choose|j: int| 0 <= j < k && #[trigger] points[j] == v;
    assert(points[j] == v);
}

/// No site lies strictly inside the circumcircle of a triangle of which it
/// is not a vertex.
pub open spec fn delaunay(sites: Seq<Point>, triangles: Seq<Triangle>) -> bool {
    forall|i: int, k: int|
        0 <= i < triangles.len() && 0 <= k < sites.len() ==> triangles[i].has_vertex_spec(
            sites[k],
        ) || !#[trigger] triangles[i].contains_spec(#[trigger] sites[k])
}

/// Whether the triangles have the Delaunay property for the sites: no site
/// strictly inside the circumcircle of a triangle of which it is not a
/// vertex.
pub fn is_delaunay(sites: &[Point], triangles: &Vec<Triangle>) -> (r: bool)
    requires
        forall|i: int| 0 <= i < triangles@.len() ==> (#[trigger] triangles@[i]).wf(),
    ensures
        r == delaunay(sites@, triangles@),
{
    let mut i: usize = 0;
    while i < triangles.len()
        invariant
            0 <= i <= triangles@.len(),
            forall|i: int| 0 <= i < triangles@.len() ==> (#[trigger] triangles@[i]).wf(),
            forall|j: int, k: int|
                0 <= j < i && 0 <= k < sites@.len() ==> triangles@[j].has_vertex_spec(sites@[k])
                    || !#[trigger] triangles@[j].contains_spec(#[trigger] sites@[k]),
        decreases triangles@.len() - i,
    {
        let t = &triangles[i];
        let mut k: usize = 0;
        while k < sites.len()
            invariant
                0 <= k <= sites@.len(),
                0 <= i < triangles@.len(),
                *t == triangles@[i as int],
                t.wf(),
                forall|m: int|
                    0 <= m < k ==> t.has_vertex_spec(sites@[m]) || !t.contains_spec(
                        #[trigger] sites@[m],
                    ),
            decreases sites@.len() - k,
        {
            if !t.has_vertex(sites[k]) && t.circumcircle_contains(&sites[k]) {
                return false;
            }
            k += 1;
        }
        i += 1;
    }
    true
}

/// Whether a side of `t` is shared with another triangle of `bad`.
fn is_shared(bad: &Vec<Triangle>, t: &Triangle, e: &(Point, Point)) -> (r: bool)
    ensures
        r == side_shared(bad@, *t, *e, bad@.len() as int),
{
    let back = (e.1, e.0);
    let mut shared = false;
    let mut k: usize = 0;
    while k < bad.len()
        invariant
            0 <= k <= bad@.len(),
            back == (e.1, e.0),
            shared == side_shared(bad@, *t, *e, k as int),
        decreases bad@.len() - k,
    {
        let other = &bad[k];
        if !(*t == *other) && (other.has_edge(e) || other.has_edge(&back)) {
            shared = true;
        }
        k += 1;
    }
    shared
}

/// Adds one site to the triangulation.
fn insert(ts: Vec<Triangle>, p: Point) -> (r: Result<Vec<Triangle>, GeometryError>)
    requires
        forall|i: int| 0 <= i < ts@.len() ==> (#[trigger] ts@[i]).wf(),
    ensures
        insert_degenerate(ts@, p) <==> r is Err,
        r matches Ok(next) ==> next@ == insert_site(ts@, p) && forall|i: int|
            0 <= i < next@.len() ==> (#[trigger] next@[i]).wf(),
{
    // The triangles whose circumcircle holds the site, and the others.
    let mut bad: Vec<Triangle> = Vec::new();
    let mut next: Vec<Triangle> = Vec::new();
    let mut i: usize = 0;
    while i < ts.len()
        invariant
            0 <= i <= ts@.len(),
            forall|i: int| 0 <= i < ts@.len() ==> (#[trigger] ts@[i]).wf(),
            forall|i: int| 0 <= i < next@.len() ==> (#[trigger] next@[i]).wf(),
            bad@ == bad_triangles(ts@, p, i as int),
            next@ == kept_triangles(ts@, p, i as int),
        decreases ts@.len() - i,
    {
        if ts[i].circumcircle_contains(&p) {
            bad.push(ts[i]);
        } else {
            next.push(ts[i]);
        }
        i += 1;
    }
    // The rim of the hole: the sides that belong to one bad triangle only.
    let mut polygon: Vec<(Point, Point)> = Vec::new();
    let mut i: usize = 0;
    while i < bad.len()
        invariant
            0 <= i <= bad@.len(),
            polygon@ == rim(bad@, i as int),
        decreases bad@.len() - i,
    {
        let ghost before = polygon@;
        let t = bad[i];
        let mut m: usize = 0;
        while m < 3
            invariant
                0 <= m <= 3,
                0 <= i < bad@.len(),
                t == bad@[i as int],
                polygon@ == before + rim_of(bad@, t, m as int),
            decreases 3 - m,
        {
            let e = t.edges[m];
            if !is_shared(&bad, &t, &e) {
                polygon.push(e);
            }
            proof {
                assert(polygon@ =~= before + rim_of(bad@, t, m as int + 1));
            }
            m += 1;
        }
        i += 1;
    }
    // The fan from the rim to the site.
    let ghost kept = next@;
    assert(polygon@ == hole_rim(ts@, p));
    let mut i: usize = 0;
    while i < polygon.len()
        invariant
            0 <= i <= polygon@.len(),
            polygon@ == hole_rim(ts@, p),
            forall|i: int| 0 <= i < next@.len() ==> (#[trigger] next@[i]).wf(),
            !fan_degenerate(polygon@, p, i as int),
            next@ == kept + fan(polygon@, p, i as int),
        decreases polygon@.len() - i,
    {
        let e = polygon[i];
        match Triangle::new(e.0, e.1, p) {
            Ok(t) => {
                next.push(t);
                proof {
                    assert(next@ =~= kept + fan(polygon@, p, i as int + 1));
                }
            },
            Err(err) => {
                proof {
                    assert(collinear(polygon@[i as int].0, polygon@[i as int].1, p));
                }
                return Err(err);
            },
        }
        i += 1;
    }
    Ok(next)
}

/// The triangulation of `points` on a grid of `width` by `height`, by adding
/// the sites in their order to one triangle around the grid and dropping, at
/// the end, every triangle that touches a corner of it. No site gives no
/// triangle. The result is an error when the surrounding triangle is flat or
/// a site falls on one line with a side of the hole that it makes. Every
/// circle is exact. Of a returned triangle the contract states that no site
/// added after it lies strictly inside its circumcircle; `is_delaunay`
/// decides the same of all sites for a given result.
pub fn dulaney_triangulation(points: &[Point], width: i32, height: i32) -> (r: Result<
    Vec<Triangle>,
    GeometryError,
>)
    requires
        bounds_fit(width as int, height as int),
    ensures
        triangulation_degenerate(points@, width as int, height as int) <==> r is Err,
        r matches Ok(ts) ==> ts@ == triangulation_spec(points@, width as int, height as int),
        r matches Ok(ts) ==> forall|i: int|
            0 <= i < ts@.len() ==> (#[trigger] ts@[i]).wf(),
        r matches Ok(ts) ==> forall|i: int|
            0 <= i < ts@.len() ==> free_of_later_sites(
                #[trigger] ts@[i],
                points@,
                super_corners(width as int, height as int),
            ),
{
    let top = Point::new(width / 2, 2 * height);
    let left = Point::new(-width, -1);
    let right = Point::new(2 * width, -1);
    let ghost corners = super_corners(width as int, height as int);
    let super_triangle = match Triangle::new(top, left, right) {
        Ok(t) => t,
        Err(err) => {
            return Err(err);
        },
    };
    let ghost start = seq![super_triangle];
    let mut triangulation: Vec<Triangle> = Vec::new();
    triangulation.push(super_triangle);
    assert(triangulation@ =~= start);
    let mut i: usize = 0;
    while i < points.len()
        invariant
            0 <= i <= points@.len(),
            corners == super_corners(width as int, height as int),
            start == seq![triangle_spec(corners.0, corners.1, corners.2)],
            forall|i: int| 0 <= i < triangulation@.len() ==> (#[trigger] triangulation@[i]).wf(),
            !sites_degenerate(start, points@, i as int),
            triangulation@ == insert_sites(start, points@, i as int),
        decreases points@.len() - i,
    {
        match insert(triangulation, points[i]) {
            Ok(next) => {
                triangulation = next;
            },
            Err(err) => {
                proof {
                    assert(insert_degenerate(insert_sites(start, points@, i as int), points@[i as int]));
                }
                return Err(err);
            },
        }
        i += 1;
    }
    // Drop what still touches the surrounding triangle.
    let mut inner: Vec<Triangle> = Vec::new();
    let mut i: usize = 0;
    while i < triangulation.len()
        invariant
            0 <= i <= triangulation@.len(),
            corners == (top, left, right),
            inner@ == inner_triangles(triangulation@, corners, i as int),
        decreases triangulation@.len() - i,
    {
        let t = triangulation[i];
        if !t.has_vertex(top) && !t.has_vertex(left) && !t.has_vertex(right) {
            inner.push(t);
        }
        i += 1;
    }
    proof {
        assert(inner@ == triangulation_spec(points@, width as int, height as int));
        assert(!triangulation_degenerate(points@, width as int, height as int));
        lemma_later_sites_outside(points@, width as int, height as int);
    }
    Ok(inner)
}

} // verus!
