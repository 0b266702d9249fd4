//! Flood fill of a grid from all sites at once, tagging the cells that lie
//! between two sites.
//!
//! The fill is a state machine. One step takes a cell from the frontier,
//! marks it visited, tests whether it lies on a boundary, and puts its
//! unvisited neighbours on the frontier. The caller decides when to step.

use crate::point::{
    is_nearest, lemma_sq_dist_bound, lemma_square_bound, nearest_index, nearest_spec, point_le,
    sq_dist, Point,
};
use crate::wide::{mul_wide, Wide};
use std::collections::VecDeque;
use vstd::prelude::*;

verus! {

/// A tolerance on distances, counted in units of 1/65536 of a grid step.
#[derive(Debug, Clone, Copy, PartialEq, Eq, Structural)]
pub struct Tolerance {
    pub units: u32,
}

/// The cells found on the boundary between two sites, in the order in which
/// they were visited.
#[derive(Debug)]
pub struct Boundary {
    /// The two sites, the lesser first.
    pub between: (Point, Point),
    pub cells: Vec<Point>,
}

/// The flood fill: its sites and bounds, and how far it has come.
pub struct BFS {
    pub sites: Vec<Point>,
    pub epsilon: Tolerance,
    /// The cells visited so far, in the order of their visit.
    pub visited: Vec<Point>,
    /// The boundaries found so far, in the order in which they were first
    /// met.
    pub edges: Vec<Boundary>,
    /// The cells waiting for their visit; the next one is at the back.
    pub frontier: VecDeque<Point>,
    pub width: i32,
    pub height: i32,
}

/// The state of a flood fill as plain values.
pub struct BfsState {
    pub sites: Seq<Point>,
    pub epsilon: Tolerance,
    pub visited: Seq<Point>,
    pub edges: Seq<((Point, Point), Seq<Point>)>,
    pub frontier: Seq<Point>,
    pub width: int,
    pub height: int,
}

/// Whether the square roots of `far` and `near` differ by less than the
/// tolerance, for `far >= near >= 0`. With `e = units / 65536` the test
/// `sqrt(far) < sqrt(near) + e` is `far - near - e^2 < 2 e sqrt(near)`, which
/// holds when the left side is negative or its square is less than
/// `4 e^2 near`; both sides are scaled by `65536^2` here.
pub open spec fn within_tolerance(far: int, near: int, eps: Tolerance) -> bool {
    let gap = 0x1_0000_0000 * (far - near) - eps.units * eps.units;
    gap < 0 || gap * gap < (0x4_0000_0000 * (eps.units * eps.units)) * near
}

/// Site `k` is another site than the nearest one, `closest`, and its
/// distance to `point` is within the tolerance of the least distance.
pub open spec fn is_partner(
    sites: Seq<Point>,
    point: Point,
    eps: Tolerance,
    closest: int,
    k: int,
) -> bool {
    sites[k] != sites[closest] && within_tolerance(
        sq_dist(sites[k], point),
        sq_dist(sites[closest], point),
        eps,
    )
}

/// The first partner of the nearest site among the first `n` sites.
pub open spec fn first_partner(
    sites: Seq<Point>,
    point: Point,
    eps: Tolerance,
    closest: int,
    n: int,
) -> Option<int>
    decreases n,
{
    if n <= 0 {
        None
    } else {
        match first_partner(sites, point, eps, closest, n - 1) {
            Some(k) => Some(k),
            None => if is_partner(sites, point, eps, closest, n - 1) {
                Some(n - 1)
            } else {
                None
            },
        }
    }
}

/// The pair of sites between which `point` lies: the nearest site, and the
/// first other site whose distance is within the tolerance of the least.
pub open spec fn is_edge_spec(point: Point, sites: Seq<Point>, eps: Tolerance) -> Option<
    (Point, Point),
> {
    if sites.len() == 0 {
        None
    } else {
        let c = nearest_spec(sites, point, sites.len() as int);
        match first_partner(sites, point, eps, c, sites.len() as int) {
            Some(k) => Some((sites[c], sites[k])),
            None => None,
        }
    }
}

/// A pair of sites as a key that does not depend on their order: the lesser
/// site first.
pub open spec fn pair_key(a: Point, b: Point) -> (Point, Point) {
    if point_le(a, b) {
        (a, b)
    } else {
        (b, a)
    }
}

/// The first index among the first `n` boundaries that has the key `key`.
pub open spec fn key_index(
    edges: Seq<((Point, Point), Seq<Point>)>,
    key: (Point, Point),
    n: int,
) -> Option<int>
    decreases n,
{
    if n <= 0 {
        None
    } else {
        match key_index(edges, key, n - 1) {
            Some(k) => Some(k),
            None => if edges[n - 1].0 == key {
                Some(n - 1)
            } else {
                None
            },
        }
    }
}

/// The boundaries after the cell `p` is put down under `key`: at the end of
/// the list of that key, or as a new list behind the others.
pub open spec fn record(
    edges: Seq<((Point, Point), Seq<Point>)>,
    key: (Point, Point),
    p: Point,
) -> Seq<((Point, Point), Seq<Point>)> {
    match key_index(edges, key, edges.len() as int) {
        Some(i) => edges.update(i, (key, edges[i].1.push(p))),
        None => edges.push((key, seq![p])),
    }
}

/// The first `n` cells of `cells` without any copy of `p`.
pub open spec fn without(cells: Seq<Point>, p: Point, n: int) -> Seq<Point>
    decreases n,
{
    if n <= 0 {
        Seq::empty()
    } else if cells[n - 1] == p {
        without(cells, p, n - 1)
    } else {
        without(cells, p, n - 1).push(cells[n - 1])
    }
}

/// The cell `(x, y)` lies on the grid.
pub open spec fn in_grid(x: int, y: int, width: int, height: int) -> bool {
    0 <= x < width && 0 <= y < height
}

/// The cell `(x, y)`, if it lies on the grid and is not visited.
pub open spec fn candidate(visited: Seq<Point>, x: int, y: int, width: int, height: int) -> Seq<
    Point,
> {
    let cell = Point { x: x as i32, y: y as i32 };
    if in_grid(x, y, width, height) && !visited.contains(cell) {
        seq![cell]
    } else {
        Seq::empty()
    }
}

/// The neighbours of `p` to the left, above, to the right and below, in
/// this order, that lie on the grid and are not visited.
pub open spec fn unvisited_neighbors(visited: Seq<Point>, p: Point, width: int, height: int) -> Seq<
    Point,
> {
    candidate(visited, p.x - 1, p.y as int, width, height) + candidate(
        visited,
        p.x as int,
        p.y - 1,
        width,
        height,
    ) + candidate(visited, p.x + 1, p.y as int, width, height) + candidate(
        visited,
        p.x as int,
        p.y + 1,
        width,
        height,
    )
}

/// The boundaries that the first `n` visited cells give: each cell that
/// lies between two sites is put down under their key, in the order of the
/// visits.
pub open spec fn boundaries_of(
    visited: Seq<Point>,
    sites: Seq<Point>,
    eps: Tolerance,
    n: int,
) -> Seq<((Point, Point), Seq<Point>)>
    decreases n,
{
    if n <= 0 {
        Seq::empty()
    } else {
        let before = boundaries_of(visited, sites, eps, n - 1);
        match is_edge_spec(visited[n - 1], sites, eps) {
            Some(pair) => record(before, pair_key(pair.0, pair.1), visited[n - 1]),
            None => before,
        }
    }
}

/// What one step reports.
#[derive(Debug, PartialEq, Eq)]
pub enum Step {
    /// The frontier was empty: the fill is done.
    Done,
    /// The cell had been visited before and was only dropped.
    Skipped(Point),
    /// The cell was visited, and this is the pair of sites between which it
    /// lies, if it lies on a boundary.
    Visited(Point, Option<(Point, Point)>),
}

impl BfsState {
    /// No cell on the frontier is visited, no cell is visited twice, no two
    /// boundaries have the same key, and the boundaries are those of the
    /// visited cells.
    pub open spec fn wf(self) -> bool {
        &&& forall|i: int| 0 <= i < self.frontier.len() ==> !self.visited.contains(#[trigger] self.frontier[i])
        &&& self.visited.no_duplicates()
        &&& forall|i: int, j: int|
            0 <= i < j < self.edges.len() ==> (#[trigger] self.edges[i]).0 != (#[trigger] self.edges[j]).0
        &&& self.edges == boundaries_of(self.visited, self.sites, self.epsilon, self.visited.len() as int)
    }

    /// What the next step will report.
    pub open spec fn outcome(self) -> Step {
        if self.frontier.len() == 0 {
            Step::Done
        } else if self.visited.contains(self.frontier.last()) {
            Step::Skipped(self.frontier.last())
        } else {
            Step::Visited(
                self.frontier.last(),
                is_edge_spec(self.frontier.last(), self.sites, self.epsilon),
            )
        }
    }

    /// The state after `n` steps.
    pub open spec fn after(self, n: nat) -> BfsState
        decreases n,
    {
        if n == 0 {
            self
        } else {
            self.after((n - 1) as nat).step()
        }
    }

    /// The visited cells in the order of their visit, each with the pair of
    /// sites between which it lies, if any.
    pub open spec fn trace(self) -> Seq<(Point, Option<(Point, Point)>)> {
        Seq::new(
            self.visited.len(),
            |i: int| (self.visited[i], is_edge_spec(self.visited[i], self.sites, self.epsilon)),
        )
    }

    /// The fill has nothing left to do.
    pub open spec fn done(self) -> bool {
        self.frontier.len() == 0
    }

    /// The state at the start: every site waits on the frontier, the first
    /// site at the back.
    pub open spec fn start(sites: Seq<Point>, epsilon: Tolerance, width: int, height: int) -> BfsState {
        BfsState {
            sites,
            epsilon,
            visited: Seq::empty(),
            edges: Seq::empty(),
            frontier: sites.reverse(),
            width,
            height,
        }
    }

    /// The state after one step. A finished fill stays as it is. Otherwise
    /// the cell at the back of the frontier is taken. A cell that is visited
    /// already is dropped. Any other is marked visited and leaves the
    /// frontier with all its copies; if it lies between two sites it is put
    /// down on their boundary; its unvisited neighbours join the frontier.
    pub open spec fn step(self) -> BfsState {
        if self.frontier.len() == 0 {
            self
        } else {
            let p = self.frontier.last();
            let rest = self.frontier.drop_last();
            if self.visited.contains(p) {
                BfsState { frontier: rest, ..self }
            } else {
                let visited = self.visited.push(p);
                let edges = match is_edge_spec(p, self.sites, self.epsilon) {
                    Some(pair) => record(self.edges, pair_key(pair.0, pair.1), p),
                    None => self.edges,
                };
                let frontier = without(rest, p, rest.len() as int) + unvisited_neighbors(
                    visited,
                    p,
                    self.width,
                    self.height,
                );
                BfsState { visited, edges, frontier, ..self }
            }
        }
    }
}

/// For `r >= s >= 0` and `n >= 0`: `r < s + n` exactly when
/// `r^2 - s^2 - n^2` is negative or its square is less than `(2 n s)^2`.
pub proof fn lemma_root_gap(r: int, s: int, n: int)
    requires
        0 <= s <= r,
        0 <= n,
    ensures
        ({
            let gap = r * r - s * s - n * n;
            (gap < 0 || gap * gap < (2 * (n * s)) * (2 * (n * s))) <==> r < s + n
        }),
{
    let gap = r * r - s * s - n * n;
    let m = 2 * (n * s);
    assert((s + n) * (s + n) == s * s + m + n * n) by (nonlinear_arith)
        requires
            m == 2 * (n * s),
    ;
    assert(m >= 0) by (nonlinear_arith)
        requires
            m == 2 * (n * s),
            n >= 0,
            s >= 0,
    ;
    if r < s + n {
        assert(r * r < (s + n) * (s + n)) by (nonlinear_arith)
            requires
                0 <= r < s + n,
        ;
        if gap >= 0 {
            assert(gap * gap < m * m) by (nonlinear_arith)
                requires
                    0 <= gap < m,
            ;
        }
    } else {
        assert(r * r >= (s + n) * (s + n)) by (nonlinear_arith)
            requires
                r >= s + n,
                s + n >= 0,
        ;
        assert(gap * gap >= m * m) by (nonlinear_arith)
            requires
                gap >= m,
                m >= 0,
        ;
    }
}

/// On whole distances the test is what it stands for: the roots `p` and `q`
/// of two squares differ by less than the tolerance exactly when
/// `65536 (p - q)` is less than its units.
pub proof fn lemma_tolerance_on_squares(p: int, q: int, eps: Tolerance)
    requires
        0 <= q <= p,
    ensures
        within_tolerance(p * p, q * q, eps) <==> 0x1_0000 * (p - q) < eps.units,
{
    let r = 0x1_0000 * p;
    let s = 0x1_0000 * q;
    let n = eps.units as int;
    lemma_root_gap(r, s, n);
    assert(r * r == 0x1_0000_0000 * (p * p)) by (nonlinear_arith)
        requires
            r == 0x1_0000 * p,
    ;
    assert(s * s == 0x1_0000_0000 * (q * q)) by (nonlinear_arith)
        requires
            s == 0x1_0000 * q,
    ;
    assert((2 * (n * s)) * (2 * (n * s)) == (0x4_0000_0000 * (n * n)) * (q * q))
        by (nonlinear_arith)
        requires
            s == 0x1_0000 * q,
    ;
}

/// Every cell of `without(cells, p, n)` is one of the first `n` cells and is
/// not `p`.
pub proof fn lemma_without(cells: Seq<Point>, p: Point, n: int)
    requires
        0 <= n <= cells.len(),
    ensures
        without(cells, p, n).len() <= n,
        forall|i: int|
            0 <= i < without(cells, p, n).len() ==> {
                let c = #[trigger] without(cells, p, n)[i];
                c != p && exists|j: int| 0 <= j < n && cells[j] == c
            },
    decreases n,
{
    if n > 0 {
        lemma_without(cells, p, n - 1);
        let prev = without(cells, p, n - 1);
        let cur = without(cells, p, n);
        assert forall|i: int| 0 <= i < cur.len() implies {
            let c = #[trigger] cur[i];
            c != p && exists|j: int| 0 <= j < n && cells[j] == c
        } by {
            if i < prev.len() {
                let c = prev[i];
                let j = choose|j: int| 0 <= j < n - 1 && cells[j] == c;
                assert(0 <= j < n && cells[j] == c);
            } else {
                assert(cells[n - 1] == cur[i]);
            }
        }
    }
}

/// What `key_index` finds is the first boundary with the key, and it finds
/// one if there is any.
pub proof fn lemma_key_index(edges: Seq<((Point, Point), Seq<Point>)>, key: (Point, Point), n: int)
    requires
        0 <= n <= edges.len(),
    ensures
        match key_index(edges, key, n) {
            Some(i) => 0 <= i < n && edges[i].0 == key && forall|j: int|
                0 <= j < i ==> (#[trigger] edges[j]).0 != key,
            None => forall|j: int| 0 <= j < n ==> (#[trigger] edges[j]).0 != key,
        },
    decreases n,
{
    if n > 0 {
        lemma_key_index(edges, key, n - 1);
    }
}

/// What `first_partner` finds is the first partner, it finds one if there is
/// any, and once found it stays.
pub proof fn lemma_first_partner(
    sites: Seq<Point>,
    point: Point,
    eps: Tolerance,
    closest: int,
    n: int,
)
    requires
        0 <= n <= sites.len(),
    ensures
        match first_partner(sites, point, eps, closest, n) {
            Some(k) => 0 <= k < n && is_partner(sites, point, eps, closest, k) && forall|j: int|
                0 <= j < k ==> !is_partner(sites, point, eps, closest, j),
            None => forall|j: int| 0 <= j < n ==> !is_partner(sites, point, eps, closest, j),
        },
    decreases n,
{
    if n > 0 {
        lemma_first_partner(sites, point, eps, closest, n - 1);
    }
}

/// A step keeps the state well formed.
pub proof fn lemma_step_keeps_wf(s: BfsState)
    requires
        s.wf(),
    ensures
        s.step().wf(),
{
    if s.frontier.len() > 0 {
        let p = s.frontier.last();
        let rest = s.frontier.drop_last();
        let t = s.step();
        assert(!s.visited.contains(p));
        let visited = s.visited.push(p);
        assert(visited.no_duplicates()) by {
            assert forall|i: int, j: int| 0 <= i < visited.len() && 0 <= j < visited.len() && i != j implies visited[i] != visited[j] by {
                if i == s.visited.len() {
                    assert(s.visited[j] == visited[j]);
                } else if j == s.visited.len() {
                    assert(s.visited[i] == visited[i]);
                }
            }
        }
        let kept = without(rest, p, rest.len() as int);
        let fresh = unvisited_neighbors(visited, p, s.width, s.height);
        lemma_without(rest, p, rest.len() as int);
        assert forall|i: int| 0 <= i < t.frontier.len() implies !t.visited.contains(#[trigger] t.frontier[i]) by {
            let c = t.frontier[i];
            if i < kept.len() {
                assert(c == kept[i]);
                let j = choose|j: int| 0 <= j < rest.len() && rest[j] == c;
                assert(s.frontier[j] == c);
                assert(!s.visited.contains(c));
                if visited.contains(c) {
                    let k = choose|k: int| 0 <= k < visited.len() && visited[k] == c;
                    if k < s.visited.len() {
                        assert(s.visited[k] == c);
                    }
                }
            } else {
                assert(c == fresh[i - kept.len()]);
                lemma_fresh_unvisited(visited, p, s.width, s.height, i - kept.len());
            }
        }
        match is_edge_spec(p, s.sites, s.epsilon) {
            Some(pair) => {
                lemma_record_keeps_keys(s.edges, pair_key(pair.0, pair.1), p);
            },
            None => {},
        }
        lemma_boundaries_prefix(s.visited, visited, s.sites, s.epsilon, s.visited.len() as int);
    }
}

/// The boundaries of the first `n` cells depend on those cells only.
pub proof fn lemma_boundaries_prefix(
    a: Seq<Point>,
    b: Seq<Point>,
    sites: Seq<Point>,
    eps: Tolerance,
    n: int,
)
    requires
        0 <= n <= a.len(),
        n <= b.len(),
        forall|i: int| 0 <= i < n ==> a[i] == b[i],
    ensures
        boundaries_of(a, sites, eps, n) == boundaries_of(b, sites, eps, n),
    decreases n,
{
    if n > 0 {
        lemma_boundaries_prefix(a, b, sites, eps, n - 1);
    }
}

/// The cell `c` lies between two sites and `key` is their key.
pub open spec fn lies_between(
    c: Point,
    key: (Point, Point),
    sites: Seq<Point>,
    eps: Tolerance,
) -> bool {
    match is_edge_spec(c, sites, eps) {
        Some(pair) => pair_key(pair.0, pair.1) == key,
        None => false,
    }
}

/// Cell `j` of boundary `i`.
pub open spec fn cell_at(edges: Seq<((Point, Point), Seq<Point>)>, i: int, j: int) -> Point {
    edges[i].1[j]
}

/// What the boundaries of the first `n` visited cells hold: every cell that
/// is put down under a key is one of those visited cells and lies between
/// the two sites of the key; and every one of those visited cells that lies
/// between two sites is put down under their key.
pub proof fn lemma_boundaries_meaning(
    visited: Seq<Point>,
    sites: Seq<Point>,
    eps: Tolerance,
    n: int,
)
    requires
        0 <= n <= visited.len(),
    ensures
        forall|i: int, j: int|
            0 <= i < boundaries_of(visited, sites, eps, n).len() && 0 <= j < boundaries_of(
                visited,
                sites,
                eps,
                n,
            )[i].1.len() ==> {
                let c = #[trigger] cell_at(boundaries_of(visited, sites, eps, n), i, j);
                lies_between(c, boundaries_of(visited, sites, eps, n)[i].0, sites, eps)
                    && exists|k: int| 0 <= k < n && visited[k] == c
            },
        forall|k: int|
            0 <= k < n && is_edge_spec(#[trigger] visited[k], sites, eps) is Some ==> exists|
                i: int,
            |
                0 <= i < boundaries_of(visited, sites, eps, n).len() && lies_between(
                    visited[k],
                    (#[trigger] boundaries_of(visited, sites, eps, n)[i]).0,
                    sites,
                    eps,
                ) && boundaries_of(visited, sites, eps, n)[i].1.contains(visited[k]),
    decreases n,
{
    if n > 0 {
        lemma_boundaries_meaning(visited, sites, eps, n - 1);
        let before = boundaries_of(visited, sites, eps, n - 1);
        let now = boundaries_of(visited, sites, eps, n);
        let p = visited[n - 1];
        match is_edge_spec(p, sites, eps) {
            Some(pair) => {
                let key = pair_key(pair.0, pair.1);
                lemma_key_index(before, key, before.len() as int);
                let at = match key_index(before, key, before.len() as int) {
                    Some(i) => i,
                    None => before.len() as int,
                };
                assert(now[at].0 == key);
                assert(now[at].1.last() == p);
                assert(now[at].1.contains(p));
                assert forall|i: int, j: int|
                    0 <= i < now.len() && 0 <= j < now[i].1.len() implies {
                    let c = #[trigger] cell_at(now, i, j);
                    lies_between(c, now[i].0, sites, eps) && exists|k: int|
                        0 <= k < n && visited[k] == c
                } by {
                    let c = now[i].1[j];
                    if i == at && j == now[i].1.len() - 1 {
                        assert(c == p);
                        assert(0 <= n - 1 < n && visited[n - 1] == c);
                    } else {
                        assert(c == cell_at(before, i, j));
                        let k = choose|k: int| 0 <= k < n - 1 && visited[k] == c;
                        assert(0 <= k < n && visited[k] == c);
                    }
                }
                assert forall|k: int|
                    0 <= k < n && is_edge_spec(
                        #[trigger] visited[k],
                        sites,
                        eps,
                    ) is Some implies exists|i: int|
                    0 <= i < now.len() && lies_between(
                        visited[k],
                        (#[trigger] now[i]).0,
                        sites,
                        eps,
                    ) && now[i].1.contains(visited[k]) by {
                    if k == n - 1 {
                        assert(lies_between(visited[k], now[at].0, sites, eps));
                    } else {
                        let i = choose|i: int|
                            0 <= i < before.len() && lies_between(
                                visited[k],
                                (#[trigger] before[i]).0,
                                sites,
                                eps,
                            ) && before[i].1.contains(visited[k]);
                        let j = choose|j: int|
                            0 <= j < before[i].1.len() && before[i].1[j] == visited[k];
                        assert(now[i].1[j] == visited[k]);
                        assert(now[i].0 == before[i].0);
                    }
                }
            },
            None => {
                assert forall|k: int|
                    0 <= k < n && is_edge_spec(
                        #[trigger] visited[k],
                        sites,
                        eps,
                    ) is Some implies exists|i: int|
                    0 <= i < now.len() && lies_between(
                        visited[k],
                        (#[trigger] now[i]).0,
                        sites,
                        eps,
                    ) && now[i].1.contains(visited[k]) by {
                    assert(k < n - 1);
                }
                assert forall|i: int, j: int|
                    0 <= i < now.len() && 0 <= j < now[i].1.len() implies {
                    let c = #[trigger] cell_at(now, i, j);
                    lies_between(c, now[i].0, sites, eps) && exists|k: int|
                        0 <= k < n && visited[k] == c
                } by {
                    let c = cell_at(before, i, j);
                    let k = choose|k: int| 0 <= k < n - 1 && visited[k] == c;
                    assert(0 <= k < n && visited[k] == c);
                }
            },
        }
    }
}

/// A fill without sites is done before its first step and has visited
/// nothing.
pub proof fn lemma_no_sites_done(epsilon: Tolerance, width: int, height: int)
    ensures
        BfsState::start(Seq::empty(), epsilon, width, height).done(),
        BfsState::start(Seq::empty(), epsilon, width, height).wf(),
        BfsState::start(Seq::empty(), epsilon, width, height).trace() == Seq::<
            (Point, Option<(Point, Point)>),
        >::empty(),
{
    let s = BfsState::start(Seq::empty(), epsilon, width, height);
    assert(s.frontier =~= Seq::<Point>::empty());
    assert(s.trace() =~= Seq::empty());
}

/// The set of all points.
pub open spec fn all_points() -> Set<Point> {
    Set::new(|p: Point| true)
}

/// There are finitely many points.
pub proof fn lemma_points_finite()
    ensures
        all_points().finite(),
{
    let codes = vstd::set_lib::set_int_range(0, 0x1_0000_0000_0000_0000);
    let decode = |k: int|
        Point {
            x: (k % 0x1_0000_0000 - 0x8000_0000) as i32,
            y: (k / 0x1_0000_0000 - 0x8000_0000) as i32,
        };
    vstd::set_lib::lemma_int_range(0, 0x1_0000_0000_0000_0000);
    codes.lemma_map_finite(decode);
    assert forall|p: Point| codes.map(decode).contains(p) by {
        let k = (p.y + 0x8000_0000) * 0x1_0000_0000 + (p.x + 0x8000_0000);
        assert(codes.contains(k));
        assert(decode(k) == p);
    }
    assert(all_points().subset_of(codes.map(decode)));
    vstd::set_lib::lemma_set_subset_finite(codes.map(decode), all_points());
}

/// Cells that are all different are no more than there are points.
pub proof fn lemma_room_left(cells: Seq<Point>)
    requires
        cells.no_duplicates(),
    ensures
        cells.len() <= all_points().len(),
{
    lemma_points_finite();
    cells.unique_seq_to_set();
    assert(cells.to_set().subset_of(all_points()));
    vstd::set_lib::lemma_len_subset(cells.to_set(), all_points());
}

/// Steps on a finished fill change nothing.
pub proof fn lemma_done_stays(s: BfsState, n: nat)
    requires
        s.done(),
    ensures
        s.after(n) == s,
    decreases n,
{
    if n > 0 {
        lemma_done_stays(s, (n - 1) as nat);
    }
}

/// Every number of steps keeps the state well formed.
pub proof fn lemma_after_keeps_wf(s: BfsState, n: nat)
    requires
        s.wf(),
    ensures
        s.after(n).wf(),
    decreases n,
{
    if n > 0 {
        lemma_after_keeps_wf(s, (n - 1) as nat);
        lemma_step_keeps_wf(s.after((n - 1) as nat));
    }
}

/// Every cell that `unvisited_neighbors` gives is not visited.
pub proof fn lemma_fresh_unvisited(visited: Seq<Point>, p: Point, width: int, height: int, i: int)
    requires
        0 <= i < unvisited_neighbors(visited, p, width, height).len(),
    ensures
        !visited.contains(unvisited_neighbors(visited, p, width, height)[i]),
        in_grid(
            unvisited_neighbors(visited, p, width, height)[i].x as int,
            unvisited_neighbors(visited, p, width, height)[i].y as int,
            width,
            height,
        ) || width > i32::MAX + 1 || height > i32::MAX + 1,
{
}

/// Putting a cell down keeps the keys of the boundaries distinct.
pub proof fn lemma_record_keeps_keys(
    edges: Seq<((Point, Point), Seq<Point>)>,
    key: (Point, Point),
    p: Point,
)
    requires
        forall|i: int, j: int|
            0 <= i < j < edges.len() ==> (#[trigger] edges[i]).0 != (#[trigger] edges[j]).0,
    ensures
        forall|i: int, j: int|
            0 <= i < j < record(edges, key, p).len() ==> (#[trigger] record(edges, key, p)[i]).0 != (
            #[trigger] record(edges, key, p)[j]).0,
{
    lemma_key_index(edges, key, edges.len() as int);
    let next = record(edges, key, p);
    assert forall|i: int, j: int| 0 <= i < j < next.len() implies (#[trigger] next[i]).0 != (
    #[trigger] next[j]).0 by {
        match key_index(edges, key, edges.len() as int) {
            Some(k) => {
                assert(next[i].0 == edges[i].0);
                assert(next[j].0 == edges[j].0);
            },
            None => {
                if j < edges.len() {
                    assert(next[i] == edges[i] && next[j] == edges[j]);
                } else {
                    assert(next[i] == edges[i]);
                }
            },
        }
    }
}

/// On a well-formed state that is not done, a step visits exactly one more
/// cell: the one at the back of the frontier.
pub proof fn lemma_step_visits_one(s: BfsState)
    requires
        s.wf(),
        !s.done(),
    ensures
        s.step().visited == s.visited.push(s.frontier.last()),
        s.step().visited.len() == s.visited.len() + 1,
{
}

impl View for Boundary {
    type V = ((Point, Point), Seq<Point>);

    open spec fn view(&self) -> ((Point, Point), Seq<Point>) {
        (self.between, self.cells@)
    }
}

/// The boundaries as plain values.
pub open spec fn boundaries_view(edges: Seq<Boundary>) -> Seq<((Point, Point), Seq<Point>)> {
    Seq::new(edges.len(), |i: int| edges[i]@)
}

impl View for BFS {
    type V = BfsState;

    open spec fn view(&self) -> BfsState {
        BfsState {
            sites: self.sites@,
            epsilon: self.epsilon,
            visited: self.visited@,
            edges: boundaries_view(self.edges@),
            frontier: self.frontier@,
            width: self.width as int,
            height: self.height as int,
        }
    }
}

/// Whether the roots of two squared distances differ by less than the
/// tolerance.
fn within(far: u128, near: u128, eps: Tolerance) -> (r: bool)
    requires
        near <= far <= 0x1_FFFF_FFFC_0000_0002,
    ensures
        r == within_tolerance(far as int, near as int, eps),
{
    let units: u128 = eps.units as u128;
    proof {
        lemma_square_bound(units as int, 0xFFFF_FFFF);
    }
    let square: u128 = units * units;
    let spread: u128 = 0x1_0000_0000 * (far - near);
    if spread < square {
        return true;
    }
    let gap: u128 = spread - square;
    let left: Wide = mul_wide(gap, gap);
    let right: Wide = mul_wide(0x4_0000_0000 * square, near);
    left.lt(&right)
}

/// The pair of sites between which `point` lies, if it lies on a boundary:
/// the nearest site (the first one among equals) and the first other site
/// whose distance differs from the least by less than `epsilon`. At most one
/// pair is given, whatever the number of sites that are as near.
pub fn is_edge(point: Point, sites: Vec<Point>, epsilon: Tolerance) -> (r: Option<(Point, Point)>)
    ensures
        r == is_edge_spec(point, sites@, epsilon),
{
    let closest: usize = match nearest_index(point, sites.as_slice()) {
        Some(i) => i,
        None => {
            return None;
        },
    };
    let closest_dist: u128 = sites[closest].dist_squared(&point);
    let mut k: usize = 0;
    while k < sites.len()
        invariant
            0 <= k <= sites@.len(),
            0 <= closest < sites@.len(),
            closest == nearest_spec(sites@, point, sites@.len() as int),
            is_nearest(sites@, point, closest as int),
            closest_dist == sq_dist(sites@[closest as int], point),
            first_partner(sites@, point, epsilon, closest as int, k as int) is None,
        decreases sites@.len() - k,
    {
        let site = sites[k];
        if site != sites[closest] {
            let distance: u128 = site.dist_squared(&point);
            proof {
                lemma_sq_dist_bound(site, point);
            }
            if within(distance, closest_dist, epsilon) {
                proof {
                    lemma_partner_stays(sites@, point, epsilon, closest as int, k as int + 1, sites@.len() as int);
                }
                return Some((sites[closest], site));
            }
        }
        k += 1;
    }
    None
}

/// A partner found among the first `n` sites is the one found among more.
pub proof fn lemma_partner_stays(
    sites: Seq<Point>,
    point: Point,
    eps: Tolerance,
    closest: int,
    n: int,
    m: int,
)
    requires
        0 <= n <= m,
        first_partner(sites, point, eps, closest, n) is Some,
    ensures
        first_partner(sites, point, eps, closest, m) == first_partner(sites, point, eps, closest, n),
    decreases m - n,
{
    if n < m {
        lemma_partner_stays(sites, point, eps, closest, n, m - 1);
    }
}

/// A copy of a list of points.
fn copy_points(points: &Vec<Point>) -> (r: Vec<Point>)
    ensures
        r@ == points@,
{
    let mut out: Vec<Point> = Vec::new();
    let mut i: usize = 0;
    while i < points.len()
        invariant
            0 <= i <= points@.len(),
            out@ == points@.subrange(0, i as int),
        decreases points@.len() - i,
    {
        out.push(points[i]);
        proof {
            assert(out@ =~= points@.subrange(0, i as int + 1));
        }
        i += 1;
    }
    proof {
        assert(out@ =~= points@);
    }
    out
}

impl BFS {
    /// A fill of the grid of `width` by `height` from `sites`, before its
    /// first step: nothing is visited, and every site waits on the frontier,
    /// the first site at the back.
    pub fn new(sites: Vec<Point>, epsilon: Tolerance, width: i32, height: i32) -> (r: BFS)
        ensures
            r@ == BfsState::start(sites@, epsilon, width as int, height as int),
            r@.wf(),
    {
        let mut frontier: VecDeque<Point> = VecDeque::new();
        let mut i: usize = 0;
        while i < sites.len()
            invariant
                0 <= i <= sites@.len(),
                frontier@ == sites@.subrange(0, i as int).reverse(),
            decreases sites@.len() - i,
        {
            frontier.push_front(sites[i]);
            proof {
                assert(frontier@ =~= sites@.subrange(0, i as int + 1).reverse());
            }
            i += 1;
        }
        proof {
            assert(sites@.subrange(0, sites@.len() as int) =~= sites@);
        }
        let r = BFS {
            sites,
            epsilon,
            visited: Vec::new(),
            edges: Vec::new(),
            frontier,
            width,
            height,
        };
        proof {
            assert(r@.edges =~= Seq::empty());
        }
        r
    }

    /// A copy of the boundaries found so far.
    pub fn edges(&self) -> (r: Vec<Boundary>)
        ensures
            boundaries_view(r@) == self@.edges,
    {
        let mut out: Vec<Boundary> = Vec::new();
        let mut i: usize = 0;
        while i < self.edges.len()
            invariant
                0 <= i <= self.edges@.len(),
                out@.len() == i,
                forall|j: int| 0 <= j < i ==> (#[trigger] out@[j])@ == self.edges@[j]@,
            decreases self.edges@.len() - i,
        {
            let entry = &self.edges[i];
            out.push(Boundary { between: entry.between, cells: copy_points(&entry.cells) });
            i += 1;
        }
        proof {
            assert(boundaries_view(out@) =~= boundaries_view(self.edges@));
        }
        out
    }

    /// Whether `point` has been visited.
    pub fn is_visited(&self, point: Point) -> (r: bool)
        ensures
            r == self.visited@.contains(point),
    {
        let mut i: usize = 0;
        while i < self.visited.len()
            invariant
                0 <= i <= self.visited@.len(),
                forall|j: int| 0 <= j < i ==> self.visited@[j] != point,
            decreases self.visited@.len() - i,
        {
            if self.visited[i] == point {
                return true;
            }
            i += 1;
        }
        false
    }

    /// Puts the cell `(x, y)` at the end of `out` if it lies on the grid and
    /// is not visited.
    fn push_candidate(&self, out: &mut Vec<Point>, x: i64, y: i64)
        requires
            i32::MIN - 1 <= x <= i32::MAX + 1,
            i32::MIN - 1 <= y <= i32::MAX + 1,
        ensures
            final(out)@ == old(out)@ + candidate(
                self.visited@,
                x as int,
                y as int,
                self.width as int,
                self.height as int,
            ),
    {
        if 0 <= x && x < self.width as i64 && 0 <= y && y < self.height as i64 {
            let cell = Point::new(x as i32, y as i32);
            if !self.is_visited(cell) {
                out.push(cell);
                proof {
                    assert(out@ =~= old(out)@ + seq![cell]);
                }
                return ;
            }
        }
        proof {
            assert(out@ =~= old(out)@ + Seq::<Point>::empty());
        }
    }

    /// The neighbours of `point` to the left, above, to the right and below,
    /// in this order, that lie on the grid and have not been visited.
    pub fn get_unvisited_neighbors(&self, point: Point) -> (r: Vec<Point>)
        ensures
            r@ == unvisited_neighbors(
                self.visited@,
                point,
                self.width as int,
                self.height as int,
            ),
    {
        let mut neighbors: Vec<Point> = Vec::new();
        let x: i64 = point.x as i64;
        let y: i64 = point.y as i64;
        self.push_candidate(&mut neighbors, x - 1, y);
        self.push_candidate(&mut neighbors, x, y - 1);
        self.push_candidate(&mut neighbors, x + 1, y);
        self.push_candidate(&mut neighbors, x, y + 1);
        proof {
            let v = self.visited@;
            let w = self.width as int;
            let h = self.height as int;
            assert(neighbors@ =~= candidate(v, x - 1, y as int, w, h) + candidate(v, x as int, y - 1, w, h)
                + candidate(v, x + 1, y as int, w, h) + candidate(v, x as int, y + 1, w, h));
        }
        neighbors
    }

    /// Takes every copy of `point` off the frontier.
    fn forget(&mut self, point: Point)
        ensures
            final(self)@ == (BfsState {
                frontier: without(old(self)@.frontier, point, old(self)@.frontier.len() as int),
                ..old(self)@
            }),
    {
        let mut kept: VecDeque<Point> = VecDeque::new();
        let mut i: usize = 0;
        while i < self.frontier.len()
            invariant
                0 <= i <= self.frontier@.len(),
                *self == *old(self),
                kept@ == without(self.frontier@, point, i as int),
            decreases self.frontier@.len() - i,
        {
            let cell = self.frontier[i];
            if cell != point {
                kept.push_back(cell);
            }
            i += 1;
        }
        self.frontier = kept;
    }

    /// Puts the cell `point` down on the boundary between the two sites of
    /// `pair`, whichever of them comes first.
    fn record(&mut self, pair: (Point, Point), point: Point)
        ensures
            final(self)@ == (BfsState {
                edges: record(old(self)@.edges, pair_key(pair.0, pair.1), point),
                ..old(self)@
            }),
    {
        let key = if pair.0.precedes(&pair.1) {
            pair
        } else {
            (pair.1, pair.0)
        };
        let mut i: usize = 0;
        while i < self.edges.len()
            invariant
                0 <= i <= self.edges@.len(),
                *self == *old(self),
                key == pair_key(pair.0, pair.1),
                key_index(self@.edges, key, i as int) is None,
            decreases self.edges@.len() - i,
        {
            if self.edges[i].between.0 == key.0 && self.edges[i].between.1 == key.1 {
                proof {
                    lemma_key_stays(self@.edges, key, i as int + 1, self@.edges.len() as int);
                }
                self.edges[i].cells.push(point);
                proof {
                    assert(self@.edges =~= record(old(self)@.edges, key, point));
                }
                return ;
            }
            i += 1;
        }
        let mut cells: Vec<Point> = Vec::new();
        cells.push(point);
        self.edges.push(Boundary { between: key, cells });
        proof {
            assert(cells@ =~= seq![point]);
            assert(self@.edges =~= record(old(self)@.edges, key, point));
        }
    }

    /// One step of the fill, with what it did. On an empty frontier nothing
    /// changes and the report is `Done`. Otherwise the cell at the back of
    /// the frontier is taken. A cell that was visited before is only dropped
    /// (`Skipped`). Any other is marked visited and leaves the frontier with
    /// all its copies; if it lies between two sites it is put down on their
    /// boundary; then its unvisited neighbours join the frontier
    /// (`Visited`, with the pair of sites if there is one). On a well-formed
    /// fill no step is `Skipped`.
    pub fn advance(&mut self) -> (r: Step)
        ensures
            r == old(self)@.outcome(),
            final(self)@ == old(self)@.step(),
            old(self)@.wf() ==> final(self)@.wf() && !(r is Skipped),
    {
        proof {
            if self@.wf() {
                lemma_step_keeps_wf(self@);
            }
        }
        if self.frontier.len() == 0 {
            return Step::Done;
        }
        let point = match self.frontier.pop_back() {
            Some(point) => point,
            None => {
                return Step::Done;
            },
        };
        if self.is_visited(point) {
            return Step::Skipped(point);
        }
        self.visited.push(point);
        self.forget(point);
        let found = is_edge(point, self.sites.clone(), self.epsilon);
        if let Some(sites) = found {
            self.record(sites, point);
        }
        let neighbor_points = self.get_unvisited_neighbors(point);
        let mut i: usize = 0;
        while i < neighbor_points.len()
            invariant
                0 <= i <= neighbor_points@.len(),
                old(self)@.frontier.len() > 0,
                self@ == (BfsState {
                    frontier: without(
                        old(self)@.frontier.drop_last(),
                        point,
                        old(self)@.frontier.len() - 1,
                    ) + neighbor_points@.subrange(0, i as int),
                    ..old(self)@.step()
                }),
            decreases neighbor_points@.len() - i,
        {
            self.frontier.push_back(neighbor_points[i]);
            proof {
                assert(self@.frontier =~= without(
                    old(self)@.frontier.drop_last(),
                    point,
                    old(self)@.frontier.len() - 1,
                ) + neighbor_points@.subrange(0, i as int + 1));
            }
            i += 1;
        }
        proof {
            assert(neighbor_points@.subrange(0, neighbor_points@.len() as int) =~= neighbor_points@);
        }
        Step::Visited(point, found)
    }

    /// One step of the fill. Returns `false`, and changes nothing, when the
    /// frontier is empty; otherwise takes the cell at the back of the
    /// frontier as `advance` does and returns `true`. On a well-formed fill
    /// every step that returns `true` visits exactly one new cell, and no
    /// visited cell is left on the frontier.
    pub fn step(&mut self) -> (more: bool)
        ensures
            more == !old(self)@.done(),
            final(self)@ == old(self)@.step(),
            old(self)@.wf() ==> final(self)@.wf(),
            old(self)@.wf() && more ==> final(self).visited@ == old(self).visited@.push(
                old(self).frontier@.last(),
            ) && final(self).visited@.len() == old(self).visited@.len() + 1,
    {
        match self.advance() {
            Step::Done => false,
            _ => true,
        }
    }
}

/// The whole fill of the grid of `width` by `height` from `sites`: every
/// cell that is visited, in the order of the visits, each with the pair of
/// sites between which it lies, if it lies on a boundary. The fill runs
/// until its frontier is empty. No site gives no cell.
pub fn bfs_run(sites: Vec<Point>, epsilon: Tolerance, width: i32, height: i32) -> (r: Vec<
    (Point, Option<(Point, Point)>),
>)
    ensures
        exists|n: nat|
            {
                let end = (#[trigger] BfsState::start(
                    sites@,
                    epsilon,
                    width as int,
                    height as int,
                ).after(n));
                end.done() && end.wf() && r@ == end.trace()
            },
{
    let ghost start = BfsState::start(sites@, epsilon, width as int, height as int);
    let mut bfs = BFS::new(sites, epsilon, width, height);
    let mut cells: Vec<(Point, Option<(Point, Point)>)> = Vec::new();
    let ghost mut steps: nat = 0;
    proof {
        assert(cells@ =~= bfs@.trace());
        lemma_room_left(bfs@.visited);
    }
    loop
        invariant_except_break
            bfs@ == start.after(steps),
            bfs@.wf(),
            cells@ == bfs@.trace(),
            bfs@.visited.len() <= all_points().len(),
        ensures
            bfs@ == start.after(steps),
            bfs@.wf(),
            bfs@.done(),
            cells@ == bfs@.trace(),
        decreases all_points().len() - bfs@.visited.len(),
    {
        let ghost before = bfs@;
        match bfs.advance() {
            Step::Done => {
                break ;
            },
            Step::Skipped(_) => {},
            Step::Visited(cell, pair) => {
                cells.push((cell, pair));
            },
        }
        proof {
            steps = steps + 1;
            assert(bfs@ == start.after(steps));
            assert(bfs@.sites == before.sites && bfs@.epsilon == before.epsilon);
            assert(cells@ =~= bfs@.trace());
            lemma_room_left(bfs@.visited);
        }
    }
    cells
}

/// A key found among the first `n` boundaries is the one found among more.
pub proof fn lemma_key_stays(
    edges: Seq<((Point, Point), Seq<Point>)>,
    key: (Point, Point),
    n: int,
    m: int,
)
    requires
        0 <= n <= m,
        key_index(edges, key, n) is Some,
    ensures
        key_index(edges, key, m) == key_index(edges, key, n),
    decreases m - n,
{
    if n < m {
        lemma_key_stays(edges, key, n, m - 1);
    }
}

} // verus!
