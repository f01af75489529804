//! Plane geometry on fixed-point coordinates: points, bounding boxes, and
//! even-odd ray-casting containment for closed polygon rings.
//!
//! Coordinates are signed 64-bit integers; the caller picks the scale (e.g.
//! microdegrees). They are kept below `COORD_LIMIT` in magnitude so that the
//! cross products of the containment test fit in 128 bits.

use vstd::prelude::*;

verus! {

/// Largest coordinate magnitude the library accepts (2^62 - 1).
pub const COORD_LIMIT: i64 = 4_611_686_018_427_387_903;

pub open spec fn coord_in_range(c: int) -> bool {
    -COORD_LIMIT <= c <= COORD_LIMIT
}

/// A 2D point; `x` is the east-west axis (longitude), `y` north-south (latitude).
#[derive(Clone, Copy, PartialEq, Eq, Structural, Debug)]
pub struct Point {
    pub x: i64,
    pub y: i64,
}

impl Point {
    pub open spec fn wf(self) -> bool {
        coord_in_range(self.x as int) && coord_in_range(self.y as int)
    }

    pub fn new(x: i64, y: i64) -> (r: Point)
        ensures
            r == (Point { x, y }),
    {
        Point { x, y }
    }
}

impl View for Point {
    type V = Point;

    open spec fn view(&self) -> Point {
        *self
    }
}

impl DeepView for Point {
    type V = Point;

    open spec fn deep_view(&self) -> Point {
        *self
    }
}

/// An axis-aligned rectangle used as a cheap pre-filter before the polygon test.
#[derive(Clone, Copy, PartialEq, Eq, Structural, Debug)]
pub struct BoundingBox {
    pub xmin: i64,
    pub xmax: i64,
    pub ymin: i64,
    pub ymax: i64,
}

impl BoundingBox {
    pub open spec fn wf(self) -> bool {
        &&& self.xmin <= self.xmax
        &&& self.ymin <= self.ymax
        &&& coord_in_range(self.xmin as int)
        &&& coord_in_range(self.xmax as int)
        &&& coord_in_range(self.ymin as int)
        &&& coord_in_range(self.ymax as int)
    }

    pub open spec fn spec_contains(self, x: int, y: int) -> bool {
        &&& self.xmin as int <= x <= self.xmax as int
        &&& self.ymin as int <= y <= self.ymax as int
    }

    pub fn contains(&self, p: &Point) -> (r: bool)
        ensures
            r == self.spec_contains(p.x as int, p.y as int),
    {
        self.xmin <= p.x && p.x <= self.xmax && self.ymin <= p.y && p.y <= self.ymax
    }

    /// Every vertex of the ring lies inside this box.
    pub open spec fn encloses_ring(self, ring: Seq<Point>) -> bool {
        forall|i: int|
            0 <= i < ring.len() ==> self.spec_contains(
                #[trigger] ring[i].x as int,
                ring[i].y as int,
            )
    }
}

/// Whether the vertex lies strictly above the horizontal line at `y`.
pub open spec fn above(p: Point, y: int) -> bool {
    p.y as int > y
}

/// Whether the edge from `a` to `b` straddles the horizontal line at `y`.
pub open spec fn straddles(a: Point, b: Point, y: int) -> bool {
    above(a, y) != above(b, y)
}

/// Twice the signed area of the triangle (a, b, (x, y)): positive when the
/// query point lies to the left of the directed edge from `a` to `b`.
pub open spec fn edge_cross(a: Point, b: Point, x: int, y: int) -> int {
    (b.x as int - a.x as int) * (y - a.y as int) - (x - a.x as int) * (b.y as int - a.y as int)
}

/// Whether the edge from `a` to `b` crosses the horizontal line at `y`
/// strictly to the right of `x` — that is, whether it crosses the ray cast
/// from `(x, y)` toward positive infinity.
pub open spec fn edge_crosses(a: Point, b: Point, x: int, y: int) -> bool {
    &&& straddles(a, b, y)
    &&& if b.y as int > a.y as int {
        edge_cross(a, b, x, y) > 0
    } else {
        edge_cross(a, b, x, y) < 0
    }
}

/// The ring vertex that follows vertex `j`, wrapping around at the end: the
/// ring is implicitly closed.
pub open spec fn ring_next(ring: Seq<Point>, j: int) -> Point {
    if j + 1 == ring.len() {
        ring[0]
    } else {
        ring[j + 1]
    }
}

/// How many of the ring's first `i` edges cross the rightward ray from `(x, y)`.
pub open spec fn crossings_upto(ring: Seq<Point>, x: int, y: int, i: int) -> nat
    decreases i,
{
    if i <= 0 {
        0
    } else {
        crossings_upto(ring, x, y, i - 1) + (if edge_crosses(
            ring[i - 1],
            ring_next(ring, i - 1),
            x,
            y,
        ) {
            1nat
        } else {
            0nat
        })
    }
}

/// How many of the ring's first `i` edges straddle the horizontal line at `y`.
pub open spec fn straddles_upto(ring: Seq<Point>, y: int, i: int) -> nat
    decreases i,
{
    if i <= 0 {
        0
    } else {
        straddles_upto(ring, y, i - 1) + (if straddles(ring[i - 1], ring_next(ring, i - 1), y) {
            1nat
        } else {
            0nat
        })
    }
}

/// Even-odd containment: the point is inside the ring when the rightward
/// ray from it crosses an odd number of edges.
pub open spec fn ring_contains_pt(ring: Seq<Point>, x: int, y: int) -> bool {
    crossings_upto(ring, x, y, ring.len() as int) % 2 == 1
}

pub open spec fn ring_wf(ring: Seq<Point>) -> bool {
    forall|i: int| 0 <= i < ring.len() ==> (#[trigger] ring[i]).wf()
}

/// One closed ring of border vertices; the last vertex connects back to the
/// first. Interior rings (holes) are part of the storage schema but unused,
/// so a polygon is just its outer ring.
#[derive(Clone, Debug)]
pub struct Polygon {
    pub ring: Vec<Point>,
}

impl View for Polygon {
    type V = Seq<Point>;

    open spec fn view(&self) -> Seq<Point> {
        self.ring@
    }
}

impl DeepView for Polygon {
    type V = Seq<Point>;

    open spec fn deep_view(&self) -> Seq<Point> {
        self.ring@
    }
}

impl Polygon {
    pub open spec fn wf(self) -> bool {
        ring_wf(self.ring@)
    }

    pub fn new(ring: Vec<Point>) -> (r: Polygon)
        ensures
            r@ == ring@,
    {
        Polygon { ring }
    }

    /// Even-odd ray-casting containment test over the ring's ordered
    /// vertices, treating the ring as implicitly closed.
    pub fn contains(&self, p: &Point) -> (r: bool)
        requires
            self.wf(),
            p.wf(),
        ensures
            r == ring_contains_pt(self.ring@, p.x as int, p.y as int),
    {
        let n = self.ring.len();
        let mut inside = false;
        let mut j: usize = 0;
        while j < n
            invariant
                n == self.ring@.len(),
                0 <= j <= n,
                ring_wf(self.ring@),
                p.wf(),
                inside == (crossings_upto(self.ring@, p.x as int, p.y as int, j as int) % 2 == 1),
            decreases n - j,
        {
            let a = self.ring[j];
            let b = if j + 1 == n {
                self.ring[0]
            } else {
                self.ring[j + 1]
            };
            proof {
                assert(b == ring_next(self.ring@, j as int));
            }
            if (a.y > p.y) != (b.y > p.y) {
                let dxe: i128 = b.x as i128 - a.x as i128;
                let dye: i128 = b.y as i128 - a.y as i128;
                let dxp: i128 = p.x as i128 - a.x as i128;
                let dyp: i128 = p.y as i128 - a.y as i128;
                proof {
                    lemma_cross_product_bounds(dxe as int, dyp as int);
                    lemma_cross_product_bounds(dxp as int, dye as int);
                }
                let cross: i128 = dxe * dyp - dxp * dye;
                proof {
                    assert(cross as int == edge_cross(a, b, p.x as int, p.y as int));
                }
                let crosses = if b.y > a.y {
                    cross > 0
                } else {
                    cross < 0
                };
                if crosses {
                    inside = !inside;
                }
            }
            j += 1;
            proof {
                assert(crossings_upto(self.ring@, p.x as int, p.y as int, j as int)
                    == crossings_upto(self.ring@, p.x as int, p.y as int, j as int - 1) + (
                if edge_crosses(
                    self.ring@[j as int - 1],
                    ring_next(self.ring@, j as int - 1),
                    p.x as int,
                    p.y as int,
                ) {
                    1nat
                } else {
                    0nat
                }));
            }
        }
        inside
    }
}

/// A ring none of whose edges crosses the ray yields a crossing count of zero.
proof fn lemma_no_crossings(ring: Seq<Point>, x: int, y: int, i: int)
    requires
        forall|j: int| 0 <= j < i ==> !edge_crosses(ring[j], ring_next(ring, j), x, y),
    ensures
        crossings_upto(ring, x, y, i) == 0,
    decreases i,
{
    if i > 0 {
        lemma_no_crossings(ring, x, y, i - 1);
    }
}

/// When every edge crosses exactly if it straddles, the two counts agree.
proof fn lemma_crossings_match_straddles(ring: Seq<Point>, x: int, y: int, i: int)
    requires
        forall|j: int|
            0 <= j < i ==> (edge_crosses(ring[j], ring_next(ring, j), x, y) == straddles(
                ring[j],
                ring_next(ring, j),
                y,
            )),
    ensures
        crossings_upto(ring, x, y, i) == straddles_upto(ring, y, i),
    decreases i,
{
    if i > 0 {
        lemma_crossings_match_straddles(ring, x, y, i - 1);
    }
}

/// Among the first `i` consecutive edges (no wrap-around), the straddle count
/// is odd exactly when the first and last vertex sit on opposite sides of the
/// horizontal line.
proof fn lemma_straddles_prefix(ring: Seq<Point>, y: int, i: int)
    requires
        0 <= i <= ring.len() - 1,
    ensures
        (straddles_upto(ring, y, i) % 2 == 1) == (above(ring[0], y) != above(ring[i], y)),
    decreases i,
{
    if i > 0 {
        lemma_straddles_prefix(ring, y, i - 1);
        assert(ring_next(ring, i - 1) == ring[i]);
    }
}

/// Walking the whole closed ring, the horizontal line at `y` is straddled an
/// even number of times: the walk returns to its starting side.
proof fn lemma_straddles_even(ring: Seq<Point>, y: int)
    requires
        ring.len() >= 1,
    ensures
        straddles_upto(ring, y, ring.len() as int) % 2 == 0,
{
    let n = ring.len() as int;
    lemma_straddles_prefix(ring, y, n - 1);
    assert(ring_next(ring, n - 1) == ring[0]);
    assert(straddles_upto(ring, y, n) == straddles_upto(ring, y, n - 1) + (if straddles(
        ring[n - 1],
        ring_next(ring, n - 1),
        y,
    ) {
        1nat
    } else {
        0nat
    }));
}

/// An edge whose endpoints both lie strictly to the left of the query point
/// never crosses the ray, even when it straddles the line.
proof fn lemma_edge_point_right(a: Point, b: Point, x: int, y: int)
    requires
        straddles(a, b, y),
        (a.x as int) < x,
        (b.x as int) < x,
    ensures
        !edge_crosses(a, b, x, y),
{
    let ax = a.x as int;
    let ay = a.y as int;
    let bx = b.x as int;
    let by0 = b.y as int;
    let cross = edge_cross(a, b, x, y);
    if by0 > ay {
        let p = y - ay;
        let q = by0 - y;
        assert(p >= 0 && q >= 1);
        assert(cross == p * (bx - x) + q * (ax - x)) by (nonlinear_arith)
            requires
                cross == (bx - ax) * (y - ay) - (x - ax) * (by0 - ay),
                p == y - ay,
                q == by0 - y,
        ;
        assert(p * (bx - x) <= 0 && q * (ax - x) <= -1) by (nonlinear_arith)
            requires
                p >= 0 && q >= 1 && bx - x <= -1 && ax - x <= -1,
        ;
    } else {
        let r = ay - y;
        let s = y - by0;
        assert(r >= 1 && s >= 0);
        assert(cross == r * (x - bx) + s * (x - ax)) by (nonlinear_arith)
            requires
                cross == (bx - ax) * (y - ay) - (x - ax) * (by0 - ay),
                r == ay - y,
                s == y - by0,
        ;
        assert(r * (x - bx) >= 1 && s * (x - ax) >= 0) by (nonlinear_arith)
            requires
                r >= 1 && s >= 0 && x - bx >= 1 && x - ax >= 1,
        ;
    }
}

/// An edge whose endpoints both lie strictly to the right of the query point
/// crosses the ray whenever it straddles the line.
proof fn lemma_edge_point_left(a: Point, b: Point, x: int, y: int)
    requires
        straddles(a, b, y),
        x < (a.x as int),
        x < (b.x as int),
    ensures
        edge_crosses(a, b, x, y),
{
    let ax = a.x as int;
    let ay = a.y as int;
    let bx = b.x as int;
    let by0 = b.y as int;
    let cross = edge_cross(a, b, x, y);
    if by0 > ay {
        let p = y - ay;
        let q = by0 - y;
        assert(p >= 0 && q >= 1);
        assert(cross == p * (bx - x) + q * (ax - x)) by (nonlinear_arith)
            requires
                cross == (bx - ax) * (y - ay) - (x - ax) * (by0 - ay),
                p == y - ay,
                q == by0 - y,
        ;
        assert(p * (bx - x) >= 0 && q * (ax - x) >= 1) by (nonlinear_arith)
            requires
                p >= 0 && q >= 1 && bx - x >= 1 && ax - x >= 1,
        ;
    } else {
        let r = ay - y;
        let s = y - by0;
        assert(r >= 1 && s >= 0);
        assert(cross == r * (x - bx) + s * (x - ax)) by (nonlinear_arith)
            requires
                cross == (bx - ax) * (y - ay) - (x - ax) * (by0 - ay),
                r == ay - y,
                s == y - by0,
        ;
        assert(r * (x - bx) <= -1 && s * (x - ax) <= 0) by (nonlinear_arith)
            requires
                r >= 1 && s >= 0 && x - bx <= -1 && x - ax <= -1,
        ;
    }
}

/// Bounding-box pre-filter correctness for one ring: a point strictly outside
/// a box that encloses every vertex is outside the ring, so rejecting on the
/// box alone never changes the outcome of the polygon test.
pub proof fn lemma_outside_bbox_not_in_ring(ring: Seq<Point>, bb: BoundingBox, x: int, y: int)
    requires
        bb.encloses_ring(ring),
        !bb.spec_contains(x, y),
    ensures
        !ring_contains_pt(ring, x, y),
{
    let n = ring.len() as int;
    if n == 0 {
        assert(crossings_upto(ring, x, y, 0) == 0);
    } else if y > bb.ymax as int || y < bb.ymin as int {
        assert forall|j: int| 0 <= j < n implies !edge_crosses(
            ring[j],
            ring_next(ring, j),
            x,
            y,
        ) by {
            assert(bb.spec_contains(ring[j].x as int, ring[j].y as int));
            let nx = ring_next(ring, j);
            assert(nx == ring[0] || nx == ring[j + 1]);
            assert(bb.spec_contains(nx.x as int, nx.y as int));
            assert(!straddles(ring[j], nx, y));
        }
        lemma_no_crossings(ring, x, y, n);
    } else if x > bb.xmax as int {
        assert forall|j: int| 0 <= j < n implies !edge_crosses(
            ring[j],
            ring_next(ring, j),
            x,
            y,
        ) by {
            assert(bb.spec_contains(ring[j].x as int, ring[j].y as int));
            let nx = ring_next(ring, j);
            assert(nx == ring[0] || nx == ring[j + 1]);
            assert(bb.spec_contains(nx.x as int, nx.y as int));
            if straddles(ring[j], nx, y) {
                lemma_edge_point_right(ring[j], nx, x, y);
            }
        }
        lemma_no_crossings(ring, x, y, n);
    } else {
        assert(x < bb.xmin as int);
        assert forall|j: int| 0 <= j < n implies (edge_crosses(ring[j], ring_next(ring, j), x, y)
            == straddles(ring[j], ring_next(ring, j), y)) by {
            assert(bb.spec_contains(ring[j].x as int, ring[j].y as int));
            let nx = ring_next(ring, j);
            assert(nx == ring[0] || nx == ring[j + 1]);
            assert(bb.spec_contains(nx.x as int, nx.y as int));
            if straddles(ring[j], nx, y) {
                lemma_edge_point_left(ring[j], nx, x, y);
            }
        }
        lemma_crossings_match_straddles(ring, x, y, n);
        lemma_straddles_even(ring, y);
    }
}

/// The product of two differences of in-range coordinates stays far enough
/// below `i128::MAX` that two such products can still be subtracted.
proof fn lemma_cross_product_bounds(u: int, v: int)
    requires
        -9223372036854775806 <= u <= 9223372036854775806,
        -9223372036854775806 <= v <= 9223372036854775806,
    ensures
        -85070591730234615828950163710522949636 <= u * v
            <= 85070591730234615828950163710522949636,
{
    assert((-9223372036854775806 <= u <= 9223372036854775806 && -9223372036854775806 <= v
        <= 9223372036854775806) ==> -85070591730234615828950163710522949636 <= u * v
        <= 85070591730234615828950163710522949636) by (nonlinear_arith);
}

} // verus!
