//! Rings of vertex ids: simple polygons and polygons with holes.
use vstd::prelude::*;
use crate::geometry::Vec2;

verus! {

/// Index into the position table.
pub type VertexId = usize;

/// Direction in which a ring is walked.
#[derive(Clone, Copy, PartialEq, Eq, Structural, Debug)]
pub enum Direction {
    Forward,
    Backward,
}

/// The opposite direction.
pub open spec fn reversed(d: Direction) -> Direction {
    match d {
        Direction::Forward => Direction::Backward,
        Direction::Backward => Direction::Forward,
    }
}

impl Direction {
    /// The opposite direction.
    pub fn reverse(self) -> (r: Direction)
        ensures
            r == reversed(self),
    {
        match self {
            Direction::Forward => Direction::Backward,
            Direction::Backward => Direction::Forward,
        }
    }
}

/// One closed ring of points; point `i` carries the vertex `vertices[i]`.
#[derive(Clone, Debug)]
pub struct Polygon {
    pub vertices: Vec<VertexId>,
}

/// The point one step from `p` on a ring of `n` points.
pub open spec fn step(p: int, n: int, d: Direction) -> int {
    match d {
        Direction::Forward => if p + 1 == n { 0 } else { p + 1 },
        Direction::Backward => if p == 0 { n - 1 } else { p - 1 },
    }
}

/// Every vertex id of `ring` indexes a table of `n` positions.
pub open spec fn ring_in_table(ring: Seq<VertexId>, n: nat) -> bool {
    forall|i: int| 0 <= i < ring.len() ==> #[trigger] ring[i] < n
}

impl Polygon {
    /// A ring that visits `vertices` in order.
    pub fn from_vertices(vertices: Vec<VertexId>) -> (r: Polygon)
        ensures
            r.vertices@ == vertices@,
    {
        Polygon { vertices }
    }

    /// Number of points of the ring.
    pub fn num_vertices(&self) -> (r: usize)
        ensures
            r == self.vertices@.len(),
    {
        self.vertices.len()
    }

    /// The point a walk starts from.
    pub fn first_point(&self) -> (r: usize)
        ensures
            r == 0,
    {
        0
    }

    /// The vertex id at point `p`.
    pub fn vertex(&self, p: usize) -> (r: VertexId)
        requires
            p < self.vertices@.len(),
        ensures
            r == self.vertices@[p as int],
    {
        self.vertices[p]
    }

    /// The point after `p` when walking in direction `d`.
    pub fn advance(&self, p: usize, d: Direction) -> (r: usize)
        requires
            p < self.vertices@.len(),
        ensures
            r == step(p as int, self.vertices@.len() as int, d),
            r < self.vertices@.len(),
    {
        let n = self.vertices.len();
        match d {
            Direction::Forward => if p + 1 == n {
                0
            } else {
                p + 1
            },
            Direction::Backward => if p == 0 {
                n - 1
            } else {
                p - 1
            },
        }
    }
}

/// A point of a polygon with holes: ring `ring` (0 is the outer ring, `k` the
/// hole `k - 1`), position `point` in that ring.
#[derive(Clone, Copy, PartialEq, Eq, Structural, Debug)]
pub struct ComplexPointId {
    pub ring: usize,
    pub point: usize,
}

/// An outer ring and its holes.
#[derive(Clone, Debug)]
pub struct ComplexPolygon {
    pub main: Polygon,
    pub holes: Vec<Polygon>,
}

impl ComplexPolygon {
    pub open spec fn num_rings(&self) -> int {
        self.holes@.len() as int + 1
    }

    /// The vertex ids of ring `r`.
    pub open spec fn ring(&self, r: int) -> Seq<VertexId> {
        if r == 0 {
            self.main.vertices@
        } else {
            self.holes@[r - 1].vertices@
        }
    }

    /// Every ring is closed with at least three points.
    pub open spec fn wf(&self) -> bool {
        &&& self.holes@.len() + 1 <= usize::MAX
        &&& forall|r: int|
            0 <= r < self.num_rings() ==> 3 <= #[trigger] self.ring(r).len() <= usize::MAX
    }

    /// Every vertex id indexes a table of `n` positions.
    pub open spec fn in_table(&self, n: nat) -> bool {
        forall|r: int| 0 <= r < self.num_rings() ==> ring_in_table(#[trigger] self.ring(r), n)
    }

    pub open spec fn valid_point(&self, p: ComplexPointId) -> bool {
        p.ring < self.num_rings() && p.point < self.ring(p.ring as int).len()
    }

    pub open spec fn vertex_of(&self, p: ComplexPointId) -> VertexId {
        self.ring(p.ring as int)[p.point as int]
    }

    pub open spec fn next_of(&self, p: ComplexPointId) -> ComplexPointId {
        ComplexPointId {
            ring: p.ring,
            point: step(p.point as int, self.ring(p.ring as int).len() as int, Direction::Forward)
                as usize,
        }
    }

    pub open spec fn previous_of(&self, p: ComplexPointId) -> ComplexPointId {
        ComplexPointId {
            ring: p.ring,
            point: step(p.point as int, self.ring(p.ring as int).len() as int, Direction::Backward)
                as usize,
        }
    }

    /// The points of rings `0 .. k`, ring after ring, each in ring order.
    pub open spec fn points_of_rings(&self, k: int) -> Seq<ComplexPointId>
        decreases k,
    {
        if k <= 0 {
            Seq::empty()
        } else {
            self.points_of_rings(k - 1) + Seq::new(
                self.ring(k - 1).len(),
                |i: int| ComplexPointId { ring: (k - 1) as usize, point: i as usize },
            )
        }
    }

    /// All points, outer ring first.
    pub open spec fn all_points(&self) -> Seq<ComplexPointId> {
        self.points_of_rings(self.num_rings())
    }

    /// Number of rings.
    pub fn ring_count(&self) -> (r: usize)
        requires
            self.wf(),
        ensures
            r == self.num_rings(),
    {
        self.holes.len() + 1
    }

    /// Ring `r` as a polygon.
    pub fn get_ring(&self, r: usize) -> (p: &Polygon)
        requires
            r < self.num_rings(),
        ensures
            p.vertices@ == self.ring(r as int),
    {
        if r == 0 {
            &self.main
        } else {
            &self.holes[r - 1]
        }
    }

    /// Number of points of ring `r`.
    pub fn ring_len(&self, r: usize) -> (n: usize)
        requires
            r < self.num_rings(),
        ensures
            n == self.ring(r as int).len(),
    {
        self.get_ring(r).vertices.len()
    }

    /// The vertex id at point `p`.
    pub fn vertex(&self, p: ComplexPointId) -> (r: VertexId)
        requires
            self.valid_point(p),
        ensures
            r == self.vertex_of(p),
    {
        self.get_ring(p.ring).vertices[p.point]
    }

    /// The point after `p` in its ring.
    pub fn next(&self, p: ComplexPointId) -> (r: ComplexPointId)
        requires
            self.valid_point(p),
        ensures
            r == self.next_of(p),
            self.valid_point(r),
    {
        let n = self.ring_len(p.ring);
        ComplexPointId { ring: p.ring, point: if p.point + 1 == n { 0 } else { p.point + 1 } }
    }

    /// The point before `p` in its ring.
    pub fn previous(&self, p: ComplexPointId) -> (r: ComplexPointId)
        requires
            self.valid_point(p),
        ensures
            r == self.previous_of(p),
            self.valid_point(r),
    {
        let n = self.ring_len(p.ring);
        ComplexPointId { ring: p.ring, point: if p.point == 0 { n - 1 } else { p.point - 1 } }
    }
}

/// Point `i` of ring `r` stands at index `points_of_rings(r).len() + i` of
/// the points of rings `0 .. k`.
pub proof fn lemma_point_index(poly: &ComplexPolygon, k: int, r: int, i: int)
    requires
        poly.wf(),
        0 <= r < k <= poly.num_rings(),
        0 <= i < poly.ring(r).len(),
    ensures
        poly.points_of_rings(r).len() + i < poly.points_of_rings(k).len(),
        poly.points_of_rings(k)[poly.points_of_rings(r).len() + i] == (ComplexPointId {
            ring: r as usize,
            point: i as usize,
        }),
    decreases k,
{
    if k > r + 1 {
        lemma_point_index(poly, k - 1, r, i);
    }
}

/// Position of the vertex at point `p`.
pub open spec fn position_of(poly: &ComplexPolygon, pos: Seq<Vec2>, p: ComplexPointId) -> Vec2 {
    pos[poly.vertex_of(p) as int]
}

/// Both ends of every diagonal are points of `poly`.
pub open spec fn diagonals_valid(poly: &ComplexPolygon, d: Seq<(ComplexPointId, ComplexPointId)>) -> bool {
    forall|k: int| 0 <= k < d.len() ==> poly.valid_point(#[trigger] d[k].0) && poly.valid_point(d[k].1)
}

/// Interior edges added to a polygon, each a pair of its points.
#[derive(Clone, Debug)]
pub struct Diagonals {
    pub pairs: Vec<(ComplexPointId, ComplexPointId)>,
}

impl Diagonals {
    /// No diagonal.
    pub fn new() -> (r: Diagonals)
        ensures
            r.pairs@.len() == 0,
    {
        Diagonals { pairs: Vec::new() }
    }

    /// Records the diagonal `a-b`.
    pub fn add_diagonal(&mut self, a: ComplexPointId, b: ComplexPointId)
        ensures
            final(self).pairs@ == old(self).pairs@.push((a, b)),
    {
        self.pairs.push((a, b));
    }
}

} // verus!
