//! Triangulation of y-monotone polygons, and the sinks that receive triangles.
use vstd::prelude::*;
use crate::geometry::{
    Vec2, VertexType, angle_above_pi, below, cross_product, get_vertex_type, is_below,
    vertex_type,
};
use crate::polygon::{Direction, Polygon, VertexId, reversed, ring_in_table, step};

verus! {

/// Why a triangulation was refused.
#[derive(Clone, Copy, PartialEq, Eq, Structural, Debug)]
pub enum TriangulationError {
    NotMonotone,
    /// The walk down the two chains came back to a point, did not meet at the
    /// bottom after visiting every point once, or did not produce `n - 2`
    /// triangles for `n` points.
    InvalidPath,
    MissingFace,
}

/// Receives values one at a time.
pub trait Write<T> {
    /// The sink can take `data` now.
    spec fn accepts(&self, data: T) -> bool;

    /// Takes `data`.
    fn write(&mut self, data: T)
        requires
            old(self).accepts(data),
    ;
}

/// Discards everything.
impl<T> Write<T> for () {
    open spec fn accepts(&self, data: T) -> bool {
        true
    }

    fn write(&mut self, data: T) {
    }
}

/// Appends to the vector.
impl<T> Write<T> for Vec<T> {
    open spec fn accepts(&self, data: T) -> bool {
        true
    }

    fn write(&mut self, data: T)
        ensures
            final(self)@ == old(self)@.push(data),
    {
        self.push(data);
    }
}

/// Writes triangles as three `u16` indices each into a buffer sized in advance.
pub struct SliceTriangleWriter<'l> {
    indices: &'l mut [u16],
    offset: usize,
}

impl<'l> SliceTriangleWriter<'l> {
    /// The buffer, in order.
    pub closed spec fn buffer(&self) -> Seq<u16> {
        self.indices@
    }

    /// Number of indices written so far.
    pub closed spec fn written(&self) -> nat {
        self.offset as nat
    }

    pub closed spec fn wf(&self) -> bool {
        self.offset <= self.indices@.len()
    }

    /// A writer that starts at the beginning of `buffer`.
    pub fn new(buffer: &'l mut [u16]) -> (r: SliceTriangleWriter<'l>)
        ensures
            r.wf(),
            r.buffer() == old(buffer)@,
            r.written() == 0,
    {
        SliceTriangleWriter { indices: buffer, offset: 0 }
    }
}

impl<'l> Write<[VertexId; 3]> for SliceTriangleWriter<'l> {
    /// Room for three more indices, each fits in `u16`, and the three differ.
    open spec fn accepts(&self, data: [VertexId; 3]) -> bool {
        &&& self.wf()
        &&& self.written() + 3 <= self.buffer().len()
        &&& data@[0] < 0x1_0000 && data@[1] < 0x1_0000 && data@[2] < 0x1_0000
        &&& data@[0] != data@[1] && data@[0] != data@[2] && data@[1] != data@[2]
    }

    fn write(&mut self, data: [VertexId; 3])
        ensures
            final(self).wf(),
            final(self).written() == old(self).written() + 3,
            final(self).buffer() == old(self).buffer().update(
                old(self).written() as int,
                data@[0] as u16,
            ).update(old(self).written() as int + 1, data@[1] as u16).update(
                old(self).written() as int + 2,
                data@[2] as u16,
            ),
    {
        let o = self.offset;
        let n = self.indices.len();
        assert(old(self).accepts(data));
        assert(o + 3 <= n);
        self.indices[o] = data[0] as u16;
        self.indices[o + 1] = data[1] as u16;
        self.indices[o + 2] = data[2] as u16;
        self.offset = o + 3;
    }
}

/// A point of a ring together with the direction of a walk along it.
#[derive(Clone, Copy, PartialEq, Eq, Structural, Debug)]
pub struct Circulator {
    pub point: usize,
    pub direction: Direction,
}

/// Every vertex id of `t` is a vertex of `ring`.
pub open spec fn triangle_in_ring(t: [VertexId; 3], ring: Seq<VertexId>) -> bool {
    forall|j: int| 0 <= j < 3 ==> ring.contains(#[trigger] t@[j])
}

/// `new` is `old` followed by triangles over vertices of `ring`.
pub open spec fn extends_with_ring_triangles(
    old: Seq<[VertexId; 3]>,
    new: Seq<[VertexId; 3]>,
    ring: Seq<VertexId>,
) -> bool {
    &&& new.len() >= old.len()
    &&& new.take(old.len() as int) == old
    &&& forall|k: int| old.len() <= k < new.len() ==> triangle_in_ring(#[trigger] new[k], ring)
}

/// Vertex conservation: the triangles cut from a ring whose vertex ids index a
/// table of `n` positions use only vertex ids that index it too.
pub proof fn lemma_triangles_use_table_vertices(
    ring: Seq<VertexId>,
    n: nat,
    old: Seq<[VertexId; 3]>,
    new: Seq<[VertexId; 3]>,
)
    requires
        ring_in_table(ring, n),
        extends_with_ring_triangles(old, new, ring),
    ensures
        forall|k: int, j: int|
            old.len() <= k < new.len() && 0 <= j < 3 ==> #[trigger] new[k]@[j] < n,
{
    assert forall|k: int, j: int| old.len() <= k < new.len() && 0 <= j < 3 implies #[trigger] new[k]@[j]
        < n by {
        assert(triangle_in_ring(new[k], ring));
        assert(ring.contains(new[k]@[j]));
    }
}

/// The ring can be walked and each of its vertex ids has a position.
pub open spec fn ring_ok(polygon: &Polygon, pos: Seq<Vec2>) -> bool {
    &&& 3 <= polygon.vertices@.len() <= usize::MAX
    &&& ring_in_table(polygon.vertices@, pos.len())
}

/// `c` one step further along its direction.
pub open spec fn cnext(polygon: &Polygon, c: Circulator) -> Circulator {
    Circulator {
        point: step(c.point as int, polygon.vertices@.len() as int, c.direction) as usize,
        direction: c.direction,
    }
}

/// `c` one step back against its direction.
pub open spec fn cprev(polygon: &Polygon, c: Circulator) -> Circulator {
    Circulator {
        point: step(c.point as int, polygon.vertices@.len() as int, reversed(c.direction)) as usize,
        direction: c.direction,
    }
}

/// Position of the point of `c`.
pub open spec fn cpos(polygon: &Polygon, pos: Seq<Vec2>, c: Circulator) -> Vec2 {
    ring_position(polygon, pos, c.point as int)
}

/// The triangle over points `a`, `b`, `c` of the ring, as vertex ids.
pub open spec fn tri(polygon: &Polygon, a: int, b: int, c: int) -> Seq<VertexId> {
    seq![polygon.vertices@[a], polygon.vertices@[b], polygon.vertices@[c]]
}

/// The triangles as sequences of vertex ids.
pub open spec fn views(s: Seq<[VertexId; 3]>) -> Seq<Seq<VertexId>> {
    s.map_values(|t: [VertexId; 3]| t@)
}

/// Walking from `down`, the first point at a height other than that of `up`,
/// or `up` itself after a whole turn.
pub open spec fn level_scan(
    polygon: &Polygon,
    pos: Seq<Vec2>,
    up: Circulator,
    down: Circulator,
    k: int,
) -> Circulator
    decreases polygon.vertices@.len() - k,
{
    if k >= polygon.vertices@.len() {
        down
    } else {
        let d = cnext(polygon, down);
        if cpos(polygon, pos, up).y != cpos(polygon, pos, d).y || d == up {
            d
        } else {
            level_scan(polygon, pos, up, d, k + 1)
        }
    }
}

/// Walking from `down` while the points do not rise, the last one reached; a
/// whole turn back to `guard` stops the walk.
pub open spec fn bottom_scan(
    polygon: &Polygon,
    pos: Seq<Vec2>,
    big: Vec2,
    down: Circulator,
    guard: Circulator,
    k: int,
) -> Circulator
    decreases polygon.vertices@.len() - k,
{
    if k >= polygon.vertices@.len() {
        down
    } else {
        let d = cnext(polygon, down);
        let ny = cpos(polygon, pos, d);
        if below(big, ny) {
            cprev(polygon, d)
        } else if d == guard {
            d
        } else {
            bottom_scan(polygon, pos, ny, d, guard, k + 1)
        }
    }
}

/// Walking from `up` while the points do not sink, the last one reached; a
/// whole turn back to `guard` stops the walk.
pub open spec fn top_scan(
    polygon: &Polygon,
    pos: Seq<Vec2>,
    small: Vec2,
    up: Circulator,
    guard: Circulator,
    k: int,
) -> Circulator
    decreases polygon.vertices@.len() - k,
{
    if k >= polygon.vertices@.len() {
        up
    } else {
        let d = cnext(polygon, up);
        let ny = cpos(polygon, pos, d);
        if below(ny, small) {
            cprev(polygon, d)
        } else if d == guard {
            d
        } else {
            top_scan(polygon, pos, ny, d, guard, k + 1)
        }
    }
}

/// The topmost and the bottommost points, each with the direction that walks
/// away from it.
pub open spec fn walk_ends(polygon: &Polygon, pos: Seq<Vec2>) -> (Circulator, Circulator) {
    let up0 = Circulator { point: 0, direction: Direction::Forward };
    let d1 = level_scan(polygon, pos, up0, up0, 0);
    let dir = if below(cpos(polygon, pos, up0), cpos(polygon, pos, d1)) {
        Direction::Forward
    } else {
        Direction::Backward
    };
    let up1 = Circulator { point: 0, direction: dir };
    let down1 = Circulator { point: d1.point, direction: reversed(dir) };
    (
        top_scan(polygon, pos, cpos(polygon, pos, up1), up1, up1, 0),
        bottom_scan(polygon, pos, cpos(polygon, pos, down1), down1, down1, 0),
    )
}

/// State of the walk down both chains.
pub struct WalkState {
    /// The walker on the main chain.
    pub m: Circulator,
    /// The walker on the opposite chain.
    pub o: Circulator,
    /// Where `m` was before.
    pub p: Circulator,
    /// Points that wait for a triangle.
    pub stack: Seq<Circulator>,
    /// Points already processed.
    pub visited: Seq<bool>,
    /// Triangles made so far.
    pub triangles: Seq<Seq<VertexId>>,
    /// Number of points processed before this one.
    pub i: nat,
    /// Both walkers met at the bottom.
    pub done: bool,
    /// The walk came back to a point, or ran out of points.
    pub failed: bool,
}

pub open spec fn walk_state(
    m: Circulator,
    o: Circulator,
    p: Circulator,
    stack: Seq<Circulator>,
    visited: Seq<bool>,
    triangles: Seq<Seq<VertexId>>,
    i: nat,
) -> WalkState {
    WalkState { m, o, p, stack, visited, triangles, i, done: false, failed: false }
}

/// The walkers leave the top one step each, the higher one becomes the main one
/// and steps back to the top.
pub open spec fn walk_init(polygon: &Polygon, pos: Seq<Vec2>, up: Circulator) -> WalkState {
    let m1 = cnext(polygon, Circulator { point: up.point, direction: Direction::Forward });
    let o1 = cnext(polygon, Circulator { point: up.point, direction: Direction::Backward });
    let sw = below(cpos(polygon, pos, m1), cpos(polygon, pos, o1));
    let m2 = if sw {
        o1
    } else {
        m1
    };
    let o2 = if sw {
        m1
    } else {
        o1
    };
    let m3 = cprev(polygon, m2);
    walk_state(
        m3,
        o2,
        m3,
        Seq::empty(),
        Seq::new(polygon.vertices@.len(), |q: int| false),
        Seq::empty(),
        0,
    )
}

/// The triangles from `m` to each pair of neighbours on the stack.
pub open spec fn fan(polygon: &Polygon, stack: Seq<Circulator>, m: Circulator) -> Seq<Seq<VertexId>> {
    Seq::new(
        (stack.len() - 1) as nat,
        |j: int| tri(polygon, m.point as int, stack[j].point as int, stack[j + 1].point as int),
    )
}

/// Cuts off, from the top of the stack, the triangles whose middle point has an
/// interior angle above `π`; `last` is the point popped last.
pub open spec fn cut_ears(
    polygon: &Polygon,
    pos: Seq<Vec2>,
    stack: Seq<Circulator>,
    last: Option<Circulator>,
    m: Circulator,
    tris: Seq<Seq<VertexId>>,
) -> (Seq<Circulator>, Option<Circulator>, Seq<Seq<VertexId>>)
    decreases stack.len(),
{
    if stack.len() < 1 {
        (stack, last, tris)
    } else {
        match last {
            None => (stack, last, tris),
            Some(lp) => {
                let top = stack.last();
                let c1 = if m.direction == Direction::Backward {
                    m.point
                } else {
                    top.point
                };
                let c3 = if m.direction == Direction::Backward {
                    top.point
                } else {
                    m.point
                };
                if angle_above_pi(
                    ring_position(polygon, pos, c1 as int),
                    ring_position(polygon, pos, lp.point as int),
                    ring_position(polygon, pos, c3 as int),
                ) {
                    cut_ears(
                        polygon,
                        pos,
                        stack.drop_last(),
                        Some(top),
                        m,
                        tris.push(tri(polygon, c1 as int, lp.point as int, c3 as int)),
                    )
                } else {
                    (stack, last, tris)
                }
            },
        }
    }
}

/// Joins point `m` to the points on the stack that it sees: the new stack and
/// the triangles so far.
pub open spec fn process_spec(
    polygon: &Polygon,
    pos: Seq<Vec2>,
    stack: Seq<Circulator>,
    p: Circulator,
    i: nat,
    m: Circulator,
    tris: Seq<Seq<VertexId>>,
) -> (Seq<Circulator>, Seq<Seq<VertexId>>) {
    if i < 2 {
        (stack.push(m), tris)
    } else if stack.len() > 0 && m.direction != stack.last().direction {
        (seq![p, m], tris + fan(polygon, stack, m))
    } else {
        let c = if stack.len() > 0 {
            cut_ears(polygon, pos, stack.drop_last(), Some(stack.last()), m, tris)
        } else {
            cut_ears(polygon, pos, stack, None, m, tris)
        };
        let kept = match c.1 {
            Some(l) => c.0.push(l),
            None => c.0,
        };
        (kept.push(m), c.2)
    }
}

/// Processing one point: the higher walker becomes `m`, and `m` is joined to
/// the points on the stack that it sees.
pub open spec fn walk_step(polygon: &Polygon, pos: Seq<Vec2>, down: Circulator, s: WalkState) -> WalkState {
    let n = polygon.vertices@.len();
    let sw = below(cpos(polygon, pos, s.m), cpos(polygon, pos, s.o)) || s.m == down;
    let m = if sw {
        s.o
    } else {
        s.m
    };
    let o = if sw {
        s.m
    } else {
        s.o
    };
    if s.visited[m.point as int] {
        WalkState { m, o, failed: true, ..s }
    } else {
        let visited = s.visited.update(m.point as int, true);
        let next = process_spec(polygon, pos, s.stack, s.p, s.i, m, s.triangles);
        let s2 = WalkState { m, o, stack: next.0, visited, triangles: next.1, ..s };
        if m.point == down.point && o.point == down.point {
            WalkState { done: true, ..s2 }
        } else if s.i + 1 >= n {
            WalkState { failed: true, i: s.i + 1, ..s2 }
        } else {
            WalkState { m: cnext(polygon, m), p: m, i: s.i + 1, ..s2 }
        }
    }
}

/// At most `fuel` steps of the walk, stopping where it is done or failed.
pub open spec fn walk_run(
    polygon: &Polygon,
    pos: Seq<Vec2>,
    down: Circulator,
    s: WalkState,
    fuel: nat,
) -> WalkState
    decreases fuel,
{
    if fuel == 0 || s.done || s.failed {
        s
    } else {
        walk_run(polygon, pos, down, walk_step(polygon, pos, down, s), (fuel - 1) as nat)
    }
}

/// The whole walk of the triangulation of a ring.
pub open spec fn monotone_walk(polygon: &Polygon, pos: Seq<Vec2>) -> WalkState {
    let ends = walk_ends(polygon, pos);
    walk_run(polygon, pos, ends.1, walk_init(polygon, pos, ends.0), polygon.vertices@.len())
}

fn circ_next(polygon: &Polygon, c: Circulator) -> (r: Circulator)
    requires
        c.point < polygon.vertices@.len(),
        polygon.vertices@.len() <= usize::MAX,
    ensures
        r == cnext(polygon, c),
        r.point < polygon.vertices@.len(),
{
    Circulator { point: polygon.advance(c.point, c.direction), direction: c.direction }
}

fn circ_previous(polygon: &Polygon, c: Circulator) -> (r: Circulator)
    requires
        c.point < polygon.vertices@.len(),
        polygon.vertices@.len() <= usize::MAX,
    ensures
        r == cprev(polygon, c),
        r.point < polygon.vertices@.len(),
{
    Circulator { point: polygon.advance(c.point, c.direction.reverse()), direction: c.direction }
}

fn circ_position(polygon: &Polygon, positions: &[Vec2], c: Circulator) -> (r: Vec2)
    requires
        c.point < polygon.vertices@.len(),
        ring_in_table(polygon.vertices@, positions@.len()),
    ensures
        r == cpos(polygon, positions@, c),
{
    positions[polygon.vertices[c.point]]
}

/// Appends the triangle over points `a`, `b`, `c` of the ring.
fn emit(output: &mut Vec<[VertexId; 3]>, polygon: &Polygon, a: usize, b: usize, c: usize)
    requires
        a < polygon.vertices@.len(),
        b < polygon.vertices@.len(),
        c < polygon.vertices@.len(),
    ensures
        final(output)@.len() == old(output)@.len() + 1,
        final(output)@.take(old(output)@.len() as int) == old(output)@,
        triangle_in_ring(final(output)@.last(), polygon.vertices@),
        a != b && a != c && b != c && polygon.vertices@.no_duplicates() ==> distinct_triangle(
            final(output)@.last(),
        ),
        final(output)@.last()@ == seq![
            polygon.vertices@[a as int],
            polygon.vertices@[b as int],
            polygon.vertices@[c as int],
        ],
{
    let t = [polygon.vertex(a), polygon.vertex(b), polygon.vertex(c)];
    output.push(t);
    proof {
        assert(output@.take(old(output)@.len() as int) =~= old(output)@);
        assert(t@ =~= seq![
            polygon.vertices@[a as int],
            polygon.vertices@[b as int],
            polygon.vertices@[c as int],
        ]);
        assert forall|j: int| 0 <= j < 3 implies polygon.vertices@.contains(#[trigger] t@[j]) by {
            if j == 0 {
                assert(polygon.vertices@[a as int] == t@[j]);
            } else if j == 1 {
                assert(polygon.vertices@[b as int] == t@[j]);
            } else {
                assert(polygon.vertices@[c as int] == t@[j]);
            }
        }
    }
}

/// The three vertex ids of `t` differ.
pub open spec fn distinct_triangle(t: [VertexId; 3]) -> bool {
    t@[0] != t@[1] && t@[0] != t@[2] && t@[1] != t@[2]
}

/// Every triangle of `new` after the prefix `old` has three different vertex ids.
pub open spec fn new_triangles_distinct(old: Seq<[VertexId; 3]>, new: Seq<[VertexId; 3]>) -> bool {
    forall|k: int| old.len() <= k < new.len() ==> distinct_triangle(#[trigger] new[k])
}

/// The stack holds each point at most once, and only visited points.
spec fn stack_fresh(stack: Seq<Circulator>, visited: Seq<bool>) -> bool {
    &&& forall|a: int, b: int|
        0 <= a < b < stack.len() ==> (#[trigger] stack[a]).point != (#[trigger] stack[b]).point
    &&& forall|a: int|
        0 <= a < stack.len() ==> (#[trigger] stack[a]).point < visited.len() && visited[stack[a].point as int]
}

proof fn lemma_fresh_after_visit(stack: Seq<Circulator>, visited: Seq<bool>, x: usize)
    requires
        stack_fresh(stack, visited),
        x < visited.len(),
    ensures
        stack_fresh(stack, visited.update(x as int, true)),
{
}

proof fn lemma_fresh_push(stack: Seq<Circulator>, visited: Seq<bool>, c: Circulator)
    requires
        stack_fresh(stack, visited),
        c.point < visited.len(),
        visited[c.point as int],
        forall|q: int| 0 <= q < stack.len() ==> (#[trigger] stack[q]).point != c.point,
    ensures
        stack_fresh(stack.push(c), visited),
{
    let s2 = stack.push(c);
    assert forall|a: int, b: int| 0 <= a < b < s2.len() implies (#[trigger] s2[a]).point != (
    #[trigger] s2[b]).point by {
        if b == stack.len() {
            assert(s2[a] == stack[a]);
        } else {
            assert(s2[a] == stack[a]);
            assert(s2[b] == stack[b]);
        }
    }
    assert forall|a: int| 0 <= a < s2.len() implies (#[trigger] s2[a]).point < visited.len()
        && visited[s2[a].point as int] by {
        if a < stack.len() {
            assert(s2[a] == stack[a]);
        }
    }
}

proof fn lemma_fresh_pop(stack: Seq<Circulator>, visited: Seq<bool>)
    requires
        stack_fresh(stack, visited),
        stack.len() > 0,
    ensures
        stack_fresh(stack.drop_last(), visited),
        forall|q: int|
            0 <= q < stack.drop_last().len() ==> (#[trigger] stack.drop_last()[q]).point
                != stack.last().point,
        stack.last().point < visited.len(),
        visited[stack.last().point as int],
{
    let s2 = stack.drop_last();
    assert forall|a: int, b: int| 0 <= a < b < s2.len() implies (#[trigger] s2[a]).point != (
    #[trigger] s2[b]).point by {
        assert(s2[a] == stack[a]);
        assert(s2[b] == stack[b]);
    }
    assert forall|a: int| 0 <= a < s2.len() implies (#[trigger] s2[a]).point < visited.len()
        && visited[s2[a].point as int] by {
        assert(s2[a] == stack[a]);
    }
    assert forall|q: int| 0 <= q < s2.len() implies (#[trigger] s2[q]).point
        != stack.last().point by {
        assert(s2[q] == stack[q]);
        assert(stack[q].point != stack[stack.len() - 1].point);
    }
    assert(stack[stack.len() - 1].point < visited.len());
}

proof fn lemma_distinct_trans(
    a: Seq<[VertexId; 3]>,
    b: Seq<[VertexId; 3]>,
    c: Seq<[VertexId; 3]>,
    nodup: bool,
)
    requires
        nodup ==> new_triangles_distinct(a, b),
        b.len() >= a.len(),
        c.len() == b.len() + 1,
        c.take(b.len() as int) == b,
        nodup ==> distinct_triangle(c.last()),
    ensures
        nodup ==> new_triangles_distinct(a, c),
{
    if nodup {
        assert forall|k: int| a.len() <= k < c.len() implies distinct_triangle(#[trigger] c[k]) by {
            if k < b.len() {
                assert(c[k] == c.take(b.len() as int)[k]);
            }
        }
    }
}

proof fn lemma_extends_trans(
    a: Seq<[VertexId; 3]>,
    b: Seq<[VertexId; 3]>,
    c: Seq<[VertexId; 3]>,
    ring: Seq<VertexId>,
)
    requires
        extends_with_ring_triangles(a, b, ring),
        c.len() == b.len() + 1,
        c.take(b.len() as int) == b,
        triangle_in_ring(c.last(), ring),
    ensures
        extends_with_ring_triangles(a, c, ring),
{
    assert(c.take(a.len() as int) =~= b.take(a.len() as int));
    assert forall|k: int| a.len() <= k < c.len() implies triangle_in_ring(#[trigger] c[k], ring) by {
        if k < b.len() {
            assert(c[k] == c.take(b.len() as int)[k]);
        }
    }
}

/// Can triangulate y-monotone polygons.
///
/// It keeps its vertex stack between triangulations so that later ones can reuse it.
pub struct TriangulationContext {
    vertex_stack: Vec<Circulator>,
}

impl TriangulationContext {
    /// The stack holds nothing.
    pub closed spec fn is_idle(&self) -> bool {
        self.vertex_stack@.len() == 0
    }

    /// A context with an empty stack.
    pub fn new() -> (r: TriangulationContext)
        ensures
            r.is_idle(),
    {
        TriangulationContext { vertex_stack: Vec::new() }
    }

    /// Triangulates the y-monotone ring `polygon`, appending the triangles to `output`
    /// as triples of vertex ids.
    ///
    /// The two chains are walked from the topmost to the bottommost point at the
    /// same time (see [`monotone_walk`]); a stack keeps the points that still wait
    /// for a triangle. Fails where the walk comes back to a point, does not meet
    /// at the bottom after visiting every point, or makes other than `n - 2`
    /// triangles for `n` points.
    pub fn y_monotone_triangulation(
        &mut self,
        polygon: &Polygon,
        vertex_positions: &[Vec2],
        output: &mut Vec<[VertexId; 3]>,
    ) -> (r: Result<(), TriangulationError>)
        requires
            ring_ok(polygon, vertex_positions@),
        ensures
            ({
                let w = monotone_walk(polygon, vertex_positions@);
                &&& views(final(output)@) == views(old(output)@) + w.triangles
                &&& r == if w.done && w.triangles.len() == polygon.vertices@.len() - 2 {
                    Ok(())
                } else {
                    Err(TriangulationError::InvalidPath)
                }
            }),
            extends_with_ring_triangles(old(output)@, final(output)@, polygon.vertices@),
            polygon.vertices@.no_duplicates() ==> new_triangles_distinct(old(output)@, final(output)@),
            r is Ok ==> final(output)@.len() == old(output)@.len() + polygon.vertices@.len() - 2,
    {
        let ghost out0 = output@;
        let ghost pos = vertex_positions@;
        let n = polygon.vertices.len();
        let (up, down) = find_top_and_bottom(polygon, vertex_positions);
        let ghost target = monotone_walk(polygon, pos);

        // Walk both chains from the top to the bottom: `m` on the main chain,
        // `o` on the opposite one, `p` where `m` was before.
        let mut m = Circulator { point: up.point, direction: Direction::Forward };
        let mut o = Circulator { point: up.point, direction: Direction::Backward };
        m = circ_next(polygon, m);
        o = circ_next(polygon, o);
        if is_below(
            circ_position(polygon, vertex_positions, m),
            circ_position(polygon, vertex_positions, o),
        ) {
            let t = m;
            m = o;
            o = t;
        }
        m = circ_previous(polygon, m);
        let mut p = m;

        self.vertex_stack.clear();
        assert(out0.take(out0.len() as int) =~= out0);
        let ghost nodup = polygon.vertices@.no_duplicates();
        let mut visited: Vec<bool> = Vec::new();
        let mut v: usize = 0;
        while v < n
            invariant
                0 <= v <= n,
                visited@.len() == v,
                forall|q: int| 0 <= q < v ==> !(#[trigger] visited@[q]),
            decreases n - v,
        {
            visited.push(false);
            v += 1;
        }
        let ghost mut tris: Seq<Seq<VertexId>> = Seq::empty();
        let start_len = output.len();
        let mut i: usize = 0;
        proof {
            assert(visited@ =~= Seq::new(n as nat, |q: int| false));
            assert(views(output@) =~= views(out0) + tris);
            assert(walk_state(m, o, p, self.vertex_stack@, visited@, tris, 0) == walk_init(
                polygon,
                pos,
                up,
            ));
        }
        loop
            invariant_except_break
                tris.len() + self.vertex_stack@.len() == i,
                walk_run(
                    polygon,
                    pos,
                    down,
                    walk_state(m, o, p, self.vertex_stack@, visited@, tris, i as nat),
                    (n - i) as nat,
                ) == target,
            invariant
                ring_ok(polygon, vertex_positions@),
                pos == vertex_positions@,
                target == monotone_walk(polygon, pos),
                down == walk_ends(polygon, pos).1,
                n == polygon.vertices@.len(),
                nodup == polygon.vertices@.no_duplicates(),
                m.point < n,
                o.point < n,
                p.point < n,
                down.point < n,
                i < n,
                visited@.len() == n,
                stack_fresh(self.vertex_stack@, visited@),
                i >= 1 ==> visited@[p.point as int],
                extends_with_ring_triangles(out0, output@, polygon.vertices@),
                nodup ==> new_triangles_distinct(out0, output@),
                output@.len() == out0.len() + tris.len(),
                start_len == out0.len(),
                views(output@) == views(out0) + tris,
                out0 == old(output)@,
            ensures
                target.done,
                target.triangles == tris,
                views(output@) == views(out0) + tris,
                extends_with_ring_triangles(out0, output@, polygon.vertices@),
                nodup ==> new_triangles_distinct(out0, output@),
                output@.len() == out0.len() + tris.len(),
            decreases n - i,
        {
            let ghost s0 = walk_state(m, o, p, self.vertex_stack@, visited@, tris, i as nat);
            let ghost s1 = walk_step(polygon, pos, down, s0);
            proof {
                assert(walk_run(polygon, pos, down, s0, (n - i) as nat) == walk_run(
                    polygon,
                    pos,
                    down,
                    s1,
                    (n - i - 1) as nat,
                ));
            }
            if is_below(
                circ_position(polygon, vertex_positions, m),
                circ_position(polygon, vertex_positions, o),
            ) || m == down {
                let t = m;
                m = o;
                o = t;
            }
            if visited[m.point] {
                // The walk came back to a point: the ring is not y-monotone.
                proof {
                    assert(s1.failed);
                    assert(s1.triangles == tris);
                }
                return Err(TriangulationError::InvalidPath);
            }
            process_point(
                output,
                polygon,
                vertex_positions,
                &mut self.vertex_stack,
                &mut visited,
                m,
                p,
                i,
                Ghost(out0),
                Ghost(tris),
            );
            proof {
                tris = process_spec(polygon, pos, s0.stack, p, i as nat, m, tris).1;
            }
            if m.point == down.point && o.point == down.point {
                proof {
                    assert(s1.done);
                    assert(s1.triangles == tris);
                }
                break;
            }
            i += 1;
            if i >= n {
                proof {
                    assert(s1.failed);
                    assert(s1.triangles == tris);
                }
                return Err(TriangulationError::InvalidPath);
            }
            p = m;
            m = circ_next(polygon, m);
            proof {
                assert(walk_state(m, o, p, self.vertex_stack@, visited@, tris, i as nat) == s1);
            }
        }
        if output.len() - start_len != n - 2 {
            return Err(TriangulationError::InvalidPath);
        }
        Ok(())
    }
}

/// Marks `m` visited and joins it to the points on the stack that it sees, as
/// [`process_spec`] does.
fn process_point(
    output: &mut Vec<[VertexId; 3]>,
    polygon: &Polygon,
    positions: &[Vec2],
    stack: &mut Vec<Circulator>,
    visited: &mut Vec<bool>,
    m: Circulator,
    p: Circulator,
    i: usize,
    out0: Ghost<Seq<[VertexId; 3]>>,
    tris: Ghost<Seq<Seq<VertexId>>>,
)
    requires
        ring_ok(polygon, positions@),
        m.point < polygon.vertices@.len(),
        p.point < polygon.vertices@.len(),
        old(visited)@.len() == polygon.vertices@.len(),
        !old(visited)@[m.point as int],
        stack_fresh(old(stack)@, old(visited)@),
        i >= 1 ==> old(visited)@[p.point as int],
        extends_with_ring_triangles(out0@, old(output)@, polygon.vertices@),
        polygon.vertices@.no_duplicates() ==> new_triangles_distinct(out0@, old(output)@),
        views(old(output)@) == views(out0@) + tris@,
        old(output)@.len() == out0@.len() + tris@.len(),
        tris@.len() + old(stack)@.len() == i,
    ensures
        final(visited)@ == old(visited)@.update(m.point as int, true),
        ({
            let next = process_spec(polygon, positions@, old(stack)@, p, i as nat, m, tris@);
            &&& final(stack)@ == next.0
            &&& views(final(output)@) == views(out0@) + next.1
            &&& final(output)@.len() == out0@.len() + next.1.len()
            &&& next.1.len() + final(stack)@.len() == i + 1
        }),
        stack_fresh(final(stack)@, final(visited)@),
        extends_with_ring_triangles(out0@, final(output)@, polygon.vertices@),
        polygon.vertices@.no_duplicates() ==> new_triangles_distinct(out0@, final(output)@),
{
    let ghost pos = positions@;
    proof {
        assert forall|q: int| 0 <= q < stack@.len() implies (#[trigger] stack@[q]).point
            != m.point by {
            assert(visited@[stack@[q].point as int]);
        }
    }
    assert(i >= 1 ==> p.point != m.point);
    let ghost before_visit = visited@;
    visited.set(m.point, true);
    proof {
        lemma_fresh_after_visit(stack@, before_visit, m.point);
    }
    if i < 2 {
        let ghost st = stack@;
        stack.push(m);
        proof {
            lemma_fresh_push(st, visited@, m);
        }
    } else {
        let len = stack.len();
        if len > 0 && m.direction != stack[len - 1].direction {
            // `m` faces every point of the stack: fan them out.
            let ghost st = stack@;
            fan_out(output, polygon, stack, m, out0, Ghost(visited@));
            proof {
                assert(views(output@) =~= views(out0@) + (tris@ + fan(polygon, st, m)));
            }
            stack.clear();
            stack.push(p);
            stack.push(m);
            proof {
                assert(stack@ =~= seq![p, m]);
                assert(stack@[0].point != stack@[1].point);
            }
        } else {
            // Same chain: cut off the ears that `m` sees.
            let ghost st = stack@;
            let ghost before = output@;
            let last_popped = cut_off_ears(
                output,
                polygon,
                positions,
                stack,
                m,
                out0,
                Ghost(visited@),
                tris,
            );
            proof {
                let c = if st.len() > 0 {
                    cut_ears(polygon, pos, st.drop_last(), Some(st.last()), m, tris@)
                } else {
                    cut_ears(polygon, pos, st, None, m, tris@)
                };
                assert(c.2 =~= tris@ + c.2.skip(tris@.len() as int));
                assert(views(output@) =~= views(out0@) + c.2);
            }
            if let Some(item) = last_popped {
                let ghost st2 = stack@;
                stack.push(item);
                proof {
                    lemma_fresh_push(st2, visited@, item);
                }
            }
            let ghost st3 = stack@;
            stack.push(m);
            proof {
                lemma_fresh_push(st3, visited@, m);
            }
        }
    }
}

/// Finds the topmost and the bottommost points of the ring, as [`walk_ends`] does.
fn find_top_and_bottom(polygon: &Polygon, positions: &[Vec2]) -> (r: (Circulator, Circulator))
    requires
        ring_ok(polygon, positions@),
    ensures
        r == walk_ends(polygon, positions@),
        r.0.point < polygon.vertices@.len(),
        r.1.point < polygon.vertices@.len(),
{
    let ghost pos = positions@;
    let n = polygon.vertices.len();
    let mut up = Circulator { point: polygon.first_point(), direction: Direction::Forward };
    let mut down = up;
    let ghost up0 = up;

    // Leave the height of the first point, to pick the walk's orientation.
    let mut k: usize = 0;
    while k < n
        invariant_except_break
            level_scan(polygon, pos, up0, up0, 0) == level_scan(polygon, pos, up0, down, k as int),
        invariant
            ring_ok(polygon, positions@),
            pos == positions@,
            n == polygon.vertices@.len(),
            up == up0,
            up0 == (Circulator { point: 0, direction: Direction::Forward }),
            down.point < n,
            k <= n,
        ensures
            down == level_scan(polygon, pos, up0, up0, 0),
            down.point < n,
        decreases n - k,
    {
        down = circ_next(polygon, down);
        if circ_position(polygon, positions, up).y != circ_position(polygon, positions, down).y {
            break;
        }
        if down == up {
            // Every point lies at the same height.
            break;
        }
        k += 1;
    }

    up.direction = if is_below(
        circ_position(polygon, positions, up),
        circ_position(polygon, positions, down),
    ) {
        Direction::Forward
    } else {
        Direction::Backward
    };
    down.direction = up.direction.reverse();

    // The bottommost point (largest y).
    let mut big_y = circ_position(polygon, positions, down);
    let guard = down;
    let ghost big0 = big_y;
    let mut k: usize = 0;
    while k < n
        invariant_except_break
            bottom_scan(polygon, pos, big0, guard, guard, 0) == bottom_scan(
                polygon,
                pos,
                big_y,
                down,
                guard,
                k as int,
            ),
        invariant
            ring_ok(polygon, positions@),
            pos == positions@,
            n == polygon.vertices@.len(),
            down.point < n,
            k <= n,
        ensures
            down == bottom_scan(polygon, pos, big0, guard, guard, 0),
            down.point < n,
        decreases n - k,
    {
        down = circ_next(polygon, down);
        let new_y = circ_position(polygon, positions, down);
        if is_below(big_y, new_y) {
            down = circ_previous(polygon, down);
            break;
        }
        big_y = new_y;
        if down == guard {
            // Every point was visited.
            break;
        }
        k += 1;
    }

    // The topmost point (smallest y).
    let mut small_y = circ_position(polygon, positions, up);
    let guard = up;
    let ghost small0 = small_y;
    let mut k: usize = 0;
    while k < n
        invariant_except_break
            top_scan(polygon, pos, small0, guard, guard, 0) == top_scan(
                polygon,
                pos,
                small_y,
                up,
                guard,
                k as int,
            ),
        invariant
            ring_ok(polygon, positions@),
            pos == positions@,
            n == polygon.vertices@.len(),
            up.point < n,
            k <= n,
        ensures
            up == top_scan(polygon, pos, small0, guard, guard, 0),
            up.point < n,
        decreases n - k,
    {
        up = circ_next(polygon, up);
        let new_y = circ_position(polygon, positions, up);
        if is_below(new_y, small_y) {
            up = circ_previous(polygon, up);
            break;
        }
        small_y = new_y;
        if up == guard {
            // Every point was visited.
            break;
        }
        k += 1;
    }
    (up, down)
}

proof fn lemma_views_push(s: Seq<[VertexId; 3]>, t: [VertexId; 3])
    ensures
        views(s.push(t)) == views(s).push(t@),
{
    assert(views(s.push(t)) =~= views(s).push(t@));
}

/// Emits the triangles from `m` to each pair of neighbours on the stack.
fn fan_out(
    output: &mut Vec<[VertexId; 3]>,
    polygon: &Polygon,
    stack: &Vec<Circulator>,
    m: Circulator,
    out0: Ghost<Seq<[VertexId; 3]>>,
    visited: Ghost<Seq<bool>>,
)
    requires
        stack@.len() > 0,
        m.point < polygon.vertices@.len(),
        visited@.len() == polygon.vertices@.len(),
        stack_fresh(stack@, visited@),
        forall|q: int| 0 <= q < stack@.len() ==> (#[trigger] stack@[q]).point != m.point,
        extends_with_ring_triangles(out0@, old(output)@, polygon.vertices@),
        polygon.vertices@.no_duplicates() ==> new_triangles_distinct(out0@, old(output)@),
    ensures
        views(final(output)@) == views(old(output)@) + fan(polygon, stack@, m),
        final(output)@.len() == old(output)@.len() + stack@.len() - 1,
        extends_with_ring_triangles(out0@, final(output)@, polygon.vertices@),
        polygon.vertices@.no_duplicates() ==> new_triangles_distinct(out0@, final(output)@),
{
    let ghost nodup = polygon.vertices@.no_duplicates();
    let ghost f = fan(polygon, stack@, m);
    let len = stack.len();
    let mut s: usize = 0;
    proof {
        assert(views(output@) =~= views(old(output)@) + f.take(0));
    }
    while s < len - 1
        invariant
            len == stack@.len(),
            0 < len,
            0 <= s <= len - 1,
            m.point < polygon.vertices@.len(),
            visited@.len() == polygon.vertices@.len(),
            stack_fresh(stack@, visited@),
            forall|q: int| 0 <= q < stack@.len() ==> (#[trigger] stack@[q]).point != m.point,
            nodup == polygon.vertices@.no_duplicates(),
            f == fan(polygon, stack@, m),
            extends_with_ring_triangles(out0@, output@, polygon.vertices@),
            nodup ==> new_triangles_distinct(out0@, output@),
            views(output@) == views(old(output)@) + f.take(s as int),
            output@.len() == old(output)@.len() + s,
        decreases len - 1 - s,
    {
        let ghost before = output@;
        let a = stack[s].point;
        let b = stack[s + 1].point;
        assert(stack@[s as int].point != stack@[s + 1].point);
        emit(output, polygon, m.point, a, b);
        proof {
            lemma_extends_trans(out0@, before, output@, polygon.vertices@);
            lemma_distinct_trans(out0@, before, output@, nodup);
            assert(output@ =~= before.push(output@.last()));
            lemma_views_push(before, output@.last());
            assert(f.take(s + 1) =~= f.take(s as int).push(output@.last()@));
            assert(views(output@) =~= views(old(output)@) + f.take(s + 1));
        }
        s += 1;
    }
    proof {
        assert(f.take(len - 1) =~= f);
    }
}

/// Pops the stack and cuts off the ears that `m` sees, as [`cut_ears`] does;
/// returns the point popped last.
fn cut_off_ears(
    output: &mut Vec<[VertexId; 3]>,
    polygon: &Polygon,
    positions: &[Vec2],
    stack: &mut Vec<Circulator>,
    m: Circulator,
    out0: Ghost<Seq<[VertexId; 3]>>,
    visited: Ghost<Seq<bool>>,
    tris0: Ghost<Seq<Seq<VertexId>>>,
) -> (r: Option<Circulator>)
    requires
        ring_ok(polygon, positions@),
        m.point < polygon.vertices@.len(),
        visited@.len() == polygon.vertices@.len(),
        visited@[m.point as int],
        stack_fresh(old(stack)@, visited@),
        forall|q: int| 0 <= q < old(stack)@.len() ==> (#[trigger] old(stack)@[q]).point != m.point,
        extends_with_ring_triangles(out0@, old(output)@, polygon.vertices@),
        polygon.vertices@.no_duplicates() ==> new_triangles_distinct(out0@, old(output)@),
    ensures
        ({
            let st = old(stack)@;
            let c = if st.len() > 0 {
                cut_ears(polygon, positions@, st.drop_last(), Some(st.last()), m, tris0@)
            } else {
                cut_ears(polygon, positions@, st, None, m, tris0@)
            };
            &&& final(stack)@ == c.0
            &&& r == c.1
            &&& c.2.len() >= tris0@.len()
            &&& c.2.take(tris0@.len() as int) == tris0@
            &&& views(final(output)@) == views(old(output)@) + c.2.skip(tris0@.len() as int)
            &&& final(output)@.len() == old(output)@.len() + c.2.len() - tris0@.len()
            &&& final(stack)@.len() + (if r is Some {
                1int
            } else {
                0int
            }) + c.2.len() == st.len() + tris0@.len()
        }),
        stack_fresh(final(stack)@, visited@),
        forall|q: int| 0 <= q < final(stack)@.len() ==> (#[trigger] final(stack)@[q]).point != m.point,
        r matches Some(c) ==> c.point < polygon.vertices@.len() && c.point != m.point
            && visited@[c.point as int] && forall|q: int|
            0 <= q < final(stack)@.len() ==> (#[trigger] final(stack)@[q]).point != c.point,
        r is None ==> final(stack)@.len() == 0,
        extends_with_ring_triangles(out0@, final(output)@, polygon.vertices@),
        polygon.vertices@.no_duplicates() ==> new_triangles_distinct(out0@, final(output)@),
{
    let ghost pos = positions@;
    let ghost nodup = polygon.vertices@.no_duplicates();
    let ghost st = stack@;
    let ghost out1 = output@;
    let ghost c = if st.len() > 0 {
        cut_ears(polygon, pos, st.drop_last(), Some(st.last()), m, tris0@)
    } else {
        cut_ears(polygon, pos, st, None, m, tris0@)
    };
    let mut last_popped = stack.pop();
    proof {
        if st.len() > 0 {
            lemma_fresh_pop(st, visited@);
        }
    }
    let ghost mut cur = tris0@;
    proof {
        assert(cur.take(tris0@.len() as int) =~= tris0@);
        assert(views(output@) =~= views(out1) + cur.skip(tris0@.len() as int));
    }
    loop
        invariant
            ring_ok(polygon, positions@),
            pos == positions@,
            nodup == polygon.vertices@.no_duplicates(),
            m.point < polygon.vertices@.len(),
            visited@.len() == polygon.vertices@.len(),
            visited@[m.point as int],
            stack_fresh(stack@, visited@),
            forall|q: int| 0 <= q < stack@.len() ==> (#[trigger] stack@[q]).point != m.point,
            last_popped matches Some(lc) ==> lc.point < polygon.vertices@.len() && lc.point
                != m.point && visited@[lc.point as int] && forall|q: int|
                0 <= q < stack@.len() ==> (#[trigger] stack@[q]).point != lc.point,
            last_popped is None ==> stack@.len() == 0,
            extends_with_ring_triangles(out0@, output@, polygon.vertices@),
            nodup ==> new_triangles_distinct(out0@, output@),
            cut_ears(polygon, pos, stack@, last_popped, m, cur) == c,
            cur.len() >= tris0@.len(),
            cur.take(tris0@.len() as int) == tris0@,
            views(output@) == views(out1) + cur.skip(tris0@.len() as int),
            output@.len() == out1.len() + cur.len() - tris0@.len(),
            stack@.len() + (if last_popped is Some {
                1int
            } else {
                0int
            }) + cur.len() == st.len() + tris0@.len(),
        ensures
            c == (stack@, last_popped, cur),
            stack_fresh(stack@, visited@),
            forall|q: int| 0 <= q < stack@.len() ==> (#[trigger] stack@[q]).point != m.point,
            last_popped matches Some(lc) ==> lc.point < polygon.vertices@.len() && lc.point
                != m.point && visited@[lc.point as int] && forall|q: int|
                0 <= q < stack@.len() ==> (#[trigger] stack@[q]).point != lc.point,
            last_popped is None ==> stack@.len() == 0,
            extends_with_ring_triangles(out0@, output@, polygon.vertices@),
            nodup ==> new_triangles_distinct(out0@, output@),
            cur.len() >= tris0@.len(),
            cur.take(tris0@.len() as int) == tris0@,
            views(output@) == views(out1) + cur.skip(tris0@.len() as int),
            output@.len() == out1.len() + cur.len() - tris0@.len(),
            stack@.len() + (if last_popped is Some {
                1int
            } else {
                0int
            }) + cur.len() == st.len() + tris0@.len(),
        decreases stack@.len(),
    {
        let len = stack.len();
        if len < 1 {
            break;
        }
        let lp = match last_popped {
            Some(lc) => lc,
            None => {
                break;
            },
        };
        let mut c1 = stack[len - 1].point;
        let c2 = lp.point;
        let mut c3 = m.point;
        assert(c1 != c2 && c1 != c3 && c2 != c3);
        if m.direction == Direction::Backward {
            let t = c1;
            c1 = c3;
            c3 = t;
        }
        let v1 = positions_at(polygon, positions, c1);
        let v2 = positions_at(polygon, positions, c2);
        let v3 = positions_at(polygon, positions, c3);
        if cross_product(v2, v1, v3) < 0 {
            let ghost before = output@;
            emit(output, polygon, c1, c2, c3);
            proof {
                lemma_extends_trans(out0@, before, output@, polygon.vertices@);
                lemma_distinct_trans(out0@, before, output@, nodup);
                assert(output@ =~= before.push(output@.last()));
                lemma_views_push(before, output@.last());
                let t = tri(polygon, c1 as int, c2 as int, c3 as int);
                assert(output@.last()@ == t);
                assert(cur.push(t).take(tris0@.len() as int) =~= tris0@);
                assert(cur.push(t).skip(tris0@.len() as int) =~= cur.skip(tris0@.len() as int).push(t));
                cur = cur.push(t);
                assert(views(output@) =~= views(out1) + cur.skip(tris0@.len() as int));
            }
            let ghost st2 = stack@;
            last_popped = stack.pop();
            proof {
                lemma_fresh_pop(st2, visited@);
            }
        } else {
            break;
        }
    }
    last_popped
}

/// Position of point `i` of the ring.
pub open spec fn ring_position(polygon: &Polygon, pos: Seq<Vec2>, i: int) -> Vec2 {
    pos[polygon.vertices@[i] as int]
}

/// Type of point `i` of the ring between its two neighbours.
pub open spec fn ring_vertex_type(polygon: &Polygon, pos: Seq<Vec2>, i: int) -> VertexType {
    let n = polygon.vertices@.len() as int;
    vertex_type(
        ring_position(polygon, pos, step(i, n, Direction::Backward)),
        ring_position(polygon, pos, i),
        ring_position(polygon, pos, step(i, n, Direction::Forward)),
    )
}

/// No point of the ring is a split or a merge vertex.
pub open spec fn monotone_ring(polygon: &Polygon, pos: Seq<Vec2>) -> bool {
    forall|i: int|
        0 <= i < polygon.vertices@.len() ==> #[trigger] ring_vertex_type(polygon, pos, i)
            != VertexType::Split && ring_vertex_type(polygon, pos, i) != VertexType::Merge
}

/// Tells whether the ring is y-monotone: no point is a split or a merge vertex.
pub fn is_y_monotone(polygon: &Polygon, vertex_positions: &[Vec2]) -> (r: bool)
    requires
        ring_in_table(polygon.vertices@, vertex_positions@.len()),
    ensures
        r == monotone_ring(polygon, vertex_positions@),
{
    let n = polygon.vertices.len();
    let mut i: usize = 0;
    while i < n
        invariant
            ring_in_table(polygon.vertices@, vertex_positions@.len()),
            n == polygon.vertices@.len(),
            0 <= i <= n,
            forall|k: int|
                0 <= k < i ==> #[trigger] ring_vertex_type(polygon, vertex_positions@, k)
                    != VertexType::Split && ring_vertex_type(polygon, vertex_positions@, k)
                    != VertexType::Merge,
        decreases n - i,
    {
        let previous = positions_at(polygon, vertex_positions, polygon.advance(i, Direction::Backward));
        let current = positions_at(polygon, vertex_positions, i);
        let next = positions_at(polygon, vertex_positions, polygon.advance(i, Direction::Forward));
        let t = get_vertex_type(previous, current, next);
        assert(t == ring_vertex_type(polygon, vertex_positions@, i as int));
        match t {
            VertexType::Split | VertexType::Merge => {
                return false;
            },
            _ => {},
        }
        i += 1;
    }
    true
}

/// Position of the vertex at point `c` of the ring.
fn positions_at(polygon: &Polygon, positions: &[Vec2], c: usize) -> (r: Vec2)
    requires
        c < polygon.vertices@.len(),
        ring_in_table(polygon.vertices@, positions@.len()),
    ensures
        r == positions@[polygon.vertices@[c as int] as int],
{
    positions[polygon.vertices[c]]
}

} // verus!
