//! The sweep-line status: the edges that cross the sweep line, from left to right.
//!
//! An edge is named by the point it starts from: point `e` stands for the edge
//! from `e` to the next point of its ring.
use vstd::prelude::*;
use crate::geometry::{
    Intercept, Vec2, bounded_intercept, intercept_den, intercept_less_or_equal, intercept_num,
    intercept_reaches, intersect_segment_with_horizontal,
};
use crate::polygon::{ComplexPointId, ComplexPolygon, position_of, ring_in_table};
use crate::sorting::{
    insertion_sorted, is_sorted, lemma_insert_sorted_at, lemma_insertion_sorted_sorted,
    total_preorder,
};

verus! {

/// Numerator of the x coordinate where edge `e` crosses height `y`.
pub open spec fn edge_num(poly: ComplexPolygon, pos: Seq<Vec2>, e: ComplexPointId, y: i32) -> int {
    intercept_num(position_of(&poly, pos, e), position_of(&poly, pos, poly.next_of(e)), y)
}

/// Denominator matching [`edge_num`].
pub open spec fn edge_den(poly: ComplexPolygon, pos: Seq<Vec2>, e: ComplexPointId) -> int {
    intercept_den(position_of(&poly, pos, e), position_of(&poly, pos, poly.next_of(e)))
}

/// Edge `a` crosses height `y` at or to the left of edge `b`.
pub open spec fn status_order(poly: ComplexPolygon, pos: Seq<Vec2>, y: i32) -> spec_fn(
    ComplexPointId,
    ComplexPointId,
) -> bool {
    |a: ComplexPointId, b: ComplexPointId|
        edge_num(poly, pos, a, y) * edge_den(poly, pos, b) <= edge_num(poly, pos, b, y) * edge_den(
            poly,
            pos,
            a,
        )
}

/// The status after adding edge `e` with the sweep line at height `y`: the
/// edges, sorted (stably) by where they cross that height.
pub open spec fn status_added(
    poly: ComplexPolygon,
    pos: Seq<Vec2>,
    status: Seq<ComplexPointId>,
    e: ComplexPointId,
    y: i32,
) -> Seq<ComplexPointId> {
    insertion_sorted(status.push(e), status_order(poly, pos, y))
}

/// Holds of every edge but `e`.
pub open spec fn other_than(e: ComplexPointId) -> spec_fn(ComplexPointId) -> bool {
    |q: ComplexPointId| q != e
}

/// The status without edge `e`.
pub open spec fn status_removed(status: Seq<ComplexPointId>, e: ComplexPointId) -> Seq<
    ComplexPointId,
> {
    status.filter(other_than(e))
}

/// The first edge of the status that crosses the height of `cur` at or to the
/// right of `cur`.
pub open spec fn right_of(
    poly: ComplexPolygon,
    pos: Seq<Vec2>,
    status: Seq<ComplexPointId>,
    cur: Vec2,
) -> Option<ComplexPointId>
    decreases status.len(),
{
    if status.len() == 0 {
        None
    } else if edge_num(poly, pos, status[0], cur.y) >= cur.x * edge_den(poly, pos, status[0]) {
        Some(status[0])
    } else {
        right_of(poly, pos, status.drop_first(), cur)
    }
}

/// The polygon is well formed and each of its vertex ids has a position.
pub open spec fn geometry_ok(poly: &ComplexPolygon, pos: Seq<Vec2>) -> bool {
    poly.wf() && poly.in_table(pos.len())
}

/// All edges of `s` are points of `poly`.
pub open spec fn all_valid(poly: &ComplexPolygon, s: Seq<ComplexPointId>) -> bool {
    forall|k: int| 0 <= k < s.len() ==> poly.valid_point(#[trigger] s[k])
}

pub proof fn lemma_position_in_table(poly: &ComplexPolygon, pos: Seq<Vec2>, p: ComplexPointId)
    requires
        geometry_ok(poly, pos),
        poly.valid_point(p),
    ensures
        poly.vertex_of(p) < pos.len(),
{
    assert(ring_in_table(poly.ring(p.ring as int), pos.len()));
}

/// Position of the vertex at point `p`.
pub fn point_position(poly: &ComplexPolygon, positions: &[Vec2], p: ComplexPointId) -> (r: Vec2)
    requires
        geometry_ok(poly, positions@),
        poly.valid_point(p),
    ensures
        r == position_of(poly, positions@, p),
{
    proof {
        lemma_position_in_table(poly, positions@, p);
    }
    positions[poly.vertex(p)]
}

/// Where edge `e` crosses height `y`.
pub fn edge_intercept(poly: &ComplexPolygon, positions: &[Vec2], e: ComplexPointId, y: i32) -> (r:
    Intercept)
    requires
        geometry_ok(poly, positions@),
        poly.valid_point(e),
    ensures
        r.num == edge_num(*poly, positions@, e, y),
        r.den == edge_den(*poly, positions@, e),
        bounded_intercept(r),
{
    let a = point_position(poly, positions, e);
    let b = point_position(poly, positions, poly.next(e));
    intersect_segment_with_horizontal(a, b, y)
}

/// Sorts the status stably by where the edges cross height `y`.
fn sort_status(poly: &ComplexPolygon, positions: &[Vec2], v: &mut Vec<ComplexPointId>, y: i32)
    requires
        geometry_ok(poly, positions@),
        all_valid(poly, old(v)@),
    ensures
        final(v)@ == insertion_sorted(old(v)@, status_order(*poly, positions@, y)),
        all_valid(poly, final(v)@),
{
    let ghost orig = v@;
    let ghost le = status_order(*poly, positions@, y);
    let n = v.len();
    let mut i: usize = 0;
    proof {
        assert(orig.take(0) =~= Seq::<ComplexPointId>::empty());
        assert(v@ =~= insertion_sorted(orig.take(0), le) + orig.skip(0));
    }
    while i < n
        invariant
            0 <= i <= n,
            n == orig.len(),
            v@ == insertion_sorted(orig.take(i as int), le) + orig.skip(i as int),
            insertion_sorted(orig.take(i as int), le).len() == i,
            all_valid(poly, v@),
            geometry_ok(poly, positions@),
            le == status_order(*poly, positions@, y),
        decreases n - i,
    {
        let ghost prefix = insertion_sorted(orig.take(i as int), le);
        let x = v[i];
        assert(x == orig[i as int]);
        let kx = edge_intercept(poly, positions, x, y);
        let mut j: usize = 0;
        while j < i && intercept_less_or_equal(edge_intercept(poly, positions, v[j], y), kx)
            invariant
                0 <= j <= i < n,
                v@.len() == n,
                forall|k: int| 0 <= k < j ==> #[trigger] le(v@[k], x),
                all_valid(poly, v@),
                geometry_ok(poly, positions@),
                le == status_order(*poly, positions@, y),
                kx.num == edge_num(*poly, positions@, x, y),
                kx.den == edge_den(*poly, positions@, x),
                bounded_intercept(kx),
            decreases i - j,
        {
            j += 1;
        }
        assert(forall|k: int| 0 <= k < j ==> #[trigger] prefix[k] == v@[k]);
        v.remove(i);
        v.insert(j, x);
        proof {
            lemma_insert_sorted_at(prefix, x, le, j as int);
            assert(orig.take(i + 1).drop_last() =~= orig.take(i as int));
            assert(orig.take(i + 1).last() == x);
            assert(v@ =~= insertion_sorted(orig.take(i + 1), le) + orig.skip(i + 1));
        }
        i += 1;
    }
    proof {
        assert(orig.take(n as int) =~= orig);
        assert(v@ =~= insertion_sorted(orig, le));
    }
}

proof fn lemma_fraction_le_trans(na: int, da: int, nb: int, db: int, nc: int, dc: int)
    requires
        da > 0,
        db > 0,
        dc > 0,
        na * db <= nb * da,
        nb * dc <= nc * db,
    ensures
        na * dc <= nc * da,
{
    assert(db * (na * dc) <= db * (nc * da)) by (nonlinear_arith)
        requires
            da > 0,
            db > 0,
            dc > 0,
            na * db <= nb * da,
            nb * dc <= nc * db,
    ;
    assert(na * dc <= nc * da) by (nonlinear_arith)
        requires
            db > 0,
            db * (na * dc) <= db * (nc * da),
    ;
}

/// Comparing edges by where they cross a height is total and transitive.
pub proof fn lemma_status_order_total(poly: ComplexPolygon, pos: Seq<Vec2>, y: i32)
    ensures
        total_preorder(status_order(poly, pos, y)),
{
    let le = status_order(poly, pos, y);
    assert forall|a: ComplexPointId, b: ComplexPointId, c: ComplexPointId|
        #[trigger] le(a, b) && #[trigger] le(b, c) implies le(a, c) by {
        lemma_fraction_le_trans(
            edge_num(poly, pos, a, y),
            edge_den(poly, pos, a),
            edge_num(poly, pos, b, y),
            edge_den(poly, pos, b),
            edge_num(poly, pos, c, y),
            edge_den(poly, pos, c),
        );
    }
}

/// Sweep-status consistency: after an edge is added at height `y`, the active
/// edges cross that height in non-decreasing order of x, from left to right.
pub proof fn lemma_status_added_sorted(
    poly: ComplexPolygon,
    pos: Seq<Vec2>,
    status: Seq<ComplexPointId>,
    e: ComplexPointId,
    y: i32,
)
    ensures
        is_sorted(status_added(poly, pos, status, e, y), status_order(poly, pos, y)),
{
    lemma_status_order_total(poly, pos, y);
    lemma_insertion_sorted_sorted(status.push(e), status_order(poly, pos, y));
}

/// Adds edge `e` to the status and sorts it by where the edges cross height `y`.
pub fn sweep_add(
    poly: &ComplexPolygon,
    positions: &[Vec2],
    status: &mut Vec<ComplexPointId>,
    e: ComplexPointId,
    y: i32,
)
    requires
        geometry_ok(poly, positions@),
        all_valid(poly, old(status)@),
        poly.valid_point(e),
    ensures
        final(status)@ == status_added(*poly, positions@, old(status)@, e, y),
        is_sorted(final(status)@, status_order(*poly, positions@, y)),
        all_valid(poly, final(status)@),
{
    status.push(e);
    sort_status(poly, positions, status, y);
    proof {
        lemma_status_added_sorted(*poly, positions@, old(status)@, e, y);
    }
}

/// Removes every occurrence of edge `e` from the status.
pub fn sweep_remove(poly: &ComplexPolygon, status: &mut Vec<ComplexPointId>, e: ComplexPointId)
    requires
        all_valid(poly, old(status)@),
    ensures
        final(status)@ == status_removed(old(status)@, e),
        all_valid(poly, final(status)@),
{
    let ghost orig = status@;
    let mut out: Vec<ComplexPointId> = Vec::new();
    let mut i: usize = 0;
    proof {
        assert(orig.take(0) =~= Seq::<ComplexPointId>::empty());
        reveal(Seq::filter);
    }
    while i < status.len()
        invariant
            0 <= i <= orig.len(),
            status@ == orig,
            out@ == status_removed(orig.take(i as int), e),
            all_valid(poly, orig),
            all_valid(poly, out@),
        decreases orig.len() - i,
    {
        let q = status[i];
        proof {
            reveal(Seq::filter);
            assert(orig.take(i + 1).drop_last() =~= orig.take(i as int));
            assert(orig.take(i + 1).last() == q);
        }
        if q != e {
            out.push(q);
        }
        i += 1;
    }
    proof {
        assert(orig.take(orig.len() as int) =~= orig);
    }
    *status = out;
}

/// Finds the edge of the status directly to the right of `current`, if any.
pub fn find_right_of_current_vertex(
    poly: &ComplexPolygon,
    positions: &[Vec2],
    status: &Vec<ComplexPointId>,
    current: Vec2,
) -> (r: Option<ComplexPointId>)
    requires
        geometry_ok(poly, positions@),
        all_valid(poly, status@),
    ensures
        r == right_of(*poly, positions@, status@, current),
        r matches Some(e) ==> poly.valid_point(e),
{
    let mut i: usize = 0;
    proof {
        assert(status@.skip(0) =~= status@);
    }
    while i < status.len()
        invariant
            0 <= i <= status@.len(),
            right_of(*poly, positions@, status@, current) == right_of(
                *poly,
                positions@,
                status@.skip(i as int),
                current,
            ),
            geometry_ok(poly, positions@),
            all_valid(poly, status@),
        decreases status@.len() - i,
    {
        let e = status[i];
        let x = edge_intercept(poly, positions, e, current.y);
        proof {
            assert(status@.skip(i as int)[0] == e);
            assert(status@.skip(i as int).drop_first() =~= status@.skip(i + 1));
        }
        if intercept_reaches(x, current.x) {
            return Some(e);
        }
        i += 1;
    }
    None
}

} // verus!
