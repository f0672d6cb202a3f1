//! Plane-sweep decomposition of a polygon with holes into y-monotone pieces.
use vstd::prelude::*;
use crate::geometry::{Vec2, VertexType, below, get_vertex_type, is_below, vertex_type};
use crate::polygon::{
    ComplexPointId, ComplexPolygon, Diagonals, diagonals_valid, position_of, ring_in_table,
};
use crate::sorting::{insertion_sorted, lemma_insert_sorted_at, lemma_insertion_sorted_contains};
use crate::sweep::{
    all_valid, find_right_of_current_vertex, geometry_ok, point_position, right_of, status_added,
    status_removed, sweep_add, sweep_remove,
};

verus! {

/// Why a decomposition was refused.
#[derive(Clone, Copy, PartialEq, Eq, Structural, Debug)]
pub enum DecompositionError {
    OpenPath,
    /// A hole is not wound counter-clockwise (y pointing down).
    WrongWindingOrder,
    MissingFace,
    /// The sweep met a vertex with no edge to its right, or an edge without a
    /// helper: the rings are not a simple polygon with holes.
    MalformedPolygon,
}

/// For an edge, the last vertex seen from it and that vertex's type.
pub type HelperEntry = Option<(ComplexPointId, VertexType)>;

/// State of the sweep after some vertices.
pub struct SweepModel {
    /// Active edges, left to right.
    pub status: Seq<ComplexPointId>,
    /// Helper of each point's edge, by ring and by point.
    pub helper: Seq<Seq<HelperEntry>>,
    /// Diagonals added so far.
    pub diagonals: Seq<(ComplexPointId, ComplexPointId)>,
    /// The sweep met a malformed configuration and stopped.
    pub failed: bool,
}

pub open spec fn helper_at(h: Seq<Seq<HelperEntry>>, p: ComplexPointId) -> HelperEntry {
    h[p.ring as int][p.point as int]
}

pub open spec fn helper_put(h: Seq<Seq<HelperEntry>>, p: ComplexPointId, v: HelperEntry) -> Seq<
    Seq<HelperEntry>,
> {
    h.update(p.ring as int, h[p.ring as int].update(p.point as int, v))
}

/// A helper table with one empty entry per point.
pub open spec fn empty_helper(poly: ComplexPolygon) -> Seq<Seq<HelperEntry>> {
    Seq::new(
        poly.num_rings() as nat,
        |r: int| Seq::new(poly.ring(r).len(), |i: int| None::<(ComplexPointId, VertexType)>),
    )
}

/// The table has one entry per point of `poly`.
pub open spec fn helper_shaped(poly: &ComplexPolygon, h: Seq<Seq<HelperEntry>>) -> bool {
    &&& h.len() == poly.num_rings()
    &&& forall|r: int| 0 <= r < h.len() ==> #[trigger] h[r].len() == poly.ring(r).len()
}

/// Before the first point: nothing active, no helper, the diagonals `d0`.
pub open spec fn initial_model(poly: ComplexPolygon, d0: Seq<(ComplexPointId, ComplexPointId)>) -> SweepModel {
    SweepModel {
        status: Seq::empty(),
        helper: empty_helper(poly),
        diagonals: d0,
        failed: false,
    }
}

/// Adds the diagonal from the helper of `edge` to `e` when that helper is a merge vertex.
pub open spec fn connect_if_merge(m: SweepModel, e: ComplexPointId, edge: ComplexPointId) -> SweepModel {
    match helper_at(m.helper, edge) {
        Some((h, VertexType::Merge)) => SweepModel { diagonals: m.diagonals.push((h, e)), ..m },
        _ => m,
    }
}

/// The sweep stops in state `m`.
pub open spec fn fail(m: SweepModel) -> SweepModel {
    SweepModel { failed: true, ..m }
}

/// Processing point `e` of `poly`.
pub open spec fn sweep_step(
    poly: ComplexPolygon,
    pos: Seq<Vec2>,
    m: SweepModel,
    e: ComplexPointId,
) -> SweepModel {
    let prev = poly.previous_of(e);
    let cur = position_of(&poly, pos, e);
    let t = vertex_type(position_of(&poly, pos, prev), cur, position_of(&poly, pos, poly.next_of(e)));
    if m.failed {
        m
    } else {
        match t {
            VertexType::Start => SweepModel {
                status: status_added(poly, pos, m.status, e, cur.y),
                helper: helper_put(m.helper, e, Some((e, t))),
                ..m
            },
            VertexType::End => {
                let m1 = connect_if_merge(m, e, prev);
                SweepModel { status: status_removed(m1.status, prev), ..m1 }
            },
            VertexType::Split => match right_of(poly, pos, m.status, cur) {
                None => fail(m),
                Some(ej) => match helper_at(m.helper, ej) {
                    None => fail(m),
                    Some((h, _)) => SweepModel {
                        status: status_added(poly, pos, m.status, e, cur.y),
                        helper: helper_put(helper_put(m.helper, ej, Some((e, t))), e, Some((e, t))),
                        diagonals: m.diagonals.push((e, h)),
                        failed: false,
                    },
                },
            },
            VertexType::Merge => {
                let m1 = connect_if_merge(m, e, prev);
                let m2 = SweepModel { status: status_removed(m1.status, prev), ..m1 };
                match right_of(poly, pos, m2.status, cur) {
                    None => fail(m2),
                    Some(ej) => {
                        let m3 = connect_if_merge(m2, e, ej);
                        SweepModel { helper: helper_put(m3.helper, ej, Some((e, t))), ..m3 }
                    },
                }
            },
            VertexType::Right => {
                let m1 = connect_if_merge(m, e, prev);
                SweepModel {
                    status: status_added(poly, pos, status_removed(m1.status, prev), e, cur.y),
                    helper: helper_put(helper_put(m1.helper, prev, None), e, Some((e, t))),
                    ..m1
                }
            },
            VertexType::Left => match right_of(poly, pos, m.status, cur) {
                None => fail(m),
                Some(ej) => {
                    let m1 = connect_if_merge(m, e, ej);
                    SweepModel { helper: helper_put(m1.helper, ej, Some((e, t))), ..m1 }
                },
            },
        }
    }
}

/// The sweep over the points `pts`, in that order, starting with the diagonals `d0`.
pub open spec fn sweep_run(
    poly: ComplexPolygon,
    pos: Seq<Vec2>,
    pts: Seq<ComplexPointId>,
    d0: Seq<(ComplexPointId, ComplexPointId)>,
) -> SweepModel
    decreases pts.len(),
{
    if pts.len() == 0 {
        initial_model(poly, d0)
    } else {
        sweep_step(poly, pos, sweep_run(poly, pos, pts.drop_last(), d0), pts.last())
    }
}

/// Point `a` is not below point `b`.
pub open spec fn point_order(poly: ComplexPolygon, pos: Seq<Vec2>) -> spec_fn(
    ComplexPointId,
    ComplexPointId,
) -> bool {
    |a: ComplexPointId, b: ComplexPointId|
        !below(position_of(&poly, pos, a), position_of(&poly, pos, b))
}

/// All points from top to bottom, ties kept in ring order.
pub open spec fn sweep_order(poly: ComplexPolygon, pos: Seq<Vec2>) -> Seq<ComplexPointId> {
    insertion_sorted(poly.all_points(), point_order(poly, pos))
}

/// The whole sweep of `poly`, adding to the diagonals `d0`.
pub open spec fn decomposition(
    poly: ComplexPolygon,
    pos: Seq<Vec2>,
    d0: Seq<(ComplexPointId, ComplexPointId)>,
) -> SweepModel {
    sweep_run(poly, pos, sweep_order(poly, pos), d0)
}

/// Twice the signed area of ring `r` over its first `k` edges (shoelace sum);
/// positive for a ring wound clockwise with y pointing down.
pub open spec fn shoelace(poly: ComplexPolygon, pos: Seq<Vec2>, r: int, k: int) -> int
    decreases k,
{
    if k <= 0 {
        0
    } else {
        let ring = poly.ring(r);
        let a = pos[ring[k - 1] as int];
        let b = pos[ring[if k == ring.len() { 0 } else { k }] as int];
        shoelace(poly, pos, r, k - 1) + (a.x * b.y - b.x * a.y)
    }
}

/// Every hole is wound counter-clockwise (y pointing down): its shoelace sum is negative.
pub open spec fn holes_wound_ccw(poly: ComplexPolygon, pos: Seq<Vec2>) -> bool {
    forall|r: int|
        1 <= r < poly.num_rings() ==> #[trigger] shoelace(poly, pos, r, poly.ring(r).len() as int)
            < 0
}

pub open spec fn table_view(t: Seq<Vec<HelperEntry>>) -> Seq<Seq<HelperEntry>> {
    Seq::new(t.len(), |r: int| t[r]@)
}

/// The sweep never restarts once it has stopped.
proof fn lemma_failed_sticky(
    poly: ComplexPolygon,
    pos: Seq<Vec2>,
    pts: Seq<ComplexPointId>,
    d0: Seq<(ComplexPointId, ComplexPointId)>,
    i: int,
)
    requires
        0 <= i <= pts.len(),
        sweep_run(poly, pos, pts.take(i), d0).failed,
    ensures
        sweep_run(poly, pos, pts, d0) == sweep_run(poly, pos, pts.take(i), d0),
    decreases pts.len() - i,
{
    if i < pts.len() {
        assert(pts.take(i + 1).drop_last() =~= pts.take(i));
        assert(sweep_run(poly, pos, pts.take(i + 1), d0) == sweep_run(poly, pos, pts.take(i), d0));
        lemma_failed_sticky(poly, pos, pts, d0, i + 1);
    } else {
        assert(pts.take(i) =~= pts);
    }
}

/// Can perform y-monotone decomposition of polygons with holes.
///
/// It keeps its buffers between decompositions so that later ones can reuse them.
pub struct DecompositionContext {
    sorted_edges: Vec<ComplexPointId>,
    sweep_state: Vec<ComplexPointId>,
    helper: Vec<Vec<HelperEntry>>,
}

fn helper_get(helper: &Vec<Vec<HelperEntry>>, p: ComplexPointId) -> (r: HelperEntry)
    requires
        p.ring < helper@.len(),
        p.point < helper@[p.ring as int]@.len(),
    ensures
        r == helper_at(table_view(helper@), p),
{
    helper[p.ring][p.point]
}

fn helper_set(helper: &mut Vec<Vec<HelperEntry>>, p: ComplexPointId, v: HelperEntry)
    requires
        p.ring < old(helper)@.len(),
        p.point < old(helper)@[p.ring as int]@.len(),
    ensures
        table_view(final(helper)@) == helper_put(table_view(old(helper)@), p, v),
        final(helper)@.len() == old(helper)@.len(),
        forall|r: int|
            0 <= r < old(helper)@.len() ==> (#[trigger] final(helper)@[r])@.len() == old(
                helper,
            )@[r]@.len(),
{
    let mut row = helper.remove(p.ring);
    row.set(p.point, v);
    helper.insert(p.ring, row);
    assert(table_view(helper@) =~= helper_put(table_view(old(helper)@), p, v));
    assert forall|r: int| 0 <= r < old(helper)@.len() implies (#[trigger] helper@[r])@.len() == old(
        helper,
    )@[r]@.len() by {
        assert(helper@[r]@ == table_view(helper@)[r]);
        assert(old(helper)@[r]@ == table_view(old(helper)@)[r]);
    }
}

/// Adds the diagonal from the helper of `helper_edge` to `current_edge` when that
/// helper is a merge vertex.
fn connect_with_helper_if_merge(
    current_edge: ComplexPointId,
    helper_edge: ComplexPointId,
    helper: &Vec<Vec<HelperEntry>>,
    diagonals: &mut Diagonals,
)
    requires
        helper_edge.ring < helper@.len(),
        helper_edge.point < helper@[helper_edge.ring as int]@.len(),
    ensures
        final(diagonals).pairs@ == match helper_at(table_view(helper@), helper_edge) {
            Some((h, VertexType::Merge)) => old(diagonals).pairs@.push((h, current_edge)),
            _ => old(diagonals).pairs@,
        },
{
    if let Some((h, VertexType::Merge)) = helper_get(helper, helper_edge) {
        diagonals.add_diagonal(h, current_edge);
    }
}

/// The exec table has one entry per point of `poly`.
pub open spec fn rows_shaped(poly: &ComplexPolygon, t: Seq<Vec<HelperEntry>>) -> bool {
    &&& t.len() == poly.num_rings()
    &&& forall|r: int| 0 <= r < t.len() ==> (#[trigger] t[r])@.len() == poly.ring(r).len()
}

/// The model state that the exec state stands for.
pub open spec fn model_of(
    status: Seq<ComplexPointId>,
    helper: Seq<Vec<HelperEntry>>,
    diagonals: Seq<(ComplexPointId, ComplexPointId)>,
) -> SweepModel {
    SweepModel { status, helper: table_view(helper), diagonals, failed: false }
}

/// Processes point `e`: one step of the sweep. Returns `false` where the sweep stops.
fn process_vertex(
    polygon: &ComplexPolygon,
    positions: &[Vec2],
    status: &mut Vec<ComplexPointId>,
    helper: &mut Vec<Vec<HelperEntry>>,
    diagonals: &mut Diagonals,
    e: ComplexPointId,
) -> (ok: bool)
    requires
        geometry_ok(polygon, positions@),
        polygon.valid_point(e),
        all_valid(polygon, old(status)@),
        rows_shaped(polygon, old(helper)@),
    ensures
        ({
            let m = sweep_step(
                *polygon,
                positions@,
                model_of(old(status)@, old(helper)@, old(diagonals).pairs@),
                e,
            );
            &&& final(status)@ == m.status
            &&& table_view(final(helper)@) == m.helper
            &&& final(diagonals).pairs@ == m.diagonals
            &&& ok == !m.failed
        }),
        all_valid(polygon, final(status)@),
        rows_shaped(polygon, final(helper)@),
{
    let prev = polygon.previous(e);
    let next = polygon.next(e);
    let current_vertex = point_position(polygon, positions, e);
    let previous_vertex = point_position(polygon, positions, prev);
    let next_vertex = point_position(polygon, positions, next);
    let vertex_type = get_vertex_type(previous_vertex, current_vertex, next_vertex);
    match vertex_type {
        VertexType::Start => {
            sweep_add(polygon, positions, status, e, current_vertex.y);
            helper_set(helper, e, Some((e, vertex_type)));
            true
        },
        VertexType::End => {
            connect_with_helper_if_merge(e, prev, helper, diagonals);
            sweep_remove(polygon, status, prev);
            true
        },
        VertexType::Split => {
            match find_right_of_current_vertex(polygon, positions, status, current_vertex) {
                None => false,
                Some(ej) => {
                    match helper_get(helper, ej) {
                        None => false,
                        Some((helper_edge, _)) => {
                            diagonals.add_diagonal(e, helper_edge);
                            helper_set(helper, ej, Some((e, vertex_type)));
                            sweep_add(polygon, positions, status, e, current_vertex.y);
                            helper_set(helper, e, Some((e, vertex_type)));
                            true
                        },
                    }
                },
            }
        },
        VertexType::Merge => {
            connect_with_helper_if_merge(e, prev, helper, diagonals);
            sweep_remove(polygon, status, prev);
            match find_right_of_current_vertex(polygon, positions, status, current_vertex) {
                None => false,
                Some(ej) => {
                    connect_with_helper_if_merge(e, ej, helper, diagonals);
                    helper_set(helper, ej, Some((e, vertex_type)));
                    true
                },
            }
        },
        VertexType::Right => {
            connect_with_helper_if_merge(e, prev, helper, diagonals);
            helper_set(helper, prev, None);
            sweep_remove(polygon, status, prev);
            sweep_add(polygon, positions, status, e, current_vertex.y);
            helper_set(helper, e, Some((e, vertex_type)));
            true
        },
        VertexType::Left => {
            match find_right_of_current_vertex(polygon, positions, status, current_vertex) {
                None => false,
                Some(ej) => {
                    connect_with_helper_if_merge(e, ej, helper, diagonals);
                    helper_set(helper, ej, Some((e, vertex_type)));
                    true
                },
            }
        },
    }
}

/// Every point that the model holds is a point of `poly`.
pub open spec fn model_valid(poly: &ComplexPolygon, m: SweepModel) -> bool {
    &&& all_valid(poly, m.status)
    &&& helper_shaped(poly, m.helper)
    &&& forall|r: int, i: int|
        0 <= r < m.helper.len() && 0 <= i < m.helper[r].len() ==> (#[trigger] m.helper[r][i] matches Some(
            (h, _),
        ) ==> poly.valid_point(h))
    &&& diagonals_valid(poly, m.diagonals)
}

proof fn lemma_added_valid(
    poly: ComplexPolygon,
    pos: Seq<Vec2>,
    status: Seq<ComplexPointId>,
    e: ComplexPointId,
    y: i32,
)
    requires
        all_valid(&poly, status),
        poly.valid_point(e),
    ensures
        all_valid(&poly, status_added(poly, pos, status, e, y)),
{
    let s = status.push(e);
    lemma_insertion_sorted_contains(s, crate::sweep::status_order(poly, pos, y));
    let r = status_added(poly, pos, status, e, y);
    assert forall|k: int| 0 <= k < r.len() implies poly.valid_point(#[trigger] r[k]) by {
        assert(s.contains(r[k]));
        let j = choose|j: int| 0 <= j < s.len() && s[j] == r[k];
        if j < status.len() {
            assert(s[j] == status[j]);
        }
    }
}

proof fn lemma_removed_valid(poly: ComplexPolygon, status: Seq<ComplexPointId>, e: ComplexPointId)
    requires
        all_valid(&poly, status),
    ensures
        all_valid(&poly, status_removed(status, e)),
{
    let r = status_removed(status, e);
    assert forall|k: int| 0 <= k < r.len() implies poly.valid_point(#[trigger] r[k]) by {
        assert(r.contains(r[k]));
        status.lemma_filter_contains_rev(crate::sweep::other_than(e), r[k]);
    }
}

proof fn lemma_right_of_valid(poly: ComplexPolygon, pos: Seq<Vec2>, status: Seq<ComplexPointId>, cur: Vec2)
    requires
        all_valid(&poly, status),
    ensures
        right_of(poly, pos, status, cur) matches Some(x) ==> poly.valid_point(x),
    decreases status.len(),
{
    if status.len() > 0 {
        let t = status.drop_first();
        assert forall|k: int| 0 <= k < t.len() implies poly.valid_point(#[trigger] t[k]) by {
            assert(t[k] == status[k + 1]);
        }
        lemma_right_of_valid(poly, pos, t, cur);
    }
}

proof fn lemma_put_valid(poly: ComplexPolygon, m: SweepModel, p: ComplexPointId, v: HelperEntry)
    requires
        model_valid(&poly, m),
        poly.valid_point(p),
        v matches Some((h, _)) ==> poly.valid_point(h),
    ensures
        model_valid(&poly, SweepModel { helper: helper_put(m.helper, p, v), ..m }),
{
    let h2 = helper_put(m.helper, p, v);
    assert forall|r: int| 0 <= r < h2.len() implies #[trigger] h2[r].len() == poly.ring(r).len() by {
        if r != p.ring {
            assert(h2[r] == m.helper[r]);
        }
    }
    assert forall|r: int, i: int| 0 <= r < h2.len() && 0 <= i < h2[r].len() implies (
    #[trigger] h2[r][i] matches Some((h, _)) ==> poly.valid_point(h)) by {
        if r != p.ring || i != p.point {
            assert(h2[r][i] == m.helper[r][i]);
        }
    }
}

proof fn lemma_connect_valid(poly: ComplexPolygon, m: SweepModel, e: ComplexPointId, edge: ComplexPointId)
    requires
        model_valid(&poly, m),
        poly.valid_point(e),
        poly.valid_point(edge),
    ensures
        model_valid(&poly, connect_if_merge(m, e, edge)),
{
    let m2 = connect_if_merge(m, e, edge);
    assert(m.helper[edge.ring as int].len() == poly.ring(edge.ring as int).len());
    assert forall|k: int| 0 <= k < m2.diagonals.len() implies poly.valid_point(
        #[trigger] m2.diagonals[k].0,
    ) && poly.valid_point(m2.diagonals[k].1) by {
        if k < m.diagonals.len() {
            assert(m2.diagonals[k] == m.diagonals[k]);
        }
    }
}

/// One step of the sweep keeps every point it holds a point of `poly`.
proof fn lemma_step_valid(poly: ComplexPolygon, pos: Seq<Vec2>, m: SweepModel, e: ComplexPointId)
    requires
        model_valid(&poly, m),
        poly.valid_point(e),
    ensures
        model_valid(&poly, sweep_step(poly, pos, m, e)),
{
    let prev = poly.previous_of(e);
    let cur = position_of(&poly, pos, e);
    let t = vertex_type(position_of(&poly, pos, prev), cur, position_of(&poly, pos, poly.next_of(e)));
    assert(poly.valid_point(prev));
    if !m.failed {
        lemma_right_of_valid(poly, pos, m.status, cur);
        match t {
            VertexType::Start => {
                lemma_added_valid(poly, pos, m.status, e, cur.y);
                lemma_put_valid(poly, SweepModel { status: status_added(poly, pos, m.status, e, cur.y), ..m }, e, Some((e, t)));
            },
            VertexType::End => {
                lemma_connect_valid(poly, m, e, prev);
                lemma_removed_valid(poly, connect_if_merge(m, e, prev).status, prev);
            },
            VertexType::Split => {
                match right_of(poly, pos, m.status, cur) {
                    None => {},
                    Some(ej) => {
                        assert(m.helper[ej.ring as int].len() == poly.ring(ej.ring as int).len());
                        match helper_at(m.helper, ej) {
                            None => {},
                            Some((h, _)) => {
                                lemma_added_valid(poly, pos, m.status, e, cur.y);
                                let m1 = SweepModel {
                                    status: status_added(poly, pos, m.status, e, cur.y),
                                    diagonals: m.diagonals.push((e, h)),
                                    ..m
                                };
                                assert(model_valid(&poly, m1)) by {
                                    assert forall|k: int| 0 <= k < m1.diagonals.len() implies poly.valid_point(
                                        #[trigger] m1.diagonals[k].0,
                                    ) && poly.valid_point(m1.diagonals[k].1) by {
                                        if k < m.diagonals.len() {
                                            assert(m1.diagonals[k] == m.diagonals[k]);
                                        }
                                    }
                                }
                                lemma_put_valid(poly, m1, ej, Some((e, t)));
                                let m2 = SweepModel { helper: helper_put(m1.helper, ej, Some((e, t))), ..m1 };
                                lemma_put_valid(poly, m2, e, Some((e, t)));
                                assert(sweep_step(poly, pos, m, e) == SweepModel { helper: helper_put(m2.helper, e, Some((e, t))), ..m2 });
                            },
                        }
                    },
                }
            },
            VertexType::Merge => {
                lemma_connect_valid(poly, m, e, prev);
                let m1 = connect_if_merge(m, e, prev);
                lemma_removed_valid(poly, m1.status, prev);
                let m2 = SweepModel { status: status_removed(m1.status, prev), ..m1 };
                lemma_right_of_valid(poly, pos, m2.status, cur);
                match right_of(poly, pos, m2.status, cur) {
                    None => {},
                    Some(ej) => {
                        lemma_connect_valid(poly, m2, e, ej);
                        lemma_put_valid(poly, connect_if_merge(m2, e, ej), ej, Some((e, t)));
                    },
                }
            },
            VertexType::Right => {
                lemma_connect_valid(poly, m, e, prev);
                let m1 = connect_if_merge(m, e, prev);
                lemma_removed_valid(poly, m1.status, prev);
                lemma_added_valid(poly, pos, status_removed(m1.status, prev), e, cur.y);
                let m2 = SweepModel { status: status_added(poly, pos, status_removed(m1.status, prev), e, cur.y), ..m1 };
                lemma_put_valid(poly, m2, prev, None);
                let m3 = SweepModel { helper: helper_put(m2.helper, prev, None), ..m2 };
                lemma_put_valid(poly, m3, e, Some((e, t)));
            },
            VertexType::Left => {
                match right_of(poly, pos, m.status, cur) {
                    None => {},
                    Some(ej) => {
                        lemma_connect_valid(poly, m, e, ej);
                        lemma_put_valid(poly, connect_if_merge(m, e, ej), ej, Some((e, t)));
                    },
                }
            },
        }
    }
}

proof fn lemma_run_valid(poly: ComplexPolygon, pos: Seq<Vec2>, pts: Seq<ComplexPointId>, d0: Seq<(ComplexPointId, ComplexPointId)>)
    requires
        poly.wf(),
        all_valid(&poly, pts),
        diagonals_valid(&poly, d0),
    ensures
        model_valid(&poly, sweep_run(poly, pos, pts, d0)),
    decreases pts.len(),
{
    if pts.len() == 0 {
        let m = initial_model(poly, d0);
        assert(helper_shaped(&poly, m.helper));
    } else {
        let t = pts.drop_last();
        assert forall|k: int| 0 <= k < t.len() implies poly.valid_point(#[trigger] t[k]) by {
            assert(t[k] == pts[k]);
        }
        lemma_run_valid(poly, pos, t, d0);
        assert(poly.valid_point(pts[pts.len() - 1]));
        lemma_step_valid(poly, pos, sweep_run(poly, pos, t, d0), pts.last());
    }
}

pub proof fn lemma_points_of_rings_valid(poly: ComplexPolygon, k: int)
    requires
        poly.wf(),
        0 <= k <= poly.num_rings(),
    ensures
        all_valid(&poly, poly.points_of_rings(k)),
    decreases k,
{
    if k > 0 {
        lemma_points_of_rings_valid(poly, k - 1);
        let a = poly.points_of_rings(k - 1);
        let s = poly.points_of_rings(k);
        assert forall|j: int| 0 <= j < s.len() implies poly.valid_point(#[trigger] s[j]) by {
            if j < a.len() {
                assert(s[j] == a[j]);
            } else {
                assert(poly.ring(k - 1).len() <= usize::MAX);
                assert(s[j] == ComplexPointId { ring: (k - 1) as usize, point: (j - a.len()) as usize });
            }
        }
    }
}

/// Every diagonal of the decomposition joins two points of the polygon, where
/// the diagonals it started from did.
pub proof fn lemma_decomposition_diagonals_valid(
    poly: ComplexPolygon,
    pos: Seq<Vec2>,
    d0: Seq<(ComplexPointId, ComplexPointId)>,
)
    requires
        geometry_ok(&poly, pos),
        diagonals_valid(&poly, d0),
    ensures
        diagonals_valid(&poly, decomposition(poly, pos, d0).diagonals),
{
    let all = poly.all_points();
    lemma_points_of_rings_valid(poly, poly.num_rings());
    let order = sweep_order(poly, pos);
    lemma_insertion_sorted_contains(all, point_order(poly, pos));
    assert forall|k: int| 0 <= k < order.len() implies poly.valid_point(#[trigger] order[k]) by {
        assert(all.contains(order[k]));
        let j = choose|j: int| 0 <= j < all.len() && all[j] == order[k];
    }
    lemma_run_valid(poly, pos, order, d0);
}

/// `b` is `a` followed by more diagonals.
pub open spec fn appends(
    a: Seq<(ComplexPointId, ComplexPointId)>,
    b: Seq<(ComplexPointId, ComplexPointId)>,
) -> bool {
    b.len() >= a.len() && b.take(a.len() as int) == a
}

proof fn lemma_appends_push(
    a: Seq<(ComplexPointId, ComplexPointId)>,
    b: Seq<(ComplexPointId, ComplexPointId)>,
    x: (ComplexPointId, ComplexPointId),
)
    requires
        appends(a, b),
    ensures
        appends(a, b.push(x)),
{
    assert(b.push(x).take(a.len() as int) =~= b.take(a.len() as int));
}

proof fn lemma_connect_appends(m: SweepModel, e: ComplexPointId, edge: ComplexPointId)
    ensures
        appends(m.diagonals, connect_if_merge(m, e, edge).diagonals),
{
    assert(m.diagonals.take(m.diagonals.len() as int) =~= m.diagonals);
    if let Some((h, VertexType::Merge)) = helper_at(m.helper, edge) {
        lemma_appends_push(m.diagonals, m.diagonals, (h, e));
    }
}

proof fn lemma_step_appends(poly: ComplexPolygon, pos: Seq<Vec2>, m: SweepModel, e: ComplexPointId)
    ensures
        appends(m.diagonals, sweep_step(poly, pos, m, e).diagonals),
{
    let d = m.diagonals;
    assert(d.take(d.len() as int) =~= d);
    let prev = poly.previous_of(e);
    let cur = position_of(&poly, pos, e);
    lemma_connect_appends(m, e, prev);
    let m1 = connect_if_merge(m, e, prev);
    let m2 = SweepModel { status: status_removed(m1.status, prev), ..m1 };
    if let Some(ej) = right_of(poly, pos, m2.status, cur) {
        lemma_connect_appends(m2, e, ej);
        let d3 = connect_if_merge(m2, e, ej).diagonals;
        assert(d3.take(d.len() as int) =~= d3.take(m1.diagonals.len() as int).take(d.len() as int));
    }
    if let Some(ej) = right_of(poly, pos, m.status, cur) {
        lemma_connect_appends(m, e, ej);
        if let Some((h, _)) = helper_at(m.helper, ej) {
            lemma_appends_push(d, d, (e, h));
        }
    }
}

/// The decomposition only appends: the diagonals it started from come first,
/// unchanged.
pub proof fn lemma_decomposition_appends(
    poly: ComplexPolygon,
    pos: Seq<Vec2>,
    pts: Seq<ComplexPointId>,
    d0: Seq<(ComplexPointId, ComplexPointId)>,
)
    ensures
        appends(d0, sweep_run(poly, pos, pts, d0).diagonals),
    decreases pts.len(),
{
    if pts.len() == 0 {
        assert(d0.take(d0.len() as int) =~= d0);
    } else {
        lemma_decomposition_appends(poly, pos, pts.drop_last(), d0);
        let m = sweep_run(poly, pos, pts.drop_last(), d0);
        lemma_step_appends(poly, pos, m, pts.last());
        let d2 = sweep_run(poly, pos, pts, d0).diagonals;
        assert(d2.take(d0.len() as int) =~= d2.take(m.diagonals.len() as int).take(d0.len() as int));
    }
}

/// Lists all points of `polygon`, outer ring first.
fn gather_points(polygon: &ComplexPolygon, out: &mut Vec<ComplexPointId>)
    requires
        polygon.wf(),
    ensures
        final(out)@ == polygon.all_points(),
        all_valid(polygon, final(out)@),
{
    out.clear();
    let n_rings = polygon.ring_count();
    let mut r: usize = 0;
    while r < n_rings
        invariant
            polygon.wf(),
            n_rings == polygon.num_rings(),
            0 <= r <= n_rings,
            out@ == polygon.points_of_rings(r as int),
            all_valid(polygon, out@),
        decreases n_rings - r,
    {
        let n = polygon.ring_len(r);
        let mut i: usize = 0;
        let ghost base = out@;
        while i < n
            invariant
                polygon.wf(),
                n_rings == polygon.num_rings(),
                r < n_rings,
                n == polygon.ring(r as int).len(),
                0 <= i <= n,
                out@ == base + Seq::new(
                    i as nat,
                    |k: int| ComplexPointId { ring: r, point: k as usize },
                ),
                all_valid(polygon, out@),
            decreases n - i,
        {
            out.push(ComplexPointId { ring: r, point: i });
            proof {
                assert(out@ =~= base + Seq::new(
                    (i + 1) as nat,
                    |k: int| ComplexPointId { ring: r, point: k as usize },
                ));
            }
            i += 1;
        }
        proof {
            assert(out@ =~= polygon.points_of_rings(r + 1));
        }
        r += 1;
    }
}

/// Sorts the points stably from top to bottom.
fn sort_points(polygon: &ComplexPolygon, positions: &[Vec2], v: &mut Vec<ComplexPointId>)
    requires
        geometry_ok(polygon, positions@),
        all_valid(polygon, old(v)@),
    ensures
        final(v)@ == insertion_sorted(old(v)@, point_order(*polygon, positions@)),
        all_valid(polygon, final(v)@),
{
    let ghost orig = v@;
    let ghost le = point_order(*polygon, positions@);
    let n = v.len();
    let mut i: usize = 0;
    proof {
        assert(orig.take(0) =~= Seq::<ComplexPointId>::empty());
        assert(v@ =~= insertion_sorted(orig.take(0), le) + orig.skip(0));
    }
    while i < n
        invariant
            0 <= i <= n,
            n == orig.len(),
            v@ == insertion_sorted(orig.take(i as int), le) + orig.skip(i as int),
            insertion_sorted(orig.take(i as int), le).len() == i,
            all_valid(polygon, v@),
            geometry_ok(polygon, positions@),
            le == point_order(*polygon, positions@),
        decreases n - i,
    {
        let ghost prefix = insertion_sorted(orig.take(i as int), le);
        let x = v[i];
        assert(x == orig[i as int]);
        let px = point_position(polygon, positions, x);
        let mut j: usize = 0;
        while j < i && !is_below(point_position(polygon, positions, v[j]), px)
            invariant
                0 <= j <= i < n,
                v@.len() == n,
                forall|k: int| 0 <= k < j ==> #[trigger] le(v@[k], x),
                all_valid(polygon, v@),
                geometry_ok(polygon, positions@),
                le == point_order(*polygon, positions@),
                px == position_of(polygon, positions@, x),
            decreases i - j,
        {
            j += 1;
        }
        assert(forall|k: int| 0 <= k < j ==> #[trigger] prefix[k] == v@[k]);
        v.remove(i);
        v.insert(j, x);
        proof {
            lemma_insert_sorted_at(prefix, x, le, j as int);
            assert(orig.take(i + 1).drop_last() =~= orig.take(i as int));
            assert(orig.take(i + 1).last() == x);
            assert(v@ =~= insertion_sorted(orig.take(i + 1), le) + orig.skip(i + 1));
        }
        i += 1;
    }
    proof {
        assert(orig.take(n as int) =~= orig);
        assert(v@ =~= insertion_sorted(orig, le));
    }
}

/// Empties the helper table, one empty entry per point of `polygon`.
fn reset_helper(polygon: &ComplexPolygon, helper: &mut Vec<Vec<HelperEntry>>)
    requires
        polygon.wf(),
    ensures
        table_view(final(helper)@) == empty_helper(*polygon),
        rows_shaped(polygon, final(helper)@),
{
    helper.clear();
    let n_rings = polygon.ring_count();
    let mut r: usize = 0;
    while r < n_rings
        invariant
            polygon.wf(),
            n_rings == polygon.num_rings(),
            0 <= r <= n_rings,
            helper@.len() == r,
            forall|q: int|
                0 <= q < r ==> (#[trigger] helper@[q])@ == Seq::new(
                    polygon.ring(q).len(),
                    |i: int| None::<(ComplexPointId, VertexType)>,
                ),
        decreases n_rings - r,
    {
        let n = polygon.ring_len(r);
        let mut row: Vec<HelperEntry> = Vec::new();
        let mut i: usize = 0;
        while i < n
            invariant
                0 <= i <= n,
                row@ == Seq::new(i as nat, |k: int| None::<(ComplexPointId, VertexType)>),
            decreases n - i,
        {
            row.push(None);
            proof {
                assert(row@ =~= Seq::new((i + 1) as nat, |k: int| None::<(ComplexPointId, VertexType)>));
            }
            i += 1;
        }
        helper.push(row);
        r += 1;
    }
    assert(table_view(helper@) =~= empty_helper(*polygon));
}

proof fn lemma_term_bound(a: Vec2, b: Vec2)
    ensures
        -0x4000_0000_0000_0000 <= a.x * b.y <= 0x4000_0000_0000_0000,
        -0x4000_0000_0000_0000 <= b.x * a.y <= 0x4000_0000_0000_0000,
        -0x8000_0000_0000_0000 <= a.x * b.y - b.x * a.y <= 0x8000_0000_0000_0000,
{
    assert(-0x4000_0000_0000_0000 <= a.x * b.y <= 0x4000_0000_0000_0000) by (nonlinear_arith)
        requires
            -0x8000_0000 <= a.x <= 0x8000_0000,
            -0x8000_0000 <= b.y <= 0x8000_0000,
    ;
    assert(-0x4000_0000_0000_0000 <= b.x * a.y <= 0x4000_0000_0000_0000) by (nonlinear_arith)
        requires
            -0x8000_0000 <= b.x <= 0x8000_0000,
            -0x8000_0000 <= a.y <= 0x8000_0000,
    ;
}

/// Tells whether ring `r` has a negative shoelace sum.
fn ring_wound_ccw(polygon: &ComplexPolygon, positions: &[Vec2], r: usize) -> (b: bool)
    requires
        geometry_ok(polygon, positions@),
        r < polygon.num_rings(),
    ensures
        b == (shoelace(*polygon, positions@, r as int, polygon.ring(r as int).len() as int) < 0),
{
    let ring = polygon.get_ring(r);
    let n = ring.vertices.len();
    assert(ring_in_table(polygon.ring(r as int), positions@.len()));
    let mut sum: i128 = 0;
    let mut k: usize = 0;
    while k < n
        invariant
            geometry_ok(polygon, positions@),
            r < polygon.num_rings(),
            ring.vertices@ == polygon.ring(r as int),
            ring_in_table(polygon.ring(r as int), positions@.len()),
            n == ring.vertices@.len(),
            0 <= k <= n,
            sum == shoelace(*polygon, positions@, r as int, k as int),
            -(k as int) * 0x8000_0000_0000_0000 <= sum <= (k as int) * 0x8000_0000_0000_0000,
        decreases n - k,
    {
        let a = positions[ring.vertices[k]];
        let b = positions[ring.vertices[if k + 1 == n {
            0
        } else {
            k + 1
        }]];
        proof {
            lemma_term_bound(a, b);
        }
        let term = a.x as i128 * b.y as i128 - b.x as i128 * a.y as i128;
        proof {
            assert(k + 1 <= usize::MAX);
            assert((k + 1) as int * 0x8000_0000_0000_0000 <= 0x7fff_ffff_ffff_ffff_8000_0000_0000_0000);
        }
        sum = sum + term;
        k += 1;
    }
    sum < 0
}

impl DecompositionContext {
    /// No buffer holds anything.
    pub closed spec fn is_idle(&self) -> bool {
        &&& self.sorted_edges@.len() == 0
        &&& self.sweep_state@.len() == 0
        &&& self.helper@.len() == 0
    }

    /// A context with empty buffers.
    pub fn new() -> (r: DecompositionContext)
        ensures
            r.is_idle(),
    {
        DecompositionContext { sorted_edges: Vec::new(), sweep_state: Vec::new(), helper: Vec::new() }
    }

    /// Adds to `diagonals` the diagonals that split `polygon` into y-monotone pieces.
    ///
    /// Refuses a polygon with a hole that is not wound counter-clockwise, and
    /// stops where the sweep finds the rings malformed.
    pub fn y_monotone_polygon_decomposition(
        &mut self,
        polygon: &ComplexPolygon,
        vertex_positions: &[Vec2],
        diagonals: &mut Diagonals,
    ) -> (r: Result<(), DecompositionError>)
        requires
            geometry_ok(polygon, vertex_positions@),
        ensures
            !holes_wound_ccw(*polygon, vertex_positions@) ==> r == Err::<(), DecompositionError>(
                DecompositionError::WrongWindingOrder,
            ) && final(diagonals).pairs@ == old(diagonals).pairs@,
            diagonals_valid(polygon, old(diagonals).pairs@) ==> diagonals_valid(
                polygon,
                final(diagonals).pairs@,
            ),
            appends(old(diagonals).pairs@, final(diagonals).pairs@),
            holes_wound_ccw(*polygon, vertex_positions@) ==> ({
                let m = decomposition(*polygon, vertex_positions@, old(diagonals).pairs@);
                &&& final(diagonals).pairs@ == m.diagonals
                &&& r == if m.failed {
                    Err(DecompositionError::MalformedPolygon)
                } else {
                    Ok(())
                }
            }),
    {
        let n_rings = polygon.ring_count();
        let mut r: usize = 1;
        while r < n_rings
            invariant
                geometry_ok(polygon, vertex_positions@),
                n_rings == polygon.num_rings(),
                1 <= r <= n_rings,
                forall|q: int|
                    1 <= q < r ==> #[trigger] shoelace(
                        *polygon,
                        vertex_positions@,
                        q,
                        polygon.ring(q).len() as int,
                    ) < 0,
            decreases n_rings - r,
        {
            if !ring_wound_ccw(polygon, vertex_positions, r) {
                assert(diagonals.pairs@.take(diagonals.pairs@.len() as int) =~= diagonals.pairs@);
                return Err(DecompositionError::WrongWindingOrder);
            }
            r += 1;
        }
        let ghost pos = vertex_positions@;
        let ghost d0 = diagonals.pairs@;
        assert(holes_wound_ccw(*polygon, pos));
        proof {
            if diagonals_valid(polygon, d0) {
                lemma_decomposition_diagonals_valid(*polygon, pos, d0);
            }
            lemma_decomposition_appends(*polygon, pos, sweep_order(*polygon, pos), d0);
        }
        gather_points(polygon, &mut self.sorted_edges);
        sort_points(polygon, vertex_positions, &mut self.sorted_edges);
        reset_helper(polygon, &mut self.helper);
        self.sweep_state.clear();
        let ghost order = self.sorted_edges@;
        assert(order == sweep_order(*polygon, pos));
        assert(order.take(0) =~= Seq::<ComplexPointId>::empty());
        let n = self.sorted_edges.len();
        let mut i: usize = 0;
        while i < n
            invariant
                geometry_ok(polygon, pos),
                pos == vertex_positions@,
                holes_wound_ccw(*polygon, pos),
                d0 == old(diagonals).pairs@,
                diagonals_valid(polygon, d0) ==> diagonals_valid(
                    polygon,
                    decomposition(*polygon, pos, d0).diagonals,
                ),
                appends(d0, decomposition(*polygon, pos, d0).diagonals),
                self.sorted_edges@ == order,
                order == sweep_order(*polygon, pos),
                n == order.len(),
                all_valid(polygon, order),
                0 <= i <= n,
                model_of(self.sweep_state@, self.helper@, diagonals.pairs@) == sweep_run(
                    *polygon,
                    pos,
                    order.take(i as int),
                    d0,
                ),
                all_valid(polygon, self.sweep_state@),
                rows_shaped(polygon, self.helper@),
            decreases n - i,
        {
            let e = self.sorted_edges[i];
            let ghost before = model_of(self.sweep_state@, self.helper@, diagonals.pairs@);
            let ok = process_vertex(
                polygon,
                vertex_positions,
                &mut self.sweep_state,
                &mut self.helper,
                diagonals,
                e,
            );
            proof {
                assert(order.take(i + 1).drop_last() =~= order.take(i as int));
                assert(order.take(i + 1).last() == e);
                assert(sweep_run(*polygon, pos, order.take(i + 1), d0) == sweep_step(*polygon, pos, before, e));
            }
            if !ok {
                proof {
                    let m = sweep_step(*polygon, pos, before, e);
                    assert(m.failed);
                    assert(diagonals.pairs@ == m.diagonals);
                    lemma_failed_sticky(*polygon, pos, order, d0, i + 1);
                    assert(decomposition(*polygon, pos, d0) == m);
                }
                return Err(DecompositionError::MalformedPolygon);
            }
            i += 1;
        }
        proof {
            assert(order.take(n as int) =~= order);
        }
        Ok(())
    }
}

} // verus!
