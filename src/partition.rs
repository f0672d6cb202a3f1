//! Splitting a polygon with holes along diagonals into simple pieces.
//!
//! The rings and both directions of every diagonal form a planar map; each
//! piece is one face of it, traced with the interior on its left (y pointing up).
use vstd::prelude::*;
use crate::geometry::Vec2;
use crate::polygon::{
    ComplexPointId, ComplexPolygon, Diagonals, Polygon, VertexId, diagonals_valid, position_of,
    ring_in_table,
};
use crate::sweep::{geometry_ok, lemma_position_in_table, point_position};
use crate::polygon::lemma_point_index;

verus! {

/// An edge of the map, with a direction: the edge of a ring that starts at a
/// point, or diagonal `k` walked from its first point (`false`) or from its
/// second point (`true`).
#[derive(Clone, Copy, PartialEq, Eq, Structural, Debug)]
pub enum HalfEdge {
    Ring(ComplexPointId),
    Diagonal(usize, bool),
}

/// `h` is a half-edge of `poly` with `nd` diagonals.
pub open spec fn half_edge_ok(poly: &ComplexPolygon, nd: nat, h: HalfEdge) -> bool {
    match h {
        HalfEdge::Ring(p) => poly.valid_point(p),
        HalfEdge::Diagonal(k, _) => k < nd,
    }
}

/// A direction vector small enough for exact products.
pub open spec fn small(d: (i64, i64)) -> bool {
    -0x1_0000_0000 < d.0 < 0x1_0000_0000 && -0x1_0000_0000 < d.1 < 0x1_0000_0000
}

/// The point a half-edge starts from.
pub open spec fn he_origin(d: Seq<(ComplexPointId, ComplexPointId)>, h: HalfEdge) -> ComplexPointId {
    match h {
        HalfEdge::Ring(p) => p,
        HalfEdge::Diagonal(k, reversed) => if reversed {
            d[k as int].1
        } else {
            d[k as int].0
        },
    }
}

/// The point a half-edge ends at.
pub open spec fn he_target(
    poly: &ComplexPolygon,
    d: Seq<(ComplexPointId, ComplexPointId)>,
    h: HalfEdge,
) -> ComplexPointId {
    match h {
        HalfEdge::Ring(p) => poly.next_of(p),
        HalfEdge::Diagonal(k, reversed) => if reversed {
            d[k as int].0
        } else {
            d[k as int].1
        },
    }
}

/// The vector from `a` to `b`.
pub open spec fn dir_between(a: Vec2, b: Vec2) -> (i64, i64) {
    ((b.x - a.x) as i64, (b.y - a.y) as i64)
}

/// The point a half-edge starts from.
fn origin(poly: &ComplexPolygon, diagonals: &Diagonals, h: HalfEdge) -> (r: ComplexPointId)
    requires
        poly.wf(),
        diagonals_valid(poly, diagonals.pairs@),
        half_edge_ok(poly, diagonals.pairs@.len(), h),
    ensures
        r == he_origin(diagonals.pairs@, h),
        poly.valid_point(r),
{
    match h {
        HalfEdge::Ring(p) => p,
        HalfEdge::Diagonal(k, reversed) => {
            let (a, b) = diagonals.pairs[k];
            if reversed {
                b
            } else {
                a
            }
        },
    }
}

/// The point a half-edge ends at.
fn target(poly: &ComplexPolygon, diagonals: &Diagonals, h: HalfEdge) -> (r: ComplexPointId)
    requires
        poly.wf(),
        diagonals_valid(poly, diagonals.pairs@),
        half_edge_ok(poly, diagonals.pairs@.len(), h),
    ensures
        r == he_target(poly, diagonals.pairs@, h),
        poly.valid_point(r),
{
    match h {
        HalfEdge::Ring(p) => poly.next(p),
        HalfEdge::Diagonal(k, reversed) => {
            let (a, b) = diagonals.pairs[k];
            if reversed {
                a
            } else {
                b
            }
        },
    }
}

/// The vector from `a` to `b`.
fn direction(a: Vec2, b: Vec2) -> (r: (i64, i64))
    ensures
        r == dir_between(a, b),
        small(r),
        r.0 == b.x - a.x,
        r.1 == b.y - a.y,
{
    (b.x as i64 - a.x as i64, b.y as i64 - a.y as i64)
}

fn cross2(a: (i64, i64), b: (i64, i64)) -> (r: i128)
    requires
        small(a),
        small(b),
    ensures
        r == a.0 * b.1 - a.1 * b.0,
{
    proof {
        assert(-0x1_0000_0000_0000_0000 <= a.0 * b.1 <= 0x1_0000_0000_0000_0000) by (nonlinear_arith)
            requires
                small(a),
                small(b),
        ;
        assert(-0x1_0000_0000_0000_0000 <= a.1 * b.0 <= 0x1_0000_0000_0000_0000) by (nonlinear_arith)
            requires
                small(a),
                small(b),
        ;
    }
    a.0 as i128 * b.1 as i128 - a.1 as i128 * b.0 as i128
}

fn dot2(a: (i64, i64), b: (i64, i64)) -> (r: i128)
    requires
        small(a),
        small(b),
    ensures
        r == a.0 * b.0 + a.1 * b.1,
{
    proof {
        assert(-0x1_0000_0000_0000_0000 <= a.0 * b.0 <= 0x1_0000_0000_0000_0000) by (nonlinear_arith)
            requires
                small(a),
                small(b),
        ;
        assert(-0x1_0000_0000_0000_0000 <= a.1 * b.1 <= 0x1_0000_0000_0000_0000) by (nonlinear_arith)
            requires
                small(a),
                small(b),
        ;
    }
    a.0 as i128 * b.0 as i128 + a.1 as i128 * b.1 as i128
}

/// Clockwise angle from `d0` to `d`, by quarter: 0 below `π`, 1 at `π`,
/// 2 above `π`, 3 at `2π` (the direction of `d0` itself).
pub open spec fn turn_class(d0: (i64, i64), d: (i64, i64)) -> int {
    let c = d0.0 * d.1 - d0.1 * d.0;
    if c < 0 {
        0
    } else if c == 0 && d0.0 * d.0 + d0.1 * d.1 < 0 {
        1
    } else if c > 0 {
        2
    } else {
        3
    }
}

/// Turning clockwise from `d0`, `d1` comes strictly before `d2`.
pub open spec fn turns_before(d0: (i64, i64), d1: (i64, i64), d2: (i64, i64)) -> bool {
    let c1 = turn_class(d0, d1);
    let c2 = turn_class(d0, d2);
    if c1 != c2 {
        c1 < c2
    } else if c1 == 0 || c1 == 2 {
        d1.0 * d2.1 - d1.1 * d2.0 < 0
    } else {
        false
    }
}

fn exec_turn_class(d0: (i64, i64), d: (i64, i64)) -> (r: u8)
    requires
        small(d0),
        small(d),
    ensures
        r == turn_class(d0, d),
{
    let c = cross2(d0, d);
    if c < 0 {
        0
    } else if c == 0 && dot2(d0, d) < 0 {
        1
    } else if c > 0 {
        2
    } else {
        3
    }
}

/// Tells whether, turning clockwise from `d0`, `d1` comes strictly before `d2`.
pub fn comes_before(d0: (i64, i64), d1: (i64, i64), d2: (i64, i64)) -> (r: bool)
    requires
        small(d0),
        small(d1),
        small(d2),
    ensures
        r == turns_before(d0, d1, d2),
{
    let c1 = exec_turn_class(d0, d1);
    let c2 = exec_turn_class(d0, d2);
    if c1 != c2 {
        c1 < c2
    } else if c1 == 0 || c1 == 2 {
        cross2(d1, d2) < 0
    } else {
        false
    }
}

/// Among `best` and the diagonals `k..` that leave `v`, the first one met
/// turning clockwise from `d0`; ties keep the earlier one.
pub open spec fn best_from(
    poly: &ComplexPolygon,
    pos: Seq<Vec2>,
    d: Seq<(ComplexPointId, ComplexPointId)>,
    v: ComplexPointId,
    d0: (i64, i64),
    best: HalfEdge,
    best_dir: (i64, i64),
    k: int,
) -> HalfEdge
    decreases d.len() - k,
{
    if k < 0 || k >= d.len() {
        best
    } else {
        let pv = position_of(poly, pos, v);
        let a = d[k].0;
        let b = d[k].1;
        let da = dir_between(pv, position_of(poly, pos, b));
        let take_a = a == v && turns_before(d0, da, best_dir);
        let best1 = if take_a {
            HalfEdge::Diagonal(k as usize, false)
        } else {
            best
        };
        let dir1 = if take_a {
            da
        } else {
            best_dir
        };
        let db = dir_between(pv, position_of(poly, pos, a));
        let take_b = b == v && turns_before(d0, db, dir1);
        let best2 = if take_b {
            HalfEdge::Diagonal(k as usize, true)
        } else {
            best1
        };
        let dir2 = if take_b {
            db
        } else {
            dir1
        };
        best_from(poly, pos, d, v, d0, best2, dir2, k + 1)
    }
}

/// The half-edge that follows `h` on the face to its left: among the edges
/// leaving the end of `h`, the first one met turning clockwise from the way back.
pub open spec fn next_he(
    poly: &ComplexPolygon,
    pos: Seq<Vec2>,
    d: Seq<(ComplexPointId, ComplexPointId)>,
    h: HalfEdge,
) -> HalfEdge {
    let v = he_target(poly, d, h);
    let pv = position_of(poly, pos, v);
    best_from(
        poly,
        pos,
        d,
        v,
        dir_between(pv, position_of(poly, pos, he_origin(d, h))),
        HalfEdge::Ring(v),
        dir_between(pv, position_of(poly, pos, poly.next_of(v))),
        0,
    )
}

/// Computes [`next_he`].
fn next_half_edge(
    poly: &ComplexPolygon,
    positions: &[Vec2],
    diagonals: &Diagonals,
    h: HalfEdge,
) -> (r: HalfEdge)
    requires
        geometry_ok(poly, positions@),
        diagonals_valid(poly, diagonals.pairs@),
        half_edge_ok(poly, diagonals.pairs@.len(), h),
    ensures
        r == next_he(poly, positions@, diagonals.pairs@, h),
        half_edge_ok(poly, diagonals.pairs@.len(), r),
{
    let ghost pos = positions@;
    let ghost dg = diagonals.pairs@;
    let u = origin(poly, diagonals, h);
    let v = target(poly, diagonals, h);
    let pv = point_position(poly, positions, v);
    let d0 = direction(pv, point_position(poly, positions, u));
    let mut best = HalfEdge::Ring(v);
    let mut best_dir = direction(pv, point_position(poly, positions, poly.next(v)));
    let nd = diagonals.pairs.len();
    let mut k: usize = 0;
    while k < nd
        invariant
            geometry_ok(poly, positions@),
            diagonals_valid(poly, diagonals.pairs@),
            pos == positions@,
            dg == diagonals.pairs@,
            nd == diagonals.pairs@.len(),
            0 <= k <= nd,
            half_edge_ok(poly, diagonals.pairs@.len(), best),
            small(d0),
            small(best_dir),
            poly.valid_point(v),
            v == he_target(poly, dg, h),
            pv == position_of(poly, pos, v),
            d0 == dir_between(pv, position_of(poly, pos, he_origin(dg, h))),
            next_he(poly, pos, dg, h) == best_from(poly, pos, dg, v, d0, best, best_dir, k as int),
        decreases nd - k,
    {
        let (a, b) = diagonals.pairs[k];
        assert(a == dg[k as int].0 && b == dg[k as int].1);
        if a == v {
            let d = direction(pv, point_position(poly, positions, b));
            if comes_before(d0, d, best_dir) {
                best = HalfEdge::Diagonal(k, false);
                best_dir = d;
            }
        }
        if b == v {
            let d = direction(pv, point_position(poly, positions, a));
            if comes_before(d0, d, best_dir) {
                best = HalfEdge::Diagonal(k, true);
                best_dir = d;
            }
        }
        k += 1;
    }
    best
}

/// One flag per point of `poly`.
pub open spec fn flags_shaped(poly: &ComplexPolygon, t: Seq<Vec<bool>>) -> bool {
    &&& t.len() == poly.num_rings()
    &&& forall|r: int| 0 <= r < t.len() ==> (#[trigger] t[r])@.len() == poly.ring(r).len()
}

/// Marks used half-edges: one flag per ring point, two per diagonal.
struct Marks {
    ring: Vec<Vec<bool>>,
    diagonal: Vec<(bool, bool)>,
}

/// Which half-edges are used: by ring and point, and by diagonal and side.
pub type MarkView = (Seq<Seq<bool>>, Seq<(bool, bool)>);

pub open spec fn is_marked(mv: MarkView, h: HalfEdge) -> bool {
    match h {
        HalfEdge::Ring(p) => mv.0[p.ring as int][p.point as int],
        HalfEdge::Diagonal(k, reversed) => if reversed {
            mv.1[k as int].1
        } else {
            mv.1[k as int].0
        },
    }
}

pub open spec fn mark_he(mv: MarkView, h: HalfEdge) -> MarkView {
    match h {
        HalfEdge::Ring(p) => (
            mv.0.update(p.ring as int, mv.0[p.ring as int].update(p.point as int, true)),
            mv.1,
        ),
        HalfEdge::Diagonal(k, reversed) => (
            mv.0,
            mv.1.update(
                k as int,
                if reversed {
                    (mv.1[k as int].0, true)
                } else {
                    (true, mv.1[k as int].1)
                },
            ),
        ),
    }
}

/// No half-edge used yet.
pub open spec fn initial_marks(poly: &ComplexPolygon, nd: nat) -> MarkView {
    (
        Seq::new(poly.num_rings() as nat, |r: int| Seq::new(poly.ring(r).len(), |i: int| false)),
        Seq::new(nd, |k: int| (false, false)),
    )
}

impl Marks {
    spec fn wf(&self, poly: &ComplexPolygon, nd: nat) -> bool {
        flags_shaped(poly, self.ring@) && self.diagonal@.len() == nd
    }

    spec fn view(&self) -> MarkView {
        (Seq::new(self.ring@.len(), |r: int| self.ring@[r]@), self.diagonal@)
    }

    fn is_used(&self, poly: &ComplexPolygon, nd: usize, h: HalfEdge) -> (r: bool)
        requires
            self.wf(poly, nd as nat),
            half_edge_ok(poly, nd as nat, h),
        ensures
            r == is_marked(self.view(), h),
    {
        match h {
            HalfEdge::Ring(p) => self.ring[p.ring][p.point],
            HalfEdge::Diagonal(k, reversed) => if reversed {
                self.diagonal[k].1
            } else {
                self.diagonal[k].0
            },
        }
    }

    fn mark(&mut self, poly: &ComplexPolygon, nd: usize, h: HalfEdge)
        requires
            old(self).wf(poly, nd as nat),
            half_edge_ok(poly, nd as nat, h),
        ensures
            final(self).wf(poly, nd as nat),
            final(self).view() == mark_he(old(self).view(), h),
    {
        match h {
            HalfEdge::Ring(p) => {
                let mut row = self.ring.remove(p.ring);
                row.set(p.point, true);
                self.ring.insert(p.ring, row);
                assert forall|r: int| 0 <= r < self.ring@.len() implies (
                #[trigger] self.ring@[r])@.len() == poly.ring(r).len() by {
                    if r != p.ring {
                        assert(self.ring@[r] == old(self).ring@[r]);
                    }
                }
                assert(self.view().0 =~= mark_he(old(self).view(), h).0);
            },
            HalfEdge::Diagonal(k, reversed) => {
                let (f, b) = self.diagonal[k];
                self.diagonal.set(k, if reversed { (f, true) } else { (true, b) });
                assert(self.view().0 =~= mark_he(old(self).view(), h).0);
            },
        }
    }
}

/// `x`, or the largest `usize` where `x` is larger.
pub open spec fn capped(x: int) -> int {
    if x > usize::MAX {
        usize::MAX as int
    } else {
        x
    }
}

/// The number of half-edges, capped at the largest `usize`: no face walk is
/// longer.
pub open spec fn walk_limit(poly: &ComplexPolygon, nd: nat) -> int {
    capped((poly.all_points().len() + 2 * nd) as int)
}

/// Walks the face to the left of `h` from `start`: marks `h`, records the
/// vertex it leaves, and goes on to the next half-edge until it is back at
/// `start`, meets a used half-edge, or has made `limit` steps.
pub open spec fn trace(
    poly: &ComplexPolygon,
    pos: Seq<Vec2>,
    d: Seq<(ComplexPointId, ComplexPointId)>,
    mv: MarkView,
    start: HalfEdge,
    h: HalfEdge,
    face: Seq<VertexId>,
    steps: int,
    limit: int,
) -> (MarkView, Seq<VertexId>)
    decreases limit - steps,
{
    if steps >= limit {
        (mv, face)
    } else {
        let mv2 = mark_he(mv, h);
        let face2 = face.push(poly.vertex_of(he_origin(d, h)));
        let nh = next_he(poly, pos, d, h);
        if nh == start || is_marked(mv2, nh) {
            (mv2, face2)
        } else {
            trace(poly, pos, d, mv2, start, nh, face2, steps + 1, limit)
        }
    }
}

/// Traces the face of `h` unless `h` is used already; a non-empty face is kept.
pub open spec fn visit(
    poly: &ComplexPolygon,
    pos: Seq<Vec2>,
    d: Seq<(ComplexPointId, ComplexPointId)>,
    limit: int,
    st: (MarkView, Seq<Seq<VertexId>>),
    h: HalfEdge,
) -> (MarkView, Seq<Seq<VertexId>>) {
    if is_marked(st.0, h) {
        st
    } else {
        let t = trace(poly, pos, d, st.0, h, h, Seq::empty(), 0, limit);
        (
            t.0,
            if t.1.len() > 0 {
                st.1.push(t.1)
            } else {
                st.1
            },
        )
    }
}

/// Visits the half-edges `hs` in order, from no half-edge used and no face.
pub open spec fn visit_all(
    poly: &ComplexPolygon,
    pos: Seq<Vec2>,
    d: Seq<(ComplexPointId, ComplexPointId)>,
    limit: int,
    hs: Seq<HalfEdge>,
) -> (MarkView, Seq<Seq<VertexId>>)
    decreases hs.len(),
{
    if hs.len() == 0 {
        (initial_marks(poly, d.len()), Seq::empty())
    } else {
        visit(poly, pos, d, limit, visit_all(poly, pos, d, limit, hs.drop_last()), hs.last())
    }
}

/// The ring half-edges of rings `0 .. r`, then the first `i` of ring `r`.
pub open spec fn ring_starts(poly: &ComplexPolygon, r: int, i: int) -> Seq<HalfEdge> {
    poly.points_of_rings(r).map_values(|p: ComplexPointId| HalfEdge::Ring(p)) + Seq::new(
        i as nat,
        |k: int| HalfEdge::Ring(ComplexPointId { ring: r as usize, point: k as usize }),
    )
}

/// The first `j` diagonal half-edges: each diagonal from its first point, then
/// from its second.
pub open spec fn diagonal_starts(j: nat) -> Seq<HalfEdge> {
    Seq::new(j, |q: int| HalfEdge::Diagonal((q / 2) as usize, q % 2 == 1))
}

/// Every half-edge in the order the faces are looked for: the rings' edges,
/// ring after ring, then both sides of each diagonal.
pub open spec fn start_order(poly: &ComplexPolygon, nd: nat) -> Seq<HalfEdge> {
    poly.all_points().map_values(|p: ComplexPointId| HalfEdge::Ring(p)) + diagonal_starts(2 * nd)
}

/// The faces into which the diagonals `d` cut `poly`, as vertex ids.
pub open spec fn partition_faces(
    poly: &ComplexPolygon,
    pos: Seq<Vec2>,
    d: Seq<(ComplexPointId, ComplexPointId)>,
) -> Seq<Seq<VertexId>> {
    visit_all(poly, pos, d, walk_limit(poly, d.len()), start_order(poly, d.len())).1
}

/// The polygons as sequences of vertex ids.
pub open spec fn faces_view(s: Seq<Polygon>) -> Seq<Seq<VertexId>> {
    s.map_values(|p: Polygon| p.vertices@)
}

/// Number of set flags.
pub open spec fn count_true(s: Seq<bool>) -> int
    decreases s.len(),
{
    if s.len() == 0 {
        0
    } else {
        count_true(s.drop_last()) + if s.last() {
            1int
        } else {
            0int
        }
    }
}

/// Number of set flags over all rows.
pub open spec fn rows_count(t: Seq<Seq<bool>>) -> int
    decreases t.len(),
{
    if t.len() == 0 {
        0
    } else {
        rows_count(t.drop_last()) + count_true(t.last())
    }
}

pub open spec fn pair_count(p: (bool, bool)) -> int {
    (if p.0 {
        1int
    } else {
        0int
    }) + (if p.1 {
        1int
    } else {
        0int
    })
}

/// Number of set flags over all pairs.
pub open spec fn pairs_count(d: Seq<(bool, bool)>) -> int
    decreases d.len(),
{
    if d.len() == 0 {
        0
    } else {
        pairs_count(d.drop_last()) + pair_count(d.last())
    }
}

/// Number of half-edges used.
pub open spec fn marks_count(mv: MarkView) -> int {
    rows_count(mv.0) + pairs_count(mv.1)
}

/// Number of vertices over all faces.
pub open spec fn faces_len(f: Seq<Seq<VertexId>>) -> int
    decreases f.len(),
{
    if f.len() == 0 {
        0
    } else {
        faces_len(f.drop_last()) + f.last().len()
    }
}

/// One flag per half-edge of `poly` with `nd` diagonals.
pub open spec fn marks_shaped(poly: &ComplexPolygon, nd: nat, mv: MarkView) -> bool {
    &&& mv.0.len() == poly.num_rings()
    &&& forall|r: int| 0 <= r < mv.0.len() ==> (#[trigger] mv.0[r]).len() == poly.ring(r).len()
    &&& mv.1.len() == nd
}

proof fn lemma_count_true_set(s: Seq<bool>, i: int)
    requires
        0 <= i < s.len(),
    ensures
        count_true(s.update(i, true)) == count_true(s) + if s[i] {
            0int
        } else {
            1int
        },
    decreases s.len(),
{
    let u = s.update(i, true);
    if i == s.len() - 1 {
        assert(u.drop_last() =~= s.drop_last());
    } else {
        lemma_count_true_set(s.drop_last(), i);
        assert(u.drop_last() =~= s.drop_last().update(i, true));
    }
}

proof fn lemma_rows_count_update(t: Seq<Seq<bool>>, r: int, row: Seq<bool>)
    requires
        0 <= r < t.len(),
    ensures
        rows_count(t.update(r, row)) == rows_count(t) - count_true(t[r]) + count_true(row),
    decreases t.len(),
{
    let u = t.update(r, row);
    if r == t.len() - 1 {
        assert(u.drop_last() =~= t.drop_last());
    } else {
        lemma_rows_count_update(t.drop_last(), r, row);
        assert(u.drop_last() =~= t.drop_last().update(r, row));
    }
}

proof fn lemma_pairs_count_update(d: Seq<(bool, bool)>, k: int, p: (bool, bool))
    requires
        0 <= k < d.len(),
    ensures
        pairs_count(d.update(k, p)) == pairs_count(d) - pair_count(d[k]) + pair_count(p),
    decreases d.len(),
{
    let u = d.update(k, p);
    if k == d.len() - 1 {
        assert(u.drop_last() =~= d.drop_last());
    } else {
        lemma_pairs_count_update(d.drop_last(), k, p);
        assert(u.drop_last() =~= d.drop_last().update(k, p));
    }
}

/// Using a half-edge counts it once.
proof fn lemma_mark_count(poly: &ComplexPolygon, nd: nat, mv: MarkView, h: HalfEdge)
    requires
        marks_shaped(poly, nd, mv),
        half_edge_ok(poly, nd, h),
    ensures
        marks_shaped(poly, nd, mark_he(mv, h)),
        marks_count(mark_he(mv, h)) == marks_count(mv) + if is_marked(mv, h) {
            0int
        } else {
            1int
        },
        is_marked(mark_he(mv, h), h),
        forall|x: HalfEdge|
            half_edge_ok(poly, nd, x) && is_marked(mv, x) ==> is_marked(mark_he(mv, h), x),
{
    match h {
        HalfEdge::Ring(p) => {
            let row = mv.0[p.ring as int];
            assert(row.len() == poly.ring(p.ring as int).len());
            lemma_count_true_set(row, p.point as int);
            lemma_rows_count_update(mv.0, p.ring as int, row.update(p.point as int, true));
            let m2 = mark_he(mv, h);
            assert forall|r: int| 0 <= r < m2.0.len() implies (#[trigger] m2.0[r]).len()
                == poly.ring(r).len() by {
                if r != p.ring {
                    assert(m2.0[r] == mv.0[r]);
                }
            }
            assert forall|x: HalfEdge| half_edge_ok(poly, nd, x) && is_marked(mv, x) implies is_marked(m2, x) by {
                match x {
                    HalfEdge::Ring(q) => {
                        if q.ring == p.ring && q.point == p.point {
                        } else if q.ring == p.ring {
                            assert(m2.0[q.ring as int][q.point as int] == mv.0[q.ring as int][q.point as int]);
                        } else {
                            assert(m2.0[q.ring as int] == mv.0[q.ring as int]);
                        }
                    },
                    HalfEdge::Diagonal(_, _) => {},
                }
            }
        },
        HalfEdge::Diagonal(k, reversed) => {
            let v = if reversed {
                (mv.1[k as int].0, true)
            } else {
                (true, mv.1[k as int].1)
            };
            lemma_pairs_count_update(mv.1, k as int, v);
            let m2 = mark_he(mv, h);
            assert forall|x: HalfEdge| half_edge_ok(poly, nd, x) && is_marked(mv, x) implies is_marked(m2, x) by {
                match x {
                    HalfEdge::Ring(_) => {},
                    HalfEdge::Diagonal(j, _) => {
                        if j != k {
                            assert(m2.1[j as int] == mv.1[j as int]);
                        }
                    },
                }
            }
        },
    }
}

proof fn lemma_best_from_ok(
    poly: &ComplexPolygon,
    pos: Seq<Vec2>,
    d: Seq<(ComplexPointId, ComplexPointId)>,
    v: ComplexPointId,
    d0: (i64, i64),
    best: HalfEdge,
    best_dir: (i64, i64),
    k: int,
)
    requires
        half_edge_ok(poly, d.len(), best),
        d.len() <= usize::MAX,
    ensures
        half_edge_ok(poly, d.len(), best_from(poly, pos, d, v, d0, best, best_dir, k)),
    decreases d.len() - k,
{
    if 0 <= k < d.len() {
        let pv = position_of(poly, pos, v);
        let a = d[k].0;
        let b = d[k].1;
        let da = dir_between(pv, position_of(poly, pos, b));
        let take_a = a == v && turns_before(d0, da, best_dir);
        let best1 = if take_a {
            HalfEdge::Diagonal(k as usize, false)
        } else {
            best
        };
        let dir1 = if take_a {
            da
        } else {
            best_dir
        };
        let db = dir_between(pv, position_of(poly, pos, a));
        let take_b = b == v && turns_before(d0, db, dir1);
        let best2 = if take_b {
            HalfEdge::Diagonal(k as usize, true)
        } else {
            best1
        };
        let dir2 = if take_b {
            db
        } else {
            dir1
        };
        lemma_best_from_ok(poly, pos, d, v, d0, best2, dir2, k + 1);
    }
}

proof fn lemma_next_he_ok(
    poly: &ComplexPolygon,
    pos: Seq<Vec2>,
    d: Seq<(ComplexPointId, ComplexPointId)>,
    h: HalfEdge,
)
    requires
        poly.wf(),
        diagonals_valid(poly, d),
        d.len() <= usize::MAX,
        half_edge_ok(poly, d.len(), h),
    ensures
        half_edge_ok(poly, d.len(), next_he(poly, pos, d, h)),
{
    let v = he_target(poly, d, h);
    match h {
        HalfEdge::Ring(p) => {
            assert(poly.ring(p.ring as int).len() >= 3);
        },
        HalfEdge::Diagonal(k, _) => {
            assert(poly.valid_point(d[k as int].0) && poly.valid_point(d[k as int].1));
        },
    }
    let pv = position_of(poly, pos, v);
    lemma_best_from_ok(
        poly,
        pos,
        d,
        v,
        dir_between(pv, position_of(poly, pos, he_origin(d, h))),
        HalfEdge::Ring(v),
        dir_between(pv, position_of(poly, pos, poly.next_of(v))),
        0,
    );
}

/// A face walk uses one new half-edge per vertex it records.
proof fn lemma_trace_count(
    poly: &ComplexPolygon,
    pos: Seq<Vec2>,
    d: Seq<(ComplexPointId, ComplexPointId)>,
    mv: MarkView,
    start: HalfEdge,
    h: HalfEdge,
    face: Seq<VertexId>,
    steps: int,
    limit: int,
)
    requires
        poly.wf(),
        diagonals_valid(poly, d),
        d.len() <= usize::MAX,
        marks_shaped(poly, d.len(), mv),
        half_edge_ok(poly, d.len(), h),
        !is_marked(mv, h),
    ensures
        ({
            let t = trace(poly, pos, d, mv, start, h, face, steps, limit);
            &&& marks_shaped(poly, d.len(), t.0)
            &&& marks_count(t.0) - marks_count(mv) == t.1.len() - face.len()
            &&& forall|x: HalfEdge|
                half_edge_ok(poly, d.len(), x) && is_marked(mv, x) ==> is_marked(t.0, x)
            &&& steps < limit ==> is_marked(t.0, h)
        }),
    decreases limit - steps,
{
    if steps < limit {
        let mv2 = mark_he(mv, h);
        lemma_mark_count(poly, d.len(), mv, h);
        let face2 = face.push(poly.vertex_of(he_origin(d, h)));
        let nh = next_he(poly, pos, d, h);
        if nh == start || is_marked(mv2, nh) {
        } else {
            lemma_next_he_ok(poly, pos, d, h);
            lemma_trace_count(poly, pos, d, mv2, start, nh, face2, steps + 1, limit);
        }
    }
}

proof fn lemma_faces_len_push(f: Seq<Seq<VertexId>>, x: Seq<VertexId>)
    ensures
        faces_len(f.push(x)) == faces_len(f) + x.len(),
{
    assert(f.push(x).drop_last() =~= f);
}

/// Every visit records one vertex per half-edge that it uses.
proof fn lemma_visit_all_count(
    poly: &ComplexPolygon,
    pos: Seq<Vec2>,
    d: Seq<(ComplexPointId, ComplexPointId)>,
    limit: int,
    hs: Seq<HalfEdge>,
)
    requires
        poly.wf(),
        diagonals_valid(poly, d),
        d.len() <= usize::MAX,
        limit > 0,
        forall|j: int| 0 <= j < hs.len() ==> half_edge_ok(poly, d.len(), #[trigger] hs[j]),
    ensures
        ({
            let v = visit_all(poly, pos, d, limit, hs);
            &&& marks_shaped(poly, d.len(), v.0)
            &&& marks_count(v.0) == faces_len(v.1)
            &&& forall|j: int| 0 <= j < hs.len() ==> is_marked(v.0, #[trigger] hs[j])
        }),
    decreases hs.len(),
{
    if hs.len() == 0 {
        let m0 = initial_marks(poly, d.len());
        assert(rows_count(m0.0) == 0) by {
            lemma_rows_all_clear(m0.0);
        }
        assert(pairs_count(m0.1) == 0) by {
            lemma_pairs_all_clear(m0.1);
        }
    } else {
        let pre = hs.drop_last();
        let h = hs.last();
        assert forall|j: int| 0 <= j < pre.len() implies half_edge_ok(poly, d.len(), #[trigger] pre[j]) by {
            assert(pre[j] == hs[j]);
        }
        lemma_visit_all_count(poly, pos, d, limit, pre);
        let st = visit_all(poly, pos, d, limit, pre);
        assert(half_edge_ok(poly, d.len(), h));
        if !is_marked(st.0, h) {
            lemma_trace_count(poly, pos, d, st.0, h, h, Seq::empty(), 0, limit);
            let t = trace(poly, pos, d, st.0, h, h, Seq::empty(), 0, limit);
            if t.1.len() > 0 {
                lemma_faces_len_push(st.1, t.1);
            }
        }
        let v = visit_all(poly, pos, d, limit, hs);
        assert forall|j: int| 0 <= j < hs.len() implies is_marked(v.0, #[trigger] hs[j]) by {
            if j < pre.len() {
                assert(hs[j] == pre[j]);
            }
        }
    }
}

proof fn lemma_rows_all_clear(t: Seq<Seq<bool>>)
    requires
        forall|r: int, i: int| 0 <= r < t.len() && 0 <= i < t[r].len() ==> !#[trigger] t[r][i],
    ensures
        rows_count(t) == 0,
    decreases t.len(),
{
    if t.len() > 0 {
        lemma_rows_all_clear(t.drop_last());
        lemma_count_all(t.last(), false);
    }
}

proof fn lemma_pairs_all_clear(d: Seq<(bool, bool)>)
    requires
        forall|k: int| 0 <= k < d.len() ==> !(#[trigger] d[k]).0 && !d[k].1,
    ensures
        pairs_count(d) == 0,
    decreases d.len(),
{
    if d.len() > 0 {
        lemma_pairs_all_clear(d.drop_last());
    }
}

/// A row of equal flags counts its length or nothing.
proof fn lemma_count_all(s: Seq<bool>, b: bool)
    requires
        forall|i: int| 0 <= i < s.len() ==> #[trigger] s[i] == b,
    ensures
        count_true(s) == if b {
            s.len() as int
        } else {
            0int
        },
    decreases s.len(),
{
    if s.len() > 0 {
        lemma_count_all(s.drop_last(), b);
    }
}

proof fn lemma_pairs_all_set(d: Seq<(bool, bool)>)
    requires
        forall|k: int| 0 <= k < d.len() ==> (#[trigger] d[k]).0 && d[k].1,
    ensures
        pairs_count(d) == 2 * d.len(),
    decreases d.len(),
{
    if d.len() > 0 {
        lemma_pairs_all_set(d.drop_last());
    }
}

proof fn lemma_rows_all_set(poly: &ComplexPolygon, t: Seq<Seq<bool>>, k: int)
    requires
        0 <= k <= t.len(),
        t.len() == poly.num_rings(),
        forall|r: int| 0 <= r < t.len() ==> (#[trigger] t[r]).len() == poly.ring(r).len(),
        forall|r: int, i: int| 0 <= r < t.len() && 0 <= i < t[r].len() ==> #[trigger] t[r][i],
    ensures
        rows_count(t.take(k)) == poly.points_of_rings(k).len(),
    decreases k,
{
    if k > 0 {
        lemma_rows_all_set(poly, t, k - 1);
        assert(t.take(k).drop_last() =~= t.take(k - 1));
        lemma_count_all(t[k - 1], true);
    }
}

/// Each ring point and each side of each diagonal is visited.
proof fn lemma_start_order_ok(poly: &ComplexPolygon, nd: nat)
    requires
        poly.wf(),
    ensures
        forall|j: int|
            0 <= j < start_order(poly, nd).len() ==> half_edge_ok(poly, nd, #[trigger] start_order(poly, nd)[j]),
{
    let rings = poly.all_points().map_values(|p: ComplexPointId| HalfEdge::Ring(p));
    crate::decomposition::lemma_points_of_rings_valid(*poly, poly.num_rings());
    let so = start_order(poly, nd);
    assert forall|j: int| 0 <= j < so.len() implies half_edge_ok(poly, nd, #[trigger] so[j]) by {
        if j < rings.len() {
            assert(so[j] == HalfEdge::Ring(poly.all_points()[j]));
            assert(poly.valid_point(poly.all_points()[j]));
        } else {
            assert(so[j] == diagonal_starts(2 * nd)[j - rings.len()]);
        }
    }
}

/// Partition law: each edge of a ring and each side of each diagonal starts
/// exactly one vertex of one face, so the faces hold `V + 2 D` vertices in all
/// for `V` ring points and `D` diagonals.
pub proof fn lemma_faces_use_every_half_edge_once(
    poly: &ComplexPolygon,
    pos: Seq<Vec2>,
    d: Seq<(ComplexPointId, ComplexPointId)>,
)
    requires
        poly.wf(),
        diagonals_valid(poly, d),
        d.len() <= usize::MAX,
    ensures
        faces_len(partition_faces(poly, pos, d)) == poly.all_points().len() + 2 * d.len(),
{
    let nd = d.len();
    let limit = walk_limit(poly, nd);
    let so = start_order(poly, nd);
    lemma_start_order_ok(poly, nd);
    lemma_visit_all_count(poly, pos, d, limit, so);
    let v = visit_all(poly, pos, d, limit, so);
    let rings = poly.all_points().map_values(|p: ComplexPointId| HalfEdge::Ring(p));
    assert forall|r: int, i: int| 0 <= r < v.0.0.len() && 0 <= i < v.0.0[r].len() implies #[trigger] v.0.0[r][i] by {
        lemma_point_index(poly, poly.num_rings(), r, i);
        let j = poly.points_of_rings(r).len() + i;
        assert(so[j] == rings[j]);
        assert(so[j] == HalfEdge::Ring(ComplexPointId { ring: r as usize, point: i as usize }));
        assert(is_marked(v.0, so[j]));
    }
    lemma_rows_all_set(poly, v.0.0, v.0.0.len() as int);
    assert(v.0.0.take(v.0.0.len() as int) =~= v.0.0);
    assert forall|k: int| 0 <= k < v.0.1.len() implies (#[trigger] v.0.1[k]).0 && v.0.1[k].1 by {
        let j0 = rings.len() + 2 * k;
        assert(so[j0] == HalfEdge::Diagonal(k as usize, false));
        assert(so[j0 + 1] == HalfEdge::Diagonal(k as usize, true));
        assert(is_marked(v.0, so[j0]));
        assert(is_marked(v.0, so[j0 + 1]));
    }
    lemma_pairs_all_set(v.0.1);
}

/// Adds `b` to `a`, stopping at the largest `usize`.
fn add_saturating(a: usize, b: usize) -> (r: usize)
    ensures
        r == capped(a + b),
{
    if a > usize::MAX - b {
        usize::MAX
    } else {
        a + b
    }
}

/// No half-edge used yet, and the walk limit.
fn new_marks(poly: &ComplexPolygon, nd: usize) -> (r: (Marks, usize))
    requires
        poly.wf(),
    ensures
        r.0.wf(poly, nd as nat),
        r.0.view() == initial_marks(poly, nd as nat),
        r.1 == walk_limit(poly, nd as nat),
{
    let mut ring: Vec<Vec<bool>> = Vec::new();
    let n_rings = poly.ring_count();
    let mut total: usize = 0;
    let mut r: usize = 0;
    while r < n_rings
        invariant
            poly.wf(),
            n_rings == poly.num_rings(),
            0 <= r <= n_rings,
            ring@.len() == r,
            forall|q: int|
                0 <= q < r ==> (#[trigger] ring@[q])@ == Seq::new(poly.ring(q).len(), |i: int| false),
            total == capped(poly.points_of_rings(r as int).len() as int),
        decreases n_rings - r,
    {
        let n = poly.ring_len(r);
        let mut row: Vec<bool> = Vec::new();
        let mut i: usize = 0;
        while i < n
            invariant
                0 <= i <= n,
                row@ == Seq::new(i as nat, |k: int| false),
            decreases n - i,
        {
            row.push(false);
            proof {
                assert(row@ =~= Seq::new((i + 1) as nat, |k: int| false));
            }
            i += 1;
        }
        ring.push(row);
        total = add_saturating(total, n);
        assert(poly.points_of_rings(r + 1).len() == poly.points_of_rings(r as int).len() + n);
        r += 1;
    }
    let mut diagonal: Vec<(bool, bool)> = Vec::new();
    let mut k: usize = 0;
    while k < nd
        invariant
            0 <= k <= nd,
            diagonal@ == Seq::new(k as nat, |j: int| (false, false)),
        decreases nd - k,
    {
        diagonal.push((false, false));
        proof {
            assert(diagonal@ =~= Seq::new((k + 1) as nat, |j: int| (false, false)));
        }
        k += 1;
    }
    total = add_saturating(total, nd);
    total = add_saturating(total, nd);
    let marks = Marks { ring, diagonal };
    proof {
        assert forall|q: int| 0 <= q < n_rings implies (#[trigger] marks.ring@[q])@.len()
            == poly.ring(q).len() by {
            assert(marks.ring@[q]@ == Seq::new(poly.ring(q).len(), |i: int| false));
        }
        assert(marks.view().0 =~= initial_marks(poly, nd as nat).0) by {
            assert forall|q: int| 0 <= q < n_rings implies #[trigger] marks.view().0[q]
                =~= initial_marks(poly, nd as nat).0[q] by {
                assert(marks.ring@[q]@ == Seq::new(poly.ring(q).len(), |i: int| false));
            }
        }
        assert(marks.view().1 =~= initial_marks(poly, nd as nat).1);
    }
    (marks, total)
}

/// Walks the face to the left of `start`, marking its half-edges, and returns
/// the vertex ids met on the way, as [`trace`] does.
fn trace_face(
    poly: &ComplexPolygon,
    positions: &[Vec2],
    diagonals: &Diagonals,
    marks: &mut Marks,
    start: HalfEdge,
    limit: usize,
) -> (face: Polygon)
    requires
        geometry_ok(poly, positions@),
        diagonals_valid(poly, diagonals.pairs@),
        old(marks).wf(poly, diagonals.pairs@.len()),
        half_edge_ok(poly, diagonals.pairs@.len(), start),
    ensures
        final(marks).wf(poly, diagonals.pairs@.len()),
        (final(marks).view(), face.vertices@) == trace(
            poly,
            positions@,
            diagonals.pairs@,
            old(marks).view(),
            start,
            start,
            Seq::empty(),
            0,
            limit as int,
        ),
        ring_in_table(face.vertices@, positions@.len()),
{
    let ghost pos = positions@;
    let ghost dg = diagonals.pairs@;
    let ghost goal = trace(poly, pos, dg, marks.view(), start, start, Seq::empty(), 0, limit as int);
    let nd = diagonals.pairs.len();
    let mut face: Vec<VertexId> = Vec::new();
    let mut h = start;
    let mut steps: usize = 0;
    while steps < limit
        invariant_except_break
            goal == trace(poly, pos, dg, marks.view(), start, h, face@, steps as int, limit as int),
        invariant
            geometry_ok(poly, positions@),
            diagonals_valid(poly, diagonals.pairs@),
            pos == positions@,
            dg == diagonals.pairs@,
            nd == diagonals.pairs@.len(),
            marks.wf(poly, nd as nat),
            half_edge_ok(poly, nd as nat, h),
            half_edge_ok(poly, nd as nat, start),
            ring_in_table(face@, positions@.len()),
            0 <= steps <= limit,
        ensures
            goal == (marks.view(), face@),
        decreases limit - steps,
    {
        marks.mark(poly, nd, h);
        let p = origin(poly, diagonals, h);
        proof {
            lemma_position_in_table(poly, positions@, p);
        }
        face.push(poly.vertex(p));
        assert(ring_in_table(face@, positions@.len())) by {
            assert forall|i: int| 0 <= i < face@.len() implies #[trigger] face@[i] < positions@.len() by {
                if i + 1 < face@.len() {
                    assert(face@[i] == face@.drop_last()[i]);
                }
            }
        }
        let nh = next_half_edge(poly, positions, diagonals, h);
        if nh == start || marks.is_used(poly, nd, nh) {
            break;
        }
        h = nh;
        steps += 1;
    }
    Polygon { vertices: face }
}

/// Appends to `output` the pieces into which `diagonals` cut `polygon`, one
/// ring of vertex ids per face, each wound as the outer ring is: the faces of
/// [`partition_faces`].
pub fn partition_polygon(
    polygon: &ComplexPolygon,
    vertex_positions: &[Vec2],
    diagonals: &Diagonals,
    output: &mut Vec<Polygon>,
)
    requires
        geometry_ok(polygon, vertex_positions@),
        diagonals_valid(polygon, diagonals.pairs@),
    ensures
        faces_view(final(output)@) == faces_view(old(output)@) + partition_faces(
            polygon,
            vertex_positions@,
            diagonals.pairs@,
        ),
        final(output)@.len() >= old(output)@.len(),
        final(output)@.take(old(output)@.len() as int) == old(output)@,
        forall|k: int|
            old(output)@.len() <= k < final(output)@.len() ==> ring_in_table(
                (#[trigger] final(output)@[k]).vertices@,
                vertex_positions@.len(),
            ),
{
    let ghost out0 = output@;
    let ghost pos = vertex_positions@;
    let ghost dg = diagonals.pairs@;
    let nd = diagonals.pairs.len();
    let (mut marks, limit) = new_marks(polygon, nd);
    let n_rings = polygon.ring_count();
    let ghost mut faces: Seq<Seq<VertexId>> = Seq::empty();
    proof {
        assert(output@.take(out0.len() as int) =~= out0);
        assert(faces_view(output@) =~= faces_view(out0) + faces);
        assert(ring_starts(polygon, 0, 0) =~= Seq::<HalfEdge>::empty());
    }
    let mut r: usize = 0;
    while r < n_rings
        invariant
            geometry_ok(polygon, vertex_positions@),
            diagonals_valid(polygon, diagonals.pairs@),
            pos == vertex_positions@,
            dg == diagonals.pairs@,
            nd == diagonals.pairs@.len(),
            limit == walk_limit(polygon, nd as nat),
            n_rings == polygon.num_rings(),
            0 <= r <= n_rings,
            marks.wf(polygon, nd as nat),
            (marks.view(), faces) == visit_all(polygon, pos, dg, limit as int, ring_starts(polygon, r as int, 0)),
            faces_view(output@) == faces_view(out0) + faces,
            output@.len() >= out0.len(),
            output@.take(out0.len() as int) == out0,
            forall|k: int|
                out0.len() <= k < output@.len() ==> ring_in_table(
                    (#[trigger] output@[k]).vertices@,
                    vertex_positions@.len(),
                ),
        decreases n_rings - r,
    {
        let n = polygon.ring_len(r);
        let mut i: usize = 0;
        while i < n
            invariant
                geometry_ok(polygon, vertex_positions@),
                diagonals_valid(polygon, diagonals.pairs@),
                pos == vertex_positions@,
                dg == diagonals.pairs@,
                nd == diagonals.pairs@.len(),
                limit == walk_limit(polygon, nd as nat),
                n_rings == polygon.num_rings(),
                r < n_rings,
                n == polygon.ring(r as int).len(),
                0 <= i <= n,
                marks.wf(polygon, nd as nat),
                (marks.view(), faces) == visit_all(polygon, pos, dg, limit as int, ring_starts(polygon, r as int, i as int)),
                faces_view(output@) == faces_view(out0) + faces,
                output@.len() >= out0.len(),
                output@.take(out0.len() as int) == out0,
                forall|k: int|
                    out0.len() <= k < output@.len() ==> ring_in_table(
                        (#[trigger] output@[k]).vertices@,
                        vertex_positions@.len(),
                    ),
            decreases n - i,
        {
            let h = HalfEdge::Ring(ComplexPointId { ring: r, point: i });
            proof {
                let pre = ring_starts(polygon, r as int, i as int);
                let post = ring_starts(polygon, r as int, i + 1);
                assert(post =~= pre.push(h));
                assert(post.drop_last() =~= pre);
                assert(visit_all(polygon, pos, dg, limit as int, post) == visit(
                    polygon,
                    pos,
                    dg,
                    limit as int,
                    visit_all(polygon, pos, dg, limit as int, pre),
                    h,
                ));
            }
            visit_exec(polygon, vertex_positions, diagonals, &mut marks, output, h, limit, Ghost(out0), Ghost(faces));
            proof {
                faces = visit(polygon, pos, dg, limit as int, visit_all(polygon, pos, dg, limit as int, ring_starts(polygon, r as int, i as int)), h).1;
            }
            i += 1;
        }
        proof {
            assert(ring_starts(polygon, r as int, n as int) =~= ring_starts(polygon, r + 1, 0));
        }
        r += 1;
    }
    let ghost rings_part = ring_starts(polygon, n_rings as int, 0);
    proof {
        assert(rings_part =~= polygon.all_points().map_values(|p: ComplexPointId| HalfEdge::Ring(p)));
        assert(rings_part + diagonal_starts(0) =~= rings_part);
    }
    let mut k: usize = 0;
    while k < nd
        invariant
            geometry_ok(polygon, vertex_positions@),
            diagonals_valid(polygon, diagonals.pairs@),
            pos == vertex_positions@,
            dg == diagonals.pairs@,
            nd == diagonals.pairs@.len(),
            limit == walk_limit(polygon, nd as nat),
            rings_part == polygon.all_points().map_values(|p: ComplexPointId| HalfEdge::Ring(p)),
            0 <= k <= nd,
            marks.wf(polygon, nd as nat),
            (marks.view(), faces) == visit_all(polygon, pos, dg, limit as int, rings_part + diagonal_starts(2 * k as nat)),
            faces_view(output@) == faces_view(out0) + faces,
            output@.len() >= out0.len(),
            output@.take(out0.len() as int) == out0,
            forall|j: int|
                out0.len() <= j < output@.len() ==> ring_in_table(
                    (#[trigger] output@[j]).vertices@,
                    vertex_positions@.len(),
                ),
        decreases nd - k,
    {
        let forward = HalfEdge::Diagonal(k, false);
        let ghost pre = rings_part + diagonal_starts(2 * k as nat);
        proof {
            let post = rings_part + diagonal_starts((2 * k + 1) as nat);
            assert(post =~= pre.push(forward));
            assert(post.drop_last() =~= pre);
            assert(visit_all(polygon, pos, dg, limit as int, post) == visit(
                polygon,
                pos,
                dg,
                limit as int,
                visit_all(polygon, pos, dg, limit as int, pre),
                forward,
            ));
        }
        visit_exec(polygon, vertex_positions, diagonals, &mut marks, output, forward, limit, Ghost(out0), Ghost(faces));
        proof {
            faces = visit(polygon, pos, dg, limit as int, visit_all(polygon, pos, dg, limit as int, pre), forward).1;
        }
        let backward = HalfEdge::Diagonal(k, true);
        let ghost pre2 = rings_part + diagonal_starts((2 * k + 1) as nat);
        proof {
            let post = rings_part + diagonal_starts((2 * k + 2) as nat);
            assert(post =~= pre2.push(backward));
            assert(post.drop_last() =~= pre2);
            assert(visit_all(polygon, pos, dg, limit as int, post) == visit(
                polygon,
                pos,
                dg,
                limit as int,
                visit_all(polygon, pos, dg, limit as int, pre2),
                backward,
            ));
        }
        visit_exec(polygon, vertex_positions, diagonals, &mut marks, output, backward, limit, Ghost(out0), Ghost(faces));
        proof {
            faces = visit(polygon, pos, dg, limit as int, visit_all(polygon, pos, dg, limit as int, pre2), backward).1;
        }
        k += 1;
    }
    proof {
        assert(rings_part + diagonal_starts(2 * nd as nat) =~= start_order(polygon, nd as nat));
    }
}

/// Traces the face of `h` unless `h` is used already, as [`visit`] does, and
/// appends a non-empty face to `output`.
fn visit_exec(
    polygon: &ComplexPolygon,
    vertex_positions: &[Vec2],
    diagonals: &Diagonals,
    marks: &mut Marks,
    output: &mut Vec<Polygon>,
    h: HalfEdge,
    limit: usize,
    out0: Ghost<Seq<Polygon>>,
    faces: Ghost<Seq<Seq<VertexId>>>,
)
    requires
        geometry_ok(polygon, vertex_positions@),
        diagonals_valid(polygon, diagonals.pairs@),
        old(marks).wf(polygon, diagonals.pairs@.len()),
        half_edge_ok(polygon, diagonals.pairs@.len(), h),
        faces_view(old(output)@) == faces_view(out0@) + faces@,
        old(output)@.len() >= out0@.len(),
        old(output)@.take(out0@.len() as int) == out0@,
        forall|k: int|
            out0@.len() <= k < old(output)@.len() ==> ring_in_table(
                (#[trigger] old(output)@[k]).vertices@,
                vertex_positions@.len(),
            ),
    ensures
        final(marks).wf(polygon, diagonals.pairs@.len()),
        ({
            let v = visit(
                polygon,
                vertex_positions@,
                diagonals.pairs@,
                limit as int,
                (old(marks).view(), faces@),
                h,
            );
            &&& final(marks).view() == v.0
            &&& faces_view(final(output)@) == faces_view(out0@) + v.1
        }),
        final(output)@.len() >= out0@.len(),
        final(output)@.take(out0@.len() as int) == out0@,
        forall|k: int|
            out0@.len() <= k < final(output)@.len() ==> ring_in_table(
                (#[trigger] final(output)@[k]).vertices@,
                vertex_positions@.len(),
            ),
{
    let nd = diagonals.pairs.len();
    if !marks.is_used(polygon, nd, h) {
        let face = trace_face(polygon, vertex_positions, diagonals, marks, h, limit);
        if face.vertices.len() > 0 {
            let ghost before = output@;
            output.push(face);
            proof {
                assert(output@.take(out0@.len() as int) =~= before.take(out0@.len() as int));
                assert(faces_view(output@) =~= faces_view(before).push(face.vertices@));
                assert(faces_view(output@) =~= faces_view(out0@) + faces@.push(face.vertices@));
                assert forall|k: int| out0@.len() <= k < output@.len() implies ring_in_table(
                    (#[trigger] output@[k]).vertices@,
                    vertex_positions@.len(),
                ) by {
                    if k < before.len() {
                        assert(output@[k] == before[k]);
                    }
                }
            }
        }
    }
}

} // verus!
