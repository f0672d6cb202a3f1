use geom::decomposition::{DecompositionContext, DecompositionError};
use geom::geometry::{
    get_vertex_type, intersect_segment_with_horizontal, is_below, vec2, Vec2, VertexType,
};
use geom::partition::partition_polygon;
use geom::polygon::{ComplexPolygon, Diagonals, Polygon, VertexId};
use geom::sweep::{find_right_of_current_vertex, sweep_add, sweep_remove};
use geom::triangulation::{
    is_y_monotone, SliceTriangleWriter, TriangulationContext, TriangulationError, Write,
};

/// Fixed-point scale from the float shapes below to the library's integer plane.
const SCALE: f32 = 1048576.0;

struct TestShape<'l> {
    label: &'l str,
    main: &'l [[f32; 2]],
    holes: &'l [&'l [[f32; 2]]],
}

fn to_fixed(v: [f32; 2]) -> Vec2 {
    vec2((v[0] * SCALE).round() as i32, (v[1] * SCALE).round() as i32)
}

fn build_polygon(main_len: usize, hole_lens: &[usize]) -> ComplexPolygon {
    let mut polygon = ComplexPolygon {
        main: Polygon::from_vertices((0..main_len).collect()),
        holes: Vec::new(),
    };
    let mut from = main_len;
    for len in hole_lens {
        let to = from + len;
        polygon.holes.push(Polygon::from_vertices((from..to).rev().collect()));
        from = to;
    }
    polygon
}

/// Decomposes, partitions and triangulates; returns the triangles.
fn triangulate(polygon: &ComplexPolygon, positions: &[Vec2]) -> (Vec<[VertexId; 3]>, usize) {
    let mut ctx = DecompositionContext::new();
    let mut diagonals = Diagonals::new();
    let res = ctx.y_monotone_polygon_decomposition(polygon, positions, &mut diagonals);
    assert_eq!(res, Ok(()));

    let mut pieces = Vec::new();
    partition_polygon(polygon, positions, &diagonals, &mut pieces);

    let mut triangulator = TriangulationContext::new();
    let mut triangles = Vec::new();
    for piece in &pieces {
        assert!(is_y_monotone(piece, positions));
        let res = triangulator.y_monotone_triangulation(piece, positions, &mut triangles);
        assert_eq!(res, Ok(()));
    }
    (triangles, diagonals.pairs.len())
}

fn test_shape(shape: &TestShape, angle: f32) -> Vec<[VertexId; 3]> {
    let mut vertices: Vec<[f32; 2]> = Vec::new();
    vertices.extend(shape.main.iter());
    for hole in shape.holes {
        vertices.extend(hole.iter());
    }
    for v in vertices.iter_mut() {
        // rotate all points around (0, 0).
        let cos = angle.cos();
        let sin = angle.sin();
        let (x, y) = (v[0], v[1]);
        v[0] = x * cos + y * sin;
        v[1] = y * cos - x * sin;
    }
    let positions: Vec<Vec2> = vertices.iter().map(|v| to_fixed(*v)).collect();
    let hole_lens: Vec<usize> = shape.holes.iter().map(|h| h.len()).collect();
    let polygon = build_polygon(shape.main.len(), &hole_lens);
    let (triangles, _) = triangulate(&polygon, &positions);
    let expected = vertices.len() + 2 * shape.holes.len() - 2;
    assert_eq!(triangles.len(), expected, "shape {} at angle {}", shape.label, angle);
    for t in &triangles {
        assert!(t[0] != t[1] && t[0] != t[2] && t[1] != t[2], "shape {}", shape.label);
        assert!(t.iter().all(|&i| i < positions.len()));
    }
    triangles
}

fn test_all_shapes(tests: &[TestShape]) {
    let mut angle: f32 = 0.0;
    while angle < 2.0 * std::f32::consts::PI {
        for shape in tests {
            test_shape(shape, angle);
        }
        angle += 0.005;
    }
}

#[test]
fn test_triangulate() {
    test_all_shapes(&[
        TestShape {
            label: "Simple triangle",
            main: &[[-10.0, 5.0], [0.0, -5.0], [10.0, 5.0]],
            holes: &[],
        },
        TestShape {
            label: "Simple triangle",
            main: &[[1.0, 2.0], [1.5, 3.0], [0.0, 4.0]],
            holes: &[],
        },
        TestShape {
            label: "Simple rectangle",
            main: &[[1.0, 2.0], [1.5, 3.0], [0.0, 4.0], [-1.0, 1.0]],
            holes: &[],
        },
        TestShape {
            label: "",
            main: &[
                [0.0, 0.0],
                [3.0, 0.0],
                [2.0, 1.0],
                [3.0, 2.0],
                [2.0, 3.0],
                [0.0, 2.0],
                [1.0, 1.0],
            ],
            holes: &[],
        },
        TestShape {
            label: "",
            main: &[[0.0, 0.0], [1.0, 1.0], [2.0, 0.0], [2.0, 4.0], [1.0, 3.0], [0.0, 4.0]],
            holes: &[],
        },
        TestShape {
            label: "",
            main: &[
                [0.0, 2.0],
                [1.0, 2.0],
                [0.0, 1.0],
                [2.0, 0.0],
                [3.0, 1.0],
                [4.0, 0.0],
                [3.0, 2.0],
                [2.0, 1.0],
                [3.0, 3.0],
                [2.0, 4.0],
            ],
            holes: &[],
        },
        TestShape {
            label: "",
            main: &[
                [0.0, 0.0],
                [1.0, 0.0],
                [2.0, 0.0],
                [3.0, 0.0],
                [3.0, 1.0],
                [3.0, 2.0],
                [3.0, 3.0],
                [2.0, 3.0],
                [1.0, 3.0],
                [0.0, 3.0],
                [0.0, 2.0],
                [0.0, 1.0],
            ],
            holes: &[],
        },
    ]);
}

#[test]
fn test_triangulate_holes() {
    test_all_shapes(&[
        TestShape {
            label: "Triangle with triangle hole",
            main: &[[-11.0, 5.0], [0.0, -5.0], [10.0, 5.0]],
            holes: &[&[[-5.0, 2.0], [0.0, -2.0], [4.0, 2.0]]],
        },
        TestShape {
            label: "Square with triangle hole",
            main: &[[-10.0, -10.0], [10.0, -10.0], [10.0, 10.0], [-10.0, 10.0]],
            holes: &[&[[-4.0, 2.0], [0.0, -2.0], [4.0, 2.0]]],
        },
        TestShape {
            label: "Square with two holes",
            main: &[[-10.0, -10.0], [10.0, -10.0], [10.0, 10.0], [-10.0, 10.0]],
            holes: &[
                &[[-8.0, -8.0], [-4.0, -8.0], [4.0, 8.0], [-8.0, 8.0]],
                &[[8.0, -8.0], [6.0, 7.0], [-2.0, -8.0]],
            ],
        },
        TestShape {
            label: "",
            main: &[
                [0.0, 0.0],
                [1.0, 1.0],
                [2.0, 1.0],
                [3.0, 0.0],
                [4.0, 0.0],
                [5.0, 0.0],
                [3.0, 4.0],
                [1.0, 4.0],
            ],
            holes: &[&[[2.0, 2.0], [3.0, 2.0], [2.5, 3.0]]],
        },
    ]);
}

fn assert_almost_eq(a: f64, b: f64) {
    if (a - b).abs() < 0.0001 {
        return;
    }
    panic!("expected {} and {} to be equal", a, b);
}

fn intercept_value(a: Vec2, b: Vec2, y: i32) -> f64 {
    let r = intersect_segment_with_horizontal(a, b, y);
    r.num as f64 / r.den as f64
}

#[test]
fn test_intersect_segment_horizontal() {
    assert_almost_eq(intercept_value(vec2(0, 0), vec2(0, 2), 1), 0.0);
    assert_almost_eq(intercept_value(vec2(0, 2), vec2(2, 0), 1), 1.0);
    assert_almost_eq(intercept_value(vec2(0, 1), vec2(3, 0), 0), 3.0);
}

#[test]
fn horizontal_segment_meets_at_its_rightmost_point() {
    let r = intersect_segment_with_horizontal(vec2(-4, 7), vec2(9, 7), 7);
    assert_eq!((r.num, r.den), (9, 1));
    let r = intersect_segment_with_horizontal(vec2(9, 7), vec2(-4, 7), 100);
    assert_eq!((r.num, r.den), (9, 1));
}

#[test]
fn intercept_is_exact_fraction() {
    let r = intersect_segment_with_horizontal(vec2(0, 0), vec2(1, 3), 1);
    assert_eq!(r.num * 3, r.den);
    assert!(r.den > 0);
}

#[test]
fn below_orders_by_y_then_x() {
    assert!(is_below(vec2(0, 1), vec2(0, 0)));
    assert!(!is_below(vec2(0, 0), vec2(0, 1)));
    assert!(is_below(vec2(1, 0), vec2(0, 0)));
    assert!(!is_below(vec2(0, 0), vec2(1, 0)));
    assert!(!is_below(vec2(3, 3), vec2(3, 3)));
}

#[test]
fn vertex_classification() {
    // Top of a clockwise triangle (y pointing down).
    assert_eq!(
        get_vertex_type(vec2(-10, 5), vec2(0, -5), vec2(10, 5)),
        VertexType::Start
    );
    // Same point with the neighbours swapped: a notch opening upwards.
    assert_eq!(
        get_vertex_type(vec2(10, 5), vec2(0, -5), vec2(-10, 5)),
        VertexType::Split
    );
    assert_eq!(
        get_vertex_type(vec2(10, -5), vec2(0, 5), vec2(-10, -5)),
        VertexType::End
    );
    assert_eq!(
        get_vertex_type(vec2(-10, -5), vec2(0, 5), vec2(10, -5)),
        VertexType::Merge
    );
    assert_eq!(
        get_vertex_type(vec2(0, 0), vec2(1, 1), vec2(0, 2)),
        VertexType::Right
    );
    assert_eq!(
        get_vertex_type(vec2(0, 2), vec2(-1, 1), vec2(0, 0)),
        VertexType::Left
    );
    // Zero interior angle: a spur is never a split or merge vertex.
    assert_eq!(
        get_vertex_type(vec2(0, 2), vec2(0, 0), vec2(0, 1)),
        VertexType::Start
    );
}

#[test]
fn sweep_status_is_kept_sorted() {
    // Three vertical edges at x = 5, 1, 3, walked downwards.
    let positions = vec![
        vec2(5, 0),
        vec2(5, 10),
        vec2(4, 12),
        vec2(1, 0),
        vec2(1, 10),
        vec2(0, 12),
        vec2(3, 0),
        vec2(3, 10),
        vec2(2, 12),
    ];
    let polygon = ComplexPolygon {
        main: Polygon::from_vertices(vec![0, 1, 2]),
        holes: vec![
            Polygon::from_vertices(vec![3, 4, 5]),
            Polygon::from_vertices(vec![6, 7, 8]),
        ],
    };
    let mut status = Vec::new();
    let e0 = geom::polygon::ComplexPointId { ring: 0, point: 0 };
    let e1 = geom::polygon::ComplexPointId { ring: 1, point: 0 };
    let e2 = geom::polygon::ComplexPointId { ring: 2, point: 0 };
    sweep_add(&polygon, &positions, &mut status, e0, 0);
    sweep_add(&polygon, &positions, &mut status, e1, 0);
    sweep_add(&polygon, &positions, &mut status, e2, 0);
    assert_eq!(status, vec![e1, e2, e0]);
    assert_eq!(
        find_right_of_current_vertex(&polygon, &positions, &status, vec2(2, 5)),
        Some(e2)
    );
    assert_eq!(
        find_right_of_current_vertex(&polygon, &positions, &status, vec2(6, 5)),
        None
    );
    sweep_remove(&polygon, &mut status, e2);
    assert_eq!(status, vec![e1, e0]);
    assert_eq!(
        find_right_of_current_vertex(&polygon, &positions, &status, vec2(2, 5)),
        Some(e0)
    );
}

fn int_shape(points: &[(i32, i32)]) -> Vec<Vec2> {
    points.iter().map(|&(x, y)| vec2(x, y)).collect()
}

#[test]
fn triangle_gives_one_triangle() {
    let positions = int_shape(&[(-10, 5), (0, -5), (10, 5)]);
    let polygon = build_polygon(3, &[]);
    let (triangles, diagonals) = triangulate(&polygon, &positions);
    assert_eq!(diagonals, 0);
    assert_eq!(triangles.len(), 1);
    let mut t = triangles[0].to_vec();
    t.sort();
    assert_eq!(t, vec![0, 1, 2]);
}

#[test]
fn quadrilateral_gives_two_triangles() {
    let positions = int_shape(&[(2, 4), (3, 6), (0, 8), (-2, 2)]);
    let polygon = build_polygon(4, &[]);
    let (triangles, _) = triangulate(&polygon, &positions);
    assert_eq!(triangles.len(), 2);
    let mut covered: Vec<usize> = triangles.iter().flat_map(|t| t.iter().cloned()).collect();
    covered.sort();
    covered.dedup();
    assert_eq!(covered, vec![0, 1, 2, 3]);
    for t in &triangles {
        assert!(t[0] != t[1] && t[0] != t[2] && t[1] != t[2]);
    }
}

#[test]
fn arrow_gives_five_triangles() {
    let positions = int_shape(&[(0, 0), (3, 0), (2, 1), (3, 2), (2, 3), (0, 2), (1, 1)]);
    let polygon = build_polygon(7, &[]);
    // Both notches face sideways: the arrow is already y-monotone.
    assert!(is_y_monotone(&Polygon::from_vertices((0..7).collect()), &positions));
    let (triangles, diagonals) = triangulate(&polygon, &positions);
    assert_eq!(diagonals, 0);
    assert_eq!(triangles.len(), 5);
}

#[test]
fn arrow_turned_upright_needs_a_diagonal() {
    // The arrow with x and y exchanged (and the ring reversed to keep its winding).
    let positions = int_shape(&[(1, 1), (2, 0), (3, 2), (2, 3), (1, 2), (0, 3), (0, 0)]);
    let polygon = build_polygon(7, &[]);
    let mut ctx = DecompositionContext::new();
    let mut diagonals = Diagonals::new();
    assert_eq!(
        ctx.y_monotone_polygon_decomposition(&polygon, &positions, &mut diagonals),
        Ok(())
    );
    assert!(!diagonals.pairs.is_empty());
    let mut pieces = Vec::new();
    partition_polygon(&polygon, &positions, &diagonals, &mut pieces);
    assert!(pieces.len() >= 2);
    for piece in &pieces {
        assert!(is_y_monotone(piece, &positions));
    }
    let (triangles, _) = triangulate(&polygon, &positions);
    assert_eq!(triangles.len(), 5);
}

#[test]
fn square_with_triangle_hole() {
    let positions = int_shape(&[
        (-10, -10),
        (10, -10),
        (10, 10),
        (-10, 10),
        (-4, 2),
        (0, -2),
        (4, 2),
    ]);
    let polygon = build_polygon(4, &[3]);
    let (triangles, _) = triangulate(&polygon, &positions);
    // Seven vertices and one hole: 7 + 2 * 1 - 2 triangles.
    assert_eq!(triangles.len(), 7);
    // No triangle has all three corners on the hole.
    for t in &triangles {
        assert!(!t.iter().all(|&i| i >= 4));
    }
}

#[test]
fn square_with_two_holes() {
    let positions = int_shape(&[
        (-10, -10),
        (10, -10),
        (10, 10),
        (-10, 10),
        (-8, -8),
        (-4, -8),
        (4, 8),
        (-8, 8),
        (8, -8),
        (6, 7),
        (-2, -8),
    ]);
    let polygon = build_polygon(4, &[4, 3]);
    let (triangles, _) = triangulate(&polygon, &positions);
    assert_eq!(triangles.len(), 13);
    for t in &triangles {
        assert!(t.iter().all(|&i| i < positions.len()));
    }
}

#[test]
fn hole_with_wrong_winding_is_refused() {
    let positions = int_shape(&[
        (-10, -10),
        (10, -10),
        (10, 10),
        (-10, 10),
        (-4, 2),
        (0, -2),
        (4, 2),
    ]);
    let polygon = ComplexPolygon {
        main: Polygon::from_vertices(vec![0, 1, 2, 3]),
        holes: vec![Polygon::from_vertices(vec![4, 5, 6])],
    };
    let mut ctx = DecompositionContext::new();
    let mut diagonals = Diagonals::new();
    assert_eq!(
        ctx.y_monotone_polygon_decomposition(&polygon, &positions, &mut diagonals),
        Err(DecompositionError::WrongWindingOrder)
    );
    assert!(diagonals.pairs.is_empty());
}

#[test]
fn outer_ring_wound_backwards_is_malformed() {
    let positions = int_shape(&[(10, 5), (0, -5), (-10, 5)]);
    let polygon = build_polygon(3, &[]);
    let mut ctx = DecompositionContext::new();
    let mut diagonals = Diagonals::new();
    assert_eq!(
        ctx.y_monotone_polygon_decomposition(&polygon, &positions, &mut diagonals),
        Err(DecompositionError::MalformedPolygon)
    );
}

#[test]
fn coincident_points_are_an_invalid_path() {
    let positions = int_shape(&[(0, 0), (0, 0), (0, 0)]);
    let ring = Polygon::from_vertices(vec![0, 1, 2]);
    let mut triangulator = TriangulationContext::new();
    let mut triangles = Vec::new();
    assert_eq!(
        triangulator.y_monotone_triangulation(&ring, &positions, &mut triangles),
        Err(TriangulationError::InvalidPath)
    );
}

#[test]
fn monotone_check_finds_split_vertex() {
    let positions = int_shape(&[(1, 1), (2, 0), (3, 2), (2, 3), (1, 2), (0, 3), (0, 0)]);
    let ring = Polygon::from_vertices((0..7).collect());
    assert!(!is_y_monotone(&ring, &positions));
    let square = int_shape(&[(0, 0), (1, 0), (1, 1), (0, 1)]);
    assert!(is_y_monotone(&Polygon::from_vertices(vec![0, 1, 2, 3]), &square));
}

#[test]
fn slice_writer_writes_three_indices() {
    let mut buffer = vec![0u16; 6];
    {
        let mut writer = SliceTriangleWriter::new(&mut buffer);
        writer.write([4, 5, 6]);
        writer.write([1, 2, 3]);
    }
    assert_eq!(buffer, vec![4, 5, 6, 1, 2, 3]);
}

#[test]
fn faces_use_every_edge_once() {
    // Each ring edge and each side of each diagonal starts one vertex of one face.
    let positions = int_shape(&[
        (-10, -10),
        (10, -10),
        (10, 10),
        (-10, 10),
        (-8, -8),
        (-4, -8),
        (4, 8),
        (-8, 8),
        (8, -8),
        (6, 7),
        (-2, -8),
    ]);
    let polygon = build_polygon(4, &[4, 3]);
    let mut ctx = DecompositionContext::new();
    let mut diagonals = Diagonals::new();
    assert_eq!(
        ctx.y_monotone_polygon_decomposition(&polygon, &positions, &mut diagonals),
        Ok(())
    );
    let mut pieces = Vec::new();
    partition_polygon(&polygon, &positions, &diagonals, &mut pieces);
    let total: usize = pieces.iter().map(|p| p.vertices.len()).sum();
    assert_eq!(total, 11 + 2 * diagonals.pairs.len());
    // Each face adds its length minus two triangles: 13 in all.
    let triangles: usize = pieces.iter().map(|p| p.vertices.len() - 2).sum();
    assert_eq!(triangles, 13);
}

#[test]
fn diagonals_join_polygon_points() {
    let positions = int_shape(&[(1, 1), (2, 0), (3, 2), (2, 3), (1, 2), (0, 3), (0, 0)]);
    let polygon = build_polygon(7, &[]);
    let mut ctx = DecompositionContext::new();
    let mut diagonals = Diagonals::new();
    assert_eq!(
        ctx.y_monotone_polygon_decomposition(&polygon, &positions, &mut diagonals),
        Ok(())
    );
    for (a, b) in &diagonals.pairs {
        assert!(a.ring == 0 && a.point < 7 && b.ring == 0 && b.point < 7);
        assert_ne!(a, b);
    }
}

#[test]
fn vec_and_unit_sinks() {
    let mut v: Vec<[VertexId; 3]> = Vec::new();
    v.write([1, 2, 3]);
    assert_eq!(v, vec![[1, 2, 3]]);
    let mut nothing = ();
    nothing.write([1, 2, 3]);
}
