//! Geometry tests: edges, containment, segment blocking and centroids.

use pathfinder::{Edge, Point, Polygon};

fn create_triangle() -> Polygon {
    Polygon::new(vec![
        Point::new(0, 0),
        Point::new(100, 0),
        Point::new(50, 87), // Approximately equilateral
    ])
}

fn create_square() -> Polygon {
    Polygon::new(vec![
        Point::new(0, 0),
        Point::new(100, 0),
        Point::new(100, 100),
        Point::new(0, 100),
    ])
}

fn create_pentagon() -> Polygon {
    Polygon::new(vec![
        Point::new(50, 0),
        Point::new(97, 35),
        Point::new(80, 90),
        Point::new(20, 90),
        Point::new(3, 35),
    ])
}

fn create_hexagon() -> Polygon {
    Polygon::new(vec![
        Point::new(50, 0),
        Point::new(93, 25),
        Point::new(93, 75),
        Point::new(50, 100),
        Point::new(7, 75),
        Point::new(7, 25),
    ])
}

fn test_all_polygons<F>(test_fn: F)
where
    F: Fn(&Polygon),
{
    let polygons = vec![
        create_triangle(),
        create_square(),
        create_pentagon(),
        create_hexagon(),
    ];

    for polygon in polygons {
        test_fn(&polygon);
    }
}

#[test]
fn test_edge_parallel() {
    let e1 = Edge::new(Point::new(0, 0), Point::new(10, 0));
    let e2 = Edge::new(Point::new(0, 5), Point::new(10, 5));
    assert!(!e1.intersects(&e2), "Parallel edges should not intersect");
}

#[test]
fn test_edge_collinear() {
    let e1 = Edge::new(Point::new(0, 0), Point::new(10, 0));
    let e2 = Edge::new(Point::new(5, 0), Point::new(15, 0));
    assert!(
        e1.intersects(&e2),
        "Overlapping collinear edges should intersect"
    );

    let e3 = Edge::new(Point::new(0, 0), Point::new(5, 0));
    let e4 = Edge::new(Point::new(6, 0), Point::new(10, 0));
    assert!(
        !e3.intersects(&e4),
        "Non-overlapping collinear edges should not intersect"
    );
}

#[test]
fn test_edge_intersection() {
    let e1 = Edge::new(Point::new(0, 0), Point::new(10, 10));
    let e2 = Edge::new(Point::new(0, 10), Point::new(10, 0));
    assert!(e1.intersects(&e2), "Crossing edges should intersect");

    let e3 = Edge::new(Point::new(0, 0), Point::new(10, 10));
    let e4 = Edge::new(Point::new(10, 10), Point::new(20, 20));
    assert!(
        !e3.intersects(&e4),
        "Edges sharing endpoint should not intersect"
    );
}

#[test]
fn test_edge_contains_point() {
    let edge = Edge::new(Point::new(0, 0), Point::new(10, 10));

    assert!(
        edge.contains_point(&Point::new(5, 5)),
        "Point on edge should be contained"
    );
    assert!(
        edge.contains_point(&Point::new(0, 0)),
        "Start point should be contained"
    );
    assert!(
        edge.contains_point(&Point::new(10, 10)),
        "End point should be contained"
    );
    assert!(
        !edge.contains_point(&Point::new(5, 6)),
        "Point off edge should not be contained"
    );
}

#[test]
fn test_vertex_cases() {
    test_all_polygons(|polygon| {
        let vertices = polygon.vertices_vec();

        // Test vertex to vertex (edges)
        for i in 0..vertices.len() {
            let j = (i + 1) % vertices.len();
            assert!(
                !polygon.intersects_segment(&vertices[i], &vertices[j]),
                "Edge of polygon should not count as intersection"
            );
        }

        // Test vertex to outside - extend directly outward from each
        // vertex, otherwise we may end up intersecting some other edge
        // of the polygon
        for i in 0..vertices.len() {
            let vertex = vertices[i];
            let prev = vertices[(i + vertices.len() - 1) % vertices.len()];
            let next = vertices[(i + 1) % vertices.len()];

            // Calculate bisector direction to ensure we go outward
            let dx1 = vertex.x - prev.x;
            let dy1 = vertex.y - prev.y;
            let dx2 = vertex.x - next.x;
            let dy2 = vertex.y - next.y;

            // Average the directions and normalize (roughly)
            let dx = (dx1 + dx2) / 2;
            let dy = (dy1 + dy2) / 2;
            let scale = 50; // Distance to extend outward

            let outside_point = Point::new(
                vertex.x + dx / dx.abs().max(1) * scale,
                vertex.y + dy / dy.abs().max(1) * scale,
            );

            assert!(
                !polygon.intersects_segment(&vertex, &outside_point),
                "Line from vertex directly outward should not intersect"
            );
        }
    });
}

#[test]
fn test_crossing_cases() {
    test_all_polygons(|polygon| {
        let center = polygon.center();

        // Test lines through center
        assert!(
            polygon.intersects_segment(
                &Point::new(center.x - 100, center.y),
                &Point::new(center.x + 100, center.y)
            ),
            "Horizontal line through center should intersect"
        );

        assert!(
            polygon.intersects_segment(
                &Point::new(center.x, center.y - 100),
                &Point::new(center.x, center.y + 100)
            ),
            "Vertical line through center should intersect"
        );
    });
}

#[test]
fn test_internal_cases() {
    test_all_polygons(|polygon| {
        let center = polygon.center();

        // Test point at center
        assert!(
            polygon.contains_point(&center),
            "Center point should be inside polygon"
        );

        // Test line between internal points
        let p1 = Point::new(center.x - 5, center.y - 5);
        let p2 = Point::new(center.x + 5, center.y + 5);
        assert!(
            polygon.intersects_segment(&p1, &p2),
            "Line between internal points should intersect"
        );
    });
}

#[test]
fn test_exterior_cases() {
    test_all_polygons(|polygon| {
        let center = polygon.center();

        // Test completely external line
        let far_left = Point::new(center.x - 200, center.y);
        let far_right = Point::new(center.x + 200, center.y);
        assert!(
            !polygon.intersects_segment(
                &Point::new(far_left.x, far_left.y + 200),
                &Point::new(far_right.x, far_right.y + 200)
            ),
            "Line completely outside should not intersect"
        );
    });
}

#[test]
fn test_degenerate_cases() {
    test_all_polygons(|polygon| {
        let vertices = polygon.vertices_vec();
        let center = polygon.center();

        // Test zero-length segments
        assert!(
            !polygon.intersects_segment(&vertices[0], &vertices[0]),
            "Zero-length segment at vertex should not intersect"
        );

        assert!(
            polygon.intersects_segment(&center, &center),
            "Zero-length segment at center should intersect"
        );
    });
}

#[test]
fn test_center_calculation() {
    // For regular polygons, center should be predictable
    let square = create_square();
    assert_eq!(
        square.center(),
        Point::new(50, 50),
        "Square center should be at (50,50)"
    );

    let triangle = create_triangle();
    assert_eq!(
        triangle.center(),
        Point::new(50, 29), // Approximate due to integer division
        "Triangle center should be at (50,29)"
    );
}

#[test]
fn test_edge_extraction() {
    test_all_polygons(|polygon| {
        let edges = polygon.outer_edges();
        let vertices = polygon.vertices_vec();

        assert_eq!(
            edges.len(),
            vertices.len(),
            "Number of edges should equal number of vertices"
        );

        // Verify each edge connects consecutive vertices
        for (i, edge) in edges.iter().enumerate() {
            assert_eq!(edge.start, vertices[i], "Edge should start at vertex");
            assert_eq!(
                edge.end,
                vertices[(i + 1) % vertices.len()],
                "Edge should end at next vertex"
            );
        }
    });
}
