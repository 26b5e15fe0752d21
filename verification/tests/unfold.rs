use durer::geom::DIST3_SQ_MAX;
use durer::mesh::HalfEdgeMesh;
use durer::net::unfold;
use durer::net::unfold_layout;
use durer::tree::build_spanning_tree;
use durer::Point2;
use durer::Point3;
use durer::UnfoldError;

/// Layout units per model unit used by these tests.
const S: i64 = 256;

fn p3(x: i64, y: i64, z: i64) -> Point3 {
    Point3 { x, y, z }
}

/// A regular tetrahedron with vertices (1,1,1), (1,-1,-1), (-1,1,-1),
/// (-1,-1,1), scaled by `S`.
fn tetra() -> (Vec<Point3>, Vec<Vec<usize>>) {
    let vertices = vec![
        p3(S, S, S),
        p3(S, -S, -S),
        p3(-S, S, -S),
        p3(-S, -S, S),
    ];
    let faces = vec![
        vec![0, 1, 2],
        vec![0, 2, 3],
        vec![0, 3, 1],
        vec![1, 3, 2],
    ];
    (vertices, faces)
}

fn dist2d(a: Point2, b: Point2) -> f64 {
    let dx = (a.x - b.x) as f64;
    let dy = (a.y - b.y) as f64;
    (dx * dx + dy * dy).sqrt()
}

fn dist3d(a: Point3, b: Point3) -> f64 {
    let dx = (a.x - b.x) as f64;
    let dy = (a.y - b.y) as f64;
    let dz = (a.z - b.z) as f64;
    (dx * dx + dy * dy + dz * dz).sqrt()
}

fn tri_area2d(a: Point2, b: Point2, c: Point2) -> f64 {
    let v = (b.x - a.x) as f64 * (c.y - a.y) as f64 - (b.y - a.y) as f64 * (c.x - a.x) as f64;
    v.abs() / 2.0
}

#[test]
fn tetra_mesh_builds() {
    let (vertices, faces) = tetra();
    let m = HalfEdgeMesh::new(vertices, &faces).unwrap();
    assert_eq!(m.face_count(), 4);
    assert_eq!(m.vertex_count(), 4);
}

#[test]
fn tetra_twins_are_involutive() {
    let (vertices, faces) = tetra();
    let m = HalfEdgeMesh::new(vertices, &faces).unwrap();
    for h in 0..12usize {
        let t = m.twin_of(h).expect("closed mesh: every half-edge has a twin");
        assert!(t < 12);
        assert_ne!(t, h);
        assert_eq!(m.twin_of(t), Some(h));
    }
}

#[test]
fn tetra_spanning_tree_covers_all_faces() {
    let (vertices, faces) = tetra();
    let m = HalfEdgeMesh::new(vertices, &faces).unwrap();
    let tr = build_spanning_tree(&m, 0).unwrap();
    assert_eq!(tr.root, 0);
    assert_eq!(tr.size(), 4);
    assert_eq!(tr.order[0], 0);
    // every face appears exactly once
    let mut seen = [false; 4];
    for &f in tr.order.iter() {
        assert!(!seen[f]);
        seen[f] = true;
    }
    assert!(seen.iter().all(|&b| b));
    // each non-root face has one parent reached over a real shared edge
    for c in 0..4usize {
        match tr.parent[c] {
            None => assert_eq!(c, 0),
            Some(link) => {
                assert_eq!(link.via / 3, link.parent);
                let t = m.twin_of(link.via).expect("tree edge has a twin");
                assert_eq!(t / 3, c);
            }
        }
    }
}

#[test]
fn tetra_adjacency_queries() {
    let (vertices, faces) = tetra();
    let m = HalfEdgeMesh::new(vertices, &faces).unwrap();
    // faces 0 (0,1,2) and 1 (0,2,3) share edge {0,2}
    assert!(m.are_adjacent(0, 1));
    let h = m.shared_edge(0, 1).unwrap();
    assert_eq!(h / 3, 0);
    assert_eq!(m.twin_face(h), Some(1));
    // a face is not adjacent to itself in the tetrahedron
    assert!(!m.are_adjacent(0, 0));
}

#[test]
fn tetra_net_edge_lengths_and_areas() {
    let (vertices, faces) = tetra();
    let vcopy = vertices.clone();
    let m = HalfEdgeMesh::new(vertices, &faces).unwrap();
    let net = unfold(&m, 0).unwrap();
    assert_eq!(net.len(), 12);
    let expected_edge = 2.0 * (2.0f64).sqrt() * S as f64;
    let expected_area = 2.0 * (3.0f64).sqrt() * (S as f64) * (S as f64);
    for t in 0..4usize {
        let a = net[3 * t];
        let b = net[3 * t + 1];
        let c = net[3 * t + 2];
        for (u, v) in [(a, b), (b, c), (c, a)] {
            assert!(
                (dist2d(u, v) - expected_edge).abs() < 3.0,
                "edge length {} deviates from {}",
                dist2d(u, v),
                expected_edge
            );
        }
        let area = tri_area2d(a, b, c);
        assert!(
            (area - expected_area).abs() / expected_area < 0.02,
            "area {} deviates from {}",
            area,
            expected_area
        );
    }
    // per-triangle points match the source faces' vertex order: each planar
    // edge has the same length as the corresponding 3-D edge
    for t in 0..4usize {
        let f = &faces[t];
        for k in 0..3usize {
            let i3 = f[k];
            let j3 = f[(k + 1) % 3];
            let d3 = dist3d(vcopy[i3], vcopy[j3]);
            let d2 = dist2d(net[3 * t + k], net[3 * t + (k + 1) % 3]);
            assert!((d2 - d3).abs() < 3.0);
        }
    }
}

#[test]
fn tetra_shared_edges_exactly_preserved() {
    let (vertices, faces) = tetra();
    let m = HalfEdgeMesh::new(vertices, &faces).unwrap();
    let tr = build_spanning_tree(&m, 0).unwrap();
    let lay = unfold_layout(&m, &tr).unwrap();
    for c in 0..4usize {
        let link = match tr.parent[c] {
            Some(l) => l,
            None => continue,
        };
        let child = lay[c].unwrap();
        let parent = lay[link.parent].unwrap();
        let cpts = [child.0, child.1, child.2];
        let ppts = [parent.0, parent.1, parent.2];
        let cf = &faces[c];
        let pf = &faces[link.parent];
        // the two vertices shared between the faces are placed bit-identically
        let mut shared = 0;
        for (ci, &cv) in cf.iter().enumerate() {
            for (pi, &pv) in pf.iter().enumerate() {
                if cv == pv {
                    assert_eq!(cpts[ci], ppts[pi], "shared vertex {} moved", cv);
                    shared += 1;
                }
            }
        }
        assert_eq!(shared, 2);
    }
}

#[test]
fn unfolding_twice_is_identical() {
    let (vertices, faces) = tetra();
    let v2 = vertices.clone();
    let m1 = HalfEdgeMesh::new(vertices, &faces).unwrap();
    let m2 = HalfEdgeMesh::new(v2, &faces).unwrap();
    let n1 = unfold(&m1, 0).unwrap();
    let n2 = unfold(&m2, 0).unwrap();
    assert_eq!(n1, n2);
}

#[test]
fn collinear_face_is_degenerate() {
    let vertices = vec![p3(0, 0, 0), p3(S, 0, 0), p3(2 * S, 0, 0)];
    let faces = vec![vec![0, 1, 2]];
    let m = HalfEdgeMesh::new(vertices, &faces).unwrap();
    let r = unfold(&m, 0);
    assert_eq!(r, Err(UnfoldError::DegenerateFace { face: 0 }));
}

#[test]
fn out_of_range_vertex_index_rejected() {
    // a face listing a vertex index equal to the vertex count
    let vertices = vec![p3(0, 0, 0), p3(S, 0, 0), p3(0, S, 0)];
    let faces = vec![vec![0, 1, 3]];
    let r = HalfEdgeMesh::new(vertices, &faces);
    match r {
        Err(e) => assert_eq!(e, UnfoldError::InvalidFaceIndex { face: 0, vertex: 3 }),
        Ok(_) => panic!("expected InvalidFaceIndex"),
    }
}

#[test]
fn non_triangle_faces_rejected() {
    let vertices = vec![p3(0, 0, 0), p3(S, 0, 0), p3(0, S, 0), p3(S, S, 0)];
    let too_few = vec![vec![0, 1]];
    match HalfEdgeMesh::new(vec![p3(0, 0, 0), p3(S, 0, 0)], &too_few) {
        Err(e) => assert_eq!(e, UnfoldError::UnsupportedFaceArity { face: 0 }),
        Ok(_) => panic!("expected UnsupportedFaceArity"),
    }
    let too_many = vec![vec![0, 1, 2], vec![0, 1, 2, 3]];
    match HalfEdgeMesh::new(vertices, &too_many) {
        Err(e) => assert_eq!(e, UnfoldError::UnsupportedFaceArity { face: 1 }),
        Ok(_) => panic!("expected UnsupportedFaceArity"),
    }
}

#[test]
fn three_faces_on_one_edge_rejected() {
    let vertices = vec![p3(0, 0, 0), p3(S, 0, 0), p3(0, S, 0), p3(0, 0, S), p3(0, -S, 0)];
    let faces = vec![vec![0, 1, 2], vec![0, 1, 3], vec![1, 0, 4]];
    let r = HalfEdgeMesh::new(vertices, &faces);
    match r {
        Err(e) => assert_eq!(e, UnfoldError::NonManifoldGeometry { face: 0 }),
        Ok(_) => panic!("expected NonManifoldGeometry"),
    }
}

#[test]
fn seed_out_of_range_rejected() {
    let (vertices, faces) = tetra();
    let m = HalfEdgeMesh::new(vertices, &faces).unwrap();
    assert_eq!(
        unfold(&m, 99),
        Err(UnfoldError::SeedFaceOutOfRange { seed: 99 })
    );
}

#[test]
fn disconnected_component_is_left_out() {
    // two triangles with no shared edge: only the seed's is unfolded
    let vertices = vec![
        p3(0, 0, 0),
        p3(S, 0, 0),
        p3(0, S, 0),
        p3(3 * S, 0, 0),
        p3(4 * S, 0, 0),
        p3(3 * S, S, 0),
    ];
    let faces = vec![vec![0, 1, 2], vec![3, 4, 5]];
    let m = HalfEdgeMesh::new(vertices, &faces).unwrap();
    let tr = build_spanning_tree(&m, 0).unwrap();
    assert_eq!(tr.size(), 1);
    assert_eq!(tr.parent[1], None);
    let net = unfold(&m, 0).unwrap();
    assert_eq!(net.len(), 3);
}

#[test]
fn single_boundary_triangle_unfolds() {
    // an open (boundary) triangle: no twins, still unfoldable as a leaf
    let vertices = vec![p3(0, 0, 0), p3(S, 0, 0), p3(0, S, 0)];
    let faces = vec![vec![0, 1, 2]];
    let m = HalfEdgeMesh::new(vertices, &faces).unwrap();
    for h in 0..3usize {
        assert_eq!(m.twin_of(h), None);
    }
    let net = unfold(&m, 0).unwrap();
    assert_eq!(net.len(), 3);
    // the canonical root placement starts at the origin on the x-axis
    assert_eq!(net[0], Point2 { x: 0, y: 0 });
    assert_eq!(net[1].y, 0);
    assert!((dist2d(net[0], net[1]) - S as f64).abs() < 2.0);
}

#[test]
fn right_triangle_has_exact_canonical_placement() {
    // sides 3-4-5 in the z = 0 plane: the root face lands with its first
    // vertex at the origin, its first edge on the x-axis, and the apex
    // exactly at (0, 3); every intermediate quantity is a whole number
    let vertices = vec![p3(0, 0, 0), p3(4, 0, 0), p3(0, 3, 0)];
    let faces = vec![vec![0, 1, 2]];
    let m = HalfEdgeMesh::new(vertices, &faces).unwrap();
    let net = unfold(&m, 0).unwrap();
    assert_eq!(net, vec![
        Point2 { x: 0, y: 0 },
        Point2 { x: 4, y: 0 },
        Point2 { x: 0, y: 3 },
    ]);
}

#[test]
fn squared_distance_bound_holds_for_extreme_points() {
    let a = p3(1024, 1024, 1024);
    let b = p3(-1024, -1024, -1024);
    let d = durer::geom::sq_dist3(a, b);
    assert_eq!(d, DIST3_SQ_MAX);
}
