use mars_core::checks::write_dual_face;
use mars_core::edges::histogram;
use mars_core::index::Index;
use mars_core::mesh::{
    assemble, collect_grid, earlier_bisectors, DualFace, DualPolygon, FaceCandidate, GridError, GridReport, VineyardsGridMesh,
};
use mars_core::obj::ObjFile;

fn square() -> VineyardsGridMesh<u32> {
    // 0 - 1
    // |   |
    // 3 - 2   plus the diagonal 0 - 2, given twice, and a loop 3 - 3 that is left out
    VineyardsGridMesh::from_parts(
        vec![10, 11, 12, 13],
        &vec![(0, 1), (1, 2), (2, 3), (3, 0), (0, 2), (2, 0), (3, 3)],
        vec![DualFace { a: 1, b: 3, vertices: vec![7, 8, 9] }],
    )
}

#[test]
fn from_parts_builds_symmetric_lists_in_order() {
    let g = square();
    assert_eq!(g.neighbors, vec![vec![1, 3, 2], vec![0, 2, 3], vec![1, 3, 0], vec![2, 0, 1]]);
    assert_eq!(g.grid_type, "meshgrid");
    assert!(g.has_dual());
    assert_eq!(g.edge_list(), vec![(0, 1), (0, 3), (0, 2), (1, 2), (1, 3), (2, 3)]);
    // Handshake: the list lengths add up to twice the number of edges.
    let total: usize = g.neighbors.iter().map(|n| n.len()).sum();
    assert_eq!(total, 2 * g.edge_list().len());
}

#[test]
fn empty_grid_has_nothing() {
    let g: VineyardsGridMesh<u32> = VineyardsGridMesh::empty();
    assert!(g.points.is_empty() && g.neighbors.is_empty() && !g.has_dual());
    assert_eq!(g.grid_type, "meshgrid");
}

#[test]
fn dual_face_lookup_is_symmetric() {
    let g = square();
    let f = g.dual_face(Index::fake(3), Index::fake(1)).expect("face of edge (1, 3)");
    assert_eq!(f.vertices, vec![7, 8, 9]);
    assert!(g.dual_face(Index::fake(0), Index::fake(1)).is_none());
    assert!(matches!(g.dual_polygon(Index::fake(1), Index::fake(3)), DualPolygon::Supplied(_)));
    assert!(matches!(g.dual_polygon(Index::fake(0), Index::fake(1)), DualPolygon::Missing));
    let plain = VineyardsGridMesh::from_parts(vec![1u8, 2], &vec![(0, 1)], Vec::new());
    assert!(!plain.has_dual());
    assert!(matches!(plain.dual_polygon(Index::fake(0), Index::fake(1)), DualPolygon::Square));
    assert_eq!(plain.coordinate(Index::fake(1)), 2);
}

#[test]
fn split_sends_each_edge_to_one_half() {
    let g = square();
    let (lo, hi) = g.split_in_half(&vec![true, false, false, false]);
    assert_eq!(lo.neighbors, vec![vec![1, 3, 2], vec![0], vec![0], vec![0]]);
    assert_eq!(hi.neighbors, vec![vec![], vec![2, 3], vec![1, 3], vec![2, 1]]);
    assert!(lo.dual_faces.is_empty() && hi.dual_faces.is_empty());
    assert_eq!(lo.points, g.points);
    for v in 0..4 {
        assert_eq!(lo.neighbors[v].len() + hi.neighbors[v].len(), g.neighbors[v].len());
    }
}

#[test]
fn assemble_counts_every_face_once() {
    let cands = vec![
        FaceCandidate::Bisects { a: 0, b: 1, vertices: vec![1, 2, 3, 4] },
        FaceCandidate::NotEquidistant,
        FaceCandidate::Bisects { a: 1, b: 0, vertices: vec![4, 3, 2, 1] },
        FaceCandidate::Degenerate,
        FaceCandidate::Bisects { a: 3, b: 2, vertices: vec![5, 6, 7] },
    ];
    let same = vec![false, false, true, false, false];
    let (g, r) = match assemble(vec![0u8, 1, 2, 3], vec![(0, 1), (1, 2)], 5, cands, same) {
        Ok(x) => x,
        Err(_) => panic!("assemble"),
    };
    assert_eq!(g.neighbors, vec![vec![1], vec![0, 2], vec![1, 3], vec![2]]);
    assert_eq!(g.dual_faces.len(), 2);
    assert_eq!((g.dual_faces[1].a, g.dual_faces[1].b), (2, 3));
    let expected = GridReport {
        points: 4,
        edges: 3,
        edges_from_lines: 2,
        faces_total: 5,
        faces_matched: 2,
        faces_dropped: 1,
        faces_duplicate: 1,
        faces_degenerate: 1,
        edges_without_face: 1,
        faces_without_line_edge: 1,
        face_vertex_histogram: vec![(3, 1), (4, 1)],
        degree_histogram: vec![(1, 2), (2, 2)],
    };
    assert_eq!(r, expected);
    assert_eq!(r.faces_total, r.faces_matched + r.faces_dropped + r.faces_duplicate + r.faces_degenerate);
    assert!(r.has_dual());
}

#[test]
fn assemble_without_faces_has_an_empty_report_of_faces() {
    let (g, r) = match assemble(vec![0u8, 1], vec![(1, 0), (0, 1)], 0, Vec::new(), Vec::new()) {
        Ok(x) => x,
        Err(_) => panic!("assemble"),
    };
    assert_eq!(g.neighbors, vec![vec![1], vec![0]]);
    assert!(!r.has_dual());
    assert_eq!((r.edges, r.edges_from_lines, r.edges_without_face, r.faces_without_line_edge), (1, 1, 0, 0));
    assert_eq!(GridReport::default().points, 0);
}

#[test]
fn differing_faces_on_one_edge_are_an_error() {
    let cands = vec![
        FaceCandidate::Bisects { a: 0, b: 1, vertices: vec![1u8, 2, 3] },
        FaceCandidate::Bisects { a: 1, b: 0, vertices: vec![1, 2] },
    ];
    match assemble(vec![0u8, 1], Vec::new(), 2, cands, vec![false, false]) {
        Err(GridError::FacesDiffer { face, other, a, b }) => assert_eq!((face, other, a, b), (1, 0, 0, 1)),
        _ => panic!("expected FacesDiffer"),
    }
    assert!(matches!(
        assemble(vec![0u8], Vec::new(), 1, Vec::<FaceCandidate<u8>>::new(), Vec::new()),
        Err(GridError::DualNeedsTwoPoints)
    ));
}

#[test]
fn grid_writes_as_obj() {
    let g = square();
    let pts: Vec<String> = (0..4).map(|k| format!("v {} 0 0\n", k)).collect();
    let faces = vec![String::from("v 9 9 9\nv 8 8 8\nv 7 7 7\n")];
    let text = g.write_as_obj(&pts, &faces);
    assert_eq!(
        text,
        "o grid\nv 0 0 0\nv 1 0 0\nv 2 0 0\nv 3 0 0\nl 1 2\nl 1 4\nl 1 3\nl 2 3\nl 2 4\nl 3 4\n\
         o dual\nv 9 9 9\nv 8 8 8\nv 7 7 7\nf 5 6 7\n"
    );
    let plain = VineyardsGridMesh::from_parts(vec![1u8, 2], &vec![(0, 1)], Vec::new());
    assert_eq!(plain.write_as_obj(&vec!["v a\n".into(), "v b\n".into()], &vec![]), "o grid\nv a\nv b\nl 1 2\n");
}

#[test]
fn written_grid_reads_back() {
    let g = square();
    let pts: Vec<String> = (0..4).map(|k| format!("v {}.5 -1e3 0\n", k)).collect();
    let faces = vec![String::from("v 9 9 9\nv 8 8 8\nv 7 7 7\n")];
    let text = g.write_as_obj(&pts, &faces);
    let f = match ObjFile::parse(&text) {
        Ok(f) => f,
        Err(_) => panic!("the written text should parse"),
    };
    assert_eq!(f.vertices.len(), 7);
    assert_eq!(f.vertices[2].x, "2.5");
    assert_eq!(f.vertices[2].y, "-1e3");
    assert_eq!(f.vertices[6].z, "7");
    assert_eq!(f.objects.len(), 2);
    assert_eq!(f.objects[0].name, "grid");
    assert_eq!(f.objects[0].vertices, vec![0, 1, 2, 3]);
    assert_eq!(f.objects[0].lines, g.edge_list());
    assert_eq!(f.objects[1].name, "dual");
    assert_eq!(f.objects[1].vertices, vec![4, 5, 6]);
    assert_eq!(f.objects[1].faces, vec![vec![4, 5, 6]]);
    let parts = match collect_grid(&f) {
        Ok(p) => p,
        Err(_) => panic!("collect"),
    };
    assert_eq!(parts.points, vec![0, 1, 2, 3]);
    assert_eq!(parts.line_edges, g.edge_list());
    assert_eq!(parts.faces, vec![vec![4, 5, 6]]);
}

#[test]
fn dual_face_is_written_after_earlier_vertices() {
    let lines = vec![String::from("v 0 0 0\n"), String::from("v 1 0 0\n"), String::from("v 1 1 0\n")];
    assert_eq!(write_dual_face(&lines, 3), "v 0 0 0\nv 1 0 0\nv 1 1 0\nf 4 5 6\n");
    assert_eq!(write_dual_face(&Vec::new(), 7), "f\n");
}

#[test]
fn sampling_counts_edges_with_faces() {
    let g = square();
    assert_eq!(g.sample_dual_hits(64), (6, 1));
    assert_eq!(g.sample_dual_hits(2), (2, 0));
    assert_eq!(g.sample_dual_hits(3), (3, 1));
    let none: VineyardsGridMesh<u8> = VineyardsGridMesh::from_parts(vec![1, 2], &Vec::new(), Vec::new());
    assert_eq!(none.sample_dual_hits(4), (0, 0));
}

#[test]
fn histogram_counts_values_in_order() {
    assert_eq!(histogram(&vec![4, 2, 4, 4, 6, 2]), vec![(2, 2), (4, 3), (6, 1)]);
    assert_eq!(histogram(&Vec::new()), Vec::<(usize, usize)>::new());
}

#[test]
fn report_reads_as_text() {
    let mut r = GridReport::default();
    r.points = 4;
    r.edges = 5;
    r.edges_from_lines = 3;
    r.degree_histogram = vec![(2, 2), (3, 2)];
    assert_eq!(
        r.text(),
        "grid: 4 points, 5 edges (3 from l lines)\n  degree histogram (degree:count): 2:2 3:2\n\
         dual: none supplied (legacy grid: dual faces are axis-aligned squares)"
    );
    r.faces_total = 7;
    r.faces_matched = 4;
    r.faces_dropped = 1;
    r.faces_duplicate = 1;
    r.faces_degenerate = 1;
    r.face_vertex_histogram = vec![(4, 4)];
    r.edges_without_face = 1;
    r.faces_without_line_edge = 2;
    assert_eq!(
        r.text(),
        "grid: 4 points, 5 edges (3 from l lines)\n  degree histogram (degree:count): 2:2 3:2\n\
         dual: 7 faces: 4 matched, 1 dropped (outer walls), 1 duplicate, 1 degenerate\n  \
         face size histogram (vertices:count): 4:4\n  edges without a face: 1; matched faces without an l edge: 2"
    );
}

#[test]
fn each_face_is_compared_with_the_first_face_of_its_edge() {
    let cands: Vec<FaceCandidate<u8>> = vec![
        FaceCandidate::Bisects { a: 1, b: 0, vertices: vec![1] },
        FaceCandidate::Degenerate,
        FaceCandidate::Bisects { a: 0, b: 2, vertices: vec![2] },
        FaceCandidate::Bisects { a: 0, b: 1, vertices: vec![3] },
        FaceCandidate::NotEquidistant,
        FaceCandidate::Bisects { a: 1, b: 0, vertices: vec![4] },
    ];
    assert_eq!(earlier_bisectors(&cands, 3), vec![None, None, None, Some(0), None, Some(0)]);
}
