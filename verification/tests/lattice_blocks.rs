use mars_core::block_obj::{block_to_obj, Lines, ObjOptions};
use mars_core::lattice::{lattice_block, orbit, Lattice, LatticeBlock};
use mars_core::mesh::collect_grid;
use mars_core::obj::ObjFile;

/// The facets of the cube around the origin in Z coordinates, vertices in index order.
fn cube_facets() -> (Vec<[i64; 3]>, Vec<([i64; 3], Vec<usize>)>) {
    let vz = Lattice::Sc.voronoi_vertices_z();
    let mut facets = Vec::new();
    for r in Lattice::Sc.relevant_z() {
        let rr = r[0] * r[0] + r[1] * r[1] + r[2] * r[2];
        let on: Vec<usize> = (0..vz.len())
            .filter(|&i| 2 * (vz[i][0] * r[0] + vz[i][1] * r[1] + vz[i][2] * r[2]) == rr)
            .collect();
        facets.push((r, on));
    }
    (vz, facets)
}

fn sc_block() -> LatticeBlock<[i64; 3]> {
    let (vz, facets) = cube_facets();
    lattice_block(Lattice::Sc, [1, 1, 1], &vz, &facets)
}

#[test]
fn orbits_are_sorted_signed_permutations() {
    assert_eq!(
        orbit([1, 1, 0]),
        vec![
            [-1, -1, 0],
            [-1, 0, -1],
            [-1, 0, 1],
            [-1, 1, 0],
            [0, -1, -1],
            [0, -1, 1],
            [0, 1, -1],
            [0, 1, 1],
            [1, -1, 0],
            [1, 0, -1],
            [1, 0, 1],
            [1, 1, 0],
        ]
    );
    assert_eq!(orbit([2, 2, 2]).len(), 8);
    assert_eq!(orbit([0, 1, 2]).len(), 24);
    assert_eq!(orbit([0, 0, 0]), vec![[0, 0, 0]]);
}

#[test]
fn lattice_names_and_cells() {
    assert_eq!((Lattice::Sc.name(), Lattice::Bcc.name(), Lattice::Fcc.name()), ("SC", "BCC", "FCC"));
    assert_eq!(Lattice::Bcc.basis_y(), vec![[0, 0, 0], [1, 1, 1]]);
    assert_eq!(Lattice::Fcc.basis_y().len(), 4);
    assert_eq!(Lattice::Sc.voronoi_vertices_z().len(), 8);
    assert_eq!(Lattice::Bcc.voronoi_vertices_z().len(), 24);
    let f = Lattice::Fcc.voronoi_vertices_z();
    assert_eq!(f.len(), 14);
    assert_eq!(&f[..6], &orbit([2, 0, 0])[..]);
    assert_eq!(&f[6..], &orbit([1, 1, 1])[..]);
    assert_eq!(Lattice::Bcc.relevant_z().len(), 14);
    let (s1, s2) = Lattice::Sc.shell_offsets_y();
    assert_eq!((s1.len(), s2.len()), (6, 12));
    let (b1, b2) = Lattice::Bcc.shell_offsets_y();
    assert_eq!((b1.len(), b2.len()), (8, 6));
}

#[test]
fn simple_cubic_block_of_one_cell() {
    let b = sc_block();
    assert_eq!(b.kind, Lattice::Sc);
    assert_eq!(
        b.points,
        vec![[0, 0, 0], [0, 0, 2], [0, 2, 0], [0, 2, 2], [2, 0, 0], [2, 0, 2], [2, 2, 0], [2, 2, 2]]
    );
    assert_eq!(b.shell1.len(), 12);
    assert_eq!(b.shell1[..3], [(0, 1), (0, 2), (0, 4)]);
    assert_eq!(b.shell2.len(), 12);
    assert_eq!(b.walls.len(), 36);
    assert_eq!(b.inner_walls(), 12);
    assert_eq!(b.outer_walls(), 24);
    assert_eq!(b.dual_vertices.len(), 27);
    // The first wall of the first point faces away from the block.
    assert_eq!(b.walls[0].0, 0);
    assert_eq!(b.walls[0].1, None);
    for (i, j, ids) in &b.walls {
        assert_eq!(ids.len(), 4);
        if let Some(j) = j {
            assert!(i < j);
        }
    }
}

#[test]
fn body_centred_block_has_both_shells() {
    let vz = Lattice::Bcc.voronoi_vertices_z();
    let mut facets = Vec::new();
    for r in Lattice::Bcc.relevant_z() {
        let rr = r[0] * r[0] + r[1] * r[1] + r[2] * r[2];
        let on: Vec<usize> = (0..vz.len())
            .filter(|&i| 2 * (vz[i][0] * r[0] + vz[i][1] * r[1] + vz[i][2] * r[2]) == rr)
            .collect();
        if on.len() >= 3 {
            facets.push((r, on));
        }
    }
    let b = lattice_block(Lattice::Bcc, [2, 2, 2], &vz, &facets);
    assert_eq!(b.points.len(), 27 + 8);
    // Every body centre has its eight corner neighbours.
    assert_eq!(b.shell1.len(), 8 * 8);
    assert_eq!(b.shell2.len(), 54 + 12);
}

#[test]
fn block_text_follows_the_options() {
    let b = sc_block();
    let pts: Vec<String> = b.points.iter().map(|p| format!("v {} {} {}\n", p[0], p[1], p[2])).collect();
    let duals: Vec<String> = b.dual_vertices.iter().map(|p| format!("v {} {} {}\n", p[0], p[1], p[2])).collect();
    let plain = ObjOptions { lines: Lines::NoLines, dual: false, ..Default::default() };
    let s = block_to_obj(&b, &plain, &pts, &duals);
    assert_eq!(s, format!("# test lattice\no SC_lattice\n{}", pts.concat()));

    let s = block_to_obj(&b, &ObjOptions::default(), &pts, &duals);
    assert_eq!(s.matches("\nl ").count(), 24);
    assert_eq!(s.matches("\nf ").count(), 36);
    assert!(s.contains("\nl 1 2\n"));
    assert!(s.contains("o SC_voronoi\n"));
    assert!(!s.contains("vn"));

    let inner = ObjOptions { lines: Lines::Shell1, include_outer: false, ..Default::default() };
    let s = block_to_obj(&b, &inner, &pts, &duals);
    assert_eq!(s.matches("\nl ").count(), 12);
    assert_eq!(s.matches("\nf ").count(), 12);

    let dup = ObjOptions { duplicate_walls: true, normals: true, ..Default::default() };
    let s = block_to_obj(&b, &dup, &pts, &duals);
    assert_eq!(s.matches("\nf ").count(), 72);
    assert!(s.contains("vn 0 0 1\n"));
    assert!(s.contains("//1 "));

    let tri = ObjOptions { triangulate: true, ..Default::default() };
    let s = block_to_obj(&b, &tri, &pts, &duals);
    assert_eq!(s.matches("\nf ").count(), 72);
    let first_face = s.lines().find(|l| l.starts_with("f ")).unwrap();
    assert_eq!(first_face.split(' ').count(), 4);
}

#[test]
fn written_block_reads_back() {
    let b = sc_block();
    let pts: Vec<String> = b.points.iter().map(|p| format!("v {} {} {}\n", p[0], p[1], p[2])).collect();
    let duals: Vec<String> = b.dual_vertices.iter().map(|p| format!("v {} {} {}\n", p[0], p[1], p[2])).collect();
    let opts = ObjOptions { lines: Lines::Shell1, include_outer: false, normals: true, ..Default::default() };
    let f = match ObjFile::parse(&block_to_obj(&b, &opts, &pts, &duals)) {
        Ok(f) => f,
        Err(_) => panic!("the written block should parse"),
    };
    let np = b.points.len();
    assert_eq!(f.vertices.len(), np + b.dual_vertices.len());
    assert_eq!(f.objects.len(), 2);
    assert_eq!(f.objects[0].name, "SC_lattice");
    assert_eq!(f.objects[0].vertices, (0..np).collect::<Vec<_>>());
    assert_eq!(f.objects[0].lines, b.shell1);
    assert_eq!(f.objects[1].name, "SC_voronoi");
    assert_eq!(f.objects[1].faces.len(), b.inner_walls());
    let inner: Vec<Vec<usize>> = b
        .walls
        .iter()
        .filter(|w| w.1.is_some())
        .map(|w| w.2.iter().map(|v| np + v).collect())
        .collect();
    assert_eq!(f.objects[1].faces, inner);
    let parts = match collect_grid(&f) {
        Ok(p) => p,
        Err(_) => panic!("collect"),
    };
    assert_eq!(parts.points, (0..np).collect::<Vec<_>>());
    assert_eq!(parts.line_edges, b.shell1);
    assert_eq!(parts.faces, inner);
}

#[test]
fn block_walls_join_later_sites_once() {
    let b = sc_block();
    let mut pairs = std::collections::HashSet::new();
    for w in &b.walls {
        if let Some(j) = w.1 {
            assert!(w.0 < j && j < b.points.len());
            assert!(pairs.insert((w.0, j)), "a pair of sites with two walls");
        }
        assert!(w.2.len() >= 3);
        assert!(w.2.iter().all(|&v| v < b.dual_vertices.len()));
    }
    for s in [&b.shell1, &b.shell2] {
        assert!(s.windows(2).all(|p| p[0] < p[1]));
        assert!(s.iter().all(|&(i, j)| i < j && j < b.points.len()));
    }
}

#[test]
fn voronoi_facets_are_the_planes_with_three_vertices() {
    let (vz, f) = Lattice::Sc.voronoi_facets_z();
    assert_eq!((vz, f), cube_facets());
    let (_, f) = Lattice::Bcc.voronoi_facets_z();
    assert_eq!(f.len(), 14);
    assert_eq!(f.iter().filter(|x| x.1.len() == 6).count(), 8);
    assert_eq!(f.iter().filter(|x| x.1.len() == 4).count(), 6);
    let (vz, f) = Lattice::Fcc.voronoi_facets_z();
    assert_eq!(vz.len(), 14);
    assert_eq!(f.len(), 12);
    assert!(f.iter().all(|x| x.1.len() == 4));
}

#[test]
fn normal_lines_and_slash_syntax_are_read() {
    let (vz, facets) = Lattice::Bcc.voronoi_facets_z();
    let b = lattice_block(Lattice::Bcc, [2, 2, 2], &vz, &facets);
    let pts: Vec<String> = b.points.iter().map(|p| format!("v {} {} {}\n", p[0], p[1], p[2])).collect();
    let duals: Vec<String> = b.dual_vertices.iter().map(|p| format!("v {} {} {}\n", p[0], p[1], p[2])).collect();
    let plain = block_to_obj(&b, &ObjOptions::default(), &pts, &duals);
    let blender = block_to_obj(&b, &ObjOptions { normals: true, ..Default::default() }, &pts, &duals);
    assert!(blender.contains("vn 0 0 1\n") && blender.contains("//1"));
    let (f, g) = match (ObjFile::parse(&plain), ObjFile::parse(&blender)) {
        (Ok(f), Ok(g)) => (f, g),
        _ => panic!("both texts should parse"),
    };
    // vn lines are not vertices, and `a//n` names vertex `a`.
    assert_eq!(g.vertices.len(), b.points.len() + b.dual_vertices.len());
    assert_eq!(g.vertices.len(), f.vertices.len());
    assert_eq!(g.objects.len(), 2);
    assert_eq!(g.objects[1].faces, f.objects[1].faces);
    assert_eq!(g.objects[0].lines, f.objects[0].lines);
}
