use mars_core::index::Index;
use mars_core::mesh::VineyardsGridMesh;
use mars_core::regular::VineyardsGrid;
use mars_core::traverse::Visit::{Drop, Edge, Root};

fn k4() -> VineyardsGridMesh<u8> {
    VineyardsGridMesh::from_parts(vec![0, 1, 2, 3], &vec![(0, 1), (1, 2), (2, 3), (3, 0), (0, 2), (1, 3)], Vec::new())
}

fn two_paths() -> VineyardsGridMesh<u8> {
    VineyardsGridMesh::from_parts(vec![0; 7], &vec![(0, 1), (1, 2), (4, 5)], Vec::new())
}

#[test]
fn depth_first_plan_covers_each_component() {
    assert_eq!(two_paths().run_vineyards(), vec![Root(0), Edge(0, 1), Edge(1, 2), Root(4), Edge(4, 5)]);
}

#[test]
fn depth_first_plan_steps_along_every_edge_once() {
    let g = k4();
    assert_eq!(g.neighbors, vec![vec![1, 3, 2], vec![0, 2, 3], vec![1, 3, 0], vec![2, 0, 1]]);
    assert_eq!(
        g.run_vineyards(),
        vec![Root(0), Edge(0, 2), Edge(2, 3), Edge(3, 1), Edge(2, 1), Edge(0, 3), Edge(0, 1)]
    );
}

#[test]
fn slim_plan_is_breadth_first_and_drops_finished_states() {
    assert_eq!(
        k4().run_vineyards_slim(),
        vec![
            Root(0),
            Edge(0, 1),
            Edge(0, 3),
            Edge(0, 2),
            Drop(0),
            Edge(1, 2),
            Edge(1, 3),
            Drop(1),
            Edge(3, 2),
            Drop(3),
            Drop(2),
        ]
    );
    assert_eq!(
        two_paths().run_vineyards_slim(),
        vec![Root(0), Edge(0, 1), Drop(0), Edge(1, 2), Drop(1), Drop(2), Root(4), Edge(4, 5), Drop(4), Drop(5)]
    );
}

#[test]
fn plans_of_an_empty_grid_are_empty() {
    let g: VineyardsGridMesh<u8> = VineyardsGridMesh::empty();
    assert!(g.run_vineyards().is_empty());
    assert!(g.run_vineyards_slim().is_empty());
}

#[test]
fn every_state_is_known_before_it_is_used_and_dropped_after() {
    // A 3 x 3 grid of points joined to their axis neighbours.
    let mut edges = Vec::new();
    for i in 0..3usize {
        for j in 0..3usize {
            let v = 3 * i + j;
            if i < 2 {
                edges.push((v, v + 3));
            }
            if j < 2 {
                edges.push((v, v + 1));
            }
        }
    }
    let g = VineyardsGridMesh::from_parts(vec![0u8; 9], &edges, Vec::new());
    let plan = g.run_vineyards_slim();
    let mut live = vec![false; 9];
    let mut dropped = vec![false; 9];
    let mut steps = 0;
    for e in &plan {
        match *e {
            Root(r) => live[r] = true,
            Edge(f, n) => {
                assert!(live[f] && !dropped[f] && !dropped[n]);
                live[n] = true;
                steps += 1;
            }
            Drop(v) => {
                assert!(live[v] && !dropped[v]);
                dropped[v] = true;
            }
        }
    }
    assert_eq!(steps, edges.len());
    assert!(dropped.iter().all(|d| *d));
}

#[test]
fn regular_grid_edges_are_visited_breadth_first() {
    let g = VineyardsGrid::new((), (), [2, 2, 1]);
    let calls = g.visit_edges(Index([0, 0, 0]));
    assert_eq!(
        calls,
        vec![
            (Index([0, 0, 0]), None),
            (Index([1, 0, 0]), Some(Index([0, 0, 0]))),
            (Index([0, 1, 0]), Some(Index([0, 0, 0]))),
            (Index([1, 1, 0]), Some(Index([1, 0, 0]))),
            (Index([1, 1, 0]), Some(Index([0, 1, 0]))),
        ]
    );
    assert_eq!(calls.len() as isize - 1, g.number_of_grid_edges());
}

#[test]
fn visiting_a_bigger_grid_takes_every_edge_once() {
    let g = VineyardsGrid::new((), (), [3, 4, 2]);
    let calls = g.visit_edges(g.center_index());
    assert_eq!(calls.len() as isize - 1, g.number_of_grid_edges());
    let mut seen = std::collections::HashSet::new();
    for (n, p) in calls.iter().skip(1) {
        let p = p.expect("an earlier cell");
        let key = if n < &p { (*n, p) } else { (p, *n) };
        assert!(seen.insert(key), "edge visited twice");
    }
}

#[test]
fn a_start_outside_the_grid_enters_it() {
    let g = VineyardsGrid::new((), (), [1, 1, 1]);
    assert_eq!(
        g.visit_edges(Index([-1, 0, 0])),
        vec![(Index([-1, 0, 0]), None), (Index([0, 0, 0]), Some(Index([-1, 0, 0])))]
    );
}
