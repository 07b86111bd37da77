use mars_core::index::Index;
use mars_core::regular::{edge_axis, test_grid_for_cube, VineyardsGrid};

#[test]
fn index_basics() {
    let i = Index::fake(7);
    assert_eq!(i, Index([7, 0, 0]));
    assert_eq!((i.x(), i.y(), i.z()), (7, 0, 0));
    assert_eq!(Index([1, -2, 3]).text(), "[1, -2, 3]");
    assert_eq!(Index([1, 2, 3]).add(Index([10, -20, 0])), Index([11, -18, 3]));
    let mut j = Index([1, 1, 1]);
    j.add_assign(Index([2, 3, 4]));
    assert_eq!(j, Index([3, 4, 5]));
}

#[test]
fn grid_shape_queries() {
    let g = VineyardsGrid::new((), (), [3, 4, 5]);
    assert_eq!(g.grid_type, "grid");
    assert!(!g.is_on_boundary(Index([1, 1, 1])));
    assert!(g.is_on_boundary(Index([2, 1, 1])));
    assert!(g.is_on_boundary(Index([1, 0, 3])));
    assert_eq!(g.center_index(), Index([1, 1, 2]));
    assert_eq!(g.volume(), 60);
    assert_eq!(g.number_of_grid_edges(), 133);
    assert!(g.contains(&Index([2, 3, 4])));
    assert!(!g.contains(&Index([3, 0, 0])));
    assert!(!g.contains(&Index([0, -1, 0])));
    assert_eq!(g.neighbors_of(&Index([0, 0, 0])), vec![Index([1, 0, 0]), Index([0, 1, 0]), Index([0, 0, 1])]);
    assert_eq!(g.neighbors_of(&Index([2, 3, 4])).len(), 3);
    assert_eq!(g.neighbors_of(&Index([1, 1, 1])).len(), 6);
}

#[test]
fn split_along_the_longest_axis() {
    let g = VineyardsGrid::new((), (), [3, 4, 5]);
    assert_eq!(g.split_with_overlap(), (Index([3, 4, 3]), Index([3, 4, 3]), Index([0, 0, 2])));
    let g = VineyardsGrid::new((), (), [7, 4, 5]);
    assert_eq!(g.split_with_overlap(), (Index([4, 4, 5]), Index([4, 4, 5]), Index([3, 0, 0])));
    let g = VineyardsGrid::new((), (), [2, 6, 6]);
    assert_eq!(g.split_with_overlap(), (Index([2, 4, 6]), Index([2, 3, 6]), Index([0, 3, 0])));
}

#[test]
fn cube_test_grid() {
    let g = test_grid_for_cube([-0.5f64, -0.5, -0.5], 0.4f64);
    assert_eq!(g.shape, Index([5, 5, 5]));
    assert_eq!(g.grid_type, "grid");
    assert_eq!(g.size, 0.4);
}

#[test]
fn axis_of_an_edge() {
    assert_eq!(edge_axis(Index([0, 0, 0]), Index([1, 0, 0])), 0);
    assert_eq!(edge_axis(Index([0, 0, 0]), Index([0, -1, 0])), 1);
    assert_eq!(edge_axis(Index([4, 4, 4]), Index([4, 4, 5])), 2);
}
