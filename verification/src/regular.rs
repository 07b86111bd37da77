//! A regular grid of `shape[0] x shape[1] x shape[2]` cells.  The position of
//! the grid (its corner and cell size) is carried along as `P` and `S`; the
//! cells themselves are integer indices.
use vstd::prelude::*;

use crate::index::Index;

verus! {

/// A regular grid: `corner` is the position of cell `[0, 0, 0]` and `size` the
/// side of a cell.
pub struct VineyardsGrid<P, S> {
    pub corner: P,
    pub size: S,
    pub shape: Index,
    /// Should always be `"grid"`.
    pub grid_type: String,
}

/// `v / 2`, rounded toward zero as integer division does.
pub open spec fn half(v: int) -> int {
    if v >= 0 {
        v / 2
    } else {
        -((-v) / 2)
    }
}

fn half_exec(v: isize) -> (r: isize)
    ensures
        r == half(v as int),
{
    if v >= 0 {
        v / 2
    } else {
        if v == isize::MIN {
            -(isize::MAX / 2) - 1
        } else {
            -((-v) / 2)
        }
    }
}

/// Every step of `w * h * (d - 1) + w * (h - 1) * d + (w - 1) * h * d`, taken left to
/// right, fits in an `isize`.
pub open spec fn no_overflow_edges(w: int, h: int, d: int) -> bool {
    let fits = |v: int| isize::MIN <= v <= isize::MAX;
    &&& fits(d - 1) && fits(h - 1) && fits(w - 1)
    &&& fits(w * h) && fits(w * h * (d - 1))
    &&& fits(w * (h - 1)) && fits(w * (h - 1) * d)
    &&& fits((w - 1) * h) && fits((w - 1) * h * d)
    &&& fits(w * h * (d - 1) + w * (h - 1) * d)
    &&& fits(w * h * (d - 1) + w * (h - 1) * d + (w - 1) * h * d)
}

/// The longest axis of a shape (the first of equally long ones): 0, 1 or 2.
pub open spec fn longest_axis(s: Index) -> int {
    let (w, h, d) = (s.0@[0], s.0@[1], s.0@[2]);
    if h <= w && d <= w {
        0
    } else if w <= h && d <= h {
        1
    } else {
        2
    }
}

/// The shapes of the two parts of a split along the longest axis, and the offset of the
/// second part: the first part takes the lower half and one more layer, the second part
/// the rest from that layer on.
pub open spec fn split_parts(s: Index) -> (Seq<isize>, Seq<isize>, Seq<isize>) {
    let j = longest_axis(s);
    let m = s.0@[j] / 2;
    (
        s.0@.update(j, (m + 1) as isize),
        s.0@.update(j, (s.0@[j] - m) as isize),
        seq![0isize, 0isize, 0isize].update(j, m as isize),
    )
}

/// Splitting a grid along its longest axis gives two parts that share exactly one layer
/// and together make up the grid: the second part starts at the first part's last layer
/// and ends where the grid ends, and both keep the grid's other sides.
pub proof fn law_split_overlaps_one_layer(s: Index)
    requires
        forall|j: int| 0 <= j < 3 ==> 0 <= #[trigger] s.0@[j] < isize::MAX,
    ensures
        ({
            let (p, q, off) = split_parts(s);
            let j = longest_axis(s);
            &&& forall|i: int| 0 <= i < 3 ==> s.0@[j] >= #[trigger] s.0@[i]
            &&& off[j] == p[j] - 1
            &&& off[j] + q[j] == s.0@[j]
            &&& forall|i: int| 0 <= i < 3 && i != j ==> #[trigger] p[i] == s.0@[i] && q[i] == s.0@[i] && off[i] == 0
        }),
{
    let j = longest_axis(s);
    assert(0 <= s.0@[j] < isize::MAX);
}

/// `a` and `b` are neighbours in a regular grid: they differ by one in exactly one component.
pub open spec fn adjacent(a: Index, b: Index) -> bool {
    let d0 = a.0@[0] - b.0@[0];
    let d1 = a.0@[1] - b.0@[1];
    let d2 = a.0@[2] - b.0@[2];
    (d0 == 1 || d0 == -1) && d1 == 0 && d2 == 0 || d0 == 0 && (d1 == 1 || d1 == -1) && d2 == 0
        || d0 == 0 && d1 == 0 && (d2 == 1 || d2 == -1)
}

/// The six axis neighbours `[x+1], [x-1], [y+1], [y-1], [z+1], [z-1]`, in that order.
pub open spec fn axis_neighbors(i: Index) -> Seq<Index> {
    let (x, y, z) = (i.0@[0], i.0@[1], i.0@[2]);
    seq![
        Index([(x + 1) as isize, y, z]),
        Index([(x - 1) as isize, y, z]),
        Index([x, (y + 1) as isize, z]),
        Index([x, (y - 1) as isize, z]),
        Index([x, y, (z + 1) as isize]),
        Index([x, y, (z - 1) as isize]),
    ]
}

/// No component of `i` is at the end of the range of `isize`.
pub open spec fn inner_index(i: Index) -> bool {
    forall|j: int| 0 <= j < 3 ==> isize::MIN < #[trigger] i.0@[j] < isize::MAX
}

impl<P, S> VineyardsGrid<P, S> {
    pub fn new(corner: P, size: S, shape: [isize; 3]) -> (g: Self)
        ensures
            g.corner == corner,
            g.size == size,
            g.shape.0@ == shape@,
            g.grid_type@ == seq!['g', 'r', 'i', 'd'],
    {
        let t = String::from_str("grid");
        proof {
            reveal_strlit("grid");
        }
        VineyardsGrid { corner, size, shape: Index(shape), grid_type: t }
    }

    /// True if some component of `i` is on the first or last layer of the grid.
    pub fn is_on_boundary(&self, i: Index) -> (r: bool)
        requires
            forall|j: int| 0 <= j < 3 ==> #[trigger] self.shape.0@[j] > isize::MIN,
        ensures
            r == exists|j: int|
                0 <= j < 3 && (#[trigger] i.0@[j] == 0 || i.0@[j] == self.shape.0@[j] - 1),
    {
        for j in 0..3
            invariant
                forall|j: int| 0 <= j < 3 ==> #[trigger] self.shape.0@[j] > isize::MIN,
                forall|k: int| 0 <= k < j ==> !(#[trigger] i.0@[k] == 0 || i.0@[k] == self.shape.0@[k] - 1),
        {
            if i.0[j] == 0 || i.0[j] == self.shape.0[j] - 1 {
                assert(0 <= j < 3 && (i.0@[j as int] == 0 || i.0@[j as int] == self.shape.0@[j as int] - 1));
                return true;
            }
        }
        false
    }

    /// The middle cell: `(shape - 1) / 2` in each component.
    pub fn center_index(&self) -> (r: Index)
        requires
            forall|j: int| 0 <= j < 3 ==> #[trigger] self.shape.0@[j] > isize::MIN,
        ensures
            forall|j: int| 0 <= j < 3 ==> #[trigger] r.0@[j] == half(self.shape.0@[j] - 1),
    {
        let r = Index([
            half_exec(self.shape.0[0] - 1),
            half_exec(self.shape.0[1] - 1),
            half_exec(self.shape.0[2] - 1),
        ]);
        assert forall|j: int| 0 <= j < 3 implies #[trigger] r.0@[j] == half(self.shape.0@[j] - 1) by {
            if j == 0 {
            } else if j == 1 {
            } else {
            }
        }
        r
    }

    /// The number of cells.
    pub fn volume(&self) -> (r: isize)
        requires
            isize::MIN <= self.shape.0@[0] * self.shape.0@[1] <= isize::MAX,
            isize::MIN <= self.shape.0@[0] * self.shape.0@[1] * self.shape.0@[2] <= isize::MAX,
        ensures
            r == self.shape.0@[0] * self.shape.0@[1] * self.shape.0@[2],
    {
        self.shape.0[0] * self.shape.0[1] * self.shape.0[2]
    }

    /// The number of pairs of neighbouring cells.
    pub open spec fn edge_count(&self) -> int {
        let (w, h, d) = (self.shape.0@[0], self.shape.0@[1], self.shape.0@[2]);
        w * h * (d - 1) + w * (h - 1) * d + (w - 1) * h * d
    }

    /// The number of pairs of neighbouring cells (for a shape with every side at least one),
    /// computed term by term as `w * h * (d - 1) + w * (h - 1) * d + (w - 1) * h * d`.
    pub fn number_of_grid_edges(&self) -> (r: isize)
        requires
            no_overflow_edges(self.shape.0@[0] as int, self.shape.0@[1] as int, self.shape.0@[2] as int),
        ensures
            r == self.edge_count(),
    {
        let w = self.shape.0[0];
        let h = self.shape.0[1];
        let d = self.shape.0[2];
        let t1 = w * h * (d - 1);
        let t2 = w * (h - 1) * d;
        let t3 = (w - 1) * h * d;
        t1 + t2 + t3
    }

    /// True if the index is a cell of the grid.
    pub fn contains(&self, index: &Index) -> (r: bool)
        ensures
            r == (forall|j: int|
                0 <= j < 3 ==> 0 <= #[trigger] index.0@[j] < self.shape.0@[j]),
    {
        let x = index.0[0];
        let y = index.0[1];
        let z = index.0[2];
        let r = x >= 0 && x < self.shape.0[0] && y >= 0 && y < self.shape.0[1] && z >= 0 && z
            < self.shape.0[2];
        proof {
            if !r {
                if !(x >= 0 && x < self.shape.0[0]) {
                    assert(!(0 <= index.0@[0] < self.shape.0@[0]));
                } else if !(y >= 0 && y < self.shape.0[1]) {
                    assert(!(0 <= index.0@[1] < self.shape.0@[1]));
                } else {
                    assert(!(0 <= index.0@[2] < self.shape.0@[2]));
                }
            } else {
                assert forall|j: int| 0 <= j < 3 implies 0 <= #[trigger] index.0@[j] < self.shape.0@[j] by {
                    if j == 0 {
                    } else if j == 1 {
                    } else {
                    }
                }
            }
        }
        r
    }

    pub open spec fn in_grid(&self, i: Index) -> bool {
        forall|j: int| 0 <= j < 3 ==> 0 <= #[trigger] i.0@[j] < self.shape.0@[j]
    }

    /// The at most six neighbours of a cell that are in the grid, in the order of
    /// `axis_neighbors`.
    pub fn neighbors_of(&self, index: &Index) -> (r: Vec<Index>)
        requires
            inner_index(*index),
        ensures
            r@ == axis_neighbors(*index).filter(|c: Index| self.in_grid(c)),
    {
        let x = index.0[0];
        let y = index.0[1];
        let z = index.0[2];
        proof {
            assert(isize::MIN < index.0@[0] < isize::MAX);
            assert(isize::MIN < index.0@[1] < isize::MAX);
            assert(isize::MIN < index.0@[2] < isize::MAX);
        }
        let cands = [
            Index([x + 1, y, z]),
            Index([x - 1, y, z]),
            Index([x, y + 1, z]),
            Index([x, y - 1, z]),
            Index([x, y, z + 1]),
            Index([x, y, z - 1]),
        ];
        let ghost all = axis_neighbors(*index);
        assert(cands@ =~= all);
        let ghost pred = |c: Index| self.in_grid(c);
        let mut r: Vec<Index> = Vec::new();
        for k in 0..6
            invariant
                cands@ == all,
                all.len() == 6,
                r@ == all.take(k as int).filter(pred),
                pred == (|c: Index| self.in_grid(c)),
        {
            let c = cands[k];
            assert(all.take(k + 1).drop_last() =~= all.take(k as int));
            assert(all.take(k + 1).last() == c);
            reveal(Seq::filter);
            if self.contains(&c) {
                r.push(c);
            }
        }
        assert(all.take(6) =~= all);
        r
    }

    /// How to split the grid in two along its longest axis, the two parts sharing
    /// one layer: the shapes of the first and second part and the offset of the
    /// second part's first cell.
    pub fn split_with_overlap(&self) -> (r: (Index, Index, Index))
        requires
            forall|j: int| 0 <= j < 3 ==> 0 <= #[trigger] self.shape.0@[j] < isize::MAX,
        ensures
            (r.0.0@, r.1.0@, r.2.0@) == split_parts(self.shape),
    {
        let w = self.shape.0[0];
        let h = self.shape.0[1];
        let d = self.shape.0[2];
        assert(0 <= w < isize::MAX && 0 <= h < isize::MAX && 0 <= d < isize::MAX);
        if h <= w && d <= w {
            let wmin = w / 2;
            let r = (Index([wmin + 1, h, d]), Index([w - wmin, h, d]), Index([wmin, 0, 0]));
            assert(r.0.0@ =~= split_parts(self.shape).0);
            assert(r.1.0@ =~= split_parts(self.shape).1);
            assert(r.2.0@ =~= split_parts(self.shape).2);
            r
        } else if w <= h && d <= h {
            let hmin = h / 2;
            let r = (Index([w, hmin + 1, d]), Index([w, h - hmin, d]), Index([0, hmin, 0]));
            assert(r.0.0@ =~= split_parts(self.shape).0);
            assert(r.1.0@ =~= split_parts(self.shape).1);
            assert(r.2.0@ =~= split_parts(self.shape).2);
            r
        } else {
            let dmin = d / 2;
            let r = (Index([w, h, dmin + 1]), Index([w, h, d - dmin]), Index([0, 0, dmin]));
            assert(r.0.0@ =~= split_parts(self.shape).0);
            assert(r.1.0@ =~= split_parts(self.shape).1);
            assert(r.2.0@ =~= split_parts(self.shape).2);
            r
        }
    }
}

/// The grid of `5 x 5 x 5` cells used by the tests on the unit cube, at the given corner and
/// cell size; its type is `"grid"`, as for every regular grid.
pub fn test_grid_for_cube<P, S>(corner: P, size: S) -> (g: VineyardsGrid<P, S>)
    ensures
        g.corner == corner,
        g.size == size,
        g.shape.0@ == seq![5isize, 5, 5],
        g.grid_type@ == seq!['g', 'r', 'i', 'd'],
{
    let t = String::from_str("grid");
    proof {
        reveal_strlit("grid");
    }
    let g = VineyardsGrid { corner, size, shape: Index([5, 5, 5]), grid_type: t };
    assert(g.shape.0@ =~= seq![5isize, 5, 5]);
    g
}

/// The axis along which two cells of a regular grid differ first (0, 1 or 2):
/// the axis that the dual square of the edge `(a, b)` is perpendicular to.
pub fn edge_axis(a: Index, b: Index) -> (r: usize)
    requires
        a.0@[0] != b.0@[0] || a.0@[1] != b.0@[1] || a.0@[2] != b.0@[2],
    ensures
        r < 3,
        a.0@[r as int] != b.0@[r as int],
        forall|j: int| 0 <= j < r ==> a.0@[j] == b.0@[j],
{
    if a.0[0] != b.0[0] {
        0
    } else if a.0[1] != b.0[1] {
        1
    } else {
        2
    }
}

} // verus!
