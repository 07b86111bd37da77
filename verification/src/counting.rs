//! Counting the cells and the edges of a regular grid: a sequence of steps that
//! takes every edge of the grid once has exactly as many steps as the grid has edges.
use vstd::prelude::*;
use vstd::relations::injective_on;
use vstd::set_lib::{lemma_int_range, lemma_map_size, lemma_set_disjoint_lens, set_int_range};

use crate::index::Index;
use crate::regular::adjacent;
use crate::walk::{
    cell_count, in_shape, lemma_lin_bounds, lemma_lin_injective, lin, same_step, small_shape,
    steps_between,
};

verus! {

/// The cells of the grid of shape `s`.
pub open spec fn cells_of(s: Index) -> Set<Index> {
    Set::new(|c: Index| in_shape(s, c))
}

/// A cell at position `k` of a small shape.
proof fn lemma_cell_at(s: Index, k: int) -> (c: Index)
    requires
        small_shape(s),
        0 <= k < cell_count(s),
    ensures
        in_shape(s, c),
        lin(s, c) == k,
{
    let (w, h, d) = (s.0@[0] as int, s.0@[1] as int, s.0@[2] as int);
    assert(0 <= w && 0 <= h && 0 <= d);
    assert(w * h * d == cell_count(s));
    assert(h > 0 && d > 0 && w > 0) by (nonlinear_arith)
        requires
            0 <= w,
            0 <= h,
            0 <= d,
            0 <= k < w * h * d,
    {
        if h == 0 || d == 0 || w == 0 {
            assert(w * h * d == 0);
        }
    }
    let hd = h * d;
    assert(hd > 0) by (nonlinear_arith)
        requires
            h > 0,
            d > 0,
            hd == h * d,
    ;
    let x = k / hd;
    let r = k % hd;
    let y = r / d;
    let z = r % d;
    assert(k == x * hd + r && 0 <= r < hd && 0 <= x) by (nonlinear_arith)
        requires
            hd > 0,
            0 <= k,
            x == k / hd,
            r == k % hd,
    ;
    assert(r == y * d + z && 0 <= z < d && 0 <= y) by (nonlinear_arith)
        requires
            d > 0,
            0 <= r,
            y == r / d,
            z == r % d,
    ;
    assert(y < h) by (nonlinear_arith)
        requires
            r == y * d + z,
            0 <= z,
            r < hd,
            hd == h * d,
            d > 0,
    {
        if y >= h {
            assert(y * d >= h * d);
        }
    }
    assert(x < w) by (nonlinear_arith)
        requires
            k == x * hd + r,
            0 <= r,
            k < w * h * d,
            hd == h * d,
            hd > 0,
    {
        if x >= w {
            assert(x * hd >= w * hd);
            assert(w * hd == w * h * d);
        }
    }
    assert((x * h + y) * d + z == k) by (nonlinear_arith)
        requires
            k == x * hd + r,
            r == y * d + z,
            hd == h * d,
    ;
    let c = Index([x as isize, y as isize, z as isize]);
    assert(c.0@[0] == x && c.0@[1] == y && c.0@[2] == z);
    c
}

/// A small shape has `cell_count` cells.
pub proof fn lemma_cells_len(s: Index)
    requires
        small_shape(s),
    ensures
        cells_of(s).finite(),
        cells_of(s).len() == cell_count(s),
{
    let n = cell_count(s);
    assert(n >= 0) by (nonlinear_arith)
        requires
            0 <= s.0@[0],
            0 <= s.0@[1],
            0 <= s.0@[2],
            n == s.0@[0] * s.0@[1] * s.0@[2],
    ;
    let r = set_int_range(0, n);
    lemma_int_range(0, n);
    let at = |k: int| choose|c: Index| in_shape(s, c) && lin(s, c) == k;
    assert forall|k: int| #[trigger] r.contains(k) implies in_shape(s, at(k)) && lin(s, at(k)) == k by {
        let c = lemma_cell_at(s, k);
        assert(in_shape(s, c) && lin(s, c) == k);
    }
    assert(injective_on(at, r)) by {
        assert forall|a: int, b: int| r.contains(a) && r.contains(b) && #[trigger] at(a) == #[trigger] at(b) implies a == b by {
            assert(lin(s, at(a)) == a);
            assert(lin(s, at(b)) == b);
        }
    }
    assert(r.map(at) =~= cells_of(s)) by {
        assert forall|c: Index| #[trigger] cells_of(s).contains(c) implies r.map(at).contains(c) by {
            lemma_lin_bounds(s, c);
            let k = lin(s, c);
            assert(r.contains(k));
            lemma_lin_injective(s, at(k), c);
        }
    }
    lemma_map_size(r, cells_of(s), at);
}

/// The shape with one cell fewer along axis `j`: the lower cells of the edges along `j`.
pub open spec fn shrink(s: Index, j: int) -> Index {
    Index(
        [
            if j == 0 { (s.0@[0] - 1) as isize } else { s.0@[0] },
            if j == 1 { (s.0@[1] - 1) as isize } else { s.0@[1] },
            if j == 2 { (s.0@[2] - 1) as isize } else { s.0@[2] },
        ],
    )
}

/// The cell one step up from `c` along axis `j`.
pub open spec fn up(c: Index, j: int) -> Index {
    Index(
        [
            if j == 0 { (c.0@[0] + 1) as isize } else { c.0@[0] },
            if j == 1 { (c.0@[1] + 1) as isize } else { c.0@[1] },
            if j == 2 { (c.0@[2] + 1) as isize } else { c.0@[2] },
        ],
    )
}

/// The edges along axis `j`, each named by its lower cell and the axis.
pub open spec fn axis_edges(s: Index, j: int) -> Set<(Index, int)> {
    cells_of(shrink(s, j)).map(|c: Index| (c, j))
}

/// All edges of the grid of shape `s`, each named by its lower cell and its axis.
pub open spec fn edge_keys(s: Index) -> Set<(Index, int)> {
    axis_edges(s, 0) + axis_edges(s, 1) + axis_edges(s, 2)
}

/// The name of the edge between neighbouring cells `a` and `b`: the lower cell and the axis.
pub open spec fn step_key(a: Index, b: Index) -> (Index, int) {
    let j = if a.0@[0] != b.0@[0] {
        0int
    } else if a.0@[1] != b.0@[1] {
        1int
    } else {
        2int
    };
    (
        if a.0@[j] < b.0@[j] {
            a
        } else {
            b
        },
        j,
    )
}

/// The number of edges of a grid of shape `s` with every side at least one.
pub open spec fn grid_edge_count(s: Index) -> int {
    let (w, h, d) = (s.0@[0] as int, s.0@[1] as int, s.0@[2] as int);
    w * h * (d - 1) + w * (h - 1) * d + (w - 1) * h * d
}

proof fn lemma_shrink_small(s: Index, j: int)
    requires
        small_shape(s),
        0 <= j < 3,
        s.0@[j] >= 1,
    ensures
        small_shape(shrink(s, j)),
        cell_count(shrink(s, j)) == if j == 0 {
            (s.0@[0] - 1) * s.0@[1] * s.0@[2]
        } else if j == 1 {
            s.0@[0] * (s.0@[1] - 1) * s.0@[2]
        } else {
            s.0@[0] * s.0@[1] * (s.0@[2] - 1)
        },
{
    let t = shrink(s, j);
    let (w, h, d) = (s.0@[0] as int, s.0@[1] as int, s.0@[2] as int);
    let (a, b, c) = (t.0@[0] as int, t.0@[1] as int, t.0@[2] as int);
    assert(0 <= w && 0 <= h && 0 <= d);
    assert(0 <= a <= w && 0 <= b <= h && 0 <= c <= d);
    assert(a * b <= w * h && a * b * c <= w * h * d) by (nonlinear_arith)
        requires
            0 <= a <= w,
            0 <= b <= h,
            0 <= c <= d,
    {
        assert(a * b <= w * b);
        assert(w * b <= w * h);
        assert(a * b * c <= a * b * d);
        assert(a * b * d <= w * h * d);
    }
}

/// Tagging cells with an axis keeps them apart.
proof fn lemma_axis_edges_len(s: Index, j: int)
    requires
        small_shape(s),
        0 <= j < 3,
        s.0@[j] >= 1,
    ensures
        axis_edges(s, j).finite(),
        axis_edges(s, j).len() == cell_count(shrink(s, j)),
{
    lemma_shrink_small(s, j);
    lemma_cells_len(shrink(s, j));
    let tag = |c: Index| (c, j);
    assert(injective_on(tag, cells_of(shrink(s, j))));
    lemma_map_size(cells_of(shrink(s, j)), axis_edges(s, j), tag);
}

/// A grid with every side at least one has `grid_edge_count` edges.
pub proof fn lemma_edge_keys_len(s: Index)
    requires
        small_shape(s),
        forall|j: int| 0 <= j < 3 ==> 1 <= #[trigger] s.0@[j],
    ensures
        edge_keys(s).finite(),
        edge_keys(s).len() == grid_edge_count(s),
{
    assert(s.0@[0] >= 1 && s.0@[1] >= 1 && s.0@[2] >= 1);
    lemma_axis_edges_len(s, 0);
    lemma_axis_edges_len(s, 1);
    lemma_axis_edges_len(s, 2);
    lemma_shrink_small(s, 0);
    lemma_shrink_small(s, 1);
    lemma_shrink_small(s, 2);
    let (e0, e1, e2) = (axis_edges(s, 0), axis_edges(s, 1), axis_edges(s, 2));
    assert(e0.disjoint(e1));
    lemma_set_disjoint_lens(e0, e1);
    assert((e0 + e1).disjoint(e2));
    lemma_set_disjoint_lens(e0 + e1, e2);
}

/// The name of an edge between cells of the grid is one of its edges, and names that
/// edge only.
proof fn lemma_step_key(s: Index, a: Index, b: Index)
    requires
        in_shape(s, a),
        in_shape(s, b),
        adjacent(a, b),
    ensures
        edge_keys(s).contains(step_key(a, b)),
        ({
            let (lo, j) = step_key(a, b);
            (a == lo && b == up(lo, j)) || (b == lo && a == up(lo, j))
        }),
{
    let (lo, j) = step_key(a, b);
    let hi = if lo == a {
        b
    } else {
        a
    };
    assert(0 <= j < 3);
    assert(hi.0@[j] == lo.0@[j] + 1);
    assert(hi.0 =~= up(lo, j).0);
    assert(0 <= lo.0@[j] && lo.0@[j] + 1 < s.0@[j]);
    assert(in_shape(shrink(s, j), lo));
    assert(cells_of(shrink(s, j)).contains(lo));
    assert(axis_edges(s, j).contains((lo, j)));
}

/// Each edge of the grid joins two neighbouring cells of the grid, and is their name.
proof fn lemma_key_edge(s: Index, c: Index, j: int)
    requires
        forall|i: int| 0 <= i < 3 ==> 1 <= #[trigger] s.0@[i],
        edge_keys(s).contains((c, j)),
    ensures
        0 <= j < 3,
        in_shape(s, c),
        in_shape(s, up(c, j)),
        adjacent(c, up(c, j)),
        step_key(c, up(c, j)) == (c, j),
        step_key(up(c, j), c) == (c, j),
{
    let k = choose|k: int| 0 <= k < 3 && #[trigger] axis_edges(s, k).contains((c, j));
    let d = choose|d: Index| cells_of(shrink(s, k)).contains(d) && (d, k) == (c, j);
    assert(d == c && k == j);
    assert(in_shape(shrink(s, j), c));
    let t = shrink(s, j);
    let u = up(c, j);
    assert forall|i: int| 0 <= i < 3 implies 0 <= #[trigger] c.0@[i] < s.0@[i] && 0 <= u.0@[i] < s.0@[i] by {
        assert(1 <= s.0@[i]);
        assert(0 <= c.0@[i] < t.0@[i]);
    }
    assert(u.0@[j] == c.0@[j] + 1);
}

/// Steps between the cells of the grid, along edges no two of them share, that step
/// along every edge of the grid, are as many as the grid has edges.
pub proof fn lemma_steps_count(s: Index, steps: Seq<(Index, Option<Index>)>)
    requires
        small_shape(s),
        forall|j: int| 0 <= j < 3 ==> 1 <= #[trigger] s.0@[j],
        forall|k: int|
            0 <= k < steps.len() ==> {
                let st = #[trigger] steps[k];
                &&& st.1 is Some
                &&& in_shape(s, st.0)
                &&& in_shape(s, st.1->0)
                &&& adjacent(st.0, st.1->0)
            },
        forall|i: int, j: int| 0 <= i < j < steps.len() ==> !same_step(#[trigger] steps[i], #[trigger] steps[j]),
        forall|c: Index, d: Index|
            in_shape(s, c) && in_shape(s, d) && #[trigger] adjacent(c, d) ==> exists|k: int|
                0 <= k < steps.len() && #[trigger] steps_between(steps[k], c, d),
    ensures
        steps.len() == grid_edge_count(s),
{
    let keys = steps.map_values(|st: (Index, Option<Index>)| step_key(st.0, st.1->0));
    assert(keys.no_duplicates()) by {
        assert forall|i: int, j: int| 0 <= i < keys.len() && 0 <= j < keys.len() && i != j implies keys[i] != keys[j] by {
            let (a, b) = (steps[i].0, steps[i].1->0);
            let (c, d) = (steps[j].0, steps[j].1->0);
            lemma_step_key(s, a, b);
            lemma_step_key(s, c, d);
            if keys[i] == keys[j] {
                if i < j {
                    assert(same_step(steps[i], steps[j]));
                } else {
                    assert(same_step(steps[j], steps[i]));
                }
            }
        }
    }
    assert(keys.to_set() =~= edge_keys(s)) by {
        assert forall|p: (Index, int)| #[trigger] keys.to_set().contains(p) implies edge_keys(s).contains(p) by {
            let k = choose|k: int| 0 <= k < keys.len() && keys[k] == p;
            lemma_step_key(s, steps[k].0, steps[k].1->0);
        }
        assert forall|p: (Index, int)| #[trigger] edge_keys(s).contains(p) implies keys.to_set().contains(p) by {
            let (c, j) = p;
            lemma_key_edge(s, c, j);
            assert(in_shape(s, c) && in_shape(s, up(c, j)) && adjacent(c, up(c, j)));
            let u = up(c, j);
            let k = choose|k: int| 0 <= k < steps.len() && #[trigger] steps_between(steps[k], c, u);
            assert(keys[k] == p);
        }
    }
    keys.unique_seq_to_set();
    lemma_edge_keys_len(s);
}

} // verus!
