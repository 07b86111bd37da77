//! Visiting the edges of a regular grid breadth first, and the plan of running vineyards
//! across them.
use vstd::prelude::*;

use crate::counting::{grid_edge_count, lemma_steps_count};
use crate::edges::lists;
use crate::index::Index;
use crate::regular::{adjacent, axis_neighbors, inner_index, VineyardsGrid};
use crate::traverse::{covers, explore, explore_spec, ids_ok, is_edge, joins, listed, plan_ok, reached_before, reaches, same_edge, seen_is_reached, simple, step_ok, Visit};

verus! {

/// The position of cell `c` in row-major order.
pub open spec fn lin(s: Index, c: Index) -> int {
    (c.0@[0] * s.0@[1] + c.0@[1]) * s.0@[2] + c.0@[2]
}

/// The number of cells.
pub open spec fn cell_count(s: Index) -> int {
    s.0@[0] * s.0@[1] * s.0@[2]
}

/// `c` is a cell of the grid of shape `s`.
pub open spec fn in_shape(s: Index, c: Index) -> bool {
    forall|j: int| 0 <= j < 3 ==> 0 <= #[trigger] c.0@[j] < s.0@[j]
}

/// The grid's neighbours of `c`, by position.
pub open spec fn grid_row(s: Index, c: Index) -> Seq<isize> {
    axis_neighbors(c).filter(|n: Index| in_shape(s, n)).map_values(|n: Index| lin(s, n) as isize)
}

/// A shape whose cells can be numbered in an `isize`.
pub open spec fn small_shape(s: Index) -> bool {
    &&& forall|j: int| 0 <= j < 3 ==> 0 <= #[trigger] s.0@[j]
    &&& s.0@[0] * s.0@[1] <= isize::MAX
    &&& cell_count(s) < isize::MAX
}

pub proof fn lemma_lin_bounds(s: Index, c: Index)
    requires
        small_shape(s),
        in_shape(s, c),
    ensures
        0 <= lin(s, c) < cell_count(s),
        0 <= c.0@[0] * s.0@[1] + c.0@[1] < s.0@[0] * s.0@[1],
{
    let (w, h, d) = (s.0@[0] as int, s.0@[1] as int, s.0@[2] as int);
    let (x, y, z) = (c.0@[0] as int, c.0@[1] as int, c.0@[2] as int);
    assert(0 <= x < w && 0 <= y < h && 0 <= z < d);
    assert(0 <= x * h + y < w * h) by (nonlinear_arith)
        requires
            0 <= x < w,
            0 <= y < h,
    {
        assert(x * h + y < x * h + h);
        assert(x * h + h == (x + 1) * h);
        assert((x + 1) * h <= w * h);
    }
    let a = x * h + y;
    assert(0 <= a * d + z < w * h * d) by (nonlinear_arith)
        requires
            0 <= a < w * h,
            0 <= z < d,
    {
        assert(a * d + z < a * d + d);
        assert(a * d + d == (a + 1) * d);
        assert((a + 1) * d <= (w * h) * d);
    }
}

pub proof fn lemma_lin_injective(s: Index, c: Index, e: Index)
    requires
        small_shape(s),
        in_shape(s, c),
        in_shape(s, e),
        lin(s, c) == lin(s, e),
    ensures
        c == e,
{
    let (h, d) = (s.0@[1] as int, s.0@[2] as int);
    let (x, y, z) = (c.0@[0] as int, c.0@[1] as int, c.0@[2] as int);
    let (x2, y2, z2) = (e.0@[0] as int, e.0@[1] as int, e.0@[2] as int);
    assert(0 <= z < d && 0 <= z2 < d && 0 <= y < h && 0 <= y2 < h && 0 <= x && 0 <= x2);
    let a = x * h + y;
    let a2 = x2 * h + y2;
    assert(0 <= a && 0 <= a2) by (nonlinear_arith)
        requires
            0 <= x,
            0 <= x2,
            0 <= y,
            0 <= y2,
            0 <= h,
            a == x * h + y,
            a2 == x2 * h + y2,
    ;
    assert(a == a2 && z == z2) by (nonlinear_arith)
        requires
            a * d + z == a2 * d + z2,
            0 <= z < d,
            0 <= z2 < d,
            0 <= a,
            0 <= a2,
    {
        if a < a2 {
            assert(a * d + d <= a2 * d);
        } else if a2 < a {
            assert(a2 * d + d <= a * d);
        }
    }
    assert(x == x2 && y == y2) by (nonlinear_arith)
        requires
            x * h + y == x2 * h + y2,
            0 <= y < h,
            0 <= y2 < h,
            0 <= x,
            0 <= x2,
    {
        if x < x2 {
            assert(x * h + h <= x2 * h);
        } else if x2 < x {
            assert(x2 * h + h <= x * h);
        }
    }
    assert(c.0 =~= e.0);
}

/// The cells of the grid in row-major order, so that cell `k` has position `k`.
#[verifier::spinoff_prover]
fn grid_cells<P, S>(g: &VineyardsGrid<P, S>) -> (cells: Vec<Index>)
    requires
        small_shape(g.shape),
    ensures
        cells@.len() == cell_count(g.shape),
        forall|k: int| 0 <= k < cells@.len() ==> in_shape(g.shape, #[trigger] cells@[k]) && lin(g.shape, cells@[k]) == k,
{
    let s = g.shape;
    let (w, h, d) = (s.0[0], s.0[1], s.0[2]);
    assert(0 <= w && 0 <= h && 0 <= d) by {
        assert(0 <= s.0@[0] && 0 <= s.0@[1] && 0 <= s.0@[2]);
    }
    let mut cells: Vec<Index> = Vec::new();
    assert(0 * h * d == 0) by (nonlinear_arith);
    for x in 0..w
        invariant
            s == g.shape,
            small_shape(s),
            w == s.0@[0] && h == s.0@[1] && d == s.0@[2],
            0 <= h && 0 <= d,
            cells@.len() == x * h * d,
            forall|k: int| 0 <= k < cells@.len() ==> in_shape(s, #[trigger] cells@[k]) && lin(s, cells@[k]) == k,
    {
        for y in 0..h
            invariant
                s == g.shape,
                small_shape(s),
                w == s.0@[0] && h == s.0@[1] && d == s.0@[2],
                0 <= x < w,
                0 <= h && 0 <= d,
                cells@.len() == (x * h + y) * d,
                forall|k: int| 0 <= k < cells@.len() ==> in_shape(s, #[trigger] cells@[k]) && lin(s, cells@[k]) == k,
        {
            for z in 0..d
                invariant
                    s == g.shape,
                    small_shape(s),
                    w == s.0@[0] && h == s.0@[1] && d == s.0@[2],
                    0 <= x < w,
                    0 <= y < h,
                    0 <= h && 0 <= d,
                    cells@.len() == (x * h + y) * d + z,
                    forall|k: int| 0 <= k < cells@.len() ==> in_shape(s, #[trigger] cells@[k]) && lin(s, cells@[k]) == k,
            {
                let c = Index([x, y, z]);
                proof {
                    assert(in_shape(s, c));
                    assert(lin(s, c) == (x * h + y) * d + z);
                }
                cells.push(c);
            }
            proof {
                assert((x * h + y) * d + d == (x * h + y + 1) * d) by (nonlinear_arith);
            }
        }
        proof {
            assert((x * h + h) * d == (x + 1) * h * d) by (nonlinear_arith);
            assert(x * h * d == (x * h + 0) * d) by (nonlinear_arith);
        }
    }
    proof {
        assert(w * h * d == cell_count(s));
    }
    cells
}

proof fn lemma_filter_facts<A>(s: Seq<A>, p: spec_fn(A) -> bool)
    ensures
        forall|x: A| #[trigger] s.filter(p).contains(x) <==> s.contains(x) && p(x),
        s.no_duplicates() ==> s.filter(p).no_duplicates(),
    decreases s.len(),
{
    reveal(Seq::filter);
    if s.len() > 0 {
        let t = s.drop_last();
        lemma_filter_facts(t, p);
        let f = s.filter(p);
        let ft = t.filter(p);
        assert forall|x: A| #[trigger] f.contains(x) <==> s.contains(x) && p(x) by {
            if s.contains(x) && x != s.last() {
                let i = choose|i: int| 0 <= i < s.len() && s[i] == x;
                assert(t[i] == x);
            }
            if t.contains(x) {
                let i = choose|i: int| 0 <= i < t.len() && t[i] == x;
                assert(s[i] == x);
            }
            if x == s.last() {
                assert(s[s.len() - 1] == x);
            }
            if p(s.last()) {
                assert(f == ft.push(s.last()));
                if f.contains(x) && x != s.last() {
                    let i = choose|i: int| 0 <= i < f.len() && f[i] == x;
                    assert(ft[i] == x);
                }
                if ft.contains(x) {
                    let i = choose|i: int| 0 <= i < ft.len() && ft[i] == x;
                    assert(f[i] == x);
                }
                if x == s.last() {
                    assert(f[ft.len() as int] == x);
                }
            }
        }
        if s.no_duplicates() {
            assert(t.no_duplicates()) by {
                assert forall|i: int, j: int| 0 <= i < t.len() && 0 <= j < t.len() && i != j implies t[i] != t[j] by {
                    assert(t[i] == s[i] && t[j] == s[j]);
                }
            }
            if p(s.last()) {
                assert(!t.contains(s.last())) by {
                    if t.contains(s.last()) {
                        let i = choose|i: int| 0 <= i < t.len() && t[i] == s.last();
                        assert(s[i] == s[s.len() - 1]);
                    }
                }
                assert(!ft.contains(s.last()));
                assert forall|i: int, j: int| 0 <= i < f.len() && 0 <= j < f.len() && i != j implies f[i] != f[j] by {
                    if i == ft.len() {
                        assert(ft.contains(ft[j]));
                    } else if j == ft.len() {
                        assert(ft.contains(ft[i]));
                    } else {
                        assert(f[i] == ft[i] && f[j] == ft[j]);
                    }
                }
            }
        }
    }
}

/// A cell of a small grid is away from the ends of `isize`.
proof fn lemma_in_shape_inner(s: Index, c: Index)
    requires
        small_shape(s),
        in_shape(s, c),
    ensures
        inner_index(c),
{
    assert forall|j: int| 0 <= j < 3 implies isize::MIN < #[trigger] c.0@[j] < isize::MAX by {
        assert(0 <= c.0@[j] < s.0@[j]);
    }
}

/// The six axis neighbours of an inner cell are distinct, adjacent to it, and have it among
/// their own axis neighbours.
proof fn lemma_axis(c: Index)
    requires
        inner_index(c),
    ensures
        axis_neighbors(c).no_duplicates(),
        forall|m: Index| #[trigger] axis_neighbors(c).contains(m) ==> adjacent(m, c) && m != c
            && (inner_index(m) ==> axis_neighbors(m).contains(c)),
{
    let a = axis_neighbors(c);
    assert(isize::MIN < c.0@[0] < isize::MAX && isize::MIN < c.0@[1] < isize::MAX && isize::MIN < c.0@[2] < isize::MAX);
    assert forall|i: int, j: int| 0 <= i < a.len() && 0 <= j < a.len() && i != j implies a[i] != a[j] by {
        if a[i] == a[j] {
            assert(a[i].0@ == a[j].0@);
        }
    }
    assert forall|m: Index| #[trigger] a.contains(m) implies adjacent(m, c) && m != c && (inner_index(m)
        ==> axis_neighbors(m).contains(c)) by {
        let i = choose|i: int| 0 <= i < a.len() && a[i] == m;
        if m == c {
            assert(m.0@ == c.0@);
        }
        if inner_index(m) {
            let b = axis_neighbors(m);
            let k = if i % 2 == 0 {
                i + 1
            } else {
                i - 1
            };
            assert(b[k].0 =~= c.0);
            assert(b[k] == c);
        }
    }
}

/// The positions of the grid's neighbours of each cell form a simple graph.
proof fn lemma_grid_graph_simple(s: Index, cells: Seq<Index>)
    requires
        small_shape(s),
        cells.len() == cell_count(s),
        forall|k: int| 0 <= k < cells.len() ==> in_shape(s, #[trigger] cells[k]) && lin(s, cells[k]) == k,
    ensures
        simple(Seq::new(cells.len(), |k: int| grid_row(s, cells[k]))),
{
    let g = Seq::new(cells.len(), |k: int| grid_row(s, cells[k]));
    let p = |n: Index| in_shape(s, n);
    // Position `k` is the cell `cells[k]`; a cell of the grid is at its own position.
    assert forall|c: Index| in_shape(s, c) implies 0 <= #[trigger] lin(s, c) < cells.len() && cells[lin(s, c)] == c by {
        lemma_lin_bounds(s, c);
        lemma_lin_injective(s, cells[lin(s, c)], c);
    }
    assert forall|v: int, j: int| 0 <= v < g.len() && 0 <= j < g[v].len() implies 0 <= #[trigger] g[v][j] < g.len()
        && g[g[v][j] as int].contains(v as isize) && g[v][j] != v by {
        let c = cells[v];
        lemma_in_shape_inner(s, c);
        lemma_axis(c);
        let f = axis_neighbors(c).filter(p);
        lemma_filter_facts(axis_neighbors(c), p);
        assert(g[v] == f.map_values(|n: Index| lin(s, n) as isize));
        let m = f[j];
        assert(f.contains(m));
        assert(in_shape(s, m));
        lemma_lin_bounds(s, m);
        assert(g[v][j] == lin(s, m));
        let w = lin(s, m);
        assert(cells[w] == m);
        lemma_in_shape_inner(s, m);
        lemma_axis(m);
        assert(axis_neighbors(m).contains(c));
        let f2 = axis_neighbors(m).filter(p);
        lemma_filter_facts(axis_neighbors(m), p);
        assert(f2.contains(c));
        let i = choose|i: int| 0 <= i < f2.len() && f2[i] == c;
        assert(g[w] == f2.map_values(|n: Index| lin(s, n) as isize));
        assert(g[w][i] == lin(s, c) as isize);
        assert(lin(s, c) == v);
        if w == v {
            lemma_lin_injective(s, m, c);
        }
    }
    assert forall|v: int| 0 <= v < g.len() implies (#[trigger] g[v]).no_duplicates() by {
        let c = cells[v];
        lemma_in_shape_inner(s, c);
        lemma_axis(c);
        let f = axis_neighbors(c).filter(p);
        lemma_filter_facts(axis_neighbors(c), p);
        assert(g[v] == f.map_values(|n: Index| lin(s, n) as isize));
        assert forall|i: int, j: int| 0 <= i < g[v].len() && 0 <= j < g[v].len() && i != j implies g[v][i] != g[v][j] by {
            assert(f.contains(f[i]) && f.contains(f[j]));
            lemma_lin_bounds(s, f[i]);
            lemma_lin_bounds(s, f[j]);
            if lin(s, f[i]) == lin(s, f[j]) {
                lemma_lin_injective(s, f[i], f[j]);
            }
        }
    }
}

fn lin_exec(s: &Index, c: &Index) -> (k: isize)
    requires
        small_shape(*s),
        in_shape(*s, *c),
    ensures
        k == lin(*s, *c),
{
    proof {
        lemma_lin_bounds(*s, *c);
        let (h, d) = (s.0@[1] as int, s.0@[2] as int);
        let (x, y, z) = (c.0@[0] as int, c.0@[1] as int, c.0@[2] as int);
        assert(0 <= x * h <= x * h + y) by (nonlinear_arith)
            requires
                0 <= x,
                0 <= h,
                0 <= y,
        ;
        assert(0 <= (x * h + y) * d <= lin(*s, *c)) by (nonlinear_arith)
            requires
                0 <= x * h + y,
                0 <= d,
                0 <= z,
                lin(*s, *c) == (x * h + y) * d + z,
        ;
    }
    (c.0[0] * s.0[1] + c.0[1]) * s.0[2] + c.0[2]
}

/// The positions of the grid's neighbours of `c`.
fn grid_row_exec<P, S>(g: &VineyardsGrid<P, S>, c: &Index) -> (r: Vec<isize>)
    requires
        small_shape(g.shape),
        inner_index(*c),
    ensures
        r@ == grid_row(g.shape, *c),
{
    let ns = g.neighbors_of(c);
    let ghost p = |n: Index| in_shape(g.shape, n);
    proof {
        assert((|n: Index| g.in_grid(n)) =~= p);
        lemma_filter_facts(axis_neighbors(*c), p);
    }
    let ghost f = axis_neighbors(*c).filter(p);
    assert(ns@ == f);
    let mut r: Vec<isize> = Vec::new();
    for k in 0..ns.len()
        invariant
            ns@ == f,
            small_shape(g.shape),
            forall|x: Index| #[trigger] f.contains(x) ==> in_shape(g.shape, x),
            r@ == f.take(k as int).map_values(|n: Index| lin(g.shape, n) as isize),
    {
        assert(f.contains(f[k as int]));
        let v = lin_exec(&g.shape, &ns[k]);
        r.push(v);
        assert(r@ =~= f.take(k + 1).map_values(|n: Index| lin(g.shape, n) as isize));
    }
    assert(f.take(f.len() as int) =~= f);
    r
}

/// The grid as adjacency lists over cell positions, with the cell at each position; a start
/// outside the grid gets one more position, after the cells, with its neighbours in the grid.
fn grid_graph<P, S>(g: &VineyardsGrid<P, S>, start: Index) -> (r: (Vec<Vec<isize>>, Vec<Index>))
    requires
        small_shape(g.shape),
        inner_index(start),
    ensures
        r.1@.len() == cell_count(g.shape) + if in_shape(g.shape, start) {
            0int
        } else {
            1int
        },
        forall|k: int| 0 <= k < cell_count(g.shape) ==> in_shape(g.shape, #[trigger] r.1@[k]) && lin(g.shape, r.1@[k]) == k,
        !in_shape(g.shape, start) ==> r.1@[cell_count(g.shape)] == start,
        r.0@.len() == r.1@.len(),
        forall|k: int| 0 <= k < r.0@.len() ==> (#[trigger] r.0@[k])@ == grid_row(g.shape, r.1@[k]),
{
    let mut cells = grid_cells(g);
    let inside = g.contains(&start);
    assert(inside == in_shape(g.shape, start));
    if !inside {
        cells.push(start);
    }
    let mut adj: Vec<Vec<isize>> = Vec::new();
    for k in 0..cells.len()
        invariant
            small_shape(g.shape),
            inner_index(start),
            cells@.len() == cell_count(g.shape) + if inside {
                0int
            } else {
                1int
            },
            forall|k: int| 0 <= k < cell_count(g.shape) ==> in_shape(g.shape, #[trigger] cells@[k]) && lin(g.shape, cells@[k]) == k,
            !inside ==> cells@[cell_count(g.shape)] == start,
            adj@.len() == k,
            forall|j: int| 0 <= j < k ==> (#[trigger] adj@[j])@ == grid_row(g.shape, cells@[j]),
    {
        proof {
            if k < cell_count(g.shape) {
                lemma_in_shape_inner(g.shape, cells@[k as int]);
            }
        }
        let row = grid_row_exec(g, &cells[k]);
        adj.push(row);
    }
    (adj, cells)
}

/// The call steps along the edge between `c` and `d`.
pub open spec fn steps_between(a: (Index, Option<Index>), c: Index, d: Index) -> bool {
    &&& a.1 is Some
    &&& ((a.0 == c && a.1->0 == d) || (a.0 == d && a.1->0 == c))
}

/// Both calls step along the same edge of the grid.
pub open spec fn same_step(a: (Index, Option<Index>), b: (Index, Option<Index>)) -> bool {
    &&& a.1 is Some
    &&& b.1 is Some
    &&& ((a.0 == b.0 && a.1->0 == b.1->0) || (a.0 == b.1->0 && a.1->0 == b.0))
}

/// The call that an event of the traversal stands for.
pub open spec fn call_of(cells: Seq<Index>, e: Visit) -> (Index, Option<Index>) {
    match e {
        Visit::Edge(f, n) => (cells[n as int], Some(cells[f as int])),
        Visit::Root(r) => (cells[r as int], None),
        Visit::Drop(r) => (cells[r as int], None),
    }
}

/// The number of unit steps between two cells.
pub open spec fn dist(c: Index, e: Index) -> int {
    (if c.0@[0] >= e.0@[0] { c.0@[0] - e.0@[0] } else { e.0@[0] - c.0@[0] })
        + (if c.0@[1] >= e.0@[1] { c.0@[1] - e.0@[1] } else { e.0@[1] - c.0@[1] })
        + (if c.0@[2] >= e.0@[2] { c.0@[2] - e.0@[2] } else { e.0@[2] - c.0@[2] })
}

/// `c` moved one unit toward `e` along the first axis on which they differ.
pub open spec fn toward(c: Index, e: Index) -> Index {
    let j = if c.0@[0] != e.0@[0] {
        0int
    } else if c.0@[1] != e.0@[1] {
        1int
    } else {
        2int
    };
    let step: int = if c.0@[j] > e.0@[j] {
        -1
    } else {
        1
    };
    Index(
        [
            if j == 0 { (c.0@[0] + step) as isize } else { c.0@[0] },
            if j == 1 { (c.0@[1] + step) as isize } else { c.0@[1] },
            if j == 2 { (c.0@[2] + step) as isize } else { c.0@[2] },
        ],
    )
}

proof fn lemma_toward(s: Index, c: Index, e: Index)
    requires
        small_shape(s),
        in_shape(s, c),
        in_shape(s, e),
        c != e,
    ensures
        in_shape(s, toward(c, e)),
        dist(toward(c, e), e) == dist(c, e) - 1,
        axis_neighbors(toward(c, e)).contains(c),
{
    let t = toward(c, e);
    assert(0 <= c.0@[0] < s.0@[0] && 0 <= c.0@[1] < s.0@[1] && 0 <= c.0@[2] < s.0@[2]);
    assert(0 <= e.0@[0] < s.0@[0] && 0 <= e.0@[1] < s.0@[1] && 0 <= e.0@[2] < s.0@[2]);
    if c.0@[0] == e.0@[0] && c.0@[1] == e.0@[1] && c.0@[2] == e.0@[2] {
        assert(c.0 =~= e.0);
    }
    assert(in_shape(s, t));
    lemma_in_shape_inner(s, t);
    let a = axis_neighbors(t);
    if c.0@[0] != e.0@[0] {
        if c.0@[0] > e.0@[0] {
            assert(a[0].0 =~= c.0);
        } else {
            assert(a[1].0 =~= c.0);
        }
    } else if c.0@[1] != e.0@[1] {
        if c.0@[1] > e.0@[1] {
            assert(a[2].0 =~= c.0);
        } else {
            assert(a[3].0 =~= c.0);
        }
    } else {
        if c.0@[2] > e.0@[2] {
            assert(a[4].0 =~= c.0);
        } else {
            assert(a[5].0 =~= c.0);
        }
    }
}

/// Adjacent cells are axis neighbours.
proof fn lemma_adjacent_axis(c: Index, d: Index)
    requires
        inner_index(c),
        adjacent(d, c),
    ensures
        axis_neighbors(c).contains(d),
{
    let a = axis_neighbors(c);
    assert(isize::MIN < c.0@[0] < isize::MAX && isize::MIN < c.0@[1] < isize::MAX && isize::MIN < c.0@[2] < isize::MAX);
    if d.0@[0] == c.0@[0] + 1 {
        assert(a[0].0 =~= d.0);
    } else if d.0@[0] == c.0@[0] - 1 {
        assert(a[1].0 =~= d.0);
    } else if d.0@[1] == c.0@[1] + 1 {
        assert(a[2].0 =~= d.0);
    } else if d.0@[1] == c.0@[1] - 1 {
        assert(a[3].0 =~= d.0);
    } else if d.0@[2] == c.0@[2] + 1 {
        assert(a[4].0 =~= d.0);
    } else {
        assert(a[5].0 =~= d.0);
    }
}

/// In the graph of a grid, `lin(d)` is a neighbour of `lin(c)` for a grid neighbour `d` of
/// `c`, at some position of its list.
proof fn lemma_row_has(s: Index, c: Index, d: Index) -> (j: int)
    requires
        small_shape(s),
        in_shape(s, c),
        in_shape(s, d),
        axis_neighbors(c).contains(d),
    ensures
        0 <= j < grid_row(s, c).len(),
        grid_row(s, c)[j] == lin(s, d),
{
    let p = |n: Index| in_shape(s, n);
    lemma_filter_facts(axis_neighbors(c), p);
    let f = axis_neighbors(c).filter(p);
    assert(f.contains(d));
    let j = choose|j: int| 0 <= j < f.len() && f[j] == d;
    lemma_lin_bounds(s, d);
    j
}

/// Every cell at distance `n` from a marked start is marked, when every edge at a marked cell
/// has been stepped along.
proof fn lemma_seen_at(s: Index, cells: Seq<Index>, gg: Seq<Seq<isize>>, seen: Seq<bool>, ev: Seq<Visit>, start: Index, n: nat)
    requires
        small_shape(s),
        cells.len() == cell_count(s),
        forall|k: int| 0 <= k < cells.len() ==> in_shape(s, #[trigger] cells[k]) && lin(s, cells[k]) == k,
        gg.len() == cells.len(),
        forall|k: int| 0 <= k < gg.len() ==> #[trigger] gg[k] == grid_row(s, cells[k]),
        in_shape(s, start),
        seen.len() == gg.len(),
        seen[lin(s, start)],
        seen_is_reached(seen, ev),
        plan_ok(gg, ev),
        covers(gg, seen, ev),
    ensures
        forall|c: Index| in_shape(s, c) && dist(c, start) == n ==> seen[#[trigger] lin(s, c)],
    decreases n,
{
    assert forall|c: Index| in_shape(s, c) && dist(c, start) == n implies seen[#[trigger] lin(s, c)] by {
        if c == start {
        } else {
            lemma_toward(s, c, start);
            let t = toward(c, start);
            assert(dist(c, start) > 0) by {
                if dist(c, start) == 0 {
                    assert(c.0 =~= start.0);
                }
            }
            lemma_seen_at(s, cells, gg, seen, ev, start, (n - 1) as nat);
            assert(seen[lin(s, t)]);
            lemma_lin_bounds(s, t);
            lemma_lin_bounds(s, c);
            lemma_lin_injective(s, cells[lin(s, t)], t);
            let j = lemma_row_has(s, t, c);
            let u = lin(s, t);
            assert(gg[u] == grid_row(s, t));
            assert(listed(ev, u, gg[u][j] as int));
            let k = choose|k: int| 0 <= k < ev.len() && #[trigger] joins(ev[k], u, gg[u][j] as int);
            assert(step_ok(gg, ev, k));
            let w = lin(s, c);
            match ev[k] {
                Visit::Edge(f, m) => {
                    if m as int == w {
                        assert(reaches(ev[k], w));
                    } else {
                        assert(f as int == w);
                        let i = choose|i: int| 0 <= i < k && #[trigger] reaches(ev[i], f as int);
                        assert(reaches(ev[i], w));
                    }
                },
                _ => {},
            }
            assert(reached_before(ev, ev.len() as int, w));
        }
    }
}

/// The cell at position `k`.
pub open spec fn cell_at(s: Index, k: int) -> Index {
    choose|c: Index| in_shape(s, c) && lin(s, c) == k
}

/// The cells by position, and a start outside the grid after them.
pub open spec fn walk_cells(s: Index, start: Index) -> Seq<Index> {
    let v = Seq::new(cell_count(s) as nat, |k: int| cell_at(s, k));
    if in_shape(s, start) {
        v
    } else {
        v.push(start)
    }
}

/// The grid's neighbours of each of those cells, by position.
pub open spec fn walk_graph(s: Index, start: Index) -> Seq<Seq<isize>> {
    let c = walk_cells(s, start);
    Seq::new(c.len(), |k: int| grid_row(s, c[k]))
}

/// The position of the start.
pub open spec fn walk_root(s: Index, start: Index) -> usize {
    if in_shape(s, start) {
        lin(s, start) as usize
    } else {
        cell_count(s) as usize
    }
}

/// The calls of a breadth-first visit of the grid's edges from `start`.
pub open spec fn walk_spec(s: Index, start: Index) -> Seq<(Index, Option<Index>)> {
    let g = walk_graph(s, start);
    explore_spec(g, walk_root(s, start), true, Seq::new(g.len(), |i: int| false), seq![]).1.map_values(
        |e: Visit| call_of(walk_cells(s, start), e),
    )
}

impl<P, S> VineyardsGrid<P, S> {
    /// Visits each edge of the grid breadth first from `start`: the calls `(next, previous)`
    /// in order.  The first is `(start, None)`; in every later one `previous` is a cell
    /// visited before and `next` a grid neighbour of it.  From a start in the grid every edge
    /// of the grid is visited, and none twice.
#[verifier::spinoff_prover]
    pub fn visit_edges(&self, start: Index) -> (calls: Vec<(Index, Option<Index>)>)
        requires
            small_shape(self.shape),
            inner_index(start),
        ensures
            calls@.len() >= 1,
            calls@[0] == (start, None::<Index>),
            forall|k: int|
                1 <= k < calls@.len() ==> {
                    let c = #[trigger] calls@[k];
                    &&& c.1 is Some
                    &&& in_shape(self.shape, c.0)
                    &&& adjacent(c.0, c.1->0)
                    &&& exists|j: int| 0 <= j < k && calls@[j].0 == c.1->0
                },
            in_shape(self.shape, start) ==> forall|i: int, j: int|
                0 <= i < j < calls@.len() ==> !same_step(#[trigger] calls@[i], #[trigger] calls@[j]),
            in_shape(self.shape, start) ==> forall|c: Index, d: Index|
                in_shape(self.shape, c) && in_shape(self.shape, d) && #[trigger] adjacent(c, d) ==> exists|k: int|
                    1 <= k < calls@.len() && #[trigger] steps_between(calls@[k], c, d),
            in_shape(self.shape, start) ==> calls@.len() == 1 + self.edge_count(),
            calls@ == walk_spec(self.shape, start),
    {
        let (adj, cells) = grid_graph(self, start);
        let ghost gg = lists(adj@);
        let ghost v = cell_count(self.shape);
        let inside = self.contains(&start);
        assert(inside == in_shape(self.shape, start));
        proof {
            assert(gg.len() == adj@.len());
            assert forall|k: int| 0 <= k < gg.len() implies gg[k] == grid_row(self.shape, cells@[k]) by {
                assert(gg[k] == adj@[k]@);
            }
            assert forall|c: Index| in_shape(self.shape, c) implies 0 <= #[trigger] lin(self.shape, c) < v && cells@[lin(self.shape, c)] == c by {
                lemma_lin_bounds(self.shape, c);
                lemma_lin_injective(self.shape, cells@[lin(self.shape, c)], c);
            }
            assert forall|a: int, j: int| 0 <= a < gg.len() && 0 <= j < gg[a].len() implies 0 <= #[trigger] gg[a][j] < gg.len() by {
                let c = cells@[a];
                let p = |n: Index| in_shape(self.shape, n);
                lemma_filter_facts(axis_neighbors(c), p);
                let f = axis_neighbors(c).filter(p);
                assert(f.contains(f[j]));
                lemma_lin_bounds(self.shape, f[j]);
            }
        }
        let root = if inside {
            lin_exec(&self.shape, &start) as usize
        } else {
            cells.len() - 1
        };
        assert(cells@[root as int] == start);
        proof {
            assert forall|k: int| 0 <= k < v implies #[trigger] cell_at(self.shape, k) == cells@[k] by {
                let c = cell_at(self.shape, k);
                assert(in_shape(self.shape, cells@[k]) && lin(self.shape, cells@[k]) == k);
                lemma_lin_injective(self.shape, c, cells@[k]);
            }
            assert(cells@ =~= walk_cells(self.shape, start));
            assert(gg =~= walk_graph(self.shape, start));
            assert(root == walk_root(self.shape, start));
        }
        let mut seen: Vec<bool> = Vec::new();
        for i in 0..adj.len()
            invariant
                seen@.len() == i,
                forall|u: int| 0 <= u < i ==> !(#[trigger] seen@[u]),
        {
            seen.push(false);
        }
        let mut ev: Vec<Visit> = Vec::new();
        assert(seen@ =~= Seq::new(gg.len(), |i: int| false));
        proof {
            assert forall|u: int| 0 <= u < seen@.len() implies (#[trigger] seen@[u]
                <==> reached_before(ev@, ev@.len() as int, u)) by {}
            if simple(gg) {
                assert forall|u: int, j: int|
                    0 <= u < gg.len() && seen@[u] && 0 <= j < gg[u].len() implies listed(
                    ev@,
                    u,
                    #[trigger] gg[u][j] as int,
                ) by {}
            }
        }
        explore(&adj, root, true, &mut seen, &mut ev);
        let mut calls: Vec<(Index, Option<Index>)> = Vec::new();
        for k in 0..ev.len()
            invariant
                calls@.len() == k,
                forall|j: int| 0 <= j < k ==> #[trigger] calls@[j] == call_of(cells@, ev@[j]),
                forall|a: int| 0 <= a < ev@.len() ==> #[trigger] step_ok(gg, ev@, a),
                ids_ok(gg),
                gg.len() == cells@.len(),
        {
            assert(step_ok(gg, ev@, k as int));
            let c = match ev[k] {
                Visit::Edge(f, n) => {
                    proof {
                        lemma_edge_ids(gg, f as int, n as int);
                    }
                    (cells[n], Some(cells[f]))
                },
                Visit::Root(r) => (cells[r], None),
                Visit::Drop(r) => {
                    proof {
                        assert(false);
                    }
                    (cells[r], None)
                },
            };
            calls.push(c);
        }
        proof {
            assert(calls@ =~= ev@.map_values(|e: Visit| call_of(walk_cells(self.shape, start), e)));
            assert(calls@[0] == call_of(cells@, ev@[0]));
            assert forall|k: int| 1 <= k < calls@.len() implies {
                let c = #[trigger] calls@[k];
                &&& c.1 is Some
                &&& in_shape(self.shape, c.0)
                &&& adjacent(c.0, c.1->0)
                &&& exists|j: int| 0 <= j < k && calls@[j].0 == c.1->0
            } by {
                assert(ev@[k] is Edge);
                assert(step_ok(gg, ev@, k));
                let (f, n) = (ev@[k]->Edge_0 as int, ev@[k]->Edge_1 as int);
                assert(calls@[k] == call_of(cells@, ev@[k]));
                lemma_edge_ids(gg, f, n);
                let cf = cells@[f];
                assert(inner_index(cf)) by {
                    if f < v {
                        lemma_in_shape_inner(self.shape, cf);
                    }
                }
                let p = |m: Index| in_shape(self.shape, m);
                lemma_filter_facts(axis_neighbors(cf), p);
                let fl = axis_neighbors(cf).filter(p);
                assert(gg[f] == fl.map_values(|m: Index| lin(self.shape, m) as isize));
                let j = choose|j: int| 0 <= j < gg[f].len() && #[trigger] gg[f][j] == n;
                let m = fl[j];
                assert(fl.contains(m));
                lemma_lin_bounds(self.shape, m);
                assert(cells@[n] == m);
                lemma_axis(cf);
                assert(reached_before(ev@, k, f));
                let i = choose|i: int| 0 <= i < k && #[trigger] reaches(ev@[i], f);
                assert(calls@[i] == call_of(cells@, ev@[i]));
                assert(calls@[i].0 == cells@[f]);
            }
            if inside {
                lemma_grid_graph_simple(self.shape, cells@);
                assert(Seq::new(cells@.len(), |k: int| grid_row(self.shape, cells@[k])) =~= gg);
                assert forall|i: int, j: int| 0 <= i < j < calls@.len() implies !same_step(#[trigger] calls@[i], #[trigger] calls@[j]) by {
                    if i >= 1 && same_step(calls@[i], calls@[j]) {
                        assert(calls@[i] == call_of(cells@, ev@[i]));
                        assert(calls@[j] == call_of(cells@, ev@[j]));
                        assert(ev@[i] is Edge && ev@[j] is Edge);
                        let (fi, ni) = (ev@[i]->Edge_0 as int, ev@[i]->Edge_1 as int);
                        let (fj, nj) = (ev@[j]->Edge_0 as int, ev@[j]->Edge_1 as int);
                        assert(step_ok(gg, ev@, i) && step_ok(gg, ev@, j));
                        lemma_edge_ids(gg, fi, ni);
                        lemma_edge_ids(gg, fj, nj);
                        lemma_cells_injective(self.shape, cells@, fi, fj);
                        lemma_cells_injective(self.shape, cells@, fi, nj);
                        lemma_cells_injective(self.shape, cells@, ni, nj);
                        lemma_cells_injective(self.shape, cells@, ni, fj);
                        assert(same_edge(ev@[i], ev@[j]));
                    }
                }
                assert(seen@[root as int]) by {
                    assert(reaches(ev@[0], root as int));
                }
                assert forall|c: Index, d: Index|
                    in_shape(self.shape, c) && in_shape(self.shape, d) && #[trigger] adjacent(c, d) implies exists|k: int|
                        1 <= k < calls@.len() && #[trigger] steps_between(calls@[k], c, d) by {
                    lemma_seen_at(self.shape, cells@, gg, seen@, ev@, start, dist(c, start) as nat);
                    let u = lin(self.shape, c);
                    let w = lin(self.shape, d);
                    assert(seen@[u]);
                    lemma_in_shape_inner(self.shape, c);
                    lemma_adjacent_axis(c, d);
                    let j = lemma_row_has(self.shape, c, d);
                    lemma_lin_bounds(self.shape, c);
                    lemma_lin_bounds(self.shape, d);
                    assert(gg[u] == grid_row(self.shape, cells@[u]));
                    assert(cells@[u] == c);
                    assert(cells@[w] == d);
                    assert(listed(ev@, u, gg[u][j] as int));
                    let k = choose|k: int| 0 <= k < ev@.len() && #[trigger] joins(ev@[k], u, gg[u][j] as int);
                    assert(k != 0);
                    assert(calls@[k] == call_of(cells@, ev@[k]));
                    assert(steps_between(calls@[k], c, d));
                }
                lemma_visit_count(self.shape, start, calls@);
            }
        }
        calls
    }
}

/// A breadth-first visit from a cell of the grid that steps along every edge once steps
/// as often as the grid has edges.
proof fn lemma_visit_count(s: Index, start: Index, calls: Seq<(Index, Option<Index>)>)
    requires
        small_shape(s),
        in_shape(s, start),
        calls.len() >= 1,
        calls[0] == (start, None::<Index>),
        forall|k: int|
            1 <= k < calls.len() ==> {
                let c = #[trigger] calls[k];
                &&& c.1 is Some
                &&& in_shape(s, c.0)
                &&& adjacent(c.0, c.1->0)
                &&& exists|j: int| 0 <= j < k && calls[j].0 == c.1->0
            },
        forall|i: int, j: int| 0 <= i < j < calls.len() ==> !same_step(#[trigger] calls[i], #[trigger] calls[j]),
        forall|c: Index, d: Index|
            in_shape(s, c) && in_shape(s, d) && #[trigger] adjacent(c, d) ==> exists|k: int|
                1 <= k < calls.len() && #[trigger] steps_between(calls[k], c, d),
    ensures
        calls.len() == 1 + grid_edge_count(s),
{
    let steps = calls.drop_first();
    assert forall|j: int| 0 <= j < 3 implies 1 <= #[trigger] s.0@[j] by {
        assert(0 <= start.0@[j] < s.0@[j]);
    }
    assert forall|k: int| 0 <= k < steps.len() implies {
        let st = #[trigger] steps[k];
        &&& st.1 is Some
        &&& in_shape(s, st.0)
        &&& in_shape(s, st.1->0)
        &&& adjacent(st.0, st.1->0)
    } by {
        assert(steps[k] == calls[k + 1]);
        let c = calls[k + 1];
        let j = choose|j: int| 0 <= j < k + 1 && calls[j].0 == c.1->0;
        if j > 0 {
            assert(in_shape(s, calls[j].0));
        }
    }
    assert forall|i: int, j: int| 0 <= i < j < steps.len() implies !same_step(#[trigger] steps[i], #[trigger] steps[j]) by {
        assert(steps[i] == calls[i + 1] && steps[j] == calls[j + 1]);
    }
    assert forall|c: Index, d: Index| in_shape(s, c) && in_shape(s, d) && #[trigger] adjacent(c, d) implies exists|k: int|
        0 <= k < steps.len() && #[trigger] steps_between(steps[k], c, d) by {
        let k = choose|k: int| 1 <= k < calls.len() && #[trigger] steps_between(calls[k], c, d);
        assert(steps[k - 1] == calls[k]);
    }
    lemma_steps_count(s, steps);
}

proof fn lemma_edge_ids(g: Seq<Seq<isize>>, f: int, n: int)
    requires
        ids_ok(g),
        is_edge(g, f, n),
    ensures
        0 <= f < g.len(),
        0 <= n < g.len(),
{
    let j = choose|j: int| 0 <= j < g[f].len() && #[trigger] g[f][j] == n;
    assert(0 <= g[f][j] < g.len());
}

proof fn lemma_cells_injective(s: Index, cells: Seq<Index>, a: int, b: int)
    requires
        small_shape(s),
        0 <= a < cells.len(),
        0 <= b < cells.len(),
        cells.len() == cell_count(s),
        forall|k: int| 0 <= k < cells.len() ==> in_shape(s, #[trigger] cells[k]) && lin(s, cells[k]) == k,
    ensures
        cells[a] == cells[b] ==> a == b,
{
}

} // verus!
