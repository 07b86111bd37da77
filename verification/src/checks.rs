//! Small pieces of the command-line tool that are computations: the text of one medial-axis
//! face, and the check that a grid's dual lines up with its edges.
use vstd::prelude::*;

use crate::edges::lists;
use crate::index::Index;
use crate::mesh::{face_index, list_edges, row_edges, VineyardsGridMesh};
use crate::text::{concat, decimal, push_all, push_decimal};

verus! {

/// ` a` for each id `vi + 1, ..., vi + n`.
pub open spec fn spaced_ids(vi: nat, n: nat) -> Seq<char>
    decreases n,
{
    if n == 0 {
        seq![]
    } else {
        spaced_ids(vi, (n - 1) as nat) + seq![' '] + decimal(vi + n)
    }
}

/// One medial-axis face as `.obj` text: its `v` lines, then `f` over them; `vi` is the number
/// of vertices written before, as `.obj` ids count over the whole file.
pub open spec fn dual_face_text(points: Seq<Seq<char>>, vi: nat) -> Seq<char> {
    concat(points) + seq!['f'] + spaced_ids(vi, points.len()) + seq!['\n']
}

/// Writes one medial-axis face: the `v` lines of its points, then an `f` line over them.
pub fn write_dual_face(point_lines: &Vec<String>, vi: usize) -> (s: String)
    requires
        vi + point_lines@.len() <= usize::MAX,
    ensures
        s@ == dual_face_text(point_lines@.map_values(|l: String| l@), vi as nat),
{
    let mut s = String::new();
    push_all(&mut s, point_lines);
    let ghost head = s@;
    proof {
        reveal_strlit("f");
    }
    s.append("f");
    for k in 0..point_lines.len()
        invariant
            vi + point_lines@.len() <= usize::MAX,
            s@ == head + seq!['f'] + spaced_ids(vi as nat, k as nat),
    {
        proof {
            reveal_strlit(" ");
        }
        s.append(" ");
        push_decimal(&mut s, vi + 1 + k);
        assert(s@ =~= head + seq!['f'] + spaced_ids(vi as nat, (k + 1) as nat));
    }
    proof {
        reveal_strlit("\n");
    }
    s.append("\n");
    assert(s@ =~= dual_face_text(point_lines@.map_values(|l: String| l@), vi as nat));
    s
}

proof fn lemma_row_edges_bounds(a: int, l: Seq<isize>)
    requires
        0 <= a <= isize::MAX,
    ensures
        forall|i: int|
            0 <= i < row_edges(a, l).len() ==> (#[trigger] row_edges(a, l)[i]).0 == a && a < row_edges(a, l)[i].1 <= isize::MAX,
    decreases l.len(),
{
    if l.len() > 0 {
        lemma_row_edges_bounds(a, l.drop_last());
        let p = row_edges(a, l.drop_last());
        assert forall|i: int| 0 <= i < row_edges(a, l).len() implies (#[trigger] row_edges(a, l)[i]).0 == a && a < row_edges(a, l)[i].1 <= isize::MAX by {
            if i < p.len() {
                assert(row_edges(a, l)[i] == p[i]);
            }
        }
    }
}

proof fn lemma_list_edges_bounds(nb: Seq<Seq<isize>>)
    requires
        nb.len() <= isize::MAX,
    ensures
        forall|i: int|
            0 <= i < list_edges(nb).len() ==> (#[trigger] list_edges(nb)[i]).0 < list_edges(nb)[i].1 <= isize::MAX,
    decreases nb.len(),
{
    if nb.len() > 0 {
        lemma_list_edges_bounds(nb.drop_last());
        lemma_row_edges_bounds(nb.len() - 1, nb.last());
        let p = list_edges(nb.drop_last());
        let r = row_edges(nb.len() - 1, nb.last());
        assert forall|i: int| 0 <= i < list_edges(nb).len() implies (#[trigger] list_edges(nb)[i]).0 < list_edges(nb)[i].1 <= isize::MAX by {
            if i < p.len() {
                assert(list_edges(nb)[i] == p[i]);
            } else {
                assert(list_edges(nb)[i] == r[i - p.len()]);
            }
        }
    }
}

/// The grid has a dual face for the edge.
pub open spec fn has_face<P>(g: VineyardsGridMesh<P>, e: (usize, usize)) -> bool {
    face_index(g.dual_faces@, (e.0 as int, e.1 as int)) >= 0
}

/// How many of the first `m` sampled edges (every `step`-th) have a dual face.
pub open spec fn sampled_hits<P>(g: VineyardsGridMesh<P>, es: Seq<(usize, usize)>, step: nat, m: nat) -> nat
    decreases m,
{
    if m == 0 {
        0
    } else {
        sampled_hits(g, es, step, (m - 1) as nat) + if has_face(g, es[((m - 1) * step) as int]) {
            1nat
        } else {
            0nat
        }
    }
}

/// The sampling stride for `len` edges and at most `n` samples.
pub open spec fn sample_step(len: nat, n: nat) -> nat {
    if len / n >= 1 {
        len / n
    } else {
        1
    }
}

impl<P> VineyardsGridMesh<P> {
    /// Samples up to `n` of the grid edges `(a, b)`, `a < b` (every `len / n`-th, at least
    /// every one) and counts how many have a dual face: `(checked, hit)`.
#[verifier::spinoff_prover]
    pub fn sample_dual_hits(&self, n: usize) -> (r: (usize, usize))
        requires
            n > 0,
            self.neighbors.len() <= isize::MAX,
        ensures
            ({
                let es = list_edges(lists(self.neighbors@));
                let step = sample_step(es.len(), n as nat);
                &&& es.len() == 0 ==> r == (0usize, 0usize)
                &&& r.0 <= n
                &&& r.0 == n || r.0 * step >= es.len()
                &&& r.0 == 0 || (r.0 - 1) * step < es.len()
                &&& r.1 == sampled_hits(*self, es, step, r.0 as nat)
            }),
    {
        let edges = self.edge_list();
        let ghost es = list_edges(lists(self.neighbors@));
        proof {
            lemma_list_edges_bounds(lists(self.neighbors@));
        }
        if edges.len() == 0 {
            return (0, 0);
        }
        let q = edges.len() / n;
        let step = if q >= 1 {
            q
        } else {
            1
        };
        assert(step == sample_step(es.len(), n as nat));
        let mut checked: usize = 0;
        let mut hit: usize = 0;
        let mut idx: usize = 0;
        while idx < edges.len() && checked < n
            invariant
                edges@ == es,
                forall|i: int| 0 <= i < es.len() ==> (#[trigger] es[i]).0 < es[i].1 <= isize::MAX,
                step >= 1,
                idx == checked * step || (idx == es.len() && checked * step >= es.len()),
                idx <= es.len(),
                checked <= n,
                checked == 0 || (checked - 1) * step < es.len(),
                hit == sampled_hits(*self, es, step as nat, checked as nat),
                hit <= checked,
            decreases n - checked,
        {
            assert(idx == checked * step);
            let (a, b) = edges[idx];
            let face = self.dual_face(Index::fake(a as isize), Index::fake(b as isize));
            proof {
                assert(es[idx as int].0 < es[idx as int].1);
                assert(((checked + 1 - 1) * step) == idx);
            }
            if face.is_some() {
                hit += 1;
            }
            checked += 1;
            proof {
                assert(checked * step == (checked - 1) * step + step) by (nonlinear_arith)
                    requires
                        checked >= 1,
                ;
            }
            if edges.len() - idx <= step {
                idx = edges.len();
            } else {
                idx = idx + step;
            }
        }
        (checked, hit)
    }
}

} // verus!
