//! Writing a mesh grid, with its dual faces, as an `.obj` file.
use vstd::prelude::*;

use crate::block_obj::{edge_line, face_line};
use crate::edges::lists;
use crate::mesh::VineyardsGridMesh;
use crate::text::{concat, push_all, push_decimal};

verus! {

/// The `l` lines of one row of the adjacency: each neighbour `b >= a` once.
pub open spec fn row_lines(a: int, l: Seq<isize>) -> Seq<char>
    decreases l.len(),
{
    if l.len() == 0 {
        seq![]
    } else {
        row_lines(a, l.drop_last()) + if l.last() < a {
            seq![]
        } else {
            edge_line((a as usize, l.last() as usize))
        }
    }
}

/// The `l` lines of all rows.
pub open spec fn grid_lines(nb: Seq<Seq<isize>>) -> Seq<char>
    decreases nb.len(),
{
    if nb.len() == 0 {
        seq![]
    } else {
        grid_lines(nb.drop_last()) + row_lines(nb.len() - 1, nb.last())
    }
}

/// `0, 1, ..., n - 1`.
pub open spec fn upto(n: nat) -> Seq<usize> {
    Seq::new(n, |k: int| k as usize)
}

/// The sum of the counts.
pub open spec fn total(ns: Seq<nat>) -> nat
    decreases ns.len(),
{
    if ns.len() == 0 {
        0
    } else {
        total(ns.drop_last()) + ns.last()
    }
}

/// The dual faces after the first `base` vertices of the file: each face's `v` lines, then its
/// `f` line over those vertices.
pub open spec fn dual_lines(base: nat, vs: Seq<Seq<char>>, ns: Seq<nat>) -> Seq<char>
    decreases vs.len(),
{
    if vs.len() == 0 {
        seq![]
    } else {
        dual_lines(base, vs.drop_last(), ns.drop_last()) + vs.last() + face_line(
            base + total(ns.drop_last()),
            upto(ns.last()),
            false,
        )
    }
}

/// The vertex counts of the dual faces.
pub open spec fn face_counts<P>(g: VineyardsGridMesh<P>) -> Seq<nat> {
    g.dual_faces@.map_values(|f: crate::mesh::DualFace<P>| f.vertices@.len())
}

/// The text of the grid as an `.obj` file; `points` are the `v` lines of the points and
/// `faces` the `v` lines of each dual face's vertices.
pub open spec fn grid_text<P>(g: VineyardsGridMesh<P>, points: Seq<Seq<char>>, faces: Seq<Seq<char>>) -> Seq<char> {
    seq!['o', ' ', 'g', 'r', 'i', 'd', '\n'] + concat(points) + grid_lines(lists(g.neighbors@)) + if g.dual_faces@.len() > 0 {
        seq!['o', ' ', 'd', 'u', 'a', 'l', '\n'] + dual_lines(g.points@.len(), faces, face_counts(g))
    } else {
        seq![]
    }
}

fn push_lit(s: &mut String, lit: &str)
    ensures
        final(s)@ == old(s)@ + lit@,
{
    s.append(lit);
}

fn push_line(s: &mut String, a: usize, b: usize)
    requires
        a < usize::MAX,
        b < usize::MAX,
    ensures
        final(s)@ == old(s)@ + edge_line((a, b)),
{
    proof {
        reveal_strlit("l ");
        reveal_strlit(" ");
        reveal_strlit("\n");
    }
    let ghost s0 = s@;
    push_lit(s, "l ");
    push_decimal(s, a + 1);
    push_lit(s, " ");
    push_decimal(s, b + 1);
    push_lit(s, "\n");
    assert(s@ =~= s0 + edge_line((a, b)));
}

/// `f` and the ids `base + 1, ..., base + n`.
fn push_face_ids(s: &mut String, base: usize, n: usize)
    requires
        base + n <= usize::MAX,
    ensures
        final(s)@ == old(s)@ + face_line(base as nat, upto(n as nat), false),
{
    let mut ids: Vec<usize> = Vec::new();
    for k in 0..n
        invariant
            ids@ == upto(k as nat),
    {
        ids.push(k);
        assert(ids@ =~= upto((k + 1) as nat));
    }
    let ghost s0 = s@;
    let ghost ts = ids@.map_values(|v: usize| crate::block_obj::face_token(base as nat, v, false));
    proof {
        reveal_strlit("f ");
        reveal_strlit("\n");
    }
    push_lit(s, "f ");
    for k in 0..n
        invariant
            ids@ == upto(n as nat),
            base + n <= usize::MAX,
            ts == ids@.map_values(|v: usize| crate::block_obj::face_token(base as nat, v, false)),
            s@ == s0 + seq!['f', ' '] + crate::text::join_spaced(ts.take(k as int)),
    {
        proof {
            reveal_strlit(" ");
        }
        if k > 0 {
            push_lit(s, " ");
        }
        push_decimal(s, base + k + 1);
        proof {
            let t = ts.take(k + 1);
            assert(t.drop_last() =~= ts.take(k as int));
            assert(t.last() == crate::block_obj::face_token(base as nat, k, false));
            assert(crate::block_obj::face_token(base as nat, k, false) =~= crate::text::decimal((base + k + 1) as nat));
            assert(s@ =~= s0 + seq!['f', ' '] + crate::text::join_spaced(t));
        }
    }
    proof {
        reveal_strlit("\n");
    }
    push_lit(s, "\n");
    assert(ts.take(n as int) =~= ts);
    assert(s@ =~= s0 + face_line(base as nat, ids@, false));
}

impl<P> VineyardsGridMesh<P> {
    /// Writes the grid as an `.obj`: an object `grid` with the points and each edge once (from
    /// its lower end), and, if there are dual faces, an object `dual` with one polygon per
    /// face.  `point_lines` are the `v` lines of the points, and `face_lines` the `v` lines of
    /// each dual face's vertices.
#[verifier::spinoff_prover]
    pub fn write_as_obj(&self, point_lines: &Vec<String>, face_lines: &Vec<String>) -> (s: String)
        requires
            self.neighbors@.len() <= isize::MAX,
            face_lines@.len() == self.dual_faces@.len(),
            self.points@.len() + total(face_counts(*self)) <= usize::MAX,
        ensures
            s@ == grid_text(
                *self,
                point_lines@.map_values(|l: String| l@),
                face_lines@.map_values(|l: String| l@),
            ),
    {
        let mut s = String::new();
        proof {
            reveal_strlit("o grid\n");
            reveal_strlit("o dual\n");
        }
        push_lit(&mut s, "o grid\n");
        push_all(&mut s, point_lines);
        let ghost head = s@;
        let ghost nb = lists(self.neighbors@);
        for a in 0..self.neighbors.len()
            invariant
                nb == lists(self.neighbors@),
                self.neighbors@.len() <= isize::MAX,
                s@ == head + grid_lines(nb.take(a as int)),
        {
            let ns = &self.neighbors[a];
            let ghost rb = s@;
            for j in 0..ns.len()
                invariant
                    a < self.neighbors@.len() <= isize::MAX,
                    s@ == rb + row_lines(a as int, ns@.take(j as int)),
            {
                let b = ns[j];
                proof {
                    assert(ns@.take(j + 1).drop_last() =~= ns@.take(j as int));
                }
                if b >= a as isize {
                    push_line(&mut s, a, b as usize);
                }
            }
            proof {
                assert(ns@.take(ns@.len() as int) =~= ns@);
                assert(nb.take(a + 1).drop_last() =~= nb.take(a as int));
                assert(nb[a as int] == ns@);
            }
        }
        proof {
            assert(nb.take(nb.len() as int) =~= nb);
        }
        let ghost body = s@;
        if self.dual_faces.len() > 0 {
            push_lit(&mut s, "o dual\n");
            let ghost d0 = s@;
            let ghost ns = face_counts(*self);
            let ghost vs = face_lines@.map_values(|l: String| l@);
            let mut vi = self.points.len();
            for f in 0..self.dual_faces.len()
                invariant
                    ns == face_counts(*self),
                    vs == face_lines@.map_values(|l: String| l@),
                    face_lines@.len() == self.dual_faces@.len(),
                    self.points@.len() + total(ns) <= usize::MAX,
                    vi == self.points@.len() + total(ns.take(f as int)),
                    s@ == d0 + dual_lines(self.points@.len(), vs.take(f as int), ns.take(f as int)),
            {
                let n = self.dual_faces[f].vertices.len();
                proof {
                    assert(ns.take(f + 1).drop_last() =~= ns.take(f as int));
                    assert(vs.take(f + 1).drop_last() =~= vs.take(f as int));
                    assert(ns[f as int] == n);
                    lemma_total_prefix(ns, f + 1);
                }
                s.append(face_lines[f].as_str());
                push_face_ids(&mut s, vi, n);
                vi = vi + n;
                proof {
                    assert(s@ =~= d0 + dual_lines(self.points@.len(), vs.take(f + 1), ns.take(f + 1)));
                }
            }
            proof {
                assert(ns.take(ns.len() as int) =~= ns);
                assert(vs.take(vs.len() as int) =~= vs);
            }
        }
        s
    }
}

proof fn lemma_total_prefix(ns: Seq<nat>, k: int)
    requires
        0 <= k <= ns.len(),
    ensures
        total(ns.take(k)) <= total(ns),
    decreases ns.len(),
{
    if k < ns.len() {
        assert(ns.drop_last().take(k) =~= ns.take(k));
        lemma_total_prefix(ns.drop_last(), k);
    } else {
        assert(ns.take(k) =~= ns);
    }
}

} // verus!
