//! Writing a lattice block as an `.obj` file, the way Blender exports one.
use vstd::prelude::*;

use crate::lattice::{lattice_name, LatticeBlock};
use crate::text::{concat, decimal, join_spaced, push_all, push_decimal};

verus! {

/// Which `l` lines to write.
#[derive(Clone, Copy, Debug, PartialEq, Eq, Structural)]
pub enum Lines {
    NoLines,
    Shell1,
    Both,
}

/// How to write a [LatticeBlock] as an `.obj`, mimicking what Blender exports.
pub struct ObjOptions {
    pub lines: Lines,
    /// Write the dual object at all.
    pub dual: bool,
    /// Include the outer walls of the boundary cells.
    pub include_outer: bool,
    /// Write `vn` lines and `f a//n` syntax, as Blender does for objects with faces.
    pub normals: bool,
    /// Round coordinates like Blender's exporter.
    pub decimals: Option<usize>,
    /// Write every wall twice (once per cell), as Cell Fracture would.
    pub duplicate_walls: bool,
    /// Fan-triangulate the walls (a mistake the reader detects).
    pub triangulate: bool,
}

impl Default for ObjOptions {
    fn default() -> (r: Self)
        ensures
            r.lines == Lines::Both,
            r.dual,
            r.include_outer,
            !r.normals,
            r.decimals is None,
            !r.duplicate_walls,
            !r.triangulate,
    {
        ObjOptions {
            lines: Lines::Both,
            dual: true,
            include_outer: true,
            normals: false,
            decimals: None,
            duplicate_walls: false,
            triangulate: false,
        }
    }
}

/// `l a b` with 1-based ids.
pub open spec fn edge_line(e: (usize, usize)) -> Seq<char> {
    seq!['l', ' '] + decimal((e.0 + 1) as nat) + seq![' '] + decimal((e.1 + 1) as nat) + seq!['\n']
}

/// The `l` lines of the edges.
pub open spec fn edge_lines(es: Seq<(usize, usize)>) -> Seq<char> {
    concat(es.map_values(|e: (usize, usize)| edge_line(e)))
}

/// A face vertex: its 1-based id in the file, with the normal if asked for.
pub open spec fn face_token(base: nat, v: usize, normals: bool) -> Seq<char> {
    decimal((base + v + 1) as nat) + if normals {
        seq!['/', '/', '1']
    } else {
        seq![]
    }
}

/// `f` and the face's vertices.
pub open spec fn face_line(base: nat, ids: Seq<usize>, normals: bool) -> Seq<char> {
    seq!['f', ' '] + join_spaced(ids.map_values(|v: usize| face_token(base, v, normals))) + seq![
        '\n',
    ]
}

/// The fan triangles `(0, k, k + 1)` for `k` in `1..=m`.
pub open spec fn fan_lines(base: nat, ids: Seq<usize>, normals: bool, m: nat) -> Seq<char>
    decreases m,
{
    if m == 0 {
        seq![]
    } else {
        fan_lines(base, ids, normals, (m - 1) as nat) + face_line(
            base,
            seq![ids[0], ids[m as int], ids[m as int + 1]],
            normals,
        )
    }
}

/// The `f` lines of one wall.
pub open spec fn wall_lines(base: nat, w: (usize, Option<usize>, Vec<usize>), o: ObjOptions) -> Seq<char> {
    let ids = w.2@;
    if w.1 is None && !o.include_outer {
        seq![]
    } else if o.triangulate {
        fan_lines(base, ids, o.normals, if ids.len() >= 2 {
            (ids.len() - 2) as nat
        } else {
            0
        })
    } else {
        face_line(base, ids, o.normals) + if o.duplicate_walls {
            face_line(base, ids.reverse(), o.normals)
        } else {
            seq![]
        }
    }
}

/// The `f` lines of the walls.
pub open spec fn walls_text(base: nat, ws: Seq<(usize, Option<usize>, Vec<usize>)>, o: ObjOptions) -> Seq<char>
    decreases ws.len(),
{
    if ws.len() == 0 {
        seq![]
    } else {
        walls_text(base, ws.drop_last(), o) + wall_lines(base, ws.last(), o)
    }
}

/// The edges the options ask for.
pub open spec fn chosen_edges<P>(b: LatticeBlock<P>, o: ObjOptions) -> Seq<(usize, usize)> {
    match o.lines {
        Lines::NoLines => seq![],
        Lines::Shell1 => b.shell1@,
        Lines::Both => b.shell1@ + b.shell2@,
    }
}

/// `# test lattice` and the `o` line of the lattice object.
pub open spec fn obj_head(name: Seq<char>) -> Seq<char> {
    seq!['#', ' ', 't', 'e', 's', 't', ' ', 'l', 'a', 't', 't', 'i', 'c', 'e', '\n'] + seq!['o', ' ']
        + name + seq!['_', 'l', 'a', 't', 't', 'i', 'c', 'e', '\n']
}

/// The `o` line of the dual object.
pub open spec fn dual_head(name: Seq<char>) -> Seq<char> {
    seq!['o', ' '] + name + seq!['_', 'v', 'o', 'r', 'o', 'n', 'o', 'i', '\n']
}

/// The normal line, if asked for.
pub open spec fn normal_line(normals: bool) -> Seq<char> {
    if normals {
        seq!['v', 'n', ' ', '0', ' ', '0', ' ', '1', '\n']
    } else {
        seq![]
    }
}

/// The text of the `.obj` file; `points` and `duals` are the `v` lines of the points and of the
/// dual vertices.
pub open spec fn obj_text<P>(b: LatticeBlock<P>, o: ObjOptions, points: Seq<Seq<char>>, duals: Seq<Seq<char>>) -> Seq<char> {
    let name = lattice_name(b.kind);
    obj_head(name) + concat(points) + edge_lines(chosen_edges(b, o)) + if o.dual {
        dual_head(name) + concat(duals) + normal_line(o.normals) + walls_text(
            b.points@.len(),
            b.walls@,
            o,
        )
    } else {
        seq![]
    }
}

fn push_lit(s: &mut String, lit: &str)
    ensures
        final(s)@ == old(s)@ + lit@,
{
    s.append(lit);
}

fn push_edges(s: &mut String, es: &Vec<(usize, usize)>)
    requires
        forall|k: int| 0 <= k < es@.len() ==> (#[trigger] es@[k]).0 < usize::MAX && es@[k].1 < usize::MAX,
    ensures
        final(s)@ == old(s)@ + edge_lines(es@),
{
    let ghost s0 = s@;
    let ghost ls = es@.map_values(|e: (usize, usize)| edge_line(e));
    for k in 0..es.len()
        invariant
            ls == es@.map_values(|e: (usize, usize)| edge_line(e)),
            forall|k: int| 0 <= k < es@.len() ==> (#[trigger] es@[k]).0 < usize::MAX && es@[k].1 < usize::MAX,
            s@ == s0 + concat(ls.take(k as int)),
    {
        let (a, b) = es[k];
        assert(es@[k as int] == (a, b));
        let ghost before = s@;
        proof {
            reveal_strlit("l ");
            reveal_strlit(" ");
            reveal_strlit("\n");
        }
        push_lit(s, "l ");
        push_decimal(s, a + 1);
        push_lit(s, " ");
        push_decimal(s, b + 1);
        push_lit(s, "\n");
        proof {
            assert(s@ =~= before + edge_line(es@[k as int]));
            assert(ls.take(k + 1).drop_last() =~= ls.take(k as int));
            assert(s0 + concat(ls.take(k as int)) + ls[k as int] =~= s0 + concat(ls.take(k + 1)));
        }
    }
    assert(ls.take(es@.len() as int) =~= ls);
}

#[verifier::spinoff_prover]
fn push_face(s: &mut String, base: usize, ids: &Vec<usize>, normals: bool)
    requires
        forall|k: int| 0 <= k < ids@.len() ==> base + #[trigger] ids@[k] + 1 <= usize::MAX,
    ensures
        final(s)@ == old(s)@ + face_line(base as nat, ids@, normals),
{
    let ghost s0 = s@;
    let ghost ts = ids@.map_values(|v: usize| face_token(base as nat, v, normals));
    proof {
        reveal_strlit("f ");
        reveal_strlit(" ");
        reveal_strlit("//1");
        reveal_strlit("\n");
    }
    push_lit(s, "f ");
    for k in 0..ids.len()
        invariant
            ts == ids@.map_values(|v: usize| face_token(base as nat, v, normals)),
            forall|k: int| 0 <= k < ids@.len() ==> base + #[trigger] ids@[k] + 1 <= usize::MAX,
            s@ == s0 + seq!['f', ' '] + join_spaced(ts.take(k as int)),
    {
        let ghost before = s@;
        proof {
            reveal_strlit(" ");
            reveal_strlit("//1");
        }
        if k > 0 {
            push_lit(s, " ");
        }
        let v = ids[k];
        assert(base + v + 1 <= usize::MAX);
        push_decimal(s, base + v + 1);
        if normals {
            push_lit(s, "//1");
        }
        proof {
            let t = ts.take(k + 1);
            assert(t.drop_last() =~= ts.take(k as int));
            assert(t.last() == face_token(base as nat, v, normals));
            if k == 0 {
                assert(join_spaced(t) == t[0]);
                assert(s@ =~= s0 + seq!['f', ' '] + join_spaced(t));
            } else {
                assert(s@ =~= s0 + seq!['f', ' '] + join_spaced(t));
            }
        }
    }
    proof {
        reveal_strlit("\n");
    }
    push_lit(s, "\n");
    assert(ts.take(ids@.len() as int) =~= ts);
    assert(s@ =~= s0 + face_line(base as nat, ids@, normals));
}

fn reversed(v: &Vec<usize>) -> (r: Vec<usize>)
    ensures
        r@ == v@.reverse(),
{
    let mut r: Vec<usize> = Vec::new();
    let mut k = v.len();
    while k > 0
        invariant
            k <= v.len(),
            r@ == v@.subrange(k as int, v@.len() as int).reverse(),
        decreases k,
    {
        k -= 1;
        r.push(v[k]);
        assert(r@ =~= v@.subrange(k as int, v@.len() as int).reverse());
    }
    assert(v@.subrange(0, v@.len() as int) =~= v@);
    r
}

pub proof fn lemma_concat_append(a: Seq<Seq<char>>, b: Seq<Seq<char>>)
    ensures
        concat(a + b) == concat(a) + concat(b),
    decreases b.len(),
{
    if b.len() == 0 {
        assert(a + b =~= a);
        assert(concat(b) =~= seq![]);
    } else {
        assert((a + b).drop_last() =~= a + b.drop_last());
        lemma_concat_append(a, b.drop_last());
    }
}

pub proof fn lemma_edge_lines_append(a: Seq<(usize, usize)>, b: Seq<(usize, usize)>)
    ensures
        edge_lines(a + b) == edge_lines(a) + edge_lines(b),
{
    let f = |e: (usize, usize)| edge_line(e);
    assert((a + b).map_values(f) =~= a.map_values(f) + b.map_values(f));
    lemma_concat_append(a.map_values(f), b.map_values(f));
}

#[verifier::spinoff_prover]
fn push_walls(s: &mut String, base: usize, walls: &Vec<(usize, Option<usize>, Vec<usize>)>, o: &ObjOptions)
    requires
        forall|m: int, t: int|
            0 <= m < walls@.len() && 0 <= t < walls@[m].2@.len() ==> base + #[trigger] walls@[m].2@[t] + 1 <= usize::MAX,
        o.triangulate ==> forall|m: int| 0 <= m < walls@.len() ==> (#[trigger] walls@[m]).2@.len() > 0,
    ensures
        final(s)@ == old(s)@ + walls_text(base as nat, walls@, *o),
{
    let ghost mid = s@;
    for m in 0..walls.len()
        invariant
            forall|m: int, t: int|
                0 <= m < walls@.len() && 0 <= t < walls@[m].2@.len() ==> base + #[trigger] walls@[m].2@[t] + 1 <= usize::MAX,
            o.triangulate ==> forall|m: int| 0 <= m < walls@.len() ==> (#[trigger] walls@[m]).2@.len() > 0,
            s@ == mid + walls_text(base as nat, walls@.take(m as int), *o),
    {
        let w = &walls[m];
        let ghost wb = s@;
        let ids = &w.2;
        assert forall|k: int| 0 <= k < ids@.len() implies base + #[trigger] ids@[k] + 1 <= usize::MAX by {
            assert(walls@[m as int].2@[k] == ids@[k]);
        }
        if w.1.is_none() && !o.include_outer {
        } else if o.triangulate {
            assert(ids@.len() > 0);
            let ghost f0 = s@;
            let mut k: usize = 1;
            while k < ids.len() - 1
                invariant
                    1 <= k <= ids@.len(),
                    ids@.len() > 0,
                    k < ids@.len() || ids@.len() == 1,
                    forall|k: int| 0 <= k < ids@.len() ==> base + #[trigger] ids@[k] + 1 <= usize::MAX,
                    s@ == f0 + fan_lines(base as nat, ids@, o.normals, (k - 1) as nat),
                decreases ids@.len() - k,
            {
                let tri = vec![ids[0], ids[k], ids[k + 1]];
                assert(tri@ =~= seq![ids@[0], ids@[k as int], ids@[k + 1]]);
                push_face(s, base, &tri, o.normals);
                k += 1;
            }
        } else {
            push_face(s, base, ids, o.normals);
            if o.duplicate_walls {
                let rev = reversed(ids);
                assert forall|k: int| 0 <= k < rev@.len() implies base + #[trigger] rev@[k] + 1 <= usize::MAX by {
                    assert(rev@[k] == ids@[ids@.len() - 1 - k]);
                }
                push_face(s, base, &rev, o.normals);
            }
        }
        proof {
            assert(walls@.take(m + 1).drop_last() =~= walls@.take(m as int));
            assert(s@ =~= wb + wall_lines(base as nat, walls@[m as int], *o));
            assert(mid + walls_text(base as nat, walls@.take(m as int), *o) + wall_lines(
                base as nat,
                walls@[m as int],
                *o,
            ) =~= mid + walls_text(base as nat, walls@.take(m + 1), *o));
        }
    }
    assert(walls@.take(walls@.len() as int) =~= walls@);
}

/// Writes a block as an `.obj`: the points and the chosen edges as an object
/// `<NAME>_lattice`, then, if asked for, the dual vertices and the walls as faces of an object
/// `<NAME>_voronoi`.  `point_lines` and `dual_lines` are the `v` lines of the points and of the
/// dual vertices, in order.
#[verifier::spinoff_prover]
#[verifier::rlimit(40)]
pub fn block_to_obj<P>(
    block: &LatticeBlock<P>,
    o: &ObjOptions,
    point_lines: &Vec<String>,
    dual_lines: &Vec<String>,
) -> (s: String)
    requires
        block.points@.len() + block.dual_vertices@.len() < usize::MAX,
        forall|k: int| 0 <= k < block.shell1@.len() ==> (#[trigger] block.shell1@[k]).0 < block.points@.len() && block.shell1@[k].1 < block.points@.len(),
        forall|k: int| 0 <= k < block.shell2@.len() ==> (#[trigger] block.shell2@[k]).0 < block.points@.len() && block.shell2@[k].1 < block.points@.len(),
        forall|m: int, t: int|
            0 <= m < block.walls@.len() && 0 <= t < block.walls@[m].2@.len() ==> #[trigger] block.walls@[m].2@[t] < block.dual_vertices@.len(),
        o.dual && o.triangulate ==> forall|m: int|
            0 <= m < block.walls@.len() ==> (#[trigger] block.walls@[m]).2@.len() > 0,
    ensures
        s@ == obj_text(
            *block,
            *o,
            point_lines@.map_values(|l: String| l@),
            dual_lines@.map_values(|l: String| l@),
        ),
{
    let mut s = String::new();
    let name = block.kind.name();
    proof {
        reveal_strlit("# test lattice\n");
        reveal_strlit("o ");
        reveal_strlit("_lattice\n");
        reveal_strlit("_voronoi\n");
        reveal_strlit("vn 0 0 1\n");
    }
    push_lit(&mut s, "# test lattice\n");
    push_lit(&mut s, "o ");
    push_lit(&mut s, name);
    push_lit(&mut s, "_lattice\n");
    let ghost h = s@;
    assert(h =~= obj_head(lattice_name(block.kind)));
    push_all(&mut s, point_lines);
    let ghost head = s@;
    match o.lines {
        Lines::NoLines => {
            assert(edge_lines(seq![]) =~= seq![]);
        },
        Lines::Shell1 => {
            push_edges(&mut s, &block.shell1);
        },
        Lines::Both => {
            push_edges(&mut s, &block.shell1);
            push_edges(&mut s, &block.shell2);
            proof {
                lemma_edge_lines_append(block.shell1@, block.shell2@);
                assert(s@ =~= head + edge_lines(block.shell1@ + block.shell2@));
            }
        },
    }
    let ghost body = s@;
    assert(body == head + edge_lines(chosen_edges(*block, *o)));
    if o.dual {
        push_lit(&mut s, "o ");
        push_lit(&mut s, name);
        push_lit(&mut s, "_voronoi\n");
        let ghost dh = s@;
        assert(dh =~= body + dual_head(lattice_name(block.kind)));
        push_all(&mut s, dual_lines);
        if o.normals {
            push_lit(&mut s, "vn 0 0 1\n");
        }
        let ghost dn = s@;
        assert(dn =~= dh + concat(dual_lines@.map_values(|l: String| l@)) + normal_line(o.normals));
        assert forall|m: int, t: int|
            0 <= m < block.walls@.len() && 0 <= t < block.walls@[m].2@.len() implies block.points@.len()
            + #[trigger] block.walls@[m].2@[t] + 1 <= usize::MAX by {
            assert(block.walls@[m].2@[t] < block.dual_vertices@.len());
        }
        push_walls(&mut s, block.points.len(), &block.walls, o);
        assert(s@ =~= body + (dual_head(lattice_name(block.kind)) + concat(dual_lines@.map_values(|l: String| l@))
            + normal_line(o.normals) + walls_text(block.points@.len(), block.walls@, *o)));
    } else {
        assert(s@ =~= body + seq![]);
    }
    s
}

} // verus!
