//! Properties that tie the grid builders, the report and the traversals together.
use vstd::prelude::*;

use crate::edges::{adjacency, edge_order, endpoints_below, key, lemma_adjacency, lemma_degree_sum, sum_lengths};
use crate::mesh::{
    candidates_ok, face_index, faces_match, lemma_match_keys, match_faces, match_prefix, report_ok,
    faces_below, shapes, split_row, CandView, DualFace, FaceCandidate, GridReport, MatchView,
};
use crate::traverse::simple;

verus! {

broadcast use vstd::seq_lib::group_to_multiset_ensures;

proof fn lemma_match_counts(cs: Seq<CandView>, same: Seq<bool>, k: nat)
    requires
        k <= cs.len(),
        same.len() == cs.len(),
    ensures
        match_prefix(cs, same, k) matches Ok(m) ==> {
            &&& m.keys.len() + m.dropped + m.duplicate + m.degenerate == k
            &&& m.keys.no_duplicates()
        },
    decreases k,
{
    if k > 0 {
        lemma_match_counts(cs, same, (k - 1) as nat);
    }
}

/// The report of a grid that `assemble` built agrees with the grid: it counts the points; every
/// face of the dual objects once (as matched to an edge, dropped, a duplicate, or degenerate),
/// with one dual face per matched face and no two matched faces on one edge; the edges, half
/// the total length of the adjacency lists; no edge without a face when no face matched, and
/// no face without an `l` edge when there were no `l` lines.  The adjacency lists are a
/// simple graph, each edge in the lists of both its ends.
pub proof fn law_report_consistent<P>(
    n: nat,
    lines: Seq<(usize, usize)>,
    cands: Seq<FaceCandidate<P>>,
    same: Seq<bool>,
    m: MatchView,
    neighbors: Seq<Seq<isize>>,
    faces: Seq<DualFace<P>>,
    rep: GridReport,
)
    requires
        n <= isize::MAX,
        endpoints_below(lines, n),
        candidates_ok(cands, n),
        same.len() == cands.len(),
        match_faces(shapes(cands), same) == Ok::<MatchView, (nat, int, (usize, usize))>(m),
        faces_match(faces, m, cands),
        neighbors == adjacency(n, lines + m.keys),
        report_ok(rep, n, cands.len(), lines, m, neighbors, faces),
    ensures
        rep.points == n,
        rep.faces_total == rep.faces_matched + rep.faces_dropped + rep.faces_duplicate
            + rep.faces_degenerate,
        rep.faces_matched == faces.len(),
        m.keys.no_duplicates(),
        2 * rep.edges == sum_lengths(neighbors),
        rep.faces_matched == 0 ==> rep.edges_without_face == 0,
        rep.edges_from_lines == 0 ==> rep.faces_without_line_edge == 0,
        simple(neighbors),
{
    let cs = shapes(cands);
    lemma_match_counts(cs, same, cs.len());
    assert forall|i: int| 0 <= i < cs.len() implies (#[trigger] cs[i] matches CandView::Bisects(a, b) ==> a < n
        && b < n) by {
        assert(cs[i] == cands[i].shape());
    }
    lemma_match_keys(cs, same, cs.len(), n);
    let all = lines + m.keys;
    assert(endpoints_below(all, n)) by {
        assert forall|i: int| 0 <= i < all.len() implies (#[trigger] all[i]).0 < n && all[i].1 < n by {
            if i >= lines.len() {
                assert(all[i] == m.keys[i - lines.len()]);
            } else {
                assert(all[i] == lines[i]);
            }
        }
    }
    lemma_degree_sum(n, all);
    law_built_grid_is_simple(n, all);
}

/// Adding an edge that is not there yet keeps every list free of repeats.
proof fn lemma_adjacency_no_dups(n: nat, es: Seq<(usize, usize)>)
    requires
        endpoints_below(es, n),
        n <= isize::MAX,
    ensures
        forall|v: int| 0 <= v < n ==> (#[trigger] adjacency(n, es)[v]).no_duplicates(),
    decreases es.len(),
{
    if es.len() > 0 {
        let p = es.drop_last();
        assert(endpoints_below(p, n)) by {
            assert forall|i: int| 0 <= i < p.len() implies #[trigger] p[i].0 < n && p[i].1 < n by {
                assert(p[i] == es[i]);
            }
        }
        lemma_adjacency_no_dups(n, p);
        lemma_adjacency(n, p);
        let (x, y) = es.last();
        assert(es[es.len() - 1] == es.last());
        let prev = adjacency(n, p);
        if x != y && !edge_order(p).contains(key(x, y)) {
            let cur = adjacency(n, es);
            let mid = prev.update(x as int, prev[x as int].push(y as isize));
            assert(cur == mid.update(y as int, mid[y as int].push(x as isize)));
            assert(!prev[x as int].contains(y as isize));
            assert(!prev[y as int].contains(x as isize)) by {
                assert(key(y, x) == key(x, y));
            }
            assert forall|v: int| 0 <= v < n implies (#[trigger] cur[v]).no_duplicates() by {
                if v == x as int {
                    assert(cur[v] == prev[v].push(y as isize));
                    assert forall|i: int, j: int| 0 <= i < j < cur[v].len() implies cur[v][i] != cur[v][j] by {
                        if j == prev[v].len() {
                            assert(prev[v][i] == cur[v][i]);
                        }
                    }
                } else if v == y as int {
                    assert(cur[v] == prev[v].push(x as isize));
                    assert forall|i: int, j: int| 0 <= i < j < cur[v].len() implies cur[v][i] != cur[v][j] by {
                        if j == prev[v].len() {
                            assert(prev[v][i] == cur[v][i]);
                        }
                    }
                } else {
                    assert(cur[v] == prev[v]);
                }
            }
        }
    }
}

/// The adjacency lists that the grid builders make form a simple graph: every entry is a
/// vertex, each edge is in the lists of both its ends, and no list holds its own vertex or an
/// entry twice.  So either traversal can run on such a grid.
pub proof fn law_built_grid_is_simple(n: nat, es: Seq<(usize, usize)>)
    requires
        endpoints_below(es, n),
        n <= isize::MAX,
    ensures
        simple(adjacency(n, es)),
{
    lemma_adjacency(n, es);
    lemma_adjacency_no_dups(n, es);
    let g = adjacency(n, es);
    assert forall|v: int, j: int| 0 <= v < g.len() && 0 <= j < g[v].len() implies g[#[trigger] g[v][j] as int].contains(
        v as isize,
    ) && g[v][j] != v by {
        let w = g[v][j];
        assert(0 <= w < n);
        assert(g[v].contains(w));
        assert(g[v as usize as int].contains(w as usize as isize));
        assert(key(v as usize, w as usize) == key(w as usize, v as usize));
        assert(g[w as usize as int].contains(v as usize as isize));
    }
}

proof fn lemma_split_contains(l: Seq<isize>, v_low: bool, low: Seq<bool>, lower: bool, w: isize)
    ensures
        split_row(l, v_low, low, lower).contains(w) <==> (l.contains(w) && (v_low || low[w as int])
            == lower),
    decreases l.len(),
{
    if l.len() > 0 {
        lemma_split_contains(l.drop_last(), v_low, low, lower, w);
        let s0 = split_row(l.drop_last(), v_low, low, lower);
        if l.contains(w) && w != l.last() {
            let i = choose|i: int| 0 <= i < l.len() && l[i] == w;
            assert(l.drop_last()[i] == w);
        }
        if l.drop_last().contains(w) {
            let i = choose|i: int| 0 <= i < l.drop_last().len() && l.drop_last()[i] == w;
            assert(l[i] == w);
        }
        if w == l.last() {
            assert(l[l.len() - 1] == w);
        }
        let goes_low = v_low || low[l.last() as int];
        if goes_low == lower {
            if s0.push(l.last()).contains(w) && w != l.last() {
                let i = choose|i: int| 0 <= i < s0.push(l.last()).len() && s0.push(l.last())[i] == w;
                assert(s0[i] == w);
            }
            if s0.contains(w) {
                let i = choose|i: int| 0 <= i < s0.len() && s0[i] == w;
                assert(s0.push(l.last())[i] == w);
            }
            if w == l.last() {
                assert(s0.push(l.last())[s0.len() as int] == w);
            }
        }
    }
}

proof fn lemma_split_no_dups(l: Seq<isize>, v_low: bool, low: Seq<bool>, lower: bool)
    requires
        l.no_duplicates(),
    ensures
        split_row(l, v_low, low, lower).no_duplicates(),
    decreases l.len(),
{
    if l.len() > 0 {
        let p = l.drop_last();
        assert(p.no_duplicates()) by {
            assert forall|i: int, j: int| 0 <= i < p.len() && 0 <= j < p.len() && i != j implies p[i] != p[j] by {
                assert(p[i] == l[i] && p[j] == l[j]);
            }
        }
        lemma_split_no_dups(p, v_low, low, lower);
        lemma_split_contains(p, v_low, low, lower, l.last());
        if p.contains(l.last()) {
            let i = choose|i: int| 0 <= i < p.len() && p[i] == l.last();
            assert(l[i] == l[l.len() - 1]);
        }
        let s0 = split_row(p, v_low, low, lower);
        let s = split_row(l, v_low, low, lower);
        if s != s0 {
            assert(s == s0.push(l.last()));
            assert forall|i: int, j: int| 0 <= i < s.len() && 0 <= j < s.len() && i != j implies s[i] != s[j] by {
                if i == s0.len() {
                    assert(s[j] == s0[j]);
                    assert(s0.contains(s0[j]));
                } else if j == s0.len() {
                    assert(s[i] == s0[i]);
                    assert(s0.contains(s0[i]));
                } else {
                    assert(s[i] == s0[i] && s[j] == s0[j]);
                }
            }
        }
    }
}

proof fn lemma_split_multiset(l: Seq<isize>, v_low: bool, low: Seq<bool>)
    ensures
        l.to_multiset() =~= split_row(l, v_low, low, true).to_multiset().add(
            split_row(l, v_low, low, false).to_multiset(),
        ),
    decreases l.len(),
{
    if l.len() > 0 {
        lemma_split_multiset(l.drop_last(), v_low, low);
        assert(l =~= l.drop_last().push(l.last()));
    }
}

/// One half of a split graph.
pub open spec fn half_graph(g: Seq<Seq<isize>>, low: Seq<bool>, lower: bool) -> Seq<Seq<isize>> {
    Seq::new(g.len(), |v: int| split_row(g[v], low[v], low, lower))
}

/// Splitting a grid in half hands each entry of each list to exactly one half, and the
/// halves of a simple graph are simple graphs: an edge goes to the same half from both ends.
pub proof fn law_split_partitions(g: Seq<Seq<isize>>, low: Seq<bool>)
    requires
        low.len() >= g.len(),
        g.len() <= isize::MAX,
    ensures
        forall|v: int|
            0 <= v < g.len() ==> (#[trigger] g[v]).to_multiset() == half_graph(g, low, true)[v].to_multiset().add(
                half_graph(g, low, false)[v].to_multiset(),
            ),
        simple(g) ==> simple(half_graph(g, low, true)) && simple(half_graph(g, low, false)),
{
    assert forall|v: int| 0 <= v < g.len() implies (#[trigger] g[v]).to_multiset() == half_graph(g, low, true)[v].to_multiset().add(
        half_graph(g, low, false)[v].to_multiset(),
    ) by {
        lemma_split_multiset(g[v], low[v], low);
    }
    if simple(g) {
        lemma_half_simple(g, low, true);
        lemma_half_simple(g, low, false);
    }
}

proof fn lemma_half_simple(g: Seq<Seq<isize>>, low: Seq<bool>, lower: bool)
    requires
        low.len() >= g.len(),
        g.len() <= isize::MAX,
        simple(g),
    ensures
        simple(half_graph(g, low, lower)),
{
    let h = half_graph(g, low, lower);
    assert forall|v: int, j: int| 0 <= v < h.len() && 0 <= j < h[v].len() implies 0 <= #[trigger] h[v][j] < h.len() by {
        lemma_split_contains(g[v], low[v], low, lower, h[v][j]);
        assert(h[v].contains(h[v][j]));
        let i = choose|i: int| 0 <= i < g[v].len() && g[v][i] == h[v][j];
        assert(0 <= g[v][i] < g.len());
    }
    assert forall|v: int, j: int| 0 <= v < h.len() && 0 <= j < h[v].len() implies h[#[trigger] h[v][j] as int].contains(
        v as isize,
    ) && h[v][j] != v by {
        let w = h[v][j];
        lemma_split_contains(g[v], low[v], low, lower, w);
        assert(h[v].contains(w));
        let i = choose|i: int| 0 <= i < g[v].len() && g[v][i] == w;
        assert(0 <= w < g.len());
        assert(g[w as int].contains(v as isize));
        assert(w != v);
        lemma_split_contains(g[w as int], low[w as int], low, lower, v as isize);
        assert(v as isize as int == v);
        assert(h[w as int] == split_row(g[w as int], low[w as int], low, lower));
    }
    assert forall|v: int| 0 <= v < h.len() implies (#[trigger] h[v]).no_duplicates() by {
        assert(g[v].no_duplicates());
        lemma_split_no_dups(g[v], low[v], low, lower);
    }
}

/// The edge `{x, y}` with its lower end first.
pub open spec fn edge_of(x: int, y: int) -> (int, int) {
    if x <= y {
        (x, y)
    } else {
        (y, x)
    }
}

/// Where no two dual faces share an edge, looking up the face of the edge of face `i`
/// finds face `i`, from either end of the edge.
pub proof fn law_dual_face_found<P>(faces: Seq<DualFace<P>>, i: int)
    requires
        0 <= i < faces.len(),
        forall|j: int, k: int|
            0 <= j < k < faces.len() ==> edge_of(#[trigger] faces[j].a as int, faces[j].b as int) != edge_of(
                #[trigger] faces[k].a as int,
                faces[k].b as int,
            ),
    ensures
        face_index(faces, edge_of(faces[i].a as int, faces[i].b as int)) == i,
        face_index(faces, edge_of(faces[i].b as int, faces[i].a as int)) == i,
    decreases faces.len(),
{
    let e = edge_of(faces[i].a as int, faces[i].b as int);
    assert(edge_of(faces[i].b as int, faces[i].a as int) == e);
    let n = faces.len() - 1;
    let l = faces.last();
    assert(l == faces[n]);
    if i < n {
        assert(edge_of(l.a as int, l.b as int) != e);
        let d = faces.drop_last();
        assert forall|j: int, k: int| 0 <= j < k < d.len() implies edge_of(#[trigger] d[j].a as int, d[j].b as int)
            != edge_of(#[trigger] d[k].a as int, d[k].b as int) by {
            assert(d[j] == faces[j] && d[k] == faces[k]);
        }
        assert(d[i] == faces[i]);
        law_dual_face_found(d, i);
    }
}

/// The dual faces `assemble` keeps join grid points: each is the key of a matched face.
#[verifier::spinoff_prover]
pub proof fn law_assembled_faces_join_points<P>(
    n: nat,
    cands: Seq<FaceCandidate<P>>,
    same: Seq<bool>,
    m: MatchView,
    faces: Seq<DualFace<P>>,
)
    requires
        n <= isize::MAX,
        candidates_ok(cands, n),
        same.len() == cands.len(),
        match_faces(shapes(cands), same) == Ok::<MatchView, (nat, int, (usize, usize))>(m),
        faces_match(faces, m, cands),
    ensures
        faces_below(faces, n),
        endpoints_below(m.keys, n),
{
    let cs = shapes(cands);
    assert forall|i: int| 0 <= i < cs.len() implies (#[trigger] cs[i] matches CandView::Bisects(a, b) ==> a < n
        && b < n) by {
        assert(cs[i] == cands[i].shape());
    }
    lemma_match_keys(cs, same, cs.len(), n);
    assert(match_prefix(cs, same, cs.len()) == Ok::<MatchView, (nat, int, (usize, usize))>(m));
    assert forall|i: int| 0 <= i < m.keys.len() implies (#[trigger] m.keys[i]).0 < n && m.keys[i].1 < n by {
        let mm = match_prefix(cs, same, cs.len())->Ok_0;
        assert(mm == m);
        assert(mm.keys[i].0 <= mm.keys[i].1 && mm.keys[i].1 < n);
    }
    assert forall|i: int| 0 <= i < faces.len() implies 0 <= #[trigger] faces[i].a < n && 0 <= faces[i].b < n by {
        assert(faces[i].a == m.keys[i].0 as isize);
        let mm = match_prefix(cs, same, cs.len())->Ok_0;
        assert(mm == m);
        assert(mm.keys[i].0 <= mm.keys[i].1 && mm.keys[i].1 < n);
    }
}

} // verus!
