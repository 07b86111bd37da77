//! A grid given as points and edges (a mesh grid), with optional dual faces, and
//! how such a grid is assembled from the objects of an `.obj` file.
//!
//! The grid is generic in its point type `P`: everything here is about which
//! point is joined to which, what face belongs to which edge, and what is
//! counted; the coordinates themselves are only carried along.
use vstd::prelude::*;

use crate::edges::{
    adjacency, count_not_in, edge_order, endpoints_below, histogram, is_histogram, key, key_exec,
    lengths, lists, EdgeSet,
};
use crate::obj::{ObjError, ObjFile, ObjFileView, ObjObjectView, seq_views};

verus! {

// ------------------------------------------------------------------------------------------
// Types
// ------------------------------------------------------------------------------------------

/// A face of the dual grid: the Voronoi facet that separates grid vertices `a` and `b`, i.e.
/// the dual of the grid edge `(a, b)`.
pub struct DualFace<P> {
    /// Grid vertex id on one side.  Always `a < b`.
    pub a: isize,
    /// Grid vertex id on the other side.
    pub b: isize,
    /// Polygon vertices in cyclic order.
    pub vertices: Vec<P>,
}

/// What reading a grid found.
#[derive(Clone, Debug, PartialEq)]
pub struct GridReport {
    /// Grid points.
    pub points: usize,
    /// Undirected grid edges, after merging the `l` lines with the matched dual faces.
    pub edges: usize,
    /// Undirected edges that came from `l` lines.
    pub edges_from_lines: usize,
    /// Faces found in dual objects.
    pub faces_total: usize,
    /// Faces linked to a grid edge.
    pub faces_matched: usize,
    /// Faces whose vertices are not equidistant from their two nearest grid points.
    pub faces_dropped: usize,
    /// Faces that repeat an already matched face.
    pub faces_duplicate: usize,
    /// Faces with fewer than three distinct vertices.
    pub faces_degenerate: usize,
    /// Edges without a dual face.  Zero when no dual was supplied at all.
    pub edges_without_face: usize,
    /// Matched faces whose edge was not among the `l` lines.  Zero when there were no `l` lines.
    pub faces_without_line_edge: usize,
    /// `(number of vertices, count)` over the matched faces.
    pub face_vertex_histogram: Vec<(usize, usize)>,
    /// `(degree, count)` over the grid points.
    pub degree_histogram: Vec<(usize, usize)>,
}

impl GridReport {
    /// True if a dual was supplied.
    pub fn has_dual(&self) -> (r: bool)
        ensures
            r == (self.faces_total > 0),
    {
        self.faces_total > 0
    }

    /// All counts zero, no histograms.
    pub open spec fn is_zero(&self) -> bool {
        &&& self.points == 0
        &&& self.edges == 0
        &&& self.edges_from_lines == 0
        &&& self.faces_total == 0
        &&& self.faces_matched == 0
        &&& self.faces_dropped == 0
        &&& self.faces_duplicate == 0
        &&& self.faces_degenerate == 0
        &&& self.edges_without_face == 0
        &&& self.faces_without_line_edge == 0
        &&& self.face_vertex_histogram@.len() == 0
        &&& self.degree_histogram@.len() == 0
    }
}

impl Default for GridReport {
    fn default() -> (r: GridReport)
        ensures
            r.is_zero(),
    {
        GridReport {
            points: 0,
            edges: 0,
            edges_from_lines: 0,
            faces_total: 0,
            faces_matched: 0,
            faces_dropped: 0,
            faces_duplicate: 0,
            faces_degenerate: 0,
            edges_without_face: 0,
            faces_without_line_edge: 0,
            face_vertex_histogram: Vec::new(),
            degree_histogram: Vec::new(),
        }
    }
}

/// Why a grid could not be built.
pub enum GridError {
    /// The `.obj` text is malformed.
    Obj(ObjError),
    /// An `l` line of this object refers to a vertex of a dual object.
    LineIntoDual { object: String },
    /// Dual faces were given, but fewer than two grid points.
    DualNeedsTwoPoints,
    /// Faces `face` and `other` (an index into the matched faces) both bisect the grid edge
    /// `(a, b)` but differ: the dual is probably triangulated.
    FacesDiffer { face: usize, other: usize, a: usize, b: usize },
    /// A separate dual file without faces.
    NoDualFaces,
}

/// A grid of points joined by edges, with the dual faces that came with it.
pub struct VineyardsGridMesh<P> {
    pub points: Vec<P>,
    /// Map from vertex index to the list of its neighbors.
    pub neighbors: Vec<Vec<isize>>,
    /// Should always be `"meshgrid"`.
    pub grid_type: String,
    /// Dual faces supplied with the grid, at most one per edge.  Empty for grids whose dual
    /// faces are the axis-aligned squares of the lattice.
    pub dual_faces: Vec<DualFace<P>>,
}

/// The string `"meshgrid"`.
pub fn meshgrid_name() -> (s: String)
    ensures
        s@ == seq!['m', 'e', 's', 'h', 'g', 'r', 'i', 'd'],
{
    let s = String::from_str("meshgrid");
    proof {
        reveal_strlit("meshgrid");
    }
    s
}

// ------------------------------------------------------------------------------------------
// Collecting the grid from the objects of a file
// ------------------------------------------------------------------------------------------

/// The grid part of a file: the vertex ids of the grid points (in order), the grid
/// edges between them (as point indices), and the faces of the dual objects (as vertex ids).
pub struct GridParts {
    pub points: Vec<usize>,
    pub line_edges: Vec<(usize, usize)>,
    pub faces: Vec<Vec<usize>>,
}

pub struct PartsView {
    /// For each vertex of the file, its point index if it is a grid point.
    pub point_of: Seq<Option<usize>>,
    pub points: Seq<usize>,
    pub line_edges: Seq<(usize, usize)>,
    pub faces: Seq<Seq<usize>>,
}

/// `pov` with each vertex `vs[i]` mapped to point `base + i`.
pub open spec fn assign_points(pov: Seq<Option<usize>>, vs: Seq<usize>, base: nat) -> Seq<
    Option<usize>,
>
    decreases vs.len(),
{
    if vs.len() == 0 {
        pov
    } else {
        assign_points(pov, vs.drop_last(), base).update(
            vs.last() as int,
            Some((base + vs.len() - 1) as usize),
        )
    }
}

/// The lines with both ends mapped to points, or `None` if an end is not a point.
pub open spec fn map_lines(pov: Seq<Option<usize>>, ls: Seq<(usize, usize)>) -> Option<
    Seq<(usize, usize)>,
>
    decreases ls.len(),
{
    if ls.len() == 0 {
        Some(seq![])
    } else {
        match map_lines(pov, ls.drop_last()) {
            None => None,
            Some(m) => match (pov[ls.last().0 as int], pov[ls.last().1 as int]) {
                (Some(a), Some(b)) => Some(m.push((a, b))),
                _ => None,
            },
        }
    }
}

/// After the first `k` objects: dual objects (faces, no lines) give their faces;
/// every other object gives its vertices as grid points and its lines as grid
/// edges.  The error is the name of the first object with a line into a dual
/// object.
pub open spec fn collect_prefix(f: ObjFileView, k: nat) -> Result<PartsView, Seq<char>>
    decreases k,
{
    if k == 0 {
        Ok(
            PartsView {
                point_of: Seq::new(f.vertices.len(), |i: int| None::<usize>),
                points: seq![],
                line_edges: seq![],
                faces: seq![],
            },
        )
    } else {
        match collect_prefix(f, (k - 1) as nat) {
            Err(e) => Err(e),
            Ok(st) => {
                let o = f.objects[k - 1];
                if o.is_dual() {
                    Ok(PartsView { faces: st.faces + o.faces, ..st })
                } else {
                    let pov = assign_points(st.point_of, o.vertices, st.points.len());
                    match map_lines(pov, o.lines) {
                        None => Err(o.name),
                        Some(m) => Ok(
                            PartsView {
                                point_of: pov,
                                points: st.points + o.vertices,
                                line_edges: st.line_edges + m,
                                faces: st.faces,
                            },
                        ),
                    }
                }
            },
        }
    }
}

pub open spec fn collect_spec(f: ObjFileView) -> Result<PartsView, Seq<char>> {
    collect_prefix(f, f.objects.len())
}

impl GridParts {
    pub open spec fn matches(&self, v: PartsView) -> bool {
        &&& self.points@ == v.points
        &&& self.line_edges@ == v.line_edges
        &&& seq_views(self.faces@) == v.faces
    }
}

proof fn lemma_map_lines(pov: Seq<Option<usize>>, ls: Seq<(usize, usize)>, n: nat)
    requires
        forall|i: int| 0 <= i < ls.len() ==> #[trigger] ls[i].0 < pov.len() && ls[i].1 < pov.len(),
        forall|v: int| 0 <= v < pov.len() ==> (#[trigger] pov[v] matches Some(p) ==> p < n),
    ensures
        map_lines(pov, ls) matches Some(m) ==> endpoints_below(m, n),
    decreases ls.len(),
{
    if ls.len() > 0 {
        let d = ls.drop_last();
        assert forall|i: int| 0 <= i < d.len() implies #[trigger] d[i].0 < pov.len() && d[i].1
            < pov.len() by {
            assert(d[i] == ls[i]);
        }
        lemma_map_lines(pov, d, n);
        assert(ls[ls.len() - 1] == ls.last());
        if let Some(m) = map_lines(pov, ls) {
            let m0 = map_lines(pov, d)->Some_0;
            let l = ls.last();
            assert(pov[l.0 as int] matches Some(p) ==> p < n);
            assert(pov[l.1 as int] matches Some(p) ==> p < n);
            assert forall|i: int| 0 <= i < m.len() implies #[trigger] m[i].0 < n && m[i].1 < n by {
                if i < m0.len() {
                    assert(m[i] == m0[i]);
                }
            }
        }
    }
}

/// The point index of each vertex after the vertices `vs` became points
/// `points.len()..`.
fn assign_points_exec(point_of: &mut Vec<Option<usize>>, points: &mut Vec<usize>, vs: &Vec<usize>)
    requires
        forall|i: int| 0 <= i < vs.len() ==> #[trigger] vs@[i] < old(point_of).len(),
        forall|v: int|
            0 <= v < old(point_of).len() ==> (#[trigger] old(point_of)@[v] matches Some(p) ==> p
                < old(points).len()),
    ensures
        final(point_of)@ == assign_points(old(point_of)@, vs@, old(points)@.len()),
        final(points)@ == old(points)@ + vs@,
        final(point_of).len() == old(point_of).len(),
        forall|v: int|
            0 <= v < final(point_of).len() ==> (#[trigger] final(point_of)@[v] matches Some(p) ==> p
                < final(points).len()),
{
    let ghost pov0 = point_of@;
    let ghost pts0 = points@;
    let base = points.len();
    for j in 0..vs.len()
        invariant
            base == pts0.len(),
            point_of.len() == pov0.len(),
            forall|i: int| 0 <= i < vs.len() ==> #[trigger] vs@[i] < pov0.len(),
            point_of@ == assign_points(pov0, vs@.take(j as int), base as nat),
            points@ == pts0 + vs@.take(j as int),
            forall|v: int|
                0 <= v < point_of.len() ==> (#[trigger] point_of@[v] matches Some(p) ==> p
                    < points.len()),
    {
        let v = vs[j];
        let idx = points.len();
        point_of.set(v, Some(idx));
        points.push(v);
        assert(vs@.take(j + 1).drop_last() =~= vs@.take(j as int));
        assert(points@ =~= pts0 + vs@.take(j + 1));
    }
    assert(vs@.take(vs.len() as int) =~= vs@);
}

/// The lines with both ends mapped to points, as `map_lines` says.
fn map_lines_exec(point_of: &Vec<Option<usize>>, ls: &Vec<(usize, usize)>) -> (r: Option<
    Vec<(usize, usize)>,
>)
    requires
        forall|i: int| 0 <= i < ls.len() ==> #[trigger] ls@[i].0 < point_of.len() && ls@[i].1
            < point_of.len(),
    ensures
        match r {
            Some(m) => map_lines(point_of@, ls@) == Some(m@),
            None => map_lines(point_of@, ls@) is None,
        },
{
    let mut out: Vec<(usize, usize)> = Vec::new();
    for j in 0..ls.len()
        invariant
            forall|i: int| 0 <= i < ls.len() ==> #[trigger] ls@[i].0 < point_of.len() && ls@[i].1
                < point_of.len(),
            map_lines(point_of@, ls@.take(j as int)) == Some(out@),
    {
        let (li, lj) = ls[j];
        assert(ls@.take(j + 1).drop_last() =~= ls@.take(j as int));
        assert(ls@.take(j + 1).last() == (li, lj));
        match (point_of[li], point_of[lj]) {
            (Some(a), Some(b)) => {
                out.push((a, b));
            },
            _ => {
                proof {
                    lemma_map_lines_none_extends(point_of@, ls@, (j + 1) as nat);
                }
                return None;
            },
        }
    }
    assert(ls@.take(ls.len() as int) =~= ls@);
    Some(out)
}

/// Reads the grid part of a parsed file.
pub fn collect_grid(obj: &ObjFile) -> (r: Result<GridParts, GridError>)
    requires
        obj@.wf(),
    ensures
        match r {
            Ok(parts) => {
                &&& collect_spec(obj@) matches Ok(v)
                &&& parts.matches(v)
                &&& endpoints_below(parts.line_edges@, parts.points@.len())
                &&& forall|i: int|
                    0 <= i < parts.points@.len() ==> #[trigger] parts.points@[i] < obj@.vertices.len()
            },
            Err(GridError::LineIntoDual { object }) => collect_spec(obj@) == Err::<
                PartsView,
                Seq<char>,
            >(object@),
            Err(_) => false,
        },
{
    let nverts = obj.vertices.len();
    let mut point_of: Vec<Option<usize>> = Vec::new();
    for i in 0..nverts
        invariant
            point_of.len() == i,
            forall|j: int| 0 <= j < i ==> point_of@[j] is None,
    {
        point_of.push(None);
    }
    let mut points: Vec<usize> = Vec::new();
    let mut line_edges: Vec<(usize, usize)> = Vec::new();
    let mut faces: Vec<Vec<usize>> = Vec::new();
    proof {
        assert(point_of@ =~= Seq::new(obj@.vertices.len(), |i: int| None::<usize>));
        assert(seq_views(faces@) =~= Seq::<Seq<usize>>::empty());
    }
    let ghost f = obj@;
    let mut k: usize = 0;
    while k < obj.objects.len()
        invariant
            f == obj@,
            f.wf(),
            k <= obj.objects.len(),
            nverts == f.vertices.len(),
            collect_prefix(f, k as nat) matches Ok(st) && st.points == points@ && st.line_edges
                == line_edges@ && st.faces == seq_views(faces@) && point_of@ == st.point_of,
            point_of.len() == nverts,
            forall|v: int|
                0 <= v < point_of.len() ==> (#[trigger] point_of@[v] matches Some(p) ==> p
                    < points.len()),
            endpoints_below(line_edges@, points@.len()),
            forall|i: int| 0 <= i < points@.len() ==> #[trigger] points@[i] < nverts,
        decreases obj.objects.len() - k,
    {
        let o = &obj.objects[k];
        let ghost ov: ObjObjectView = o@;
        assert(ov == f.objects[k as int]);
        assert(ov.ids_below(nverts as nat));
        let ghost st = collect_prefix(f, k as nat)->Ok_0;
        if o.faces.len() != 0 && o.lines.len() == 0 {
            for j in 0..o.faces.len()
                invariant
                    seq_views(faces@) == st.faces + seq_views(o.faces@).take(j as int),
            {
                let face = o.faces[j].clone();
                assert(face@ =~= o.faces@[j as int]@);
                let ghost before = faces@;
                faces.push(face);
                assert(seq_views(faces@) =~= seq_views(before).push(face@));
                assert(seq_views(o.faces@).take(j + 1) =~= seq_views(o.faces@).take(j as int).push(
                    face@,
                ));
            }
            assert(seq_views(o.faces@).take(o.faces.len() as int) =~= seq_views(o.faces@));
            assert(ov.is_dual());
        } else {
            assert(!ov.is_dual());
            let ghost base = points@.len();
            assign_points_exec(&mut point_of, &mut points, &o.vertices);
            assert forall|i: int| 0 <= i < points@.len() implies #[trigger] points@[i] < nverts by {
                if i >= base {
                    assert(points@[i] == ov.vertices[i - base]);
                }
            }
            assert(forall|i: int| 0 <= i < o.lines.len() ==> #[trigger] o.lines@[i].0 < point_of.len()
                && o.lines@[i].1 < point_of.len()) by {
                assert forall|i: int| 0 <= i < o.lines.len() implies #[trigger] o.lines@[i].0 < point_of.len()
                    && o.lines@[i].1 < point_of.len() by {
                    assert(ov.lines[i] == o.lines@[i]);
                }
            }
            match map_lines_exec(&point_of, &o.lines) {
                None => {
                    proof {
                        assert(collect_prefix(f, (k + 1) as nat) == Err::<PartsView, Seq<char>>(
                            ov.name,
                        ));
                        lemma_collect_err_extends(f, (k + 1) as nat);
                    }
                    return Err(GridError::LineIntoDual { object: o.name.clone() });
                },
                Some(m) => {
                    proof {
                        lemma_map_lines(point_of@, ov.lines, points@.len());
                    }
                    let ghost before = line_edges@;
                    let mut m = m;
                    line_edges.append(&mut m);
                    assert(endpoints_below(line_edges@, points@.len())) by {
                        assert forall|i: int| 0 <= i < line_edges@.len() implies #[trigger] line_edges@[i].0
                            < points@.len() && line_edges@[i].1 < points@.len() by {
                            if i < before.len() {
                                assert(before[i].0 < base && before[i].1 < base);
                            }
                        }
                    }
                },
            }
        }
        k += 1;
    }
    Ok(GridParts { points, line_edges, faces })
}

proof fn lemma_map_lines_none_extends(pov: Seq<Option<usize>>, ls: Seq<(usize, usize)>, k: nat)
    requires
        k <= ls.len(),
        map_lines(pov, ls.take(k as int)) is None,
    ensures
        map_lines(pov, ls) is None,
    decreases ls.len() - k,
{
    if k < ls.len() {
        assert(ls.take(k as int + 1).drop_last() =~= ls.take(k as int));
        lemma_map_lines_none_extends(pov, ls, k + 1);
    } else {
        assert(ls.take(k as int) =~= ls);
    }
}

proof fn lemma_collect_err_extends(f: ObjFileView, k: nat)
    requires
        k <= f.objects.len(),
        collect_prefix(f, k) is Err,
    ensures
        collect_prefix(f, f.objects.len()) == collect_prefix(f, k),
    decreases f.objects.len() - k,
{
    if k < f.objects.len() {
        lemma_collect_err_extends(f, k + 1);
    }
}

// ------------------------------------------------------------------------------------------
// Matching dual faces to grid edges
// ------------------------------------------------------------------------------------------

/// What the geometry says of one dual face: too few distinct vertices, not
/// equidistant from its two nearest grid points, or the bisector of the grid edge
/// between points `a` and `b` (with its cleaned-up vertices).
pub enum FaceCandidate<P> {
    Degenerate,
    NotEquidistant,
    Bisects { a: usize, b: usize, vertices: Vec<P> },
}

pub enum CandView {
    Degenerate,
    NotEquidistant,
    Bisects(usize, usize),
}

impl<P> FaceCandidate<P> {
    pub open spec fn shape(&self) -> CandView {
        match self {
            FaceCandidate::Degenerate => CandView::Degenerate,
            FaceCandidate::NotEquidistant => CandView::NotEquidistant,
            FaceCandidate::Bisects { a, b, .. } => CandView::Bisects(*a, *b),
        }
    }
}

pub open spec fn shapes<P>(cs: Seq<FaceCandidate<P>>) -> Seq<CandView> {
    cs.map_values(|c: FaceCandidate<P>| c.shape())
}

/// The outcome of matching the first faces: which candidates were kept (with
/// their edge keys, in order) and how many were degenerate, dropped or repeated.
pub struct MatchView {
    pub kept: Seq<int>,
    pub keys: Seq<(usize, usize)>,
    pub degenerate: nat,
    pub dropped: nat,
    pub duplicate: nat,
}

/// Position of the last occurrence of `k` in `keys`, or -1.
pub open spec fn key_index(keys: Seq<(usize, usize)>, k: (usize, usize)) -> int
    decreases keys.len(),
{
    if keys.len() == 0 {
        -1
    } else if keys.last() == k {
        keys.len() - 1
    } else {
        key_index(keys.drop_last(), k)
    }
}

/// One face: a bisector of an edge not seen before is kept; one of an edge seen
/// before is a duplicate if `same` (its vertices match the kept face's), and an
/// error otherwise: `(face, index of the kept face, edge key)`.
pub open spec fn match_step(m: MatchView, i: nat, c: CandView, same: bool) -> Result<
    MatchView,
    (nat, int, (usize, usize)),
> {
    match c {
        CandView::Degenerate => Ok(MatchView { degenerate: m.degenerate + 1, ..m }),
        CandView::NotEquidistant => Ok(MatchView { dropped: m.dropped + 1, ..m }),
        CandView::Bisects(a, b) => {
            let k = key(a, b);
            if m.keys.contains(k) {
                if same {
                    Ok(MatchView { duplicate: m.duplicate + 1, ..m })
                } else {
                    Err((i, key_index(m.keys, k), k))
                }
            } else {
                Ok(MatchView { kept: m.kept.push(i as int), keys: m.keys.push(k), ..m })
            }
        },
    }
}

pub open spec fn match_prefix(cs: Seq<CandView>, same: Seq<bool>, k: nat) -> Result<
    MatchView,
    (nat, int, (usize, usize)),
>
    decreases k,
{
    if k == 0 {
        Ok(MatchView { kept: seq![], keys: seq![], degenerate: 0, dropped: 0, duplicate: 0 })
    } else {
        match match_prefix(cs, same, (k - 1) as nat) {
            Err(e) => Err(e),
            Ok(m) => match_step(m, (k - 1) as nat, cs[k - 1], same[k - 1]),
        }
    }
}

pub open spec fn match_faces(cs: Seq<CandView>, same: Seq<bool>) -> Result<
    MatchView,
    (nat, int, (usize, usize)),
> {
    match_prefix(cs, same, cs.len())
}

/// What the candidates may hold: indices of grid points.
pub open spec fn candidates_ok<P>(cs: Seq<FaceCandidate<P>>, n_points: nat) -> bool {
    forall|i: int|
        0 <= i < cs.len() ==> (#[trigger] cs[i].shape() matches CandView::Bisects(a, b) ==> a
            < n_points && b < n_points)
}

/// The faces kept by the matching, with their edges and vertices.
pub open spec fn faces_match<P>(faces: Seq<DualFace<P>>, m: MatchView, cs: Seq<FaceCandidate<P>>) -> bool {
    &&& faces.len() == m.keys.len()
    &&& forall|i: int|
        0 <= i < faces.len() ==> {
            &&& #[trigger] faces[i].a == m.keys[i].0 as isize
            &&& faces[i].b == m.keys[i].1 as isize
            &&& cs[m.kept[i]] matches FaceCandidate::Bisects { vertices, .. } && faces[i].vertices@
                == vertices@
        }
}

/// Looks a key up in per-vertex lists of `(other end, index)`.
#[verifier::loop_isolation(false)]
fn find_key(face_at: &Vec<Vec<(usize, usize)>>, k: (usize, usize), Ghost(keys): Ghost<
    Seq<(usize, usize)>,
>) -> (r: Option<usize>)
    requires
        k.0 < face_at.len(),
        forall|a: int, j: int|
            0 <= a < face_at.len() && 0 <= j < face_at@[a].len() ==> (#[trigger] face_at@[a]@[j]).1
                < keys.len() && keys[face_at@[a]@[j].1 as int] == (a as usize, face_at@[a]@[j].0),
        forall|i: int| 0 <= i < keys.len() ==> #[trigger] keys[i].0 < face_at.len(),
        forall|i: int|
            0 <= i < keys.len() ==> face_at@[keys[i].0 as int]@.contains((#[trigger] keys[i].1, i as usize)),
        keys.no_duplicates(),
    ensures
        match r {
            Some(i) => keys.contains(k) && i == key_index(keys, k) && i < keys.len(),
            None => !keys.contains(k),
        },
{
    let l = &face_at[k.0];
    for j in 0..l.len()
        invariant
            l@ == face_at@[k.0 as int]@,
            forall|m: int| 0 <= m < j ==> (#[trigger] l@[m]).0 != k.1,
    {
        if l[j].0 == k.1 {
            let i = l[j].1;
            proof {
                assert(keys[i as int] == k);
                lemma_key_index_unique(keys, i as int);
            }
            return Some(i);
        }
    }
    proof {
        if keys.contains(k) {
            let i = choose|i: int| 0 <= i < keys.len() && keys[i] == k;
            assert(face_at@[keys[i].0 as int]@.contains((keys[i].1, i as usize)));
            let m = choose|m: int| 0 <= m < l@.len() && l@[m] == (keys[i].1, i as usize);
            assert(l@[m].0 == k.1);
        }
    }
    None
}

proof fn lemma_match_err_extends(cs: Seq<CandView>, same: Seq<bool>, k: nat)
    requires
        k <= cs.len(),
        match_prefix(cs, same, k) is Err,
    ensures
        match_prefix(cs, same, cs.len()) == match_prefix(cs, same, k),
    decreases cs.len() - k,
{
    if k < cs.len() {
        lemma_match_err_extends(cs, same, k + 1);
    }
}

proof fn lemma_key_index_unique(keys: Seq<(usize, usize)>, i: int)
    requires
        keys.no_duplicates(),
        0 <= i < keys.len(),
    ensures
        key_index(keys, keys[i]) == i,
    decreases keys.len(),
{
    if i < keys.len() - 1 {
        assert(keys.drop_last()[i] == keys[i]);
        lemma_key_index_unique(keys.drop_last(), i);
    }
}

/// Counts of the matching.
pub struct MatchCounts {
    pub degenerate: usize,
    pub dropped: usize,
    pub duplicate: usize,
}

/// The first of the first `n` candidates that bisects the edge with key `k`.
pub open spec fn first_with_key(cs: Seq<CandView>, k: (usize, usize), n: int) -> Option<usize>
    decreases n,
{
    if n <= 0 {
        None
    } else {
        match first_with_key(cs, k, n - 1) {
            Some(j) => Some(j),
            None => if cs[n - 1] matches CandView::Bisects(a, b) && key(a, b) == k {
                Some((n - 1) as usize)
            } else {
                None
            },
        }
    }
}

/// For a candidate that bisects an edge, the first candidate before it that bisects the same
/// edge: the face it is compared with when matching.
pub open spec fn earlier_bisector(cs: Seq<CandView>, i: int) -> Option<usize> {
    match cs[i] {
        CandView::Bisects(a, b) => first_with_key(cs, key(a, b), i),
        _ => None,
    }
}

/// For each candidate, the first earlier candidate that bisects the same edge, if it
/// bisects one: the face whose vertices decide whether it is a duplicate.
#[verifier::loop_isolation(false)]
#[verifier::spinoff_prover]
pub fn earlier_bisectors<P>(cands: &Vec<FaceCandidate<P>>, n_points: usize) -> (r: Vec<Option<usize>>)
    requires
        candidates_ok(cands@, n_points as nat),
    ensures
        r.len() == cands.len(),
        forall|i: int| 0 <= i < cands.len() ==> #[trigger] r@[i] == earlier_bisector(shapes(cands@), i),
{
    let ghost sh = shapes(cands@);
    let mut face_at: Vec<Vec<(usize, usize)>> = Vec::new();
    for i in 0..n_points
        invariant
            face_at.len() == i,
            forall|a: int| 0 <= a < i ==> (#[trigger] face_at@[a])@.len() == 0,
    {
        face_at.push(Vec::new());
    }
    let mut keys: Vec<(usize, usize)> = Vec::new();
    let mut firsts: Vec<usize> = Vec::new();
    let mut r: Vec<Option<usize>> = Vec::new();
    for i in 0..cands.len()
        invariant
            sh == shapes(cands@),
            candidates_ok(cands@, n_points as nat),
            face_at.len() == n_points,
            r.len() == i,
            forall|j: int| 0 <= j < i ==> #[trigger] r@[j] == earlier_bisector(sh, j),
            firsts.len() == keys.len(),
            forall|t: int| 0 <= t < keys.len() ==> first_with_key(sh, #[trigger] keys@[t], i as int) == Some(firsts@[t]),
            forall|k: (usize, usize)| !#[trigger] keys@.contains(k) ==> first_with_key(sh, k, i as int) == None::<usize>,
            keys@.no_duplicates(),
            forall|a: int, j: int|
                0 <= a < face_at.len() && 0 <= j < face_at@[a].len() ==> (#[trigger] face_at@[a]@[j]).1
                    < keys@.len() && keys@[face_at@[a]@[j].1 as int] == (a as usize, face_at@[a]@[j].0),
            forall|j: int| 0 <= j < keys@.len() ==> #[trigger] keys@[j].0 < face_at.len(),
            forall|j: int|
                0 <= j < keys@.len() ==> face_at@[keys@[j].0 as int]@.contains((#[trigger] keys@[j].1, j as usize)),
    {
        assert(sh[i as int] == cands@[i as int].shape());
        match &cands[i] {
            FaceCandidate::Bisects { a, b, .. } => {
                let (a, b) = (*a, *b);
                assert(cands@[i as int].shape() matches CandView::Bisects(a, b) ==> a < n_points && b < n_points);
                let k = key_exec(a, b);
                match find_key(&face_at, k, Ghost(keys@)) {
                    Some(t) => {
                        proof {
                            let w = choose|w: int| 0 <= w < keys@.len() && keys@[w] == k;
                            lemma_key_index_unique(keys@, w);
                            assert forall|t2: int| 0 <= t2 < keys.len() implies first_with_key(
                                sh,
                                #[trigger] keys@[t2],
                                i + 1,
                            ) == Some(firsts@[t2]) by {
                                assert(first_with_key(sh, keys@[t2], i as int) == Some(firsts@[t2]));
                            }
                            assert forall|k2: (usize, usize)| !#[trigger] keys@.contains(k2) implies first_with_key(
                                sh,
                                k2,
                                i + 1,
                            ) == None::<usize> by {
                                assert(first_with_key(sh, k2, i as int) == None::<usize>);
                                if k2 == k {
                                    assert(keys@.contains(k));
                                }
                            }
                        }
                        assert(first_with_key(sh, keys@[t as int], i as int) == Some(firsts@[t as int]));
                        assert(keys@[t as int] == k);
                        assert(earlier_bisector(sh, i as int) == Some(firsts@[t as int]));
                        let ghost r0 = r@;
                        r.push(Some(firsts[t]));
                        assert forall|j: int| 0 <= j < i + 1 implies #[trigger] r@[j] == earlier_bisector(sh, j) by {
                            if j < i {
                                assert(r@[j] == r0[j]);
                            }
                        }
                    },
                    None => {
                        let idx = keys.len();
                        let ghost old_fa = face_at@;
                        let ghost old_keys = keys@;
                        let ghost old_firsts = firsts@;
                        assert(first_with_key(sh, k, i as int) == None::<usize>);
                        assert(earlier_bisector(sh, i as int) == None::<usize>);
                        let ghost r0 = r@;
                        r.push(None);
                        assert forall|j: int| 0 <= j < i + 1 implies #[trigger] r@[j] == earlier_bisector(sh, j) by {
                            if j < i {
                                assert(r@[j] == r0[j]);
                            }
                        }
                        face_at[k.0].push((k.1, idx));
                        keys.push(k);
                        firsts.push(i);
                        proof {
                            assert(first_with_key(sh, k, i + 1) == Some(i));
                            assert forall|t2: int| 0 <= t2 < keys.len() implies first_with_key(
                                sh,
                                #[trigger] keys@[t2],
                                i + 1,
                            ) == Some(firsts@[t2]) by {
                                if t2 < old_keys.len() {
                                    assert(keys@[t2] == old_keys[t2]);
                                    assert(firsts@[t2] == old_firsts[t2]);
                                    assert(first_with_key(sh, old_keys[t2], i as int) == Some(old_firsts[t2]));
                                }
                            }
                            assert forall|k2: (usize, usize)| !#[trigger] keys@.contains(k2) implies first_with_key(
                                sh,
                                k2,
                                i + 1,
                            ) == None::<usize> by {
                                assert(keys@[old_keys.len() as int] == k);
                                if old_keys.contains(k2) {
                                    let w = choose|w: int| 0 <= w < old_keys.len() && old_keys[w] == k2;
                                    assert(keys@[w] == k2);
                                }
                                assert(first_with_key(sh, k2, i as int) == None::<usize>);
                            }
                            assert forall|x: int, y: int|
                                0 <= x < old_keys.len() + 1 && 0 <= y < old_keys.len() + 1 && x != y
                                implies keys@[x] != keys@[y] by {
                                if x == old_keys.len() {
                                    assert(old_keys.contains(keys@[y]));
                                } else if y == old_keys.len() {
                                    assert(old_keys.contains(keys@[x]));
                                }
                            }
                            assert forall|a2: int, j: int|
                                0 <= a2 < face_at.len() && 0 <= j < face_at@[a2].len() implies (#[trigger] face_at@[a2]@[j]).1
                                    < keys@.len() && keys@[face_at@[a2]@[j].1 as int] == (a2 as usize, face_at@[a2]@[j].0) by {
                                if a2 == k.0 && j == old_fa[a2].len() {
                                } else {
                                    assert(face_at@[a2]@[j] == old_fa[a2]@[j]);
                                }
                            }
                            assert forall|j: int|
                                0 <= j < keys@.len() implies face_at@[keys@[j].0 as int]@.contains((#[trigger] keys@[j].1, j as usize)) by {
                                if j == old_keys.len() {
                                    assert(face_at@[k.0 as int]@[old_fa[k.0 as int].len() as int] == (k.1, idx));
                                } else {
                                    let a2 = keys@[j].0 as int;
                                    assert(old_fa[a2]@.contains((keys@[j].1, j as usize)));
                                    let w = choose|w: int| 0 <= w < old_fa[a2]@.len() && old_fa[a2]@[w] == (keys@[j].1, j as usize);
                                    assert(face_at@[a2]@[w] == old_fa[a2]@[w]);
                                }
                            }
                        }
                    },
                }
            },
            _ => {
                assert(earlier_bisector(sh, i as int) == None::<usize>);
                let ghost r0 = r@;
                r.push(None);
                assert forall|j: int| 0 <= j < i + 1 implies #[trigger] r@[j] == earlier_bisector(sh, j) by {
                    if j < i {
                        assert(r@[j] == r0[j]);
                    }
                }
                proof {
                    assert forall|t2: int| 0 <= t2 < keys.len() implies first_with_key(
                        sh,
                        #[trigger] keys@[t2],
                        i + 1,
                    ) == Some(firsts@[t2]) by {
                        assert(first_with_key(sh, keys@[t2], i as int) == Some(firsts@[t2]));
                    }
                    assert forall|k2: (usize, usize)| !#[trigger] keys@.contains(k2) implies first_with_key(
                        sh,
                        k2,
                        i + 1,
                    ) == None::<usize> by {
                        assert(first_with_key(sh, k2, i as int) == None::<usize>);
                    }
                }
            },
        }
    }
    r
}

/// Links each candidate face to its grid edge.
fn match_dual_faces<P>(n_points: usize, cands: Vec<FaceCandidate<P>>, same: &Vec<bool>) -> (r: Result<
    (Vec<DualFace<P>>, MatchCounts),
    GridError,
>)
    requires
        same.len() == cands.len(),
        n_points <= isize::MAX,
        candidates_ok(cands@, n_points as nat),
    ensures
        match r {
            Ok((faces, counts)) => {
                &&& match_faces(shapes(cands@), same@) matches Ok(m)
                &&& faces_match(faces@, m, cands@)
                &&& counts.degenerate == m.degenerate
                &&& counts.dropped == m.dropped
                &&& counts.duplicate == m.duplicate
            },
            Err(GridError::FacesDiffer { face, other, a, b }) => match_faces(shapes(cands@), same@)
                == Err::<MatchView, (nat, int, (usize, usize))>((face as nat, other as int, (a, b))),
            Err(_) => false,
        },
{
    let ghost cs = cands@;
    let ghost sh = shapes(cands@);
    let mut face_at: Vec<Vec<(usize, usize)>> = Vec::new();
    for i in 0..n_points
        invariant
            face_at.len() == i,
            forall|a: int| 0 <= a < i ==> (#[trigger] face_at@[a])@.len() == 0,
    {
        face_at.push(Vec::new());
    }
    let mut out: Vec<DualFace<P>> = Vec::new();
    let mut keys: Vec<(usize, usize)> = Vec::new();
    let mut counts = MatchCounts { degenerate: 0, dropped: 0, duplicate: 0 };
    let ghost mut kept: Seq<int> = seq![];
    let mut i: usize = 0;
    for c in it: cands.into_iter()
        invariant
            i == it.index(),
            it.seq() == cs,
            sh == shapes(cs),
            same.len() == cs.len(),
            candidates_ok(cs, n_points as nat),
            face_at.len() == n_points,
            n_points <= isize::MAX,
            match_prefix(sh, same@, i as nat) matches Ok(m) && m.keys == keys@ && m.kept == kept
                && m.degenerate == counts.degenerate && m.dropped == counts.dropped && m.duplicate
                == counts.duplicate,
            counts.degenerate + counts.dropped + counts.duplicate + keys.len() == i,
            faces_match(out@, MatchView { kept, keys: keys@, degenerate: 0, dropped: 0, duplicate: 0 }, cs),
            forall|j: int| 0 <= j < kept.len() ==> 0 <= #[trigger] kept[j] < i,
            kept.len() == keys.len(),
            keys@.no_duplicates(),
            forall|a: int, j: int|
                0 <= a < face_at.len() && 0 <= j < face_at@[a].len() ==> (#[trigger] face_at@[a]@[j]).1
                    < keys@.len() && keys@[face_at@[a]@[j].1 as int] == (a as usize, face_at@[a]@[j].0),
            forall|j: int| 0 <= j < keys@.len() ==> #[trigger] keys@[j].0 < face_at.len(),
            forall|j: int|
                0 <= j < keys@.len() ==> face_at@[keys@[j].0 as int]@.contains((#[trigger] keys@[j].1, j as usize)),
    {
        let ghost m = match_prefix(sh, same@, i as nat)->Ok_0;
        let ghost cg = c;
        assert(sh[i as int] == c.shape());
        assert(cs[i as int] == cg);
        match c {
            FaceCandidate::Degenerate => {
                counts.degenerate += 1;
            },
            FaceCandidate::NotEquidistant => {
                counts.dropped += 1;
            },
            FaceCandidate::Bisects { a, b, vertices } => {
                assert(cs[i as int].shape() matches CandView::Bisects(a, b) ==> a < n_points && b < n_points);
                let k = key_exec(a, b);
                match find_key(&face_at, k, Ghost(keys@)) {
                    Some(other) => {
                        if same[i] {
                            counts.duplicate += 1;
                        } else {
                            proof {
                                assert(match_prefix(sh, same@, (i + 1) as nat) == Err::<MatchView, (nat, int, (usize, usize))>(
                                    (i as nat, other as int, k),
                                ));
                                lemma_match_err_extends(sh, same@, (i + 1) as nat);
                            }
                            return Err(GridError::FacesDiffer { face: i, other, a: k.0, b: k.1 });
                        }
                    },
                    None => {
                        let idx = keys.len();
                        let ghost old_fa = face_at@;
                        let ghost old_keys = keys@;
                        let ghost old_out = out@;
                        let ghost old_kept = kept;
                        face_at[k.0].push((k.1, idx));
                        keys.push(k);
                        out.push(DualFace { a: k.0 as isize, b: k.1 as isize, vertices });
                        proof {
                            kept = kept.push(i as int);
                            assert forall|j: int| 0 <= j < out@.len() implies {
                                &&& #[trigger] out@[j].a == keys@[j].0 as isize
                                &&& out@[j].b == keys@[j].1 as isize
                                &&& cs[kept[j]] matches FaceCandidate::Bisects { vertices, .. } && out@[j].vertices@
                                    == vertices@
                            } by {
                                if j == out@.len() - 1 {
                                    assert(kept[j] == i);
                                    assert(cs[kept[j]] == cg);
                                } else {
                                    assert(out@[j] == old_out[j]);
                                    assert(keys@[j] == old_keys[j]);
                                    assert(kept[j] == old_kept[j]);
                                    assert(old_out[j].a == old_keys[j].0 as isize);
                                }
                            }
                            assert(out@.len() == keys@.len());
                            assert(faces_match(out@, MatchView { kept, keys: keys@, degenerate: 0, dropped: 0, duplicate: 0 }, cs));
                            assert forall|x: int, y: int|
                                0 <= x < old_keys.len() + 1 && 0 <= y < old_keys.len() + 1 && x != y
                                implies keys@[x] != keys@[y] by {
                                if x == old_keys.len() {
                                    assert(old_keys.contains(keys@[y]));
                                } else if y == old_keys.len() {
                                    assert(old_keys.contains(keys@[x]));
                                }
                            }
                            assert forall|a2: int, j: int|
                                0 <= a2 < face_at.len() && 0 <= j < face_at@[a2].len() implies (#[trigger] face_at@[a2]@[j]).1
                                    < keys@.len() && keys@[face_at@[a2]@[j].1 as int] == (a2 as usize, face_at@[a2]@[j].0) by {
                                if a2 == k.0 && j == old_fa[a2].len() {
                                } else {
                                    assert(face_at@[a2]@[j] == old_fa[a2]@[j]);
                                }
                            }
                            assert forall|j: int|
                                0 <= j < keys@.len() implies face_at@[keys@[j].0 as int]@.contains((#[trigger] keys@[j].1, j as usize)) by {
                                if j == old_keys.len() {
                                    assert(face_at@[k.0 as int]@[old_fa[k.0 as int].len() as int] == (k.1, idx));
                                } else {
                                    let a2 = keys@[j].0 as int;
                                    assert(old_fa[a2]@.contains((keys@[j].1, j as usize)));
                                    let w = choose|w: int| 0 <= w < old_fa[a2]@.len() && old_fa[a2]@[w] == (keys@[j].1, j as usize);
                                    assert(face_at@[a2]@[w] == old_fa[a2]@[w]);
                                }
                            }
                        }
                    },
                }
            },
        }
        i += 1;
    }
    Ok((out, counts))
}

// ------------------------------------------------------------------------------------------
// Assembling the grid
// ------------------------------------------------------------------------------------------

pub proof fn lemma_match_keys(cs: Seq<CandView>, same: Seq<bool>, k: nat, n: nat)
    requires
        k <= cs.len(),
        forall|i: int|
            0 <= i < cs.len() ==> (#[trigger] cs[i] matches CandView::Bisects(a, b) ==> a < n && b
                < n),
    ensures
        match_prefix(cs, same, k) matches Ok(m) ==> (forall|i: int|
            0 <= i < m.keys.len() ==> #[trigger] m.keys[i].0 <= m.keys[i].1 && m.keys[i].1 < n),
    decreases k,
{
    if k > 0 {
        lemma_match_keys(cs, same, (k - 1) as nat, n);
    }
}

/// Within a list of keys (smaller end first), the distinct proper edges are the
/// keys themselves.
proof fn lemma_normalized_contains(keys: Seq<(usize, usize)>, e: (usize, usize))
    requires
        forall|i: int| 0 <= i < keys.len() ==> #[trigger] keys[i].0 <= keys[i].1,
        e.0 < e.1,
    ensures
        edge_order(keys).contains(e) <==> keys.contains(e),
{
    crate::edges::lemma_edge_order(keys);
    if keys.contains(e) {
        let i = choose|i: int| 0 <= i < keys.len() && keys[i] == e;
        assert(keys[i].0 != keys[i].1 && key(keys[i].0, keys[i].1) == e);
    }
    if edge_order(keys).contains(e) {
        let i = choose|i: int|
            0 <= i < keys.len() && keys[i].0 != keys[i].1 && #[trigger] key(keys[i].0, keys[i].1)
                == e;
        assert(keys[i].0 <= keys[i].1);
        assert(keys[i] == e);
    }
}

/// The number of vertices of each face.
pub open spec fn face_sizes<P>(faces: Seq<DualFace<P>>) -> Seq<usize> {
    faces.map_values(|f: DualFace<P>| f.vertices@.len() as usize)
}

/// What the report of a grid says, given its faces and edges.
pub open spec fn report_ok<P>(
    rep: GridReport,
    n: nat,
    n_faces: nat,
    lines: Seq<(usize, usize)>,
    m: MatchView,
    neighbors: Seq<Seq<isize>>,
    faces: Seq<DualFace<P>>,
) -> bool {
    let all = lines + m.keys;
    &&& rep.points == n
    &&& rep.faces_total == n_faces
    &&& rep.faces_matched == m.keys.len()
    &&& rep.faces_dropped == m.dropped
    &&& rep.faces_duplicate == m.duplicate
    &&& rep.faces_degenerate == m.degenerate
    &&& rep.edges == edge_order(all).len()
    &&& rep.edges_from_lines == edge_order(lines).len()
    &&& rep.edges_without_face == (if m.keys.len() > 0 {
        count_not_in(edge_order(all), m.keys)
    } else {
        0
    })
    &&& rep.faces_without_line_edge == (if edge_order(lines).len() > 0 {
        count_not_in(m.keys, edge_order(lines))
    } else {
        0
    })
    &&& is_histogram(rep.face_vertex_histogram@, face_sizes(faces))
    &&& is_histogram(rep.degree_histogram@, lengths(neighbors))
}

/// The number of elements of `s` that `t` does not hold, with membership given
/// by an edge set.
fn count_missing(s: &Vec<(usize, usize)>, t: &EdgeSet, Ghost(es): Ghost<Seq<(usize, usize)>>, Ghost(tv): Ghost<Seq<(usize, usize)>>) -> (c: usize)
    requires
        t.holds(es),
        forall|i: int| 0 <= i < s.len() ==> #[trigger] s@[i].0 < t.n && s@[i].1 < t.n,
        forall|i: int|
            0 <= i < s.len() ==> (tv.contains(#[trigger] s@[i]) <==> (s@[i].0 != s@[i].1
                && edge_order(es).contains(key(s@[i].0, s@[i].1)))),
    ensures
        c == count_not_in(s@, tv),
{
    let mut c: usize = 0;
    for i in 0..s.len()
        invariant
            t.holds(es),
            forall|i: int| 0 <= i < s.len() ==> #[trigger] s@[i].0 < t.n && s@[i].1 < t.n,
            forall|i: int|
                0 <= i < s.len() ==> (tv.contains(#[trigger] s@[i]) <==> (s@[i].0 != s@[i].1
                    && edge_order(es).contains(key(s@[i].0, s@[i].1)))),
            c == count_not_in(s@.take(i as int), tv),
            c <= i,
    {
        let (a, b) = s[i];
        assert(s@.take(i + 1).drop_last() =~= s@.take(i as int));
        assert(s@.take(i + 1).last() == s@[i as int]);
        if !t.contains(a, b, Ghost(es)) {
            c += 1;
        }
    }
    assert(s@.take(s.len() as int) =~= s@);
    c
}

/// The lengths of the lists, as a vector.
fn degrees(neighbors: &Vec<Vec<isize>>) -> (d: Vec<usize>)
    ensures
        d@ == lengths(lists(neighbors@)),
{
    let mut d: Vec<usize> = Vec::new();
    for i in 0..neighbors.len()
        invariant
            d@ == lengths(lists(neighbors@)).take(i as int),
    {
        d.push(neighbors[i].len());
        assert(d@ =~= lengths(lists(neighbors@)).take(i + 1));
    }
    assert(lengths(lists(neighbors@)).take(neighbors.len() as int) =~= lengths(lists(neighbors@)));
    d
}

/// Builds a grid from its points, its line edges (as point indices) and what the
/// geometry said of each dual face.
///
/// `n_faces` is the number of faces in the dual objects.  `cands` holds, when
/// there are faces and at least two points, one candidate per face; `same[i]`
/// says whether candidate `i` has the same vertices as the first candidate that
/// bisects the same edge.  The grid's edges are the line edges followed by the
/// edges of the matched faces.
pub fn assemble<P>(
    points: Vec<P>,
    line_edges: Vec<(usize, usize)>,
    n_faces: usize,
    cands: Vec<FaceCandidate<P>>,
    same: Vec<bool>,
) -> (r: Result<(VineyardsGridMesh<P>, GridReport), GridError>)
    requires
        endpoints_below(line_edges@, points@.len()),
        points.len() <= isize::MAX,
        same.len() == cands.len(),
        candidates_ok(cands@, points@.len()),
        n_faces == 0 ==> cands.len() == 0,
        n_faces > 0 && points.len() >= 2 ==> cands.len() == n_faces,
    ensures
        match r {
            Ok((g, rep)) => {
                &&& n_faces == 0 || points.len() >= 2
                &&& match_faces(shapes(cands@), same@) matches Ok(m)
                &&& faces_match(g.dual_faces@, m, cands@)
                &&& g.points@ == points@
                &&& g.grid_type@ == seq!['m', 'e', 's', 'h', 'g', 'r', 'i', 'd']
                &&& lists(g.neighbors@) == adjacency(points@.len(), line_edges@ + m.keys)
                &&& report_ok(rep, points@.len(), n_faces as nat, line_edges@, m, lists(g.neighbors@), g.dual_faces@)
            },
            Err(GridError::DualNeedsTwoPoints) => n_faces > 0 && points.len() < 2,
            Err(GridError::FacesDiffer { face, other, a, b }) => {
                &&& n_faces == 0 || points.len() >= 2
                &&& match_faces(shapes(cands@), same@) == Err::<MatchView, (nat, int, (usize, usize))>(
                    (face as nat, other as int, (a, b)),
                )
            },
            Err(_) => false,
        },
{
    let n = points.len();
    if n_faces > 0 && n < 2 {
        return Err(GridError::DualNeedsTwoPoints);
    }
    let ghost cs = cands@;
    let (faces, counts) = match match_dual_faces(n, cands, &same) {
        Ok(x) => x,
        Err(e) => {
            return Err(e);
        },
    };
    let ghost m = match_faces(shapes(cs), same@)->Ok_0;
    proof {
        assert(forall|i: int|
            0 <= i < shapes(cs).len() ==> (#[trigger] shapes(cs)[i] matches CandView::Bisects(a, b)
                ==> a < n && b < n)) by {
            assert forall|i: int| 0 <= i < shapes(cs).len() implies (#[trigger] shapes(cs)[i] matches CandView::Bisects(a, b)
                ==> a < n && b < n) by {
                assert(shapes(cs)[i] == cs[i].shape());
            }
        }
        lemma_match_keys(shapes(cs), same@, shapes(cs).len(), n as nat);
    }
    // the keys of the matched faces
    let mut keys: Vec<(usize, usize)> = Vec::new();
    for i in 0..faces.len()
        invariant
            faces_match(faces@, m, cs),
            forall|j: int| 0 <= j < m.keys.len() ==> #[trigger] m.keys[j].0 <= m.keys[j].1 && m.keys[j].1 < n,
            n <= isize::MAX,
            keys@ == m.keys.take(i as int),
    {
        assert(faces@[i as int].a == m.keys[i as int].0 as isize);
        keys.push((faces[i].a as usize, faces[i].b as usize));
        assert(keys@ =~= m.keys.take(i + 1));
    }
    assert(m.keys.take(faces.len() as int) =~= m.keys);
    assert(endpoints_below(keys@, n as nat)) by {
        assert forall|i: int| 0 <= i < keys@.len() implies #[trigger] keys@[i].0 < n && keys@[i].1 < n by {
            assert(m.keys[i].0 <= m.keys[i].1);
        }
    }
    // line edges
    let mut es = EdgeSet::new(n);
    let ghost mut seen: Seq<(usize, usize)> = seq![];
    for i in 0..line_edges.len()
        invariant
            es.n == n,
            es.holds(seen),
            seen == line_edges@.take(i as int),
            endpoints_below(line_edges@, n as nat),
    {
        let (a, b) = line_edges[i];
        es.add(a, b, Ghost(seen));
        proof {
            seen = seen.push((a, b));
            assert(seen =~= line_edges@.take(i + 1));
        }
    }
    assert(seen =~= line_edges@);
    let edges_from_lines = es.order.len();
    let faces_without_line_edge = if edges_from_lines > 0 {
        proof {
            crate::edges::lemma_edge_order(line_edges@);
            assert forall|i: int| 0 <= i < keys.len() implies (edge_order(line_edges@).contains(#[trigger] keys@[i]) <==> (keys@[i].0 != keys@[i].1
                && edge_order(line_edges@).contains(key(keys@[i].0, keys@[i].1)))) by {
                assert(key(keys@[i].0, keys@[i].1) == keys@[i]);
                if keys@[i].0 == keys@[i].1 && edge_order(line_edges@).contains(keys@[i]) {
                    let j = choose|j: int| 0 <= j < edge_order(line_edges@).len() && edge_order(line_edges@)[j] == keys@[i];
                }
            }
        }
        count_missing(&keys, &es, Ghost(seen), Ghost(edge_order(line_edges@)))
    } else {
        0
    };
    // face edges
    for i in 0..keys.len()
        invariant
            es.n == n,
            es.holds(seen),
            seen == line_edges@ + keys@.take(i as int),
            endpoints_below(keys@, n as nat),
    {
        let (a, b) = keys[i];
        es.add(a, b, Ghost(seen));
        proof {
            seen = seen.push((a, b));
            assert(seen =~= line_edges@ + keys@.take(i + 1));
        }
    }
    assert(keys@.take(keys.len() as int) =~= keys@);
    let edges = es.order.len();
    let edges_without_face = if keys.len() > 0 {
        let mut fs = EdgeSet::new(n);
        let ghost mut fseen: Seq<(usize, usize)> = seq![];
        for i in 0..keys.len()
            invariant
                fs.n == n,
                fs.holds(fseen),
                fseen == keys@.take(i as int),
                endpoints_below(keys@, n as nat),
        {
            let (a, b) = keys[i];
            fs.add(a, b, Ghost(fseen));
            proof {
                fseen = fseen.push((a, b));
                assert(fseen =~= keys@.take(i + 1));
            }
        }
        assert(fseen =~= keys@);
        proof {
            crate::edges::lemma_edge_order(seen);
            assert forall|i: int| 0 <= i < es.order.len() implies #[trigger] es.order@[i].0 < n && es.order@[i].1 < n by {
                let e = es.order@[i];
                assert(edge_order(seen).contains(e));
                let j = choose|j: int| 0 <= j < seen.len() && seen[j].0 != seen[j].1 && #[trigger] key(seen[j].0, seen[j].1) == e;
                assert(seen[j].0 < n && seen[j].1 < n);
            }
            assert forall|i: int| 0 <= i < es.order.len() implies (keys@.contains(#[trigger] es.order@[i]) <==> (es.order@[i].0 != es.order@[i].1
                && edge_order(keys@).contains(key(es.order@[i].0, es.order@[i].1)))) by {
                let e = es.order@[i];
                assert(e.0 < e.1);
                assert(key(e.0, e.1) == e);
                lemma_normalized_contains(keys@, e);
            }
        }
        count_missing(&es.order, &fs, Ghost(fseen), Ghost(keys@))
    } else {
        0
    };
    let degs = degrees(&es.neighbors);
    let degree_histogram = histogram(&degs);
    let mut sizes: Vec<usize> = Vec::new();
    for i in 0..faces.len()
        invariant
            sizes@ == face_sizes(faces@).take(i as int),
    {
        sizes.push(faces[i].vertices.len());
        assert(sizes@ =~= face_sizes(faces@).take(i + 1));
    }
    assert(face_sizes(faces@).take(faces.len() as int) =~= face_sizes(faces@));
    let face_vertex_histogram = histogram(&sizes);
    let report = GridReport {
        points: n,
        edges,
        edges_from_lines,
        faces_total: n_faces,
        faces_matched: faces.len(),
        faces_dropped: counts.dropped,
        faces_duplicate: counts.duplicate,
        faces_degenerate: counts.degenerate,
        edges_without_face,
        faces_without_line_edge,
        face_vertex_histogram,
        degree_histogram,
    };
    let g = VineyardsGridMesh {
        points,
        neighbors: es.neighbors,
        grid_type: meshgrid_name(),
        dual_faces: faces,
    };
    Ok((g, report))
}

// ------------------------------------------------------------------------------------------
// The grid
// ------------------------------------------------------------------------------------------

/// The edges of the dual faces, as point pairs.
pub open spec fn face_pairs<P>(faces: Seq<DualFace<P>>) -> Seq<(usize, usize)> {
    faces.map_values(|f: DualFace<P>| (f.a as usize, f.b as usize))
}

/// Both ends `a` and `b` of every face are point ids below `n`.
pub open spec fn faces_below<P>(faces: Seq<DualFace<P>>, n: nat) -> bool {
    forall|i: int| 0 <= i < faces.len() ==> 0 <= #[trigger] faces[i].a < n && 0 <= faces[i].b < n
}

/// The edges `(a, b)` with `a < b` of the adjacency lists, row by row.
pub open spec fn row_edges(a: int, l: Seq<isize>) -> Seq<(usize, usize)>
    decreases l.len(),
{
    if l.len() == 0 {
        seq![]
    } else if a < l.last() {
        row_edges(a, l.drop_last()).push((a as usize, l.last() as usize))
    } else {
        row_edges(a, l.drop_last())
    }
}

pub open spec fn list_edges(nb: Seq<Seq<isize>>) -> Seq<(usize, usize)>
    decreases nb.len(),
{
    if nb.len() == 0 {
        seq![]
    } else {
        list_edges(nb.drop_last()) + row_edges(nb.len() - 1, nb.last())
    }
}

/// The entries of `l` that go to the lower half (`lower`) or to the upper half.
pub open spec fn split_row(l: Seq<isize>, v_low: bool, low: Seq<bool>, lower: bool) -> Seq<isize>
    decreases l.len(),
{
    if l.len() == 0 {
        seq![]
    } else {
        let w = l.last();
        let goes_low = v_low || low[w as int];
        if goes_low == lower {
            split_row(l.drop_last(), v_low, low, lower).push(w)
        } else {
            split_row(l.drop_last(), v_low, low, lower)
        }
    }
}

/// Index of the last face whose edge is `{a, b}`, or -1.
pub open spec fn face_index<P>(faces: Seq<DualFace<P>>, k: (int, int)) -> int
    decreases faces.len(),
{
    if faces.len() == 0 {
        -1
    } else if (if faces.last().a <= faces.last().b {
        (faces.last().a as int, faces.last().b as int)
    } else {
        (faces.last().b as int, faces.last().a as int)
    }) == k {
        faces.len() - 1
    } else {
        face_index(faces.drop_last(), k)
    }
}

proof fn lemma_face_index_range<P>(faces: Seq<DualFace<P>>, k: (int, int))
    ensures
        -1 <= face_index(faces, k) < faces.len(),
    decreases faces.len(),
{
    if faces.len() > 0 {
        lemma_face_index_range(faces.drop_last(), k);
    }
}

/// Where the polygon of a dual face comes from.
pub enum DualPolygon<'a, P> {
    /// The face that was supplied for the edge.
    Supplied(&'a DualFace<P>),
    /// A dual was supplied, but not for this edge: its swaps are not drawn.
    Missing,
    /// No dual was supplied: the axis-aligned square of the lattice.
    Square,
}

impl<P> VineyardsGridMesh<P> {
    /// A grid without points.
    pub fn empty() -> (g: Self)
        ensures
            g.points@.len() == 0,
            g.neighbors@.len() == 0,
            g.dual_faces@.len() == 0,
            g.grid_type@ == seq!['m', 'e', 's', 'h', 'g', 'r', 'i', 'd'],
    {
        VineyardsGridMesh {
            points: Vec::new(),
            neighbors: Vec::new(),
            grid_type: meshgrid_name(),
            dual_faces: Vec::new(),
        }
    }

    /// Build a grid from points, undirected edges and dual faces.  Edges implied by the dual
    /// faces are added after the given ones.
    pub fn from_parts(points: Vec<P>, edges: &Vec<(usize, usize)>, dual_faces: Vec<DualFace<P>>) -> (g: Self)
        requires
            points.len() <= isize::MAX,
            endpoints_below(edges@, points@.len()),
            faces_below(dual_faces@, points@.len()),
        ensures
            g.points@ == points@,
            g.dual_faces@ == dual_faces@,
            lists(g.neighbors@) == adjacency(points@.len(), edges@ + face_pairs(dual_faces@)),
            g.grid_type@ == seq!['m', 'e', 's', 'h', 'g', 'r', 'i', 'd'],
    {
        let n = points.len();
        let mut es = EdgeSet::new(n);
        let ghost mut seen: Seq<(usize, usize)> = seq![];
        for i in 0..edges.len()
            invariant
                es.n == n,
                es.holds(seen),
                seen == edges@.take(i as int),
                endpoints_below(edges@, n as nat),
        {
            let (a, b) = edges[i];
            es.add(a, b, Ghost(seen));
            proof {
                seen = seen.push((a, b));
                assert(seen =~= edges@.take(i + 1));
            }
        }
        assert(seen =~= edges@);
        for i in 0..dual_faces.len()
            invariant
                es.n == n,
                es.holds(seen),
                seen == edges@ + face_pairs(dual_faces@).take(i as int),
                faces_below(dual_faces@, n as nat),
        {
            let a = dual_faces[i].a as usize;
            let b = dual_faces[i].b as usize;
            es.add(a, b, Ghost(seen));
            proof {
                seen = seen.push((a, b));
                assert(seen =~= edges@ + face_pairs(dual_faces@).take(i + 1));
            }
        }
        assert(face_pairs(dual_faces@).take(dual_faces.len() as int) =~= face_pairs(dual_faces@));
        VineyardsGridMesh { points, neighbors: es.neighbors, grid_type: meshgrid_name(), dual_faces }
    }

    /// True if the grid came with dual faces.
    pub fn has_dual(&self) -> (r: bool)
        ensures
            r == (self.dual_faces@.len() > 0),
    {
        self.dual_faces.len() > 0
    }

    /// The supplied dual face of the edge `(a, b)` (named by fake indices), if any: the
    /// last face given for that edge.
    #[verifier::loop_isolation(false)]
    pub fn dual_face(&self, a: crate::index::Index, b: crate::index::Index) -> (r: Option<&DualFace<P>>)
        ensures
            ({
                let (x, y) = (a.0@[0] as int, b.0@[0] as int);
                let k = face_index(self.dual_faces@, if x <= y { (x, y) } else { (y, x) });
                r == (if k >= 0 {
                    Some(&self.dual_faces@[k])
                } else {
                    None
                })
            }),
    {
        let x = a.x();
        let y = b.x();
        let lo = if x <= y {
            x
        } else {
            y
        };
        let hi = if x <= y {
            y
        } else {
            x
        };
        let ghost k = (lo as int, hi as int);
        let mut i = self.dual_faces.len();
        assert(self.dual_faces@.take(i as int) =~= self.dual_faces@);
        while i > 0
            invariant
                i <= self.dual_faces.len(),
                face_index(self.dual_faces@, k) == face_index(self.dual_faces@.take(i as int), k),
            decreases i,
        {
            let f = &self.dual_faces[i - 1];
            let fa = if f.a <= f.b {
                f.a
            } else {
                f.b
            };
            let fb = if f.a <= f.b {
                f.b
            } else {
                f.a
            };
            let ghost t = self.dual_faces@.take(i as int);
            assert(t.last() == self.dual_faces@[i - 1]);
            assert(*f == t.last());
            if fa == lo && fb == hi {
                assert((if t.last().a <= t.last().b {
                    (t.last().a as int, t.last().b as int)
                } else {
                    (t.last().b as int, t.last().a as int)
                }) == k);
                assert(face_index(t, k) == i - 1);
                return Some(f);
            }
            assert(t.drop_last() =~= self.dual_faces@.take(i - 1));
            i -= 1;
        }
        assert(self.dual_faces@.take(0) =~= Seq::<DualFace<P>>::empty());
        None
    }

    /// Where the polygon of the dual face of the grid edge `(a, b)` comes from: the supplied
    /// face if there is one; none if a dual was supplied without this edge; otherwise the
    /// axis-aligned square of the lattice.
    pub fn dual_polygon(&self, a: crate::index::Index, b: crate::index::Index) -> (r: DualPolygon<'_, P>)
        ensures
            ({
                let (x, y) = (a.0@[0] as int, b.0@[0] as int);
                let k = face_index(self.dual_faces@, if x <= y { (x, y) } else { (y, x) });
                r == (if k >= 0 {
                    DualPolygon::Supplied(&self.dual_faces@[k])
                } else if self.dual_faces@.len() > 0 {
                    DualPolygon::Missing
                } else {
                    DualPolygon::Square
                })
            }),
    {
        match self.dual_face(a, b) {
            Some(f) => DualPolygon::Supplied(f),
            None => if self.has_dual() {
                DualPolygon::Missing
            } else {
                DualPolygon::Square
            },
        }
    }

    /// The grid edges `(a, b)` with `a < b`, row by row.
    pub fn edge_list(&self) -> (r: Vec<(usize, usize)>)
        requires
            self.neighbors.len() <= isize::MAX,
        ensures
            r@ == list_edges(lists(self.neighbors@)),
    {
        let mut r: Vec<(usize, usize)> = Vec::new();
        for a in 0..self.neighbors.len()
            invariant
                r@ == list_edges(lists(self.neighbors@).take(a as int)),
                self.neighbors.len() <= isize::MAX,
        {
            let ns = &self.neighbors[a];
            let ghost base = r@;
            assert(ns@ == lists(self.neighbors@)[a as int]);
            for j in 0..ns.len()
                invariant
                    r@ == base + row_edges(a as int, ns@.take(j as int)),
                    a < self.neighbors.len(),
                    self.neighbors.len() <= isize::MAX,
            {
                let b = ns[j];
                assert(ns@.take(j + 1).drop_last() =~= ns@.take(j as int));
                assert(ns@.take(j + 1).last() == b);
                if (a as isize) < b {
                    r.push((a, b as usize));
                    assert(r@ =~= base + row_edges(a as int, ns@.take(j + 1)));
                } else {
                    assert(r@ =~= base + row_edges(a as int, ns@.take(j + 1)));
                }
            }
            assert(ns@.take(ns.len() as int) =~= ns@);
            assert(lists(self.neighbors@).take(a + 1).drop_last() =~= lists(self.neighbors@).take(a as int));
        }
        assert(lists(self.neighbors@).take(self.neighbors.len() as int) =~= lists(self.neighbors@));
        r
    }
}

impl<P: Copy> VineyardsGridMesh<P> {
    /// The point of the grid vertex named by the fake index.
    pub fn coordinate(&self, index: crate::index::Index) -> (p: P)
        requires
            0 <= index.0@[0] < self.points@.len(),
        ensures
            p == self.points@[index.0@[0] as int],
    {
        self.points[index.x() as usize]
    }
}

impl<P: Clone> VineyardsGridMesh<P> {
    /// Splits the grid in two by the edges: an edge goes to the lower half if either end is
    /// lower (`is_lower`), else to the upper half.  Both halves keep all points and no dual
    /// faces; they only drive the traversal.
    #[verifier::loop_isolation(false)]
    #[verifier::spinoff_prover]
    pub fn split_in_half(&self, is_lower: &Vec<bool>) -> (r: (Self, Self))
        requires
            is_lower.len() == self.points.len(),
            self.neighbors.len() <= self.points.len(),
            forall|v: int, j: int|
                0 <= v < self.neighbors.len() && 0 <= j < self.neighbors@[v]@.len() ==> 0
                    <= #[trigger] self.neighbors@[v]@[j] < self.points.len(),
        ensures
            r.0.neighbors.len() == self.neighbors.len(),
            r.1.neighbors.len() == self.neighbors.len(),
            forall|v: int|
                0 <= v < self.neighbors.len() ==> (#[trigger] r.0.neighbors@[v])@ == split_row(
                    self.neighbors@[v]@,
                    is_lower@[v],
                    is_lower@,
                    true,
                ) && r.1.neighbors@[v]@ == split_row(self.neighbors@[v]@, is_lower@[v], is_lower@, false),
            r.0.points.len() == self.points.len(),
            r.1.points.len() == self.points.len(),
            forall|i: int|
                0 <= i < self.points.len() ==> cloned(self.points@[i], #[trigger] r.0.points@[i])
                    && cloned(self.points@[i], r.1.points@[i]),
            r.0.dual_faces@.len() == 0,
            r.1.dual_faces@.len() == 0,
            r.0.grid_type@ == self.grid_type@,
            r.1.grid_type@ == self.grid_type@,
    {
        let mut lower: Vec<Vec<isize>> = Vec::new();
        let mut upper: Vec<Vec<isize>> = Vec::new();
        let mut v: usize = 0;
        while v < self.neighbors.len()
            invariant
                v <= self.neighbors.len(),
                is_lower.len() == self.points.len(),
                self.neighbors.len() <= self.points.len(),
                forall|v: int, j: int|
                    0 <= v < self.neighbors.len() && 0 <= j < self.neighbors@[v]@.len() ==> 0
                        <= #[trigger] self.neighbors@[v]@[j] < self.points.len(),
                lower.len() == v,
                upper.len() == v,
                forall|u: int|
                    0 <= u < v ==> (#[trigger] lower@[u])@ == split_row(self.neighbors@[u]@, is_lower@[u], is_lower@, true),
                forall|u: int|
                    0 <= u < v ==> (#[trigger] upper@[u])@ == split_row(self.neighbors@[u]@, is_lower@[u], is_lower@, false),
            decreases self.neighbors.len() - v,
        {
            let ns = &self.neighbors[v];
            let v_low = is_lower[v];
            let mut lo: Vec<isize> = Vec::new();
            let mut up: Vec<isize> = Vec::new();
            for j in 0..ns.len()
                invariant
                    ns@ == self.neighbors@[v as int]@,
                    v < self.neighbors.len(),
                    is_lower.len() == self.points.len(),
                    forall|j2: int| 0 <= j2 < ns@.len() ==> 0 <= #[trigger] ns@[j2] < self.points.len(),
                    lo@ == split_row(ns@.take(j as int), v_low, is_lower@, true),
                    up@ == split_row(ns@.take(j as int), v_low, is_lower@, false),
                    v < is_lower.len(),
                    v_low == is_lower@[v as int],
            {
                let w = ns[j];
                assert(ns@.take(j + 1).drop_last() =~= ns@.take(j as int));
                assert(ns@.take(j + 1).last() == w);
                assert(0 <= w < self.points.len());
                if v_low || is_lower[w as usize] {
                    lo.push(w);
                } else {
                    up.push(w);
                }
            }
            assert(ns@.take(ns.len() as int) =~= ns@);
            assert(lo@ == split_row(self.neighbors@[v as int]@, is_lower@[v as int], is_lower@, true));
            assert(up@ == split_row(self.neighbors@[v as int]@, is_lower@[v as int], is_lower@, false));
            let ghost old_lower = lower@;
            let ghost old_upper = upper@;
            let ghost lo_view = lo@;
            let ghost up_view = up@;
            lower.push(lo);
            upper.push(up);
            assert(lower@ == old_lower.push(lower@[v as int]));
            assert(lower@[v as int]@ == lo_view);
            assert(upper@[v as int]@ == up_view);
            assert forall|u: int|
                0 <= u < v + 1 implies (#[trigger] lower@[u])@ == split_row(self.neighbors@[u]@, is_lower@[u], is_lower@, true) by {
                if u < v {
                    assert(lower@[u] == old_lower[u]);
                }
            }
            assert forall|u: int|
                0 <= u < v + 1 implies (#[trigger] upper@[u])@ == split_row(self.neighbors@[u]@, is_lower@[u], is_lower@, false) by {
                if u < v {
                    assert(upper@[u] == old_upper[u]);
                }
            }
            v += 1;
        }
        let a = VineyardsGridMesh {
            points: self.points.clone(),
            neighbors: lower,
            grid_type: self.grid_type.clone(),
            dual_faces: Vec::new(),
        };
        let b = VineyardsGridMesh {
            points: self.points.clone(),
            neighbors: upper,
            grid_type: self.grid_type.clone(),
            dual_faces: Vec::new(),
        };
        (a, b)
    }
}

/// The faces of every object of a separate dual file, as vertex ids.
pub fn dual_file_faces(obj: &ObjFile) -> (r: Result<Vec<Vec<usize>>, GridError>)
    ensures
        match r {
            Ok(faces) => seq_views(faces@) == all_faces(obj@.objects) && faces@.len() > 0,
            Err(GridError::NoDualFaces) => all_faces(obj@.objects).len() == 0,
            Err(_) => false,
        },
{
    let mut faces: Vec<Vec<usize>> = Vec::new();
    for k in 0..obj.objects.len()
        invariant
            seq_views(faces@) == all_faces(obj@.objects.take(k as int)),
    {
        let o = &obj.objects[k];
        let ghost base = faces@;
        assert(obj@.objects[k as int] == o@);
        for j in 0..o.faces.len()
            invariant
                seq_views(faces@) == seq_views(base) + seq_views(o.faces@).take(j as int),
        {
            let f = o.faces[j].clone();
            assert(f@ =~= o.faces@[j as int]@);
            let ghost before = faces@;
            faces.push(f);
            assert(seq_views(faces@) =~= seq_views(before).push(f@));
            assert(seq_views(o.faces@).take(j + 1) =~= seq_views(o.faces@).take(j as int).push(f@));
        }
        assert(seq_views(o.faces@).take(o.faces.len() as int) =~= seq_views(o.faces@));
        assert(obj@.objects.take(k + 1).drop_last() =~= obj@.objects.take(k as int));
    }
    assert(obj@.objects.take(obj.objects.len() as int) =~= obj@.objects);
    if faces.len() == 0 {
        return Err(GridError::NoDualFaces);
    }
    Ok(faces)
}

/// The faces of all objects, in order.
pub open spec fn all_faces(objects: Seq<ObjObjectView>) -> Seq<Seq<usize>>
    decreases objects.len(),
{
    if objects.len() == 0 {
        seq![]
    } else {
        all_faces(objects.drop_last()) + objects.last().faces
    }
}

/// How many faces the objects hold together.
pub open spec fn face_total(objects: Seq<ObjObjectView>) -> nat
    decreases objects.len(),
{
    if objects.len() == 0 {
        0
    } else {
        objects[0].faces.len() + face_total(objects.drop_first())
    }
}

/// The faces taken from a dual file are the faces of every object, in order: those of
/// one object are its own faces, appending an object appends its faces, the faces of
/// two runs of objects are those of the first run followed by those of the second, and
/// there are as many as all the objects hold together.
pub proof fn law_dual_faces_concatenate(
    objects: Seq<ObjObjectView>,
    more: Seq<ObjObjectView>,
    o: ObjObjectView,
)
    ensures
        all_faces(seq![o]) == o.faces,
        all_faces(objects.push(o)) == all_faces(objects) + o.faces,
        all_faces(objects + more) == all_faces(objects) + all_faces(more),
        all_faces(objects).len() == face_total(objects),
{
    lemma_all_faces_single(o);
    assert(objects.push(o).drop_last() =~= objects);
    lemma_all_faces_append(objects, more);
    lemma_all_faces_total(objects);
}

proof fn lemma_all_faces_single(o: ObjObjectView)
    ensures
        all_faces(seq![o]) == o.faces,
{
    assert(seq![o].drop_last() =~= Seq::<ObjObjectView>::empty());
    assert(all_faces(Seq::<ObjObjectView>::empty()) + o.faces =~= o.faces);
}

proof fn lemma_all_faces_append(objects: Seq<ObjObjectView>, more: Seq<ObjObjectView>)
    ensures
        all_faces(objects + more) == all_faces(objects) + all_faces(more),
    decreases more.len(),
{
    if more.len() == 0 {
        assert(objects + more =~= objects);
        assert(all_faces(objects) + all_faces(more) =~= all_faces(objects));
    } else {
        let whole = objects + more;
        assert(whole.drop_last() =~= objects + more.drop_last());
        assert(whole.last() == more.last());
        lemma_all_faces_append(objects, more.drop_last());
        assert(all_faces(whole) =~= all_faces(objects) + all_faces(more));
    }
}

proof fn lemma_all_faces_total(objects: Seq<ObjObjectView>)
    ensures
        all_faces(objects).len() == face_total(objects),
    decreases objects.len(),
{
    if objects.len() > 0 {
        let first = objects[0];
        assert(objects =~= seq![first] + objects.drop_first());
        lemma_all_faces_append(seq![first], objects.drop_first());
        lemma_all_faces_single(first);
        lemma_all_faces_total(objects.drop_first());
    }
}

} // verus!
