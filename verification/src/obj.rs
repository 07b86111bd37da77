//! The parts of an `.obj` file that a grid needs: vertices, and per object the
//! polylines (`l`) and faces (`f`).  Normals, texture coordinates, materials and
//! smoothing groups are skipped.  Vertex coordinates are checked against the
//! syntax of a floating-point literal and kept as text.
use vstd::prelude::*;

use crate::text::{
    append_chars, chars_of, float_literal, is_float_literal, is_single, lemma_line_len, line_end,
    line_len, lines, parse_isize, parse_isize_exec, push_char, string_of, tokens, tokens_in, views,
};

verus! {

// ------------------------------------------------------------------------------------------
// Types and their views
// ------------------------------------------------------------------------------------------

/// The three coordinate tokens of a `v` line.
pub struct Coords {
    pub x: String,
    pub y: String,
    pub z: String,
}

/// One `o` object of an `.obj` file.  Vertex ids index [ObjFile::vertices].
pub struct ObjObject {
    pub name: String,
    pub vertices: Vec<usize>,
    pub lines: Vec<(usize, usize)>,
    pub faces: Vec<Vec<usize>>,
}

/// Vertices, and the objects that refer to them.
pub struct ObjFile {
    pub vertices: Vec<Coords>,
    pub objects: Vec<ObjObject>,
}

/// Why a file could not be read; `line` is 1-based.
pub enum ObjError {
    /// A `v` line with fewer than three coordinates.
    MissingCoordinate { line: usize },
    /// A coordinate that is not a floating-point literal.
    BadCoordinate { line: usize },
    /// A vertex index that is not an integer.
    BadIndex { line: usize, token: String },
    /// The vertex index 0, which `.obj` does not use.
    ZeroIndex { line: usize },
    /// A vertex index past the vertices defined so far.
    NoSuchVertex { line: usize, index: isize },
}

pub struct ObjObjectView {
    pub name: Seq<char>,
    pub vertices: Seq<usize>,
    pub lines: Seq<(usize, usize)>,
    pub faces: Seq<Seq<usize>>,
}

pub struct ObjFileView {
    pub vertices: Seq<(Seq<char>, Seq<char>, Seq<char>)>,
    pub objects: Seq<ObjObjectView>,
}

pub enum ObjErrorView {
    MissingCoordinate(nat),
    BadCoordinate(nat),
    BadIndex(nat, Seq<char>),
    ZeroIndex(nat),
    NoSuchVertex(nat, int),
}

pub open spec fn seq_views(v: Seq<Vec<usize>>) -> Seq<Seq<usize>> {
    v.map_values(|f: Vec<usize>| f@)
}

impl View for Coords {
    type V = (Seq<char>, Seq<char>, Seq<char>);

    open spec fn view(&self) -> Self::V {
        (self.x@, self.y@, self.z@)
    }
}

impl View for ObjObject {
    type V = ObjObjectView;

    open spec fn view(&self) -> ObjObjectView {
        ObjObjectView {
            name: self.name@,
            vertices: self.vertices@,
            lines: self.lines@,
            faces: seq_views(self.faces@),
        }
    }
}

impl View for ObjFile {
    type V = ObjFileView;

    open spec fn view(&self) -> ObjFileView {
        ObjFileView {
            vertices: self.vertices@.map_values(|c: Coords| c@),
            objects: self.objects@.map_values(|o: ObjObject| o@),
        }
    }
}

impl View for ObjError {
    type V = ObjErrorView;

    open spec fn view(&self) -> ObjErrorView {
        match self {
            ObjError::MissingCoordinate { line } => ObjErrorView::MissingCoordinate(*line as nat),
            ObjError::BadCoordinate { line } => ObjErrorView::BadCoordinate(*line as nat),
            ObjError::BadIndex { line, token } => ObjErrorView::BadIndex(*line as nat, token@),
            ObjError::ZeroIndex { line } => ObjErrorView::ZeroIndex(*line as nat),
            ObjError::NoSuchVertex { line, index } => ObjErrorView::NoSuchVertex(
                *line as nat,
                *index as int,
            ),
        }
    }
}

// ------------------------------------------------------------------------------------------
// The grammar
// ------------------------------------------------------------------------------------------

pub open spec fn empty_object() -> ObjObjectView {
    ObjObjectView { name: seq![], vertices: seq![], lines: seq![], faces: seq![] }
}

impl ObjObjectView {
    pub open spec fn is_empty(self) -> bool {
        self.vertices.len() == 0 && self.lines.len() == 0 && self.faces.len() == 0
    }

    /// Dual objects carry faces and no edges.
    pub open spec fn is_dual(self) -> bool {
        self.faces.len() != 0 && self.lines.len() == 0
    }

    /// Every vertex id it mentions is below `n`.
    pub open spec fn ids_below(self, n: nat) -> bool {
        &&& forall|i: int| 0 <= i < self.vertices.len() ==> #[trigger] self.vertices[i] < n
        &&& forall|i: int|
            0 <= i < self.lines.len() ==> #[trigger] self.lines[i].0 < n && self.lines[i].1 < n
        &&& forall|i: int, j: int|
            0 <= i < self.faces.len() && 0 <= j < self.faces[i].len() ==> #[trigger] self.faces[i][j]
                < n
    }
}

impl ObjFileView {
    /// At least one object, and every vertex id refers to a vertex.
    pub open spec fn wf(self) -> bool {
        &&& self.objects.len() > 0
        &&& forall|k: int|
            0 <= k < self.objects.len() ==> #[trigger] self.objects[k].ids_below(
                self.vertices.len(),
            )
    }

    pub open spec fn last_object(self) -> ObjObjectView {
        self.objects.last()
    }

    pub open spec fn with_last(self, o: ObjObjectView) -> ObjFileView {
        ObjFileView { vertices: self.vertices, objects: self.objects.update(self.objects.len() - 1, o) }
    }
}

pub open spec fn initial_file() -> ObjFileView {
    ObjFileView { vertices: seq![], objects: seq![empty_object()] }
}

/// Position of the first `'/'` in `t`, or its length.
pub open spec fn slash_pos(t: Seq<char>) -> nat
    decreases t.len(),
{
    if t.len() == 0 || t[0] == '/' {
        0
    } else {
        1 + slash_pos(t.drop_first())
    }
}

pub proof fn lemma_slash_pos(t: Seq<char>)
    ensures
        slash_pos(t) <= t.len(),
    decreases t.len(),
{
    if t.len() > 0 && t[0] != '/' {
        lemma_slash_pos(t.drop_first());
    }
}

/// The 0-based vertex id of an index token (`a`, `a/t`, `a//n` or `a/t/n`):
/// 1-based, or negative to count back from the last vertex defined so far.
pub open spec fn parse_index(t: Seq<char>, nverts: nat, line: nat) -> Result<usize, ObjErrorView> {
    match parse_isize(t.take(slash_pos(t) as int)) {
        None => Err(ObjErrorView::BadIndex(line, t)),
        Some(n) => if n == 0 {
            Err(ObjErrorView::ZeroIndex(line))
        } else {
            let id = if n > 0 {
                n - 1
            } else {
                nverts + n
            };
            if id < 0 || id >= nverts {
                Err(ObjErrorView::NoSuchVertex(line, n))
            } else {
                Ok(id as usize)
            }
        },
    }
}

/// The ids of all tokens, or the error of the first one that fails.
pub open spec fn parse_indices(toks: Seq<Seq<char>>, nverts: nat, line: nat) -> Result<
    Seq<usize>,
    ObjErrorView,
>
    decreases toks.len(),
{
    if toks.len() == 0 {
        Ok(seq![])
    } else {
        match parse_indices(toks.drop_last(), nverts, line) {
            Err(e) => Err(e),
            Ok(ids) => match parse_index(toks.last(), nverts, line) {
                Err(e) => Err(e),
                Ok(id) => Ok(ids.push(id)),
            },
        }
    }
}

/// Consecutive pairs of a polyline: `(ids[0], ids[1]), (ids[1], ids[2]), ...`.
pub open spec fn chain_pairs(ids: Seq<usize>) -> Seq<(usize, usize)> {
    Seq::new(
        if ids.len() == 0 {
            0
        } else {
            (ids.len() - 1) as nat
        },
        |i: int| (ids[i], ids[i + 1]),
    )
}

/// The tokens joined by single spaces.
pub open spec fn join_words(ts: Seq<Seq<char>>) -> Seq<char>
    decreases ts.len(),
{
    if ts.len() == 0 {
        seq![]
    } else if ts.len() == 1 {
        ts[0]
    } else {
        join_words(ts.drop_last()) + seq![' '] + ts.last()
    }
}

/// The first error among the three coordinates of a `v` line, in order.
pub open spec fn coords_error(toks: Seq<Seq<char>>, line: nat) -> Option<ObjErrorView> {
    if toks.len() < 2 {
        Some(ObjErrorView::MissingCoordinate(line))
    } else if !is_float_literal(toks[1]) {
        Some(ObjErrorView::BadCoordinate(line))
    } else if toks.len() < 3 {
        Some(ObjErrorView::MissingCoordinate(line))
    } else if !is_float_literal(toks[2]) {
        Some(ObjErrorView::BadCoordinate(line))
    } else if toks.len() < 4 {
        Some(ObjErrorView::MissingCoordinate(line))
    } else if !is_float_literal(toks[3]) {
        Some(ObjErrorView::BadCoordinate(line))
    } else {
        None
    }
}

/// The effect of one line, given its tokens.
pub open spec fn parse_line(f: ObjFileView, line: nat, toks: Seq<Seq<char>>) -> Result<
    ObjFileView,
    ObjErrorView,
> {
    let last = f.last_object();
    if toks.len() == 0 {
        Ok(f)
    } else if toks[0] == seq!['v'] {
        match coords_error(toks, line) {
            Some(e) => Err(e),
            None => Ok(
                ObjFileView {
                    vertices: f.vertices.push((toks[1], toks[2], toks[3])),
                    objects: f.objects.update(
                        f.objects.len() - 1,
                        ObjObjectView {
                            vertices: last.vertices.push(f.vertices.len() as usize),
                            ..last
                        },
                    ),
                },
            ),
        }
    } else if toks[0] == seq!['l'] {
        match parse_indices(toks.drop_first(), f.vertices.len(), line) {
            Err(e) => Err(e),
            Ok(ids) => Ok(f.with_last(ObjObjectView { lines: last.lines + chain_pairs(ids), ..last })),
        }
    } else if toks[0] == seq!['f'] {
        match parse_indices(toks.drop_first(), f.vertices.len(), line) {
            Err(e) => Err(e),
            Ok(ids) => Ok(f.with_last(ObjObjectView { faces: last.faces.push(ids), ..last })),
        }
    } else if toks[0] == seq!['o'] {
        let name = join_words(toks.drop_first());
        if last.is_empty() {
            Ok(f.with_last(ObjObjectView { name: name, ..last }))
        } else {
            Ok(ObjFileView { objects: f.objects.push(ObjObjectView { name: name, ..empty_object() }), ..f })
        }
    } else {
        Ok(f)
    }
}

/// The file after its first `k` lines.
pub open spec fn parse_prefix(ls: Seq<Seq<char>>, k: nat) -> Result<ObjFileView, ObjErrorView>
    decreases k,
{
    if k == 0 {
        Ok(initial_file())
    } else {
        match parse_prefix(ls, (k - 1) as nat) {
            Err(e) => Err(e),
            Ok(f) => parse_line(f, k, tokens(ls[k - 1])),
        }
    }
}

/// What reading the text `s` gives: the file, or the first error.
pub open spec fn parse_obj(s: Seq<char>) -> Result<ObjFileView, ObjErrorView> {
    parse_prefix(lines(s), lines(s).len())
}

// ------------------------------------------------------------------------------------------
// Lemmas
// ------------------------------------------------------------------------------------------

pub proof fn lemma_lines_len(s: Seq<char>)
    ensures
        lines(s).len() <= s.len(),
    decreases s.len(),
{
    if s.len() > 0 {
        lemma_line_len(s);
        if line_len(s) < s.len() {
            lemma_lines_len(s.skip(line_len(s) as int + 1));
        }
    }
}

pub proof fn lemma_parse_indices_below(toks: Seq<Seq<char>>, nverts: nat, line: nat)
    ensures
        parse_indices(toks, nverts, line) matches Ok(ids) ==> (forall|i: int|
            0 <= i < ids.len() ==> #[trigger] ids[i] < nverts),
    decreases toks.len(),
{
    if toks.len() > 0 {
        lemma_parse_indices_below(toks.drop_last(), nverts, line);
    }
}

/// A line keeps a well-formed file well-formed.
pub proof fn lemma_parse_line_wf(f: ObjFileView, line: nat, toks: Seq<Seq<char>>)
    requires
        f.wf(),
    ensures
        parse_line(f, line, toks) matches Ok(g) ==> g.wf(),
{
    let last = f.last_object();
    let n = f.objects.len();
    assert(last.ids_below(f.vertices.len()));
    if let Ok(g) = parse_line(f, line, toks) {
        if toks.len() > 0 && toks[0] != seq!['v'] && (toks[0] == seq!['l'] || toks[0] == seq![
            'f',
        ]) {
            lemma_parse_indices_below(toks.drop_first(), f.vertices.len(), line);
        }
        assert forall|k: int| 0 <= k < g.objects.len() implies #[trigger] g.objects[k].ids_below(
            g.vertices.len(),
        ) by {
            if k < n && k != n - 1 {
                assert(g.objects[k] == f.objects[k]);
                assert(f.objects[k].ids_below(f.vertices.len()));
            }
        }
    }
}

pub proof fn lemma_parse_prefix_wf(ls: Seq<Seq<char>>, k: nat)
    ensures
        parse_prefix(ls, k) matches Ok(f) ==> f.wf(),
    decreases k,
{
    if k > 0 {
        lemma_parse_prefix_wf(ls, (k - 1) as nat);
        if let Ok(f) = parse_prefix(ls, (k - 1) as nat) {
            lemma_parse_line_wf(f, k, tokens(ls[k - 1]));
        }
    } else {
        let f = initial_file();
        assert(f.objects[0].ids_below(0));
    }
}

/// Every vertex id in a file that reads without error refers to a vertex.
pub proof fn law_parsed_ids_are_vertices(s: Seq<char>)
    ensures
        parse_obj(s) matches Ok(f) ==> f.wf(),
{
    lemma_parse_prefix_wf(lines(s), lines(s).len());
}

// ------------------------------------------------------------------------------------------
// Reading
// ------------------------------------------------------------------------------------------

fn new_object(name: String) -> (o: ObjObject)
    ensures
        o@ == (ObjObjectView { name: name@, ..empty_object() }),
{
    let o = ObjObject { name, vertices: Vec::new(), lines: Vec::new(), faces: Vec::new() };
    assert(seq_views(o.faces@) =~= Seq::<Seq<usize>>::empty());
    o
}

/// Parses one index token.
fn parse_index_exec(t: &Vec<char>, nverts: usize, line: usize) -> (r: Result<usize, ObjError>)
    ensures
        match r {
            Ok(id) => parse_index(t@, nverts as nat, line as nat) == Ok::<usize, ObjErrorView>(id),
            Err(e) => parse_index(t@, nverts as nat, line as nat) == Err::<usize, ObjErrorView>(
                e@,
            ),
        },
{
    let mut p: usize = 0;
    while p < t.len() && t[p] != '/'
        invariant
            p <= t.len(),
            forall|k: int| 0 <= k < p ==> #[trigger] t@[k] != '/',
        decreases t.len() - p,
    {
        p += 1;
    }
    proof {
        lemma_slash_pos_is(t@, p as nat);
    }
    match parse_isize_exec(t, p) {
        None => Err(ObjError::BadIndex { line, token: string_of(t) }),
        Some(n) => {
            if n == 0 {
                Err(ObjError::ZeroIndex { line })
            } else {
                let id: i128 = if n > 0 {
                    n as i128 - 1
                } else {
                    nverts as i128 + n as i128
                };
                if id < 0 || id >= nverts as i128 {
                    Err(ObjError::NoSuchVertex { line, index: n })
                } else {
                    Ok(id as usize)
                }
            }
        },
    }
}

pub proof fn lemma_slash_pos_is(t: Seq<char>, k: nat)
    requires
        k <= t.len(),
        forall|i: int| 0 <= i < k ==> #[trigger] t[i] != '/',
        k < t.len() ==> t[k as int] == '/',
    ensures
        slash_pos(t) == k,
    decreases t.len(),
{
    if k > 0 {
        assert forall|i: int| 0 <= i < k - 1 implies #[trigger] t.drop_first()[i] != '/' by {
            assert(t.drop_first()[i] == t[i + 1]);
        }
        if (k - 1) < t.drop_first().len() {
            assert(t.drop_first()[k - 1] == t[k as int]);
        }
        lemma_slash_pos_is(t.drop_first(), (k - 1) as nat);
    }
}

/// Parses the index tokens `toks[1..]`.
fn parse_indices_exec(toks: &Vec<Vec<char>>, nverts: usize, line: usize) -> (r: Result<
    Vec<usize>,
    ObjError,
>)
    requires
        toks.len() >= 1,
    ensures
        match r {
            Ok(ids) => parse_indices(views(toks@).drop_first(), nverts as nat, line as nat) == Ok::<
                Seq<usize>,
                ObjErrorView,
            >(ids@),
            Err(e) => parse_indices(views(toks@).drop_first(), nverts as nat, line as nat)
                == Err::<Seq<usize>, ObjErrorView>(e@),
        },
{
    let ghost ts = views(toks@).drop_first();
    let mut ids: Vec<usize> = Vec::new();
    let mut i: usize = 1;
    while i < toks.len()
        invariant
            1 <= i <= toks.len(),
            ts == views(toks@).drop_first(),
            parse_indices(ts.take(i - 1), nverts as nat, line as nat) == Ok::<
                Seq<usize>,
                ObjErrorView,
            >(ids@),
        decreases toks.len() - i,
    {
        assert(ts.take(i as int).drop_last() =~= ts.take(i - 1));
        assert(ts.take(i as int).last() == toks@[i as int]@);
        match parse_index_exec(&toks[i], nverts, line) {
            Err(e) => {
                proof {
                    lemma_parse_indices_err_extends(ts, i as nat, nverts as nat, line as nat);
                }
                return Err(e);
            },
            Ok(id) => {
                ids.push(id);
            },
        }
        i += 1;
    }
    assert(ts.take(toks.len() - 1) =~= ts);
    Ok(ids)
}

/// An error on a prefix is the error of the whole.
proof fn lemma_parse_indices_err_extends(ts: Seq<Seq<char>>, k: nat, nverts: nat, line: nat)
    requires
        k <= ts.len(),
        parse_indices(ts.take(k as int), nverts, line) is Err,
    ensures
        parse_indices(ts, nverts, line) == parse_indices(ts.take(k as int), nverts, line),
    decreases ts.len() - k,
{
    if k < ts.len() {
        assert(ts.take(k as int + 1).drop_last() =~= ts.take(k as int));
        lemma_parse_indices_err_extends(ts, k + 1, nverts, line);
    } else {
        assert(ts.take(k as int) =~= ts);
    }
}

/// The tokens `toks[1..]` joined by single spaces.
fn join_rest(toks: &Vec<Vec<char>>) -> (s: String)
    requires
        toks.len() >= 1,
    ensures
        s@ == join_words(views(toks@).drop_first()),
{
    let ghost ts = views(toks@).drop_first();
    let mut s = String::new();
    let mut i: usize = 1;
    while i < toks.len()
        invariant
            1 <= i <= toks.len(),
            ts == views(toks@).drop_first(),
            s@ == join_words(ts.take(i - 1)),
        decreases toks.len() - i,
    {
        assert(ts.take(i as int).drop_last() =~= ts.take(i - 1));
        assert(ts.take(i as int).last() == toks@[i as int]@);
        if i > 1 {
            push_char(&mut s, ' ');
        } else {
            assert(s@ =~= Seq::<char>::empty());
        }
        append_chars(&mut s, &toks[i]);
        if i == 1 {
            assert(ts.take(1) =~= seq![toks@[1]@]);
        }
        i += 1;
    }
    assert(ts.take(toks.len() - 1) =~= ts);
    s
}

/// Appends the consecutive pairs of `ids` to `lines`.
fn push_chain(lines: &mut Vec<(usize, usize)>, ids: &Vec<usize>)
    ensures
        final(lines)@ == old(lines)@ + chain_pairs(ids@),
{
    let ghost start = old(lines)@;
    if ids.len() == 0 {
        assert(chain_pairs(ids@) =~= Seq::<(usize, usize)>::empty());
        assert(start + chain_pairs(ids@) =~= start);
        return ;
    }
    let mut i: usize = 0;
    while i + 1 < ids.len()
        invariant
            ids.len() >= 1,
            i + 1 <= ids.len(),
            lines@ == start + chain_pairs(ids@).take(i as int),
        decreases ids.len() - i,
    {
        lines.push((ids[i], ids[i + 1]));
        assert(start + chain_pairs(ids@).take(i + 1) =~= (start + chain_pairs(ids@).take(
            i as int,
        )).push((ids@[i as int], ids@[i + 1])));
        i += 1;
    }
    assert(chain_pairs(ids@).take(i as int) =~= chain_pairs(ids@));
}

impl ObjFile {
    /// Reads the text of an `.obj` file.
    ///
    /// Every `o` line starts a new object, unless the current one is still empty, in
    /// which case it only names it.  `v` lines add a vertex to the file and to the
    /// current object, `l` lines add the consecutive pairs of their indices, `f`
    /// lines add a face; every other line is skipped.  The first malformed line
    /// stops the reading.
    pub fn parse(s: &str) -> (r: Result<ObjFile, ObjError>)
        ensures
            match r {
                Ok(f) => parse_obj(s@) == Ok::<ObjFileView, ObjErrorView>(f@) && f@.wf(),
                Err(e) => parse_obj(s@) == Err::<ObjFileView, ObjErrorView>(e@),
            },
    {
        let chars = chars_of(s);
        let ghost ls = lines(chars@);
        let mut file = ObjFile { vertices: Vec::new(), objects: Vec::new() };
        file.objects.push(new_object(String::new()));
        proof {
            assert(file@.vertices =~= Seq::<(Seq<char>, Seq<char>, Seq<char>)>::empty());
            assert(file@.objects =~= seq![empty_object()]);
            lemma_lines_len(chars@);
            assert(chars@.skip(0) =~= chars@);
        }
        let mut pos: usize = 0;
        let mut k: usize = 0;
        while pos < chars.len()
            invariant
                pos <= chars.len(),
                chars@ == s@,
                ls == lines(chars@),
                k <= ls.len(),
                ls.len() <= chars.len(),
                lines(chars@.skip(pos as int)) == ls.skip(k as int),
                parse_prefix(ls, k as nat) == Ok::<ObjFileView, ObjErrorView>(file@),
                file@.wf(),
            decreases chars.len() - pos,
        {
            let e = line_end(&chars, pos);
            let ghost rest = chars@.skip(pos as int);
            proof {
                lemma_line_len(rest);
                assert(rest.take(line_len(rest) as int) =~= chars@.subrange(pos as int, e as int));
                if e < chars.len() {
                    assert(rest.skip(line_len(rest) as int + 1) =~= chars@.skip(e + 1));
                    assert(lines(rest) =~= seq![rest.take(line_len(rest) as int)] + lines(
                        chars@.skip(e + 1),
                    ));
                } else {
                    assert(lines(rest) =~= seq![rest]);
                    assert(rest =~= chars@.subrange(pos as int, e as int));
                }
                assert(ls.skip(k as int).len() > 0);
                assert(ls[k as int] == lines(rest)[0]);
                assert(ls[k as int] == chars@.subrange(pos as int, e as int));
            }
            let toks = tokens_in(&chars, pos, e);
            let line = k + 1;
            let ghost fv = file@;
            let res = Self::parse_line_exec(file, line, &toks);
            proof {
                assert(views(toks@) == tokens(ls[k as int]));
                assert(parse_prefix(ls, (k + 1) as nat) == parse_line(
                    fv,
                    (k + 1) as nat,
                    tokens(ls[k as int]),
                ));
                assert(chars@ == s@);
            }
            match res {
                Err(err) => {
                    proof {
                        lemma_prefix_err_extends(ls, (k + 1) as nat);
                    }
                    return Err(err);
                },
                Ok(f) => {
                    file = f;
                },
            }
            proof {
                lemma_parse_line_wf(fv, line as nat, tokens(ls[k as int]));
                assert(ls.skip(k + 1) =~= ls.skip(k as int).drop_first());
                if e < chars.len() {
                    assert(lines(rest).drop_first() =~= lines(chars@.skip(e + 1)));
                    assert(lines(chars@.skip(e + 1)) =~= ls.skip(k + 1));
                } else {
                    assert(ls.skip(k + 1) =~= Seq::<Seq<char>>::empty());
                    assert(chars@.skip(e as int) =~= Seq::<char>::empty());
                }
            }
            k = k + 1;
            pos = if e < chars.len() {
                e + 1
            } else {
                e
            };
        }
        proof {
            assert(chars@.skip(pos as int) =~= Seq::<char>::empty());
            assert(ls.skip(k as int).len() == 0);
        }
        Ok(file)
    }

    /// Applies one line to the file.
    fn parse_line_exec(file: ObjFile, line: usize, toks: &Vec<Vec<char>>) -> (r: Result<
        ObjFile,
        ObjError,
    >)
        requires
            file@.wf(),
        ensures
            match r {
                Ok(f) => parse_line(file@, line as nat, views(toks@)) == Ok::<
                    ObjFileView,
                    ObjErrorView,
                >(f@),
                Err(e) => parse_line(file@, line as nat, views(toks@)) == Err::<
                    ObjFileView,
                    ObjErrorView,
                >(e@),
            },
    {
        let mut file = file;
        let ghost f0 = file@;
        let ghost ts = views(toks@);
        if toks.len() == 0 {
            return Ok(file);
        }
        assert(ts[0] == toks@[0]@);
        if is_single(&toks[0], 'v') {
            let ghost err = coords_error(ts, line as nat);
            if toks.len() < 2 {
                return Err(ObjError::MissingCoordinate { line });
            }
            assert(ts[1] == toks@[1]@);
            if !float_literal(&toks[1]) {
                return Err(ObjError::BadCoordinate { line });
            }
            if toks.len() < 3 {
                return Err(ObjError::MissingCoordinate { line });
            }
            assert(ts[2] == toks@[2]@);
            if !float_literal(&toks[2]) {
                return Err(ObjError::BadCoordinate { line });
            }
            if toks.len() < 4 {
                return Err(ObjError::MissingCoordinate { line });
            }
            assert(ts[3] == toks@[3]@);
            if !float_literal(&toks[3]) {
                return Err(ObjError::BadCoordinate { line });
            }
            let id = file.vertices.len();
            let c = Coords {
                x: string_of(&toks[1]),
                y: string_of(&toks[2]),
                z: string_of(&toks[3]),
            };
            file.vertices.push(c);
            let mut o = file.objects.pop().unwrap();
            o.vertices.push(id);
            file.objects.push(o);
            proof {
                assert(file@.vertices =~= f0.vertices.push((ts[1], ts[2], ts[3])));
                assert(file@.objects =~= f0.objects.update(
                    f0.objects.len() - 1,
                    ObjObjectView {
                        vertices: f0.last_object().vertices.push(f0.vertices.len() as usize),
                        ..f0.last_object()
                    },
                ));
            }
            return Ok(file);
        }
        let is_l = is_single(&toks[0], 'l');
        let is_f = is_single(&toks[0], 'f');
        if is_l || is_f {
            let ids = match parse_indices_exec(toks, file.vertices.len(), line) {
                Err(e) => {
                    return Err(e);
                },
                Ok(ids) => ids,
            };
            let mut o = file.objects.pop().unwrap();
            let ghost last = f0.last_object();
            assert(o@ == last);
            if is_l {
                push_chain(&mut o.lines, &ids);
                file.objects.push(o);
                assert(file@.objects =~= f0.objects.update(
                    f0.objects.len() - 1,
                    ObjObjectView { lines: last.lines + chain_pairs(ids@), ..last },
                ));
            } else {
                o.faces.push(ids);
                file.objects.push(o);
                assert(seq_views(o.faces@) =~= last.faces.push(ids@));
                assert(file@.objects =~= f0.objects.update(
                    f0.objects.len() - 1,
                    ObjObjectView { faces: last.faces.push(ids@), ..last },
                ));
            }
            assert(file@.vertices == f0.vertices);
            return Ok(file);
        }
        if is_single(&toks[0], 'o') {
            let name = join_rest(toks);
            let mut o = file.objects.pop().unwrap();
            let ghost last = f0.last_object();
            assert(o@ == last);
            if o.vertices.len() == 0 && o.lines.len() == 0 && o.faces.len() == 0 {
                o.name = name;
                file.objects.push(o);
                assert(file@.objects =~= f0.objects.update(
                    f0.objects.len() - 1,
                    ObjObjectView { name: join_words(ts.drop_first()), ..last },
                ));
            } else {
                file.objects.push(o);
                assert(file@.objects =~= f0.objects);
                let n = new_object(name);
                file.objects.push(n);
                assert(file@.objects =~= f0.objects.push(
                    ObjObjectView { name: join_words(ts.drop_first()), ..empty_object() },
                ));
            }
            return Ok(file);
        }
        Ok(file)
    }
}

/// An error after `k` lines is the error of the whole file.
proof fn lemma_prefix_err_extends(ls: Seq<Seq<char>>, k: nat)
    requires
        k <= ls.len(),
        parse_prefix(ls, k) is Err,
    ensures
        parse_prefix(ls, ls.len()) == parse_prefix(ls, k),
    decreases ls.len() - k,
{
    if k < ls.len() {
        lemma_prefix_err_extends(ls, k + 1);
    }
}

} // verus!
