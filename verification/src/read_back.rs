//! What reading gives back of what `write_as_obj` and `block_to_obj` wrote: the text
//! splits into the written lines, each line into the written tokens, and the grammar of
//! `obj` turns them back into the points, the edges and the dual polygons.
use vstd::prelude::*;

use crate::block_obj::{
    chosen_edges, dual_head, edge_line, edge_lines, face_line, face_token, fan_lines,
    lemma_concat_append, lemma_edge_lines_append, normal_line, obj_head, obj_text, wall_lines,
    walls_text, ObjOptions,
};
use crate::lattice::{lattice_name, pair_lt, pairs_ok, walls_ok, LatticeBlock, Point3};
use crate::edges::{adjacency, endpoints_below, lemma_adjacency, lists};
use crate::grid_obj::{dual_lines, face_counts, grid_lines, grid_text, row_lines, total, upto};
use crate::mesh::{
    assign_points, collect_prefix, collect_spec, faces_below, map_lines, PartsView,
    VineyardsGridMesh,
};
use crate::obj::{
    chain_pairs, coords_error, empty_object, initial_file, join_words, lemma_slash_pos_is,
    parse_index, parse_indices, parse_line, parse_obj, parse_prefix, slash_pos, ObjErrorView,
    ObjFileView, ObjObjectView,
};
use crate::text::{
    all_digits, concat, decimal, digit_char, digit_value, digits_value, is_ascii_ws, is_digit,
    is_float_literal, join_spaced, lemma_line_len, lemma_line_len_is, lemma_word_len_bounds,
    lemma_word_len_is, line_len, lines, parse_isize, tokens, word_len,
};

verus! {

// ------------------------------------------------------------------------------------------
// Lines and tokens of joined text
// ------------------------------------------------------------------------------------------

/// Text that ends with a newline (or is empty) splits into its own lines, then those of
/// what follows.
pub(crate) proof fn lemma_lines_append(s: Seq<char>, r: Seq<char>)
    requires
        s.len() == 0 || s.last() == '\n',
    ensures
        lines(s + r) == lines(s) + lines(r),
    decreases s.len(),
{
    if s.len() == 0 {
        assert(s + r =~= r);
        assert(lines(s) =~= Seq::<Seq<char>>::empty());
        assert(lines(s) + lines(r) =~= lines(r));
    } else {
        let t = s + r;
        lemma_line_len(s);
        let k = line_len(s);
        if k == s.len() {
            assert(s[s.len() - 1] != '\n');
        }
        assert(k < s.len());
        assert forall|i: int| 0 <= i < k implies #[trigger] t[i] != '\n' by {
            assert(t[i] == s[i]);
        }
        assert(t[k as int] == s[k as int]);
        lemma_line_len_is(t, k);
        let rest = s.skip(k as int + 1);
        assert(t.take(k as int) =~= s.take(k as int));
        assert(t.skip(k as int + 1) =~= rest + r);
        if rest.len() > 0 {
            assert(rest.last() == s.last());
        }
        lemma_lines_append(rest, r);
        assert(lines(t) == seq![s.take(k as int)] + lines(rest + r));
        assert(lines(s) == seq![s.take(k as int)] + lines(rest));
        assert(lines(t) =~= lines(s) + lines(r));
    }
}

/// A line without a newline, then a newline, is that one line.
pub(crate) proof fn lemma_lines_single(x: Seq<char>)
    requires
        forall|i: int| 0 <= i < x.len() ==> #[trigger] x[i] != '\n',
    ensures
        lines(x.push('\n')) == seq![x],
{
    let s = x.push('\n');
    assert forall|i: int| 0 <= i < x.len() implies #[trigger] s[i] != '\n' by {
        assert(s[i] == x[i]);
    }
    lemma_line_len_is(s, x.len());
    assert(s.take(x.len() as int) =~= x);
    let e = s.skip(x.len() as int + 1);
    assert(e =~= Seq::<char>::empty());
    assert(lines(e) =~= Seq::<Seq<char>>::empty());
    assert(lines(s) == seq![s.take(x.len() as int)] + lines(e));
    assert(lines(s) =~= seq![x]);
}

/// Text split at whitespace tokenizes piece by piece.
pub(crate) proof fn lemma_tokens_append(a: Seq<char>, b: Seq<char>)
    requires
        a.len() == 0 || b.len() == 0 || is_ascii_ws(a.last()) || is_ascii_ws(b[0]),
    ensures
        tokens(a + b) == tokens(a) + tokens(b),
    decreases a.len(),
{
    let t = a + b;
    if a.len() == 0 {
        assert(t =~= b);
        assert(tokens(a) + tokens(b) =~= tokens(b));
    } else if b.len() == 0 {
        assert(t =~= a);
        assert(tokens(a) + tokens(b) =~= tokens(a));
    } else if is_ascii_ws(a[0]) {
        assert(t[0] == a[0]);
        assert(t.drop_first() =~= a.drop_first() + b);
        if a.drop_first().len() > 0 {
            assert(a.drop_first().last() == a.last());
        }
        lemma_tokens_append(a.drop_first(), b);
    } else {
        lemma_word_len_bounds(a);
        let k = word_len(a);
        assert(t[0] == a[0]);
        assert forall|i: int| 0 <= i < k implies !is_ascii_ws(#[trigger] t[i]) by {
            assert(t[i] == a[i]);
        }
        if k < a.len() {
            assert(t[k as int] == a[k as int]);
        } else {
            assert(!is_ascii_ws(a[a.len() - 1]));
            assert(t[k as int] == b[0]);
        }
        lemma_word_len_is(t, k);
        lemma_word_len_bounds(t);
        let rest = a.skip(k as int);
        assert(t.take(k as int) =~= a.take(k as int));
        assert(t.skip(k as int) =~= rest + b);
        if rest.len() > 0 {
            assert(rest.last() == a.last());
        }
        lemma_tokens_append(rest, b);
        assert(tokens(t) == seq![a.take(k as int)] + tokens(rest + b));
        assert(tokens(a) == seq![a.take(k as int)] + tokens(rest));
        assert(tokens(t) =~= tokens(a) + tokens(b));
    }
}

/// A word without whitespace is one token.
proof fn lemma_tokens_word(w: Seq<char>)
    requires
        w.len() > 0,
        forall|i: int| 0 <= i < w.len() ==> !is_ascii_ws(#[trigger] w[i]),
    ensures
        tokens(w) == seq![w],
{
    assert(!is_ascii_ws(w[0]));
    lemma_word_len_is(w, w.len());
    lemma_word_len_bounds(w);
    assert(w.take(w.len() as int) =~= w);
    let e = w.skip(w.len() as int);
    assert(e =~= Seq::<char>::empty());
    assert(tokens(e) =~= Seq::<Seq<char>>::empty());
    assert(tokens(w) == seq![w.take(w.len() as int)] + tokens(e));
    assert(tokens(w) =~= seq![w]);
}

/// Whitespace alone has no tokens.
pub(crate) proof fn lemma_tokens_space(c: char)
    requires
        is_ascii_ws(c),
    ensures
        tokens(seq![c]) == Seq::<Seq<char>>::empty(),
{
    assert(seq![c].drop_first() =~= Seq::<char>::empty());
    assert(tokens(Seq::<char>::empty()) =~= Seq::<Seq<char>>::empty());
    assert(tokens(seq![c]) == tokens(seq![c].drop_first()));
}

// ------------------------------------------------------------------------------------------
// Decimal numbers read back
// ------------------------------------------------------------------------------------------

/// The decimal representation of `n` is a non-empty string of digits of value `n`.
proof fn lemma_decimal(n: nat)
    ensures
        decimal(n).len() > 0,
        all_digits(decimal(n)),
        digits_value(decimal(n)) == n,
    decreases n,
{
    let c = digit_char(n % 10);
    assert(c as int == '0' as int + n % 10);
    assert(is_digit(c));
    assert(digit_value(c) == n % 10);
    if n < 10 {
        assert(decimal(n) == seq![c]);
        assert(seq![c].drop_last() =~= Seq::<char>::empty());
        assert(digits_value(Seq::<char>::empty()) == 0);
        assert(digits_value(seq![c]) == digits_value(seq![c].drop_last()) * 10 + digit_value(c));
    } else {
        lemma_decimal(n / 10);
        let d = decimal(n / 10);
        assert(decimal(n) == d.push(c));
        assert(d.push(c).drop_last() =~= d);
        assert(all_digits(d.push(c))) by {
            assert forall|i: int| 0 <= i < d.push(c).len() implies is_digit(#[trigger] d.push(c)[i]) by {
                if i < d.len() {
                    assert(d.push(c)[i] == d[i]);
                }
            }
        }
    }
}

/// A digit string has neither whitespace, nor `/`, nor a newline.
proof fn lemma_digits_plain(s: Seq<char>)
    requires
        all_digits(s),
    ensures
        forall|i: int| 0 <= i < s.len() ==> !is_ascii_ws(#[trigger] s[i]),
        forall|i: int| 0 <= i < s.len() ==> #[trigger] s[i] != '/' && s[i] != '\n',
{
    assert forall|i: int| 0 <= i < s.len() implies !is_ascii_ws(#[trigger] s[i]) by {
        assert(is_digit(s[i]));
    }
    assert forall|i: int| 0 <= i < s.len() implies #[trigger] s[i] != '/' && s[i] != '\n' by {
        assert(is_digit(s[i]));
    }
}

/// `decimal(n)` reads back as `n`.
proof fn lemma_parse_isize_decimal(n: nat)
    requires
        1 <= n <= isize::MAX,
    ensures
        parse_isize(decimal(n)) == Some(n as int),
{
    let t = decimal(n);
    lemma_decimal(n);
    assert(is_digit(t[0]));
}

/// The token `decimal(id + 1)` names the vertex `id`.
proof fn lemma_parse_decimal_index(id: nat, nverts: nat, line: nat)
    requires
        id < nverts,
        id + 1 <= isize::MAX,
    ensures
        parse_index(decimal(id + 1), nverts, line) == Ok::<usize, ObjErrorView>(id as usize),
{
    let t = decimal(id + 1);
    lemma_decimal(id + 1);
    lemma_digits_plain(t);
    lemma_slash_pos_is(t, t.len());
    assert(t.take(slash_pos(t) as int) =~= t);
    lemma_parse_isize_decimal(id + 1);
}

/// Tokens that each name a vertex give those vertices.
proof fn lemma_parse_indices_each(ts: Seq<Seq<char>>, ids: Seq<usize>, nverts: nat, line: nat)
    requires
        ts.len() == ids.len(),
        forall|k: int| 0 <= k < ts.len() ==> parse_index(#[trigger] ts[k], nverts, line) == Ok::<usize, ObjErrorView>(ids[k]),
    ensures
        parse_indices(ts, nverts, line) == Ok::<Seq<usize>, ObjErrorView>(ids),
    decreases ts.len(),
{
    if ts.len() == 0 {
        assert(ids =~= Seq::<usize>::empty());
    } else {
        let n = (ts.len() - 1) as int;
        assert forall|k: int| 0 <= k < n implies parse_index(#[trigger] ts.drop_last()[k], nverts, line)
            == Ok::<usize, ObjErrorView>(ids.drop_last()[k]) by {
            assert(ts.drop_last()[k] == ts[k]);
            assert(ids.drop_last()[k] == ids[k]);
        }
        lemma_parse_indices_each(ts.drop_last(), ids.drop_last(), nverts, line);
        assert(parse_index(ts[n], nverts, line) == Ok::<usize, ObjErrorView>(ids[n]));
        assert(ids.drop_last().push(ids[n]) =~= ids);
    }
}

/// A face token has neither whitespace nor a newline.
proof fn lemma_face_token_plain(base: nat, v: usize, normals: bool)
    ensures
        face_token(base, v, normals).len() > 0,
        forall|i: int| 0 <= i < face_token(base, v, normals).len() ==> !is_ascii_ws(
            #[trigger] face_token(base, v, normals)[i],
        ) && face_token(base, v, normals)[i] != '\n',
{
    let d = decimal((base + v + 1) as nat);
    lemma_decimal((base + v + 1) as nat);
    lemma_digits_plain(d);
    let t = face_token(base, v, normals);
    assert forall|i: int| 0 <= i < t.len() implies !is_ascii_ws(#[trigger] t[i]) && t[i] != '\n' by {
        if i < d.len() {
            assert(t[i] == d[i]);
        } else {
            assert(t[i] == seq!['/', '/', '1'][i - d.len()]);
        }
    }
}

/// A face token names the vertex `base + v`.
proof fn lemma_parse_face_token(base: nat, v: usize, normals: bool, nverts: nat, line: nat)
    requires
        base + v < nverts,
        base + v + 1 <= isize::MAX,
    ensures
        parse_index(face_token(base, v, normals), nverts, line) == Ok::<usize, ObjErrorView>(
            (base + v) as usize,
        ),
{
    let d = decimal((base + v + 1) as nat);
    lemma_decimal((base + v + 1) as nat);
    lemma_digits_plain(d);
    let t = face_token(base, v, normals);
    assert forall|i: int| 0 <= i < d.len() implies #[trigger] t[i] != '/' by {
        assert(t[i] == d[i]);
    }
    if normals {
        assert(t[d.len() as int] == '/');
    } else {
        assert(t =~= d);
    }
    lemma_slash_pos_is(t, d.len());
    assert(t.take(slash_pos(t) as int) =~= d);
    lemma_parse_isize_decimal((base + v + 1) as nat);
}

// ------------------------------------------------------------------------------------------
// The lines of the written text
// ------------------------------------------------------------------------------------------

/// One line: text without a newline, then a newline.
pub open spec fn is_one_line(p: Seq<char>) -> bool {
    &&& p.len() > 0
    &&& p.last() == '\n'
    &&& forall|i: int| 0 <= i < p.len() - 1 ==> #[trigger] p[i] != '\n'
}

/// Tokens of a `v` line: `v` and three floating-point literals (more are ignored).
pub open spec fn is_v_tokens(t: Seq<Seq<char>>) -> bool {
    &&& t.len() >= 4
    &&& t[0] == seq!['v']
    &&& is_float_literal(t[1])
    &&& is_float_literal(t[2])
    &&& is_float_literal(t[3])
}

/// A `v` line of a point or of a dual-face vertex, as written.
pub open spec fn is_v_line(p: Seq<char>) -> bool {
    is_one_line(p) && is_v_tokens(tokens(p.drop_last()))
}

/// The three coordinate tokens of a `v` line.
pub open spec fn coords_of(p: Seq<char>) -> (Seq<char>, Seq<char>, Seq<char>) {
    let t = tokens(p.drop_last());
    (t[1], t[2], t[3])
}

/// The lines without their newlines.
pub open spec fn bodies(ps: Seq<Seq<char>>) -> Seq<Seq<char>> {
    ps.map_values(|p: Seq<char>| p.drop_last())
}

/// The edges `(a, b)` with `a <= b` of one adjacency list, as `write_as_obj` writes them.
pub open spec fn row_pairs(a: int, l: Seq<isize>) -> Seq<(usize, usize)>
    decreases l.len(),
{
    if l.len() == 0 {
        seq![]
    } else {
        row_pairs(a, l.drop_last()) + if l.last() < a {
            seq![]
        } else {
            seq![(a as usize, l.last() as usize)]
        }
    }
}

/// The written edges of all adjacency lists, row by row.
pub open spec fn line_pairs(nb: Seq<Seq<isize>>) -> Seq<(usize, usize)>
    decreases nb.len(),
{
    if nb.len() == 0 {
        seq![]
    } else {
        line_pairs(nb.drop_last()) + row_pairs(nb.len() - 1, nb.last())
    }
}

/// The lines of the dual faces: each face's vertex lines, then its `f` line, with the
/// vertices of the faces numbered on from `base`.
pub open spec fn dual_body_lines(base: nat, fv: Seq<Seq<Seq<char>>>, ns: Seq<nat>) -> Seq<Seq<char>>
    decreases fv.len(),
{
    if fv.len() == 0 {
        seq![]
    } else {
        dual_body_lines(base, fv.drop_last(), ns.drop_last()) + bodies(fv.last()) + seq![
            face_line(base + total(ns.drop_last()), upto(ns.last()), false).drop_last(),
        ]
    }
}

proof fn lemma_concat_single(x: Seq<char>)
    ensures
        concat(seq![x]) == x,
{
    assert(seq![x].drop_last() =~= Seq::<Seq<char>>::empty());
    assert(concat(Seq::<Seq<char>>::empty()) =~= Seq::<char>::empty());
    assert(concat(seq![x]) == concat(seq![x].drop_last()) + x);
    assert(Seq::<char>::empty() + x =~= x);
}

/// Single lines one after another split back into their bodies.
proof fn lemma_lines_concat(ps: Seq<Seq<char>>)
    requires
        forall|i: int| 0 <= i < ps.len() ==> is_one_line(#[trigger] ps[i]),
    ensures
        lines(concat(ps)) == bodies(ps),
        concat(ps).len() == 0 || concat(ps).last() == '\n',
    decreases ps.len(),
{
    if ps.len() == 0 {
        assert(lines(Seq::<char>::empty()) =~= Seq::<Seq<char>>::empty());
        assert(bodies(ps) =~= Seq::<Seq<char>>::empty());
    } else {
        let d = ps.drop_last();
        let p = ps.last();
        assert forall|i: int| 0 <= i < d.len() implies is_one_line(#[trigger] d[i]) by {
            assert(d[i] == ps[i]);
        }
        lemma_lines_concat(d);
        assert(is_one_line(ps[ps.len() - 1]));
        let x = p.drop_last();
        assert forall|i: int| 0 <= i < x.len() implies #[trigger] x[i] != '\n' by {
            assert(x[i] == p[i]);
        }
        assert(x.push('\n') =~= p);
        lemma_lines_single(x);
        lemma_lines_append(concat(d), p);
        assert(bodies(ps) =~= bodies(d) + seq![x]);
    }
}

/// An `l` line as written is one line.
proof fn lemma_edge_line_one(e: (usize, usize))
    ensures
        is_one_line(edge_line(e)),
{
    let d1 = decimal((e.0 + 1) as nat);
    let d2 = decimal((e.1 + 1) as nat);
    lemma_decimal((e.0 + 1) as nat);
    lemma_decimal((e.1 + 1) as nat);
    lemma_digits_plain(d1);
    lemma_digits_plain(d2);
    let p = edge_line(e);
    assert forall|i: int| 0 <= i < p.len() - 1 implies #[trigger] p[i] != '\n' by {
        if 2 <= i < 2 + d1.len() {
            assert(p[i] == d1[i - 2]);
        } else if 3 + d1.len() <= i < 3 + d1.len() + d2.len() {
            assert(p[i] == d2[i - 3 - d1.len()]);
        }
    }
}

/// The `l` lines of the edges split back into one line per edge.
proof fn lemma_edge_lines_lines(es: Seq<(usize, usize)>)
    ensures
        lines(edge_lines(es)) == bodies(es.map_values(|e: (usize, usize)| edge_line(e))),
        edge_lines(es).len() == 0 || edge_lines(es).last() == '\n',
{
    let ps = es.map_values(|e: (usize, usize)| edge_line(e));
    assert forall|i: int| 0 <= i < ps.len() implies is_one_line(#[trigger] ps[i]) by {
        lemma_edge_line_one(es[i]);
    }
    lemma_lines_concat(ps);
}

/// The `l` lines of a row are those of its written edges.
proof fn lemma_row_lines(a: int, l: Seq<isize>)
    ensures
        row_lines(a, l) == edge_lines(row_pairs(a, l)),
    decreases l.len(),
{
    if l.len() == 0 {
        assert(edge_lines(Seq::<(usize, usize)>::empty()) =~= Seq::<char>::empty()) by {
            assert(Seq::<(usize, usize)>::empty().map_values(|e: (usize, usize)| edge_line(e))
                =~= Seq::<Seq<char>>::empty());
        }
    } else {
        lemma_row_lines(a, l.drop_last());
        let tail = if l.last() < a {
            Seq::<(usize, usize)>::empty()
        } else {
            seq![(a as usize, l.last() as usize)]
        };
        lemma_edge_lines_append(row_pairs(a, l.drop_last()), tail);
        if l.last() < a {
            assert(tail.map_values(|e: (usize, usize)| edge_line(e)) =~= Seq::<Seq<char>>::empty());
            assert(edge_lines(tail) =~= Seq::<char>::empty());
        } else {
            let e = (a as usize, l.last() as usize);
            assert(tail.map_values(|e: (usize, usize)| edge_line(e)) =~= seq![edge_line(e)]);
            lemma_concat_single(edge_line(e));
        }
        assert(row_lines(a, l) =~= edge_lines(row_pairs(a, l)));
    }
}

/// The `l` lines of the grid are those of its written edges.
proof fn lemma_grid_lines(nb: Seq<Seq<isize>>)
    ensures
        grid_lines(nb) == edge_lines(line_pairs(nb)),
    decreases nb.len(),
{
    if nb.len() == 0 {
        assert(edge_lines(Seq::<(usize, usize)>::empty()) =~= Seq::<char>::empty()) by {
            assert(Seq::<(usize, usize)>::empty().map_values(|e: (usize, usize)| edge_line(e))
                =~= Seq::<Seq<char>>::empty());
        }
    } else {
        lemma_grid_lines(nb.drop_last());
        lemma_row_lines(nb.len() - 1, nb.last());
        lemma_edge_lines_append(line_pairs(nb.drop_last()), row_pairs(nb.len() - 1, nb.last()));
    }
}

/// The tokens of an `f` line: the face's vertex tokens.
pub open spec fn face_toks(base: nat, ids: Seq<usize>, normals: bool) -> Seq<Seq<char>> {
    ids.map_values(|v: usize| face_token(base, v, normals))
}

/// An `f` line as written is one line, of `f` and the face's vertex tokens.
proof fn lemma_face_line(base: nat, ids: Seq<usize>, normals: bool)
    ensures
        is_one_line(face_line(base, ids, normals)),
        tokens(face_line(base, ids, normals).drop_last()) == seq![seq!['f']] + face_toks(base, ids, normals),
{
    let ts = face_toks(base, ids, normals);
    let j = join_spaced(ts);
    assert forall|k: int| 0 <= k < ts.len() implies (#[trigger] ts[k]).len() > 0 && forall|i: int|
        0 <= i < ts[k].len() ==> !is_ascii_ws(#[trigger] ts[k][i]) && ts[k][i] != '\n' by {
        lemma_face_token_plain(base, ids[k], normals);
    }
    lemma_join_no_newline(ts);
    let p = face_line(base, ids, normals);
    assert forall|i: int| 0 <= i < p.len() - 1 implies #[trigger] p[i] != '\n' by {
        if 2 <= i {
            assert(p[i] == j[i - 2]);
        }
    }
    lemma_tokens_join(ts);
    assert(p.drop_last() =~= seq!['f'] + (seq![' '] + j));
    lemma_tokens_space(' ');
    lemma_tokens_append(seq![' '], j);
    lemma_tokens_word(seq!['f']);
    lemma_tokens_append(seq!['f'], seq![' '] + j);
    assert(tokens(seq!['f'] + (seq![' '] + j)) =~= seq![seq!['f']] + ts);
}

/// Pieces without newlines, joined by spaces, have no newline.
proof fn lemma_join_no_newline(ts: Seq<Seq<char>>)
    requires
        forall|k: int| 0 <= k < ts.len() ==> forall|i: int|
            0 <= i < (#[trigger] ts[k]).len() ==> #[trigger] ts[k][i] != '\n',
    ensures
        forall|i: int| 0 <= i < join_spaced(ts).len() ==> #[trigger] join_spaced(ts)[i] != '\n',
    decreases ts.len(),
{
    if ts.len() == 1 {
        assert(forall|i: int| 0 <= i < ts[0].len() ==> #[trigger] ts[0][i] != '\n');
    } else if ts.len() > 1 {
        let d = ts.drop_last();
        assert forall|k: int| 0 <= k < d.len() implies forall|i: int|
            0 <= i < (#[trigger] d[k]).len() ==> #[trigger] d[k][i] != '\n' by {
            assert(d[k] == ts[k]);
        }
        lemma_join_no_newline(d);
        let a = join_spaced(d);
        let w = ts.last();
        assert(forall|i: int| 0 <= i < w.len() ==> #[trigger] w[i] != '\n') by {
            assert(w == ts[ts.len() - 1]);
        }
        let j = join_spaced(ts);
        assert(j == a + seq![' '] + w);
        assert forall|i: int| 0 <= i < j.len() implies #[trigger] j[i] != '\n' by {
            if i < a.len() {
                assert(j[i] == a[i]);
            } else if i > a.len() {
                assert(j[i] == w[i - a.len() - 1]);
            }
        }
    }
}

/// The lines of the dual part of the text.
proof fn lemma_dual_lines_lines(base: nat, fv: Seq<Seq<Seq<char>>>, ns: Seq<nat>)
    requires
        ns.len() == fv.len(),
        forall|f: int, i: int|
            0 <= f < fv.len() && 0 <= i < fv[f].len() ==> is_one_line(#[trigger] fv[f][i]),
    ensures
        lines(dual_lines(base, fv.map_values(|v: Seq<Seq<char>>| concat(v)), ns)) == dual_body_lines(
            base,
            fv,
            ns,
        ),
        dual_lines(base, fv.map_values(|v: Seq<Seq<char>>| concat(v)), ns).len() == 0 || dual_lines(
            base,
            fv.map_values(|v: Seq<Seq<char>>| concat(v)),
            ns,
        ).last() == '\n',
    decreases fv.len(),
{
    let vs = fv.map_values(|v: Seq<Seq<char>>| concat(v));
    if fv.len() == 0 {
        assert(lines(Seq::<char>::empty()) =~= Seq::<Seq<char>>::empty());
    } else {
        let d = fv.drop_last();
        assert forall|f: int, i: int| 0 <= f < d.len() && 0 <= i < d[f].len() implies is_one_line(
            #[trigger] d[f][i],
        ) by {
            assert(d[f] == fv[f]);
        }
        lemma_dual_lines_lines(base, d, ns.drop_last());
        assert(vs.drop_last() =~= d.map_values(|v: Seq<Seq<char>>| concat(v)));
        let front = dual_lines(base, vs.drop_last(), ns.drop_last());
        let last = fv.last();
        assert forall|i: int| 0 <= i < last.len() implies is_one_line(#[trigger] last[i]) by {
            assert(last[i] == fv[fv.len() - 1][i]);
        }
        lemma_lines_concat(last);
        assert(vs.last() == concat(last));
        let fl = face_line(base + total(ns.drop_last()), upto(ns.last()), false);
        lemma_face_line(base + total(ns.drop_last()), upto(ns.last()), false);
        let x = fl.drop_last();
        assert forall|i: int| 0 <= i < x.len() implies #[trigger] x[i] != '\n' by {
            assert(x[i] == fl[i]);
        }
        assert(x.push('\n') =~= fl);
        lemma_lines_single(x);
        let whole = dual_lines(base, vs, ns);
        assert(whole == front + concat(last) + fl);
        lemma_lines_append(front, concat(last) + fl);
        lemma_lines_append(concat(last), fl);
        assert(front + concat(last) + fl =~= front + (concat(last) + fl));
        assert(lines(whole) =~= dual_body_lines(base, fv, ns));
    }
}

// ------------------------------------------------------------------------------------------
// The tokens of the written lines
// ------------------------------------------------------------------------------------------

/// Words without whitespace, joined by spaces, tokenize back into the words.
proof fn lemma_tokens_join(ts: Seq<Seq<char>>)
    requires
        forall|k: int| 0 <= k < ts.len() ==> (#[trigger] ts[k]).len() > 0,
        forall|k: int, i: int| 0 <= k < ts.len() && 0 <= i < ts[k].len() ==> !is_ascii_ws(#[trigger] ts[k][i]),
    ensures
        tokens(join_spaced(ts)) == ts,
    decreases ts.len(),
{
    if ts.len() == 0 {
        assert(tokens(Seq::<char>::empty()) =~= Seq::<Seq<char>>::empty());
    } else if ts.len() == 1 {
        assert(ts[0].len() > 0);
        assert(forall|i: int| 0 <= i < ts[0].len() ==> !is_ascii_ws(#[trigger] ts[0][i]));
        lemma_tokens_word(ts[0]);
        assert(ts =~= seq![ts[0]]);
    } else {
        let d = ts.drop_last();
        assert forall|k: int| 0 <= k < d.len() implies (#[trigger] d[k]).len() > 0 by {
            assert(d[k] == ts[k]);
        }
        assert forall|k: int, i: int| 0 <= k < d.len() && 0 <= i < d[k].len() implies !is_ascii_ws(
            #[trigger] d[k][i],
        ) by {
            assert(d[k] == ts[k]);
        }
        lemma_tokens_join(d);
        let w = ts.last();
        assert(w == ts[ts.len() - 1]);
        assert(forall|i: int| 0 <= i < w.len() ==> !is_ascii_ws(#[trigger] w[i]));
        lemma_tokens_word(w);
        let a = join_spaced(d);
        lemma_tokens_append(a, seq![' ']);
        lemma_tokens_space(' ');
        lemma_tokens_append(a + seq![' '], w);
        assert(join_spaced(ts) == a + seq![' '] + w);
        assert(tokens(join_spaced(ts)) =~= ts);
    }
}

/// The tokens of a written `l` line: `l` and the two 1-based ids.
proof fn lemma_tokens_edge(e: (usize, usize))
    ensures
        tokens(edge_line(e).drop_last()) == seq![
            seq!['l'],
            decimal((e.0 + 1) as nat),
            decimal((e.1 + 1) as nat),
        ],
{
    let d1 = decimal((e.0 + 1) as nat);
    let d2 = decimal((e.1 + 1) as nat);
    lemma_decimal((e.0 + 1) as nat);
    lemma_decimal((e.1 + 1) as nat);
    lemma_digits_plain(d1);
    lemma_digits_plain(d2);
    let r3 = seq![' '] + d2;
    let r2 = d1 + r3;
    let r1 = seq![' '] + r2;
    assert(edge_line(e).drop_last() =~= seq!['l'] + r1);
    lemma_tokens_space(' ');
    lemma_tokens_word(d2);
    lemma_tokens_append(seq![' '], d2);
    lemma_tokens_word(d1);
    lemma_tokens_append(d1, r3);
    lemma_tokens_append(seq![' '], r2);
    lemma_tokens_word(seq!['l']);
    lemma_tokens_append(seq!['l'], r1);
    assert(tokens(seq!['l'] + r1) =~= seq![seq!['l'], d1, d2]);
}

/// The tokens of an `o` line with a one-word name.
proof fn lemma_tokens_object(name: Seq<char>)
    requires
        name.len() > 0,
        forall|i: int| 0 <= i < name.len() ==> !is_ascii_ws(#[trigger] name[i]),
    ensures
        tokens(seq!['o', ' '] + name) == seq![seq!['o'], name],
        join_words(seq![name]) == name,
{
    lemma_tokens_word(seq!['o']);
    lemma_tokens_word(name);
    lemma_tokens_space(' ');
    lemma_tokens_append(seq![' '], name);
    assert(seq!['o', ' '] + name =~= seq!['o'] + (seq![' '] + name));
    lemma_tokens_append(seq!['o'], seq![' '] + name);
    assert(tokens(seq!['o', ' '] + name) =~= seq![seq!['o'], name]);
}

// ------------------------------------------------------------------------------------------
// Reading the lines back
// ------------------------------------------------------------------------------------------

/// `b, b + 1, ..., b + n - 1`.
pub open spec fn span(b: nat, n: nat) -> Seq<usize> {
    Seq::new(n, |k: int| (b + k) as usize)
}

/// `v` lines add their vertices to the file and to its last object.
proof fn lemma_v_run(ls: Seq<Seq<char>>, off: nat, vs: Seq<Seq<char>>, f: ObjFileView)
    requires
        parse_prefix(ls, off) == Ok::<ObjFileView, ObjErrorView>(f),
        f.objects.len() > 0,
        off + vs.len() <= ls.len(),
        forall|i: int| 0 <= i < vs.len() ==> is_v_line(#[trigger] vs[i]),
        forall|i: int| 0 <= i < vs.len() ==> #[trigger] ls[off + i] == vs[i].drop_last(),
    ensures
        parse_prefix(ls, off + vs.len()) == Ok::<ObjFileView, ObjErrorView>(
            ObjFileView {
                vertices: f.vertices + vs.map_values(|p: Seq<char>| coords_of(p)),
                objects: f.objects.update(
                    f.objects.len() - 1,
                    ObjObjectView {
                        vertices: f.last_object().vertices + span(f.vertices.len(), vs.len()),
                        ..f.last_object()
                    },
                ),
            },
        ),
    decreases vs.len(),
{
    let last = f.last_object();
    if vs.len() == 0 {
        assert(f.vertices + vs.map_values(|p: Seq<char>| coords_of(p)) =~= f.vertices);
        assert(last.vertices + span(f.vertices.len(), 0) =~= last.vertices);
        let o = ObjObjectView { vertices: last.vertices + span(f.vertices.len(), 0), ..last };
        assert(o == last);
        assert(f.objects.update(f.objects.len() - 1, o) =~= f.objects);
    } else {
        let n = vs.len();
        let d = vs.drop_last();
        assert forall|i: int| 0 <= i < d.len() implies is_v_line(#[trigger] d[i]) by {
            assert(d[i] == vs[i]);
        }
        assert forall|i: int| 0 <= i < d.len() implies #[trigger] ls[off + i] == d[i].drop_last() by {
            assert(d[i] == vs[i]);
            assert(ls[off + i] == vs[i].drop_last());
        }
        lemma_v_run(ls, off, d, f);
        let g = ObjFileView {
            vertices: f.vertices + d.map_values(|p: Seq<char>| coords_of(p)),
            objects: f.objects.update(
                f.objects.len() - 1,
                ObjObjectView { vertices: last.vertices + span(f.vertices.len(), d.len()), ..last },
            ),
        };
        let p = vs[n - 1];
        assert(is_v_line(p));
        assert(ls[off + (n - 1)] == p.drop_last());
        let t = tokens(p.drop_last());
        assert(coords_error(t, off + n) is None);
        assert(t[0] != seq!['l'] && t[0] != seq!['f'] && t[0] != seq!['o'] || t[0] == seq!['v']);
        assert(parse_prefix(ls, off + n) == parse_line(g, off + n, t));
        assert(g.last_object() == ObjObjectView {
            vertices: last.vertices + span(f.vertices.len(), d.len()),
            ..last
        });
        assert(g.vertices.len() == f.vertices.len() + n - 1);
        assert((f.vertices + d.map_values(|p: Seq<char>| coords_of(p))).push((t[1], t[2], t[3]))
            =~= f.vertices + vs.map_values(|p: Seq<char>| coords_of(p)));
        let o = ObjObjectView { vertices: last.vertices + span(f.vertices.len(), n), ..last };
        assert((last.vertices + span(f.vertices.len(), d.len())).push(g.vertices.len() as usize)
            =~= o.vertices);
        assert(ObjObjectView {
            vertices: g.last_object().vertices.push(g.vertices.len() as usize),
            ..g.last_object()
        } == o);
        assert(g.objects.update(g.objects.len() - 1, o) =~= f.objects.update(f.objects.len() - 1, o));
    }
}

/// `l` lines as written add their edges to the last object.
proof fn lemma_edge_run(ls: Seq<Seq<char>>, off: nat, es: Seq<(usize, usize)>, f: ObjFileView)
    requires
        parse_prefix(ls, off) == Ok::<ObjFileView, ObjErrorView>(f),
        f.objects.len() > 0,
        off + es.len() <= ls.len(),
        forall|i: int| 0 <= i < es.len() ==> #[trigger] ls[off + i] == edge_line(es[i]).drop_last(),
        forall|i: int| 0 <= i < es.len() ==> (#[trigger] es[i]).0 < f.vertices.len() && es[i].1 < f.vertices.len(),
        f.vertices.len() <= isize::MAX,
    ensures
        parse_prefix(ls, off + es.len()) == Ok::<ObjFileView, ObjErrorView>(
            f.with_last(ObjObjectView { lines: f.last_object().lines + es, ..f.last_object() }),
        ),
    decreases es.len(),
{
    let last = f.last_object();
    if es.len() == 0 {
        assert(last.lines + es =~= last.lines);
        assert(f.objects.update(f.objects.len() - 1, last) =~= f.objects);
    } else {
        let n = es.len();
        let d = es.drop_last();
        assert forall|i: int| 0 <= i < d.len() implies #[trigger] ls[off + i] == edge_line(d[i]).drop_last() by {
            assert(d[i] == es[i]);
            assert(ls[off + i] == edge_line(es[i]).drop_last());
        }
        assert forall|i: int| 0 <= i < d.len() implies (#[trigger] d[i]).0 < f.vertices.len() && d[i].1
            < f.vertices.len() by {
            assert(d[i] == es[i]);
        }
        lemma_edge_run(ls, off, d, f);
        let g = f.with_last(ObjObjectView { lines: last.lines + d, ..last });
        let e = es[n - 1];
        assert(ls[off + (n - 1)] == edge_line(e).drop_last());
        lemma_tokens_edge(e);
        let t = tokens(edge_line(e).drop_last());
        assert(t[0] != seq!['v']) by {
            assert(t[0][0] != seq!['v'][0]);
        }
        assert(t.drop_first() =~= seq![decimal((e.0 + 1) as nat), decimal((e.1 + 1) as nat)]);
        lemma_parse_decimal_index(e.0 as nat, g.vertices.len(), off + n);
        lemma_parse_decimal_index(e.1 as nat, g.vertices.len(), off + n);
        lemma_parse_indices_each(t.drop_first(), seq![e.0, e.1], g.vertices.len(), off + n);
        assert(chain_pairs(seq![e.0, e.1]) =~= seq![e]);
        assert(parse_prefix(ls, off + n) == parse_line(g, off + n, t));
        assert(g.last_object() == ObjObjectView { lines: last.lines + d, ..last });
        assert(last.lines + d + seq![e] =~= last.lines + es);
        assert(g.objects.update(g.objects.len() - 1, ObjObjectView { lines: last.lines + es, ..last })
            =~= f.objects.update(f.objects.len() - 1, ObjObjectView { lines: last.lines + es, ..last }));
    }
}

/// The vertices `base + v` of a face with ids `v` in the file.
pub open spec fn shifted(base: nat, ids: Seq<usize>) -> Seq<usize> {
    ids.map_values(|v: usize| (base + v) as usize)
}

/// A written `f` line adds its polygon to the last object.
proof fn lemma_face_step(ls: Seq<Seq<char>>, k: nat, base: nat, ids: Seq<usize>, normals: bool, f: ObjFileView)
    requires
        parse_prefix(ls, k) == Ok::<ObjFileView, ObjErrorView>(f),
        f.objects.len() > 0,
        k < ls.len(),
        ls[k as int] == face_line(base, ids, normals).drop_last(),
        forall|j: int| 0 <= j < ids.len() ==> base + #[trigger] ids[j] < f.vertices.len() && base + ids[j] + 1 <= isize::MAX,
    ensures
        parse_prefix(ls, k + 1) == Ok::<ObjFileView, ObjErrorView>(
            f.with_last(
                ObjObjectView {
                    faces: f.last_object().faces.push(shifted(base, ids)),
                    ..f.last_object()
                },
            ),
        ),
{
    lemma_face_line(base, ids, normals);
    let t = tokens(face_line(base, ids, normals).drop_last());
    assert(t[0] == seq!['f']);
    assert(t[0] != seq!['v']) by {
        assert(t[0][0] != seq!['v'][0]);
    }
    assert(t[0] != seq!['l']) by {
        assert(t[0][0] != seq!['l'][0]);
    }
    let ts = face_toks(base, ids, normals);
    assert(t.drop_first() =~= ts);
    let out = shifted(base, ids);
    assert forall|j: int| 0 <= j < ts.len() implies parse_index(#[trigger] ts[j], f.vertices.len(), (k + 1) as nat)
        == Ok::<usize, ObjErrorView>(out[j]) by {
        lemma_parse_face_token(base, ids[j], normals, f.vertices.len(), (k + 1) as nat);
    }
    lemma_parse_indices_each(ts, out, f.vertices.len(), (k + 1) as nat);
    assert(parse_prefix(ls, k + 1) == parse_line(f, k + 1, t));
}

/// The vertex lines of all dual faces, face after face.
pub open spec fn flat(fv: Seq<Seq<Seq<char>>>) -> Seq<Seq<char>>
    decreases fv.len(),
{
    if fv.len() == 0 {
        seq![]
    } else {
        flat(fv.drop_last()) + fv.last()
    }
}

/// The number of vertex lines of each face.
pub open spec fn lens(fv: Seq<Seq<Seq<char>>>) -> Seq<nat> {
    fv.map_values(|v: Seq<Seq<char>>| v.len())
}

/// The polygons of faces with `ns` vertices each, their vertices numbered on from `base`.
pub open spec fn face_spans(base: nat, ns: Seq<nat>) -> Seq<Seq<usize>>
    decreases ns.len(),
{
    if ns.len() == 0 {
        seq![]
    } else {
        face_spans(base, ns.drop_last()).push(span(base + total(ns.drop_last()), ns.last()))
    }
}

proof fn lemma_flat_len(fv: Seq<Seq<Seq<char>>>)
    ensures
        flat(fv).len() == total(lens(fv)),
    decreases fv.len(),
{
    if fv.len() > 0 {
        assert(lens(fv).drop_last() =~= lens(fv.drop_last()));
        lemma_flat_len(fv.drop_last());
    }
}

proof fn lemma_span_append(b: nat, m: nat, n: nat)
    ensures
        span(b, m) + span(b + m, n) == span(b, m + n),
{
    assert(span(b, m) + span(b + m, n) =~= span(b, m + n));
}

/// The dual faces as written: each face's vertices, then its polygon over them.
#[verifier::rlimit(40)]
proof fn lemma_dual_run(ls: Seq<Seq<char>>, off: nat, fv: Seq<Seq<Seq<char>>>, f: ObjFileView)
    requires
        parse_prefix(ls, off) == Ok::<ObjFileView, ObjErrorView>(f),
        f.objects.len() > 0,
        forall|j: int, i: int| 0 <= j < fv.len() && 0 <= i < fv[j].len() ==> is_v_line(#[trigger] fv[j][i]),
        f.vertices.len() + total(lens(fv)) <= isize::MAX,
        off + dual_body_lines(f.vertices.len(), fv, lens(fv)).len() <= ls.len(),
        forall|i: int| 0 <= i < dual_body_lines(f.vertices.len(), fv, lens(fv)).len() ==> #[trigger] ls[off + i]
            == dual_body_lines(f.vertices.len(), fv, lens(fv))[i],
    ensures
        parse_prefix(ls, off + dual_body_lines(f.vertices.len(), fv, lens(fv)).len()) == Ok::<
            ObjFileView,
            ObjErrorView,
        >(
            ObjFileView {
                vertices: f.vertices + flat(fv).map_values(|p: Seq<char>| coords_of(p)),
                objects: f.objects.update(
                    f.objects.len() - 1,
                    ObjObjectView {
                        vertices: f.last_object().vertices + span(f.vertices.len(), total(lens(fv))),
                        faces: f.last_object().faces + face_spans(f.vertices.len(), lens(fv)),
                        ..f.last_object()
                    },
                ),
            },
        ),
    decreases fv.len(),
{
    let base = f.vertices.len();
    let last = f.last_object();
    let ns = lens(fv);
    let dbl = dual_body_lines(base, fv, ns);
    if fv.len() == 0 {
        assert(dbl =~= Seq::<Seq<char>>::empty());
        assert(f.vertices + flat(fv).map_values(|p: Seq<char>| coords_of(p)) =~= f.vertices);
        assert(last.vertices + span(base, 0) =~= last.vertices);
        assert(last.faces + face_spans(base, ns) =~= last.faces);
        let o = ObjObjectView {
            vertices: last.vertices + span(base, total(ns)),
            faces: last.faces + face_spans(base, ns),
            ..last
        };
        assert(o == last);
        assert(f.objects.update(f.objects.len() - 1, o) =~= f.objects);
    } else {
        let d = fv.drop_last();
        let v = fv.last();
        let n = v.len();
        assert(ns.drop_last() =~= lens(d));
        assert(ns.last() == n);
        let t1 = total(lens(d));
        assert(total(ns) == t1 + n);
        let dd = dual_body_lines(base, d, lens(d));
        let m = dd.len();
        let fl = face_line(base + t1, upto(n), false).drop_last();
        assert(dbl == dd + bodies(v) + seq![fl]);
        assert forall|j: int, i: int| 0 <= j < d.len() && 0 <= i < d[j].len() implies is_v_line(
            #[trigger] d[j][i],
        ) by {
            assert(d[j] == fv[j]);
        }
        assert forall|i: int| 0 <= i < dd.len() implies #[trigger] ls[off + i] == dd[i] by {
            assert(dbl[i] == dd[i]);
        }
        lemma_dual_run(ls, off, d, f);
        lemma_flat_len(d);
        let g = ObjFileView {
            vertices: f.vertices + flat(d).map_values(|p: Seq<char>| coords_of(p)),
            objects: f.objects.update(
                f.objects.len() - 1,
                ObjObjectView {
                    vertices: last.vertices + span(base, t1),
                    faces: last.faces + face_spans(base, lens(d)),
                    ..last
                },
            ),
        };
        assert(g.vertices.len() == base + t1);
        assert forall|i: int| 0 <= i < v.len() implies is_v_line(#[trigger] v[i]) by {
            assert(v[i] == fv[fv.len() - 1][i]);
        }
        assert forall|i: int| 0 <= i < v.len() implies #[trigger] ls[(off + m) + i] == v[i].drop_last() by {
            assert(dbl[m + i] == bodies(v)[i]);
            assert(ls[off + (m + i)] == dbl[m + i]);
        }
        lemma_v_run(ls, off + m, v, g);
        let gl = g.last_object();
        let h = ObjFileView {
            vertices: g.vertices + v.map_values(|p: Seq<char>| coords_of(p)),
            objects: g.objects.update(
                g.objects.len() - 1,
                ObjObjectView { vertices: gl.vertices + span(g.vertices.len(), n), ..gl },
            ),
        };
        let i = (m + n) as int;
        assert(dbl[i] == fl);
        assert(ls[off + i] == dbl[i]);
        assert forall|j: int| 0 <= j < upto(n).len() implies (base + t1) + #[trigger] upto(n)[j] < h.vertices.len()
            && (base + t1) + upto(n)[j] + 1 <= isize::MAX by {
            assert(upto(n)[j] == j);
        }
        lemma_face_step(ls, off + m + n, base + t1, upto(n), false, h);
        assert(shifted(base + t1, upto(n)) =~= span(base + t1, n));
        assert(dbl.len() == m + n + 1);
        lemma_span_append(base, t1, n);
        assert(flat(fv) == flat(d) + v);
        assert(f.vertices + flat(d).map_values(|p: Seq<char>| coords_of(p)) + v.map_values(
            |p: Seq<char>| coords_of(p),
        ) =~= f.vertices + flat(fv).map_values(|p: Seq<char>| coords_of(p)));
        assert(face_spans(base, ns) == face_spans(base, lens(d)).push(span(base + t1, n)));
        assert(last.faces + face_spans(base, lens(d)) + seq![span(base + t1, n)] =~= last.faces
            + face_spans(base, ns));
        let o = ObjObjectView {
            vertices: last.vertices + span(base, total(ns)),
            faces: last.faces + face_spans(base, ns),
            ..last
        };
        assert(gl.vertices + span(g.vertices.len(), n) =~= o.vertices);
        assert((last.faces + face_spans(base, lens(d))).push(span(base + t1, n)) =~= o.faces);
        assert(h.objects.update(h.objects.len() - 1, o) =~= f.objects.update(f.objects.len() - 1, o));
    }
}

/// The written edges join points below `n`, the lower end first.
proof fn lemma_line_pairs_below(nb: Seq<Seq<isize>>, n: nat)
    requires
        forall|a: int, j: int| 0 <= a < nb.len() && 0 <= j < nb[a].len() ==> 0 <= #[trigger] nb[a][j] < n,
    ensures
        forall|i: int| 0 <= i < line_pairs(nb).len() ==> (#[trigger] line_pairs(nb)[i]).0 <= line_pairs(nb)[i].1 < n,
    decreases nb.len(),
{
    if nb.len() > 0 {
        let d = nb.drop_last();
        assert forall|a: int, j: int| 0 <= a < d.len() && 0 <= j < d[a].len() implies 0 <= #[trigger] d[a][j] < n by {
            assert(d[a] == nb[a]);
        }
        lemma_line_pairs_below(d, n);
        let a = nb.len() - 1;
        let l = nb.last();
        assert(forall|j: int| 0 <= j < l.len() ==> 0 <= #[trigger] l[j] < n) by {
            assert forall|j: int| 0 <= j < l.len() implies 0 <= #[trigger] l[j] < n by {
                assert(l[j] == nb[a][j]);
            }
        }
        lemma_row_pairs_below(a, l, n);
        let r = row_pairs(a, l);
        assert forall|i: int| 0 <= i < line_pairs(nb).len() implies (#[trigger] line_pairs(nb)[i]).0
            <= line_pairs(nb)[i].1 < n by {
            if i < line_pairs(d).len() {
                assert(line_pairs(nb)[i] == line_pairs(d)[i]);
            } else {
                assert(line_pairs(nb)[i] == r[i - line_pairs(d).len()]);
            }
        }
    }
}

proof fn lemma_row_pairs_below(a: int, l: Seq<isize>, n: nat)
    requires
        a >= 0,
        forall|j: int| 0 <= j < l.len() ==> 0 <= #[trigger] l[j] < n,
    ensures
        forall|i: int| 0 <= i < row_pairs(a, l).len() ==> (#[trigger] row_pairs(a, l)[i]).0 <= row_pairs(a, l)[i].1 < n,
    decreases l.len(),
{
    if l.len() > 0 {
        let d = l.drop_last();
        assert forall|j: int| 0 <= j < d.len() implies 0 <= #[trigger] d[j] < n by {
            assert(d[j] == l[j]);
        }
        lemma_row_pairs_below(a, d, n);
        assert(l[l.len() - 1] == l.last());
        let r = row_pairs(a, l);
        assert forall|i: int| 0 <= i < r.len() implies (#[trigger] r[i]).0 <= r[i].1 < n by {
            if i < row_pairs(a, d).len() {
                assert(r[i] == row_pairs(a, d)[i]);
            }
        }
    }
}

// ------------------------------------------------------------------------------------------
// The whole file
// ------------------------------------------------------------------------------------------

pub open spec fn grid_word() -> Seq<char> {
    seq!['g', 'r', 'i', 'd']
}

pub open spec fn dual_word() -> Seq<char> {
    seq!['d', 'u', 'a', 'l']
}

/// The edges of a grid as its `.obj` text lists them.
pub open spec fn written_edges<P>(g: VineyardsGridMesh<P>) -> Seq<(usize, usize)> {
    line_pairs(lists(g.neighbors@))
}

/// The lines of the written text, without their newlines.
pub open spec fn written_lines<P>(g: VineyardsGridMesh<P>, points: Seq<Seq<char>>, fv: Seq<Seq<Seq<char>>>) -> Seq<Seq<char>> {
    seq![seq!['o', ' '] + grid_word()] + bodies(points) + bodies(
        written_edges(g).map_values(|e: (usize, usize)| edge_line(e)),
    ) + if g.dual_faces@.len() > 0 {
        seq![seq!['o', ' '] + dual_word()] + dual_body_lines(points.len(), fv, lens(fv))
    } else {
        seq![]
    }
}

/// What reading the written text gives: the object `grid` with the points as vertices
/// and the written edges as lines, and, when there are dual faces, the object `dual`
/// with the faces' vertices and one polygon per face over them.
pub open spec fn read_back_file<P>(g: VineyardsGridMesh<P>, points: Seq<Seq<char>>, fv: Seq<Seq<Seq<char>>>) -> ObjFileView {
    let np = points.len();
    let grid = ObjObjectView {
        name: grid_word(),
        vertices: span(0, np),
        lines: written_edges(g),
        faces: seq![],
    };
    if g.dual_faces@.len() > 0 {
        ObjFileView {
            vertices: points.map_values(|p: Seq<char>| coords_of(p)) + flat(fv).map_values(
                |p: Seq<char>| coords_of(p),
            ),
            objects: seq![
                grid,
                ObjObjectView {
                    name: dual_word(),
                    vertices: span(np, total(lens(fv))),
                    lines: seq![],
                    faces: face_spans(np, lens(fv)),
                },
            ],
        }
    } else {
        ObjFileView { vertices: points.map_values(|p: Seq<char>| coords_of(p)), objects: seq![grid] }
    }
}

/// The grid parts collected from the file read back: every point, the written edges,
/// and the face polygons.
pub open spec fn read_back_parts<P>(g: VineyardsGridMesh<P>, points: Seq<Seq<char>>, fv: Seq<Seq<Seq<char>>>) -> PartsView {
    let np = points.len();
    let nv = read_back_file(g, points, fv).vertices.len();
    PartsView {
        point_of: first_points(nv, np),
        points: span(0, np),
        line_edges: written_edges(g),
        faces: if g.dual_faces@.len() > 0 {
            face_spans(np, lens(fv))
        } else {
            seq![]
        },
    }
}

/// The inputs of the round trip: the `v` lines are one per point and one per dual-face
/// vertex, the adjacency names points, the dual faces join points, and the ids fit.
pub open spec fn writable<P>(g: VineyardsGridMesh<P>, points: Seq<Seq<char>>, fv: Seq<Seq<Seq<char>>>) -> bool {
    &&& points.len() == g.points@.len()
    &&& fv.len() == g.dual_faces@.len()
    &&& forall|j: int| 0 <= j < fv.len() ==> (#[trigger] fv[j]).len() == g.dual_faces@[j].vertices@.len()
    &&& forall|i: int| 0 <= i < points.len() ==> is_v_line(#[trigger] points[i])
    &&& forall|j: int, i: int| 0 <= j < fv.len() && 0 <= i < fv[j].len() ==> is_v_line(#[trigger] fv[j][i])
    &&& forall|a: int, j: int|
        0 <= a < g.neighbors@.len() && 0 <= j < g.neighbors@[a]@.len() ==> 0 <= #[trigger] g.neighbors@[a]@[j] < points.len()
    &&& faces_below(g.dual_faces@, points.len())
    &&& points.len() + total(lens(fv)) <= isize::MAX
}

proof fn lemma_word_plain(w: Seq<char>)
    requires
        w == grid_word() || w == dual_word(),
    ensures
        w.len() > 0,
        forall|i: int| 0 <= i < w.len() ==> !is_ascii_ws(#[trigger] w[i]) && w[i] != '\n',
{
}

/// The written text splits into the written lines.
proof fn lemma_written_lines<P>(g: VineyardsGridMesh<P>, points: Seq<Seq<char>>, fv: Seq<Seq<Seq<char>>>)
    requires
        writable(g, points, fv),
    ensures
        lines(grid_text(g, points, fv.map_values(|v: Seq<Seq<char>>| concat(v)))) == written_lines(g, points, fv),
{
    let vs = fv.map_values(|v: Seq<Seq<char>>| concat(v));
    assert(face_counts(g) =~= lens(fv)) by {
        assert forall|j: int| 0 <= j < fv.len() implies #[trigger] face_counts(g)[j] == lens(fv)[j] by {
            assert(fv[j].len() == g.dual_faces@[j].vertices@.len());
        }
    }
    let gw = seq!['o', ' '] + grid_word();
    let dw = seq!['o', ' '] + dual_word();
    let h = gw.push('\n');
    let dh = dw.push('\n');
    lemma_word_plain(grid_word());
    lemma_word_plain(dual_word());
    assert forall|i: int| 0 <= i < gw.len() implies #[trigger] gw[i] != '\n' by {
        if i >= 2 {
            assert(gw[i] == grid_word()[i - 2]);
        }
    }
    assert forall|i: int| 0 <= i < dw.len() implies #[trigger] dw[i] != '\n' by {
        if i >= 2 {
            assert(dw[i] == dual_word()[i - 2]);
        }
    }
    lemma_lines_single(gw);
    lemma_lines_single(dw);
    assert forall|i: int| 0 <= i < points.len() implies is_one_line(#[trigger] points[i]) by {
        assert(is_v_line(points[i]));
    }
    lemma_lines_concat(points);
    let c = concat(points);
    let es = written_edges(g);
    lemma_grid_lines(lists(g.neighbors@));
    let gl = grid_lines(lists(g.neighbors@));
    lemma_edge_lines_lines(es);
    let d = if g.dual_faces@.len() > 0 {
        dh + dual_lines(g.points@.len(), vs, face_counts(g))
    } else {
        seq![]
    };
    if g.dual_faces@.len() > 0 {
        assert forall|j: int, i: int| 0 <= j < fv.len() && 0 <= i < fv[j].len() implies is_one_line(
            #[trigger] fv[j][i],
        ) by {
            assert(is_v_line(fv[j][i]));
        }
        lemma_dual_lines_lines(points.len(), fv, lens(fv));
        lemma_lines_append(dh, dual_lines(g.points@.len(), vs, face_counts(g)));
        assert(lines(d) == seq![dw] + dual_body_lines(points.len(), fv, lens(fv)));
    } else {
        assert(lines(d) =~= Seq::<Seq<char>>::empty());
    }
    assert(h =~= seq!['o', ' ', 'g', 'r', 'i', 'd', '\n']);
    assert(dh =~= seq!['o', ' ', 'd', 'u', 'a', 'l', '\n']);
    let text = grid_text(g, points, vs);
    assert(text =~= h + (c + (gl + d)));
    lemma_lines_append(gl, d);
    lemma_lines_append(c, gl + d);
    lemma_lines_append(h, c + (gl + d));
    assert(lines(text) =~= written_lines(g, points, fv));
}

/// Reading the written lines gives `read_back_file`.
#[verifier::rlimit(60)]
proof fn lemma_written_parse<P>(g: VineyardsGridMesh<P>, points: Seq<Seq<char>>, fv: Seq<Seq<Seq<char>>>)
    requires
        writable(g, points, fv),
    ensures
        parse_prefix(written_lines(g, points, fv), written_lines(g, points, fv).len()) == Ok::<
            ObjFileView,
            ObjErrorView,
        >(read_back_file(g, points, fv)),
{
    let ls = written_lines(g, points, fv);
    let np = points.len();
    let es = written_edges(g);
    let ebs = bodies(es.map_values(|e: (usize, usize)| edge_line(e)));
    lemma_word_plain(grid_word());
    lemma_word_plain(dual_word());
    // the first line names the first object
    lemma_tokens_object(grid_word());
    let f0 = initial_file();
    let t0 = tokens(ls[0]);
    assert(ls[0] == seq!['o', ' '] + grid_word());
    assert(t0[0] == seq!['o']);
    assert(t0[0] != seq!['v'] && t0[0] != seq!['l'] && t0[0] != seq!['f']) by {
        assert(t0[0][0] != seq!['v'][0]);
        assert(t0[0][0] != seq!['l'][0]);
        assert(t0[0][0] != seq!['f'][0]);
    }
    assert(t0.drop_first() =~= seq![grid_word()]);
    assert(f0.last_object() == empty_object());
    let g0 = ObjObjectView { name: grid_word(), ..empty_object() };
    let f1 = f0.with_last(g0);
    assert(parse_prefix(ls, 0) == Ok::<ObjFileView, ObjErrorView>(f0));
    assert(parse_prefix(ls, 1) == parse_line(f0, 1, t0));
    assert(parse_prefix(ls, 1) == Ok::<ObjFileView, ObjErrorView>(f1));
    // the points
    assert forall|i: int| 0 <= i < points.len() implies #[trigger] ls[1 + i] == points[i].drop_last() by {
        assert(ls[1 + i] == bodies(points)[i]);
    }
    lemma_v_run(ls, 1, points, f1);
    assert(f1.objects =~= seq![g0]);
    assert(f1.vertices =~= Seq::<(Seq<char>, Seq<char>, Seq<char>)>::empty());
    let g1 = ObjObjectView { vertices: span(0, np), ..g0 };
    let f2 = ObjFileView { vertices: points.map_values(|p: Seq<char>| coords_of(p)), objects: seq![g1] };
    assert(f1.objects.update(0, ObjObjectView { vertices: g0.vertices + span(0, np), ..g0 }) =~= seq![g1]);
    assert(f1.vertices + points.map_values(|p: Seq<char>| coords_of(p)) =~= f2.vertices);
    assert(parse_prefix(ls, 1 + np) == Ok::<ObjFileView, ObjErrorView>(f2));
    // the edges
    lemma_line_pairs_below(lists(g.neighbors@), np);
    assert forall|i: int| 0 <= i < es.len() implies #[trigger] ls[(1 + np) + i] == edge_line(es[i]).drop_last() by {
        assert(ls[1 + np + i] == ebs[i]);
    }
    lemma_edge_run(ls, 1 + np, es, f2);
    let g2 = ObjObjectView { lines: es, ..g1 };
    let f3 = ObjFileView { objects: seq![g2], ..f2 };
    assert(g1.lines + es =~= es);
    assert(f2.with_last(ObjObjectView { lines: g1.lines + es, ..g1 }).objects =~= f3.objects);
    let k = 1 + np + es.len();
    assert(parse_prefix(ls, k) == Ok::<ObjFileView, ObjErrorView>(f3));
    if g.dual_faces@.len() > 0 {
        // a dual face joins points, so there is one
        assert(0 <= g.dual_faces@[0].a < np);
        assert(g2.vertices.len() > 0);
        lemma_tokens_object(dual_word());
        let t = tokens(ls[k as int]);
        assert(ls[k as int] == seq!['o', ' '] + dual_word());
        assert(t[0] != seq!['v'] && t[0] != seq!['l'] && t[0] != seq!['f']) by {
            assert(t[0][0] != seq!['v'][0]);
            assert(t[0][0] != seq!['l'][0]);
            assert(t[0][0] != seq!['f'][0]);
        }
        assert(t.drop_first() =~= seq![dual_word()]);
        let d0 = ObjObjectView { name: dual_word(), ..empty_object() };
        let f4 = ObjFileView { objects: seq![g2, d0], ..f3 };
        assert(parse_prefix(ls, k + 1) == parse_line(f3, k + 1, t));
        assert(f3.objects.push(d0) =~= f4.objects);
        assert(parse_prefix(ls, k + 1) == Ok::<ObjFileView, ObjErrorView>(f4));
        let dbl = dual_body_lines(np, fv, lens(fv));
        assert(f4.vertices.len() == np);
        assert forall|i: int| 0 <= i < dbl.len() implies #[trigger] ls[(k + 1) + i] == dbl[i] by {
            assert(ls[k + 1 + i] == dbl[i]);
        }
        lemma_dual_run(ls, k + 1, fv, f4);
        assert(ls.len() == k + 1 + dbl.len());
        let d1 = ObjObjectView {
            vertices: d0.vertices + span(np, total(lens(fv))),
            faces: d0.faces + face_spans(np, lens(fv)),
            ..d0
        };
        assert(d0.vertices + span(np, total(lens(fv))) =~= span(np, total(lens(fv))));
        assert(d0.faces + face_spans(np, lens(fv)) =~= face_spans(np, lens(fv)));
        assert(f4.objects.update(1, d1) =~= read_back_file(g, points, fv).objects);
    } else {
        assert(ls.len() == k);
        assert(f3.objects =~= read_back_file(g, points, fv).objects);
    }
}

/// The first `m` of `nv` vertices are the points `0 .. m`.
pub open spec fn first_points(nv: nat, m: nat) -> Seq<Option<usize>> {
    Seq::new(
        nv,
        |v: int|
            if v < m {
                Some(v as usize)
            } else {
                None::<usize>
            },
    )
}

/// `assign_points` of the next `n` vertices after the first `b` points.
proof fn lemma_assign_range(nv: nat, b: nat, n: nat)
    requires
        b + n <= nv <= usize::MAX,
    ensures
        assign_points(first_points(nv, b), span(b, n), b) == first_points(nv, b + n),
    decreases n,
{
    if n == 0 {
        assert(span(b, 0) =~= Seq::<usize>::empty());
    } else {
        lemma_assign_range(nv, b, (n - 1) as nat);
        assert(span(b, n).drop_last() =~= span(b, (n - 1) as nat));
        assert(span(b, n).last() == (b + n - 1) as usize);
        assert(assign_points(first_points(nv, b), span(b, n), b) =~= first_points(nv, b + n));
    }
}

/// Lines between points map to themselves.
proof fn lemma_map_identity(pov: Seq<Option<usize>>, ls: Seq<(usize, usize)>)
    requires
        forall|i: int| 0 <= i < ls.len() ==> (#[trigger] ls[i]).0 < pov.len() && ls[i].1 < pov.len()
            && pov[ls[i].0 as int] == Some(ls[i].0) && pov[ls[i].1 as int] == Some(ls[i].1),
    ensures
        map_lines(pov, ls) == Some(ls),
    decreases ls.len(),
{
    if ls.len() == 0 {
        assert(ls =~= Seq::<(usize, usize)>::empty());
    } else {
        let d = ls.drop_last();
        assert forall|i: int| 0 <= i < d.len() implies (#[trigger] d[i]).0 < pov.len() && d[i].1 < pov.len()
            && pov[d[i].0 as int] == Some(d[i].0) && pov[d[i].1 as int] == Some(d[i].1) by {
            assert(d[i] == ls[i]);
        }
        lemma_map_identity(pov, d);
        assert(ls[ls.len() - 1] == ls.last());
        assert(d.push(ls.last()) =~= ls);
    }
}

/// Collecting the grid from the file read back.
proof fn lemma_written_collect<P>(g: VineyardsGridMesh<P>, points: Seq<Seq<char>>, fv: Seq<Seq<Seq<char>>>)
    requires
        writable(g, points, fv),
    ensures
        collect_spec(read_back_file(g, points, fv)) == Ok::<PartsView, Seq<char>>(read_back_parts(g, points, fv)),
{
    let f = read_back_file(g, points, fv);
    let np = points.len();
    let nv = f.vertices.len();
    let es = written_edges(g);
    lemma_flat_len(fv);
    assert(nv >= np);
    assert(nv <= usize::MAX);
    let none = Seq::new(nv, |i: int| None::<usize>);
    let o = f.objects[0];
    assert(!o.is_dual());
    assert(none =~= first_points(nv, 0));
    lemma_assign_range(nv, 0, np);
    let pov = assign_points(none, o.vertices, 0);
    lemma_line_pairs_below(lists(g.neighbors@), np);
    lemma_map_identity(pov, es);
    let st = read_back_parts(g, points, fv);
    assert(Seq::<usize>::empty() + span(0, np) =~= span(0, np));
    assert(Seq::<(usize, usize)>::empty() + es =~= es);
    assert(collect_prefix(f, 0) == Ok::<PartsView, Seq<char>>(
        PartsView { point_of: none, points: seq![], line_edges: seq![], faces: seq![] },
    ));
    let st1 = PartsView { faces: seq![], ..st };
    assert(collect_prefix(f, 1) == Ok::<PartsView, Seq<char>>(st1));
    if g.dual_faces@.len() > 0 {
        let o2 = f.objects[1];
        assert(o2.faces.len() > 0) by {
            assert(face_spans(np, lens(fv)).len() > 0);
        }
        assert(o2.is_dual());
        assert(Seq::<Seq<usize>>::empty() + o2.faces =~= o2.faces);
        assert(collect_prefix(f, 2) == Ok::<PartsView, Seq<char>>(st));
    } else {
        assert(st1 == st);
    }
}

/// Writing a grid as `.obj` text and reading it back gives the grid back: the text
/// parses without error into an object `grid` whose vertices are the points, in
/// order, and whose lines are the grid's edges (each once, from its lower end), and,
/// when the grid has dual faces, an object `dual` with every face's vertices and one
/// polygon per face over exactly those vertices, in order; collecting the grid from
/// that file gives every point, those edges and those polygons.  The `v` lines, which
/// carry the coordinates, are read back as the tokens that were written.
pub proof fn law_written_grid_reads_back<P>(
    g: VineyardsGridMesh<P>,
    points: Seq<Seq<char>>,
    fv: Seq<Seq<Seq<char>>>,
)
    requires
        writable(g, points, fv),
    ensures
        parse_obj(grid_text(g, points, fv.map_values(|v: Seq<Seq<char>>| concat(v)))) == Ok::<
            ObjFileView,
            ObjErrorView,
        >(read_back_file(g, points, fv)),
        collect_spec(read_back_file(g, points, fv)) == Ok::<PartsView, Seq<char>>(
            read_back_parts(g, points, fv),
        ),
{
    lemma_written_lines(g, points, fv);
    lemma_written_parse(g, points, fv);
    lemma_written_collect(g, points, fv);
}

// ------------------------------------------------------------------------------------------
// Lattice blocks read back
// ------------------------------------------------------------------------------------------

/// The fan triangles `(0, k, k + 1)` for `k` in `1..=m`, as vertex-id lists.
pub open spec fn fan_faces(ids: Seq<usize>, m: nat) -> Seq<Seq<usize>>
    decreases m,
{
    if m == 0 {
        seq![]
    } else {
        fan_faces(ids, (m - 1) as nat).push(seq![ids[0], ids[m as int], ids[m as int + 1]])
    }
}

/// The polygons that the `f` lines of one wall describe, as ids among the dual vertices.
pub open spec fn wall_faces(w: (usize, Option<usize>, Vec<usize>), o: ObjOptions) -> Seq<Seq<usize>> {
    let ids = w.2@;
    if w.1 is None && !o.include_outer {
        seq![]
    } else if o.triangulate {
        fan_faces(
            ids,
            if ids.len() >= 2 {
                (ids.len() - 2) as nat
            } else {
                0
            },
        )
    } else {
        seq![ids] + if o.duplicate_walls {
            seq![ids.reverse()]
        } else {
            seq![]
        }
    }
}

/// The polygons of all walls, wall after wall.
pub open spec fn walls_faces(ws: Seq<(usize, Option<usize>, Vec<usize>)>, o: ObjOptions) -> Seq<Seq<usize>>
    decreases ws.len(),
{
    if ws.len() == 0 {
        seq![]
    } else {
        walls_faces(ws.drop_last(), o) + wall_faces(ws.last(), o)
    }
}

/// The `f` lines of the polygons.
pub open spec fn faces_text(base: nat, fs: Seq<Seq<usize>>, normals: bool) -> Seq<char> {
    concat(fs.map_values(|ids: Seq<usize>| face_line(base, ids, normals)))
}

proof fn lemma_faces_text_append(base: nat, a: Seq<Seq<usize>>, b: Seq<Seq<usize>>, normals: bool)
    ensures
        faces_text(base, a + b, normals) == faces_text(base, a, normals) + faces_text(base, b, normals),
{
    let f = |ids: Seq<usize>| face_line(base, ids, normals);
    assert((a + b).map_values(f) =~= a.map_values(f) + b.map_values(f));
    lemma_concat_append(a.map_values(f), b.map_values(f));
}

proof fn lemma_faces_text_single(base: nat, ids: Seq<usize>, normals: bool)
    ensures
        faces_text(base, seq![ids], normals) == face_line(base, ids, normals),
{
    assert(seq![ids].map_values(|ids: Seq<usize>| face_line(base, ids, normals)) =~= seq![
        face_line(base, ids, normals),
    ]);
    lemma_concat_single(face_line(base, ids, normals));
}

proof fn lemma_faces_text_empty(base: nat, normals: bool)
    ensures
        faces_text(base, Seq::<Seq<usize>>::empty(), normals) == Seq::<char>::empty(),
{
    assert(Seq::<Seq<usize>>::empty().map_values(|ids: Seq<usize>| face_line(base, ids, normals))
        =~= Seq::<Seq<char>>::empty());
}

proof fn lemma_fan_text(base: nat, ids: Seq<usize>, normals: bool, m: nat)
    ensures
        fan_lines(base, ids, normals, m) == faces_text(base, fan_faces(ids, m), normals),
    decreases m,
{
    if m == 0 {
        lemma_faces_text_empty(base, normals);
    } else {
        lemma_fan_text(base, ids, normals, (m - 1) as nat);
        let t = seq![ids[0], ids[m as int], ids[m as int + 1]];
        lemma_faces_text_append(base, fan_faces(ids, (m - 1) as nat), seq![t], normals);
        lemma_faces_text_single(base, t, normals);
        assert(fan_faces(ids, m) =~= fan_faces(ids, (m - 1) as nat) + seq![t]);
    }
}

proof fn lemma_wall_text(base: nat, w: (usize, Option<usize>, Vec<usize>), o: ObjOptions)
    ensures
        wall_lines(base, w, o) == faces_text(base, wall_faces(w, o), o.normals),
{
    let ids = w.2@;
    if w.1 is None && !o.include_outer {
        lemma_faces_text_empty(base, o.normals);
    } else if o.triangulate {
        lemma_fan_text(base, ids, o.normals, if ids.len() >= 2 {
            (ids.len() - 2) as nat
        } else {
            0
        });
    } else {
        lemma_faces_text_single(base, ids, o.normals);
        if o.duplicate_walls {
            lemma_faces_text_single(base, ids.reverse(), o.normals);
            lemma_faces_text_append(base, seq![ids], seq![ids.reverse()], o.normals);
        } else {
            lemma_faces_text_empty(base, o.normals);
            assert(seq![ids] + Seq::<Seq<usize>>::empty() =~= seq![ids]);
            assert(face_line(base, ids, o.normals) + Seq::<char>::empty() =~= face_line(base, ids, o.normals));
        }
    }
}

proof fn lemma_walls_text(base: nat, ws: Seq<(usize, Option<usize>, Vec<usize>)>, o: ObjOptions)
    ensures
        walls_text(base, ws, o) == faces_text(base, walls_faces(ws, o), o.normals),
    decreases ws.len(),
{
    if ws.len() == 0 {
        lemma_faces_text_empty(base, o.normals);
    } else {
        lemma_walls_text(base, ws.drop_last(), o);
        lemma_wall_text(base, ws.last(), o);
        lemma_faces_text_append(base, walls_faces(ws.drop_last(), o), wall_faces(ws.last(), o), o.normals);
    }
}

/// The `f` lines of polygons split back into one line per polygon.
proof fn lemma_faces_text_lines(base: nat, fs: Seq<Seq<usize>>, normals: bool)
    ensures
        lines(faces_text(base, fs, normals)) == bodies(
            fs.map_values(|ids: Seq<usize>| face_line(base, ids, normals)),
        ),
        faces_text(base, fs, normals).len() == 0 || faces_text(base, fs, normals).last() == '\n',
{
    let ps = fs.map_values(|ids: Seq<usize>| face_line(base, ids, normals));
    assert forall|i: int| 0 <= i < ps.len() implies is_one_line(#[trigger] ps[i]) by {
        lemma_face_line(base, fs[i], normals);
    }
    lemma_lines_concat(ps);
}

/// Written `f` lines add their polygons to the last object.
proof fn lemma_faces_run(
    ls: Seq<Seq<char>>,
    off: nat,
    base: nat,
    fs: Seq<Seq<usize>>,
    normals: bool,
    f: ObjFileView,
)
    requires
        parse_prefix(ls, off) == Ok::<ObjFileView, ObjErrorView>(f),
        f.objects.len() > 0,
        off + fs.len() <= ls.len(),
        forall|i: int| 0 <= i < fs.len() ==> #[trigger] ls[off + i] == face_line(base, fs[i], normals).drop_last(),
        forall|i: int, j: int|
            0 <= i < fs.len() && 0 <= j < fs[i].len() ==> base + #[trigger] fs[i][j] < f.vertices.len() && base
                + fs[i][j] + 1 <= isize::MAX,
    ensures
        parse_prefix(ls, off + fs.len()) == Ok::<ObjFileView, ObjErrorView>(
            f.with_last(
                ObjObjectView {
                    faces: f.last_object().faces + fs.map_values(|ids: Seq<usize>| shifted(base, ids)),
                    ..f.last_object()
                },
            ),
        ),
    decreases fs.len(),
{
    let last = f.last_object();
    let sh = |ids: Seq<usize>| shifted(base, ids);
    if fs.len() == 0 {
        assert(last.faces + fs.map_values(sh) =~= last.faces);
        let o = ObjObjectView { faces: last.faces + fs.map_values(sh), ..last };
        assert(o == last);
        assert(f.objects.update(f.objects.len() - 1, o) =~= f.objects);
    } else {
        let n = fs.len();
        let d = fs.drop_last();
        assert forall|i: int| 0 <= i < d.len() implies #[trigger] ls[off + i] == face_line(base, d[i], normals).drop_last() by {
            assert(d[i] == fs[i]);
            assert(ls[off + i] == face_line(base, fs[i], normals).drop_last());
        }
        assert forall|i: int, j: int| 0 <= i < d.len() && 0 <= j < d[i].len() implies base + #[trigger] d[i][j]
            < f.vertices.len() && base + d[i][j] + 1 <= isize::MAX by {
            assert(d[i] == fs[i]);
        }
        lemma_faces_run(ls, off, base, d, normals, f);
        let g = f.with_last(ObjObjectView { faces: last.faces + d.map_values(sh), ..last });
        let ids = fs[n - 1];
        assert(ls[off + (n - 1)] == face_line(base, ids, normals).drop_last());
        assert forall|j: int| 0 <= j < ids.len() implies base + #[trigger] ids[j] < g.vertices.len() && base + ids[j]
            + 1 <= isize::MAX by {
            assert(fs[n - 1][j] == ids[j]);
        }
        lemma_face_step(ls, (off + n - 1) as nat, base, ids, normals, g);
        assert(g.last_object() == ObjObjectView { faces: last.faces + d.map_values(sh), ..last });
        let o = ObjObjectView { faces: last.faces + fs.map_values(sh), ..last };
        assert((last.faces + d.map_values(sh)).push(shifted(base, ids)) =~= o.faces);
        assert(g.objects.update(g.objects.len() - 1, o) =~= f.objects.update(f.objects.len() - 1, o));
    }
}

/// A line whose first `k` characters are a word starts with that token.
proof fn lemma_first_word(x: Seq<char>, k: nat)
    requires
        0 < k <= x.len(),
        forall|i: int| 0 <= i < k ==> !is_ascii_ws(#[trigger] x[i]),
        k < x.len() ==> is_ascii_ws(x[k as int]),
    ensures
        tokens(x).len() > 0,
        tokens(x)[0] == x.take(k as int),
{
    lemma_word_len_is(x, k);
    lemma_word_len_bounds(x);
    assert(!is_ascii_ws(x[0]));
    assert(tokens(x) == seq![x.take(k as int)] + tokens(x.skip(k as int)));
}

/// A line that neither defines nor joins vertices, nor names an object, changes nothing.
proof fn lemma_other_step(ls: Seq<Seq<char>>, k: nat, f: ObjFileView, w: nat)
    requires
        parse_prefix(ls, k) == Ok::<ObjFileView, ObjErrorView>(f),
        k < ls.len(),
        0 < w <= ls[k as int].len(),
        forall|i: int| 0 <= i < w ==> !is_ascii_ws(#[trigger] ls[k as int][i]),
        w < ls[k as int].len() ==> is_ascii_ws(ls[k as int][w as int]),
        ls[k as int].take(w as int) != seq!['v'],
        ls[k as int].take(w as int) != seq!['l'],
        ls[k as int].take(w as int) != seq!['f'],
        ls[k as int].take(w as int) != seq!['o'],
    ensures
        parse_prefix(ls, k + 1) == Ok::<ObjFileView, ObjErrorView>(f),
{
    lemma_first_word(ls[k as int], w);
    assert(parse_prefix(ls, k + 1) == parse_line(f, k + 1, tokens(ls[k as int])));
}

pub open spec fn comment_line() -> Seq<char> {
    seq!['#', ' ', 't', 'e', 's', 't', ' ', 'l', 'a', 't', 't', 'i', 'c', 'e']
}

pub open spec fn lattice_word(b: Seq<char>) -> Seq<char> {
    b + seq!['_', 'l', 'a', 't', 't', 'i', 'c', 'e']
}

pub open spec fn voronoi_word(b: Seq<char>) -> Seq<char> {
    b + seq!['_', 'v', 'o', 'r', 'o', 'n', 'o', 'i']
}

/// The lines of a written block, without their newlines.
pub open spec fn block_lines<P>(b: LatticeBlock<P>, o: ObjOptions, points: Seq<Seq<char>>, duals: Seq<Seq<char>>) -> Seq<Seq<char>> {
    let name = lattice_name(b.kind);
    seq![comment_line(), seq!['o', ' '] + lattice_word(name)] + bodies(points) + bodies(
        chosen_edges(b, o).map_values(|e: (usize, usize)| edge_line(e)),
    ) + if o.dual {
        seq![seq!['o', ' '] + voronoi_word(name)] + bodies(duals) + (if o.normals {
            seq![seq!['v', 'n', ' ', '0', ' ', '0', ' ', '1']]
        } else {
            seq![]
        }) + bodies(
            walls_faces(b.walls@, o).map_values(
                |ids: Seq<usize>| face_line(b.points@.len(), ids, o.normals),
            ),
        )
    } else {
        seq![]
    }
}

/// What reading a written block gives: the object `<NAME>_lattice` with the points and
/// the chosen edges, and, if the dual was written, the object `<NAME>_voronoi` with the
/// dual vertices and the polygons of the walls, as the options wrote them.
pub open spec fn read_back_block<P>(b: LatticeBlock<P>, o: ObjOptions, points: Seq<Seq<char>>, duals: Seq<Seq<char>>) -> ObjFileView {
    let name = lattice_name(b.kind);
    let np = points.len();
    let lat = ObjObjectView {
        name: lattice_word(name),
        vertices: span(0, np),
        lines: chosen_edges(b, o),
        faces: seq![],
    };
    if o.dual {
        ObjFileView {
            vertices: points.map_values(|p: Seq<char>| coords_of(p)) + duals.map_values(
                |p: Seq<char>| coords_of(p),
            ),
            objects: seq![
                lat,
                ObjObjectView {
                    name: voronoi_word(name),
                    vertices: span(np, duals.len()),
                    lines: seq![],
                    faces: walls_faces(b.walls@, o).map_values(|ids: Seq<usize>| shifted(np, ids)),
                },
            ],
        }
    } else {
        ObjFileView { vertices: points.map_values(|p: Seq<char>| coords_of(p)), objects: seq![lat] }
    }
}

/// The grid parts collected from a block read back: when the dual object has polygons,
/// the points, the chosen edges and the polygons; otherwise every vertex of the file is
/// a point.
pub open spec fn read_back_block_parts<P>(b: LatticeBlock<P>, o: ObjOptions, points: Seq<Seq<char>>, duals: Seq<Seq<char>>) -> PartsView {
    let np = points.len();
    let f = read_back_block(b, o, points, duals);
    let nv = f.vertices.len();
    let polys = walls_faces(b.walls@, o).map_values(|ids: Seq<usize>| shifted(np, ids));
    let all_points = o.dual && polys.len() == 0;
    PartsView {
        point_of: first_points(nv, if all_points { nv } else { np }),
        points: span(0, if all_points { nv } else { np }),
        line_edges: chosen_edges(b, o),
        faces: if o.dual { polys } else { seq![] },
    }
}

/// The inputs of the block round trip: one `v` line per point and per dual vertex, edges
/// and walls that refer to them, a point when there is a dual, and ids that fit.
pub open spec fn block_writable<P>(b: LatticeBlock<P>, o: ObjOptions, points: Seq<Seq<char>>, duals: Seq<Seq<char>>) -> bool {
    &&& points.len() == b.points@.len()
    &&& duals.len() == b.dual_vertices@.len()
    &&& forall|i: int| 0 <= i < points.len() ==> is_v_line(#[trigger] points[i])
    &&& forall|i: int| 0 <= i < duals.len() ==> is_v_line(#[trigger] duals[i])
    &&& forall|k: int| 0 <= k < b.shell1@.len() ==> (#[trigger] b.shell1@[k]).0 < points.len() && b.shell1@[k].1 < points.len()
    &&& forall|k: int| 0 <= k < b.shell2@.len() ==> (#[trigger] b.shell2@[k]).0 < points.len() && b.shell2@[k].1 < points.len()
    &&& forall|m: int, t: int|
        0 <= m < b.walls@.len() && 0 <= t < b.walls@[m].2@.len() ==> #[trigger] b.walls@[m].2@[t] < duals.len()
    &&& o.dual ==> points.len() > 0
    &&& points.len() + duals.len() <= isize::MAX
}

proof fn lemma_fan_ids(ids: Seq<usize>, m: nat, n: nat)
    requires
        m + 1 < ids.len() || m == 0,
        forall|t: int| 0 <= t < ids.len() ==> #[trigger] ids[t] < n,
    ensures
        forall|i: int, j: int| 0 <= i < fan_faces(ids, m).len() && 0 <= j < fan_faces(ids, m)[i].len() ==> #[trigger] fan_faces(ids, m)[i][j] < n,
        fan_faces(ids, m).len() == m,
    decreases m,
{
    if m > 0 {
        lemma_fan_ids(ids, (m - 1) as nat, n);
        let t = seq![ids[0], ids[m as int], ids[m as int + 1]];
        assert(t[0] < n && t[1] < n && t[2] < n);
        let ff = fan_faces(ids, m);
        assert forall|i: int, j: int| 0 <= i < ff.len() && 0 <= j < ff[i].len() implies #[trigger] ff[i][j] < n by {
            if i < m - 1 {
                assert(ff[i] == fan_faces(ids, (m - 1) as nat)[i]);
            } else {
                assert(ff[i] == t);
            }
        }
    }
}

/// The polygons of the walls refer to dual vertices.
proof fn lemma_walls_faces_ids(ws: Seq<(usize, Option<usize>, Vec<usize>)>, o: ObjOptions, n: nat)
    requires
        forall|m: int, t: int| 0 <= m < ws.len() && 0 <= t < ws[m].2@.len() ==> #[trigger] ws[m].2@[t] < n,
    ensures
        forall|i: int, j: int|
            0 <= i < walls_faces(ws, o).len() && 0 <= j < walls_faces(ws, o)[i].len() ==> #[trigger] walls_faces(ws, o)[i][j] < n,
    decreases ws.len(),
{
    if ws.len() > 0 {
        let d = ws.drop_last();
        assert forall|m: int, t: int| 0 <= m < d.len() && 0 <= t < d[m].2@.len() implies #[trigger] d[m].2@[t] < n by {
            assert(d[m] == ws[m]);
        }
        lemma_walls_faces_ids(d, o, n);
        let w = ws.last();
        let ids = w.2@;
        assert forall|t: int| 0 <= t < ids.len() implies #[trigger] ids[t] < n by {
            assert(ws[ws.len() - 1] == w);
            assert(ws[ws.len() - 1].2@[t] < n);
        }
        let wf = wall_faces(w, o);
        if !(w.1 is None && !o.include_outer) && o.triangulate {
            lemma_fan_ids(ids, if ids.len() >= 2 {
                (ids.len() - 2) as nat
            } else {
                0
            }, n);
        }
        assert forall|i: int, j: int| 0 <= i < wf.len() && 0 <= j < wf[i].len() implies #[trigger] wf[i][j] < n by {
            if !(w.1 is None && !o.include_outer) && !o.triangulate {
                if i == 0 {
                    assert(wf[i] == ids);
                } else {
                    assert(wf[i] == ids.reverse());
                    assert(ids.reverse()[j] == ids[ids.len() - 1 - j]);
                }
            }
        }
        let all = walls_faces(ws, o);
        let front = walls_faces(d, o);
        assert forall|i: int, j: int| 0 <= i < all.len() && 0 <= j < all[i].len() implies #[trigger] all[i][j] < n by {
            if i < front.len() {
                assert(all[i] == front[i]);
            } else {
                assert(all[i] == wf[i - front.len()]);
            }
        }
    }
}

proof fn lemma_name_plain(k: crate::lattice::Lattice, suffix: Seq<char>)
    requires
        suffix == seq!['_', 'l', 'a', 't', 't', 'i', 'c', 'e'] || suffix == seq!['_', 'v', 'o', 'r', 'o', 'n', 'o', 'i'],
    ensures
        (lattice_name(k) + suffix).len() > 0,
        forall|i: int| 0 <= i < (lattice_name(k) + suffix).len() ==> !is_ascii_ws(#[trigger] (lattice_name(k) + suffix)[i])
            && (lattice_name(k) + suffix)[i] != '\n',
{
    let w = lattice_name(k) + suffix;
    assert forall|i: int| 0 <= i < w.len() implies !is_ascii_ws(#[trigger] w[i]) && w[i] != '\n' by {
        if i < lattice_name(k).len() {
            assert(w[i] == lattice_name(k)[i]);
        } else {
            assert(w[i] == suffix[i - lattice_name(k).len()]);
        }
    }
}

/// A line of an object name and a newline splits into that line.
proof fn lemma_object_line(w: Seq<char>)
    requires
        forall|i: int| 0 <= i < w.len() ==> #[trigger] w[i] != '\n',
    ensures
        lines((seq!['o', ' '] + w).push('\n')) == seq![seq!['o', ' '] + w],
{
    let x = seq!['o', ' '] + w;
    assert forall|i: int| 0 <= i < x.len() implies #[trigger] x[i] != '\n' by {
        if i >= 2 {
            assert(x[i] == w[i - 2]);
        }
    }
    lemma_lines_single(x);
}

/// The `f` lines of the walls split into one line per polygon.
proof fn lemma_walls_lines(base: nat, ws: Seq<(usize, Option<usize>, Vec<usize>)>, o: ObjOptions)
    ensures
        lines(walls_text(base, ws, o)) == bodies(
            walls_faces(ws, o).map_values(|ids: Seq<usize>| face_line(base, ids, o.normals)),
        ),
        walls_text(base, ws, o).len() == 0 || walls_text(base, ws, o).last() == '\n',
{
    lemma_walls_text(base, ws, o);
    lemma_faces_text_lines(base, walls_faces(ws, o), o.normals);
}

/// The dual part of the tail of a written block.
pub open spec fn block_dual_lines<P>(b: LatticeBlock<P>, o: ObjOptions, duals: Seq<Seq<char>>) -> Seq<Seq<char>> {
    seq![seq!['o', ' '] + voronoi_word(lattice_name(b.kind))] + bodies(duals) + (if o.normals {
        seq![seq!['v', 'n', ' ', '0', ' ', '0', ' ', '1']]
    } else {
        seq![]
    }) + bodies(
        walls_faces(b.walls@, o).map_values(|ids: Seq<usize>| face_line(b.points@.len(), ids, o.normals)),
    )
}

/// The dual object of a written block splits into its lines.
#[verifier::spinoff_prover]
proof fn lemma_block_dual_lines<P>(b: LatticeBlock<P>, o: ObjOptions, duals: Seq<Seq<char>>)
    requires
        forall|i: int| 0 <= i < duals.len() ==> is_v_line(#[trigger] duals[i]),
    ensures
        lines(dual_head(lattice_name(b.kind)) + concat(duals) + normal_line(o.normals) + walls_text(
            b.points@.len(),
            b.walls@,
            o,
        )) == block_dual_lines(b, o, duals),
{
    let name = lattice_name(b.kind);
    lemma_name_plain(b.kind, seq!['_', 'v', 'o', 'r', 'o', 'n', 'o', 'i']);
    lemma_object_line(voronoi_word(name));
    let dh = dual_head(name);
    assert(dh =~= (seq!['o', ' '] + voronoi_word(name)).push('\n'));
    assert forall|i: int| 0 <= i < duals.len() implies is_one_line(#[trigger] duals[i]) by {
        assert(is_v_line(duals[i]));
    }
    lemma_lines_concat(duals);
    let nl = normal_line(o.normals);
    if o.normals {
        let x = seq!['v', 'n', ' ', '0', ' ', '0', ' ', '1'];
        assert forall|i: int| 0 <= i < x.len() implies #[trigger] x[i] != '\n' by {}
        lemma_lines_single(x);
        assert(nl =~= x.push('\n'));
    } else {
        assert(lines(nl) =~= Seq::<Seq<char>>::empty());
    }
    let wt = walls_text(b.points@.len(), b.walls@, o);
    lemma_walls_lines(b.points@.len(), b.walls@, o);
    let dd = concat(duals);
    lemma_lines_append(nl, wt);
    lemma_lines_append(dd, nl + wt);
    lemma_lines_append(dh, dd + (nl + wt));
    assert(dh + dd + nl + wt =~= dh + (dd + (nl + wt)));
    assert(lines(dh) + (lines(dd) + (lines(nl) + lines(wt))) =~= block_dual_lines(b, o, duals));
}

/// The written block splits into `block_lines`.
#[verifier::spinoff_prover]
proof fn lemma_block_lines<P>(b: LatticeBlock<P>, o: ObjOptions, points: Seq<Seq<char>>, duals: Seq<Seq<char>>)
    requires
        block_writable(b, o, points, duals),
    ensures
        lines(obj_text(b, o, points, duals)) == block_lines(b, o, points, duals),
{
    let name = lattice_name(b.kind);
    lemma_name_plain(b.kind, seq!['_', 'l', 'a', 't', 't', 'i', 'c', 'e']);
    let cl = comment_line();
    assert forall|i: int| 0 <= i < cl.len() implies #[trigger] cl[i] != '\n' by {}
    lemma_lines_single(cl);
    lemma_object_line(lattice_word(name));
    let c1 = cl.push('\n');
    let c2 = (seq!['o', ' '] + lattice_word(name)).push('\n');
    assert(obj_head(name) =~= c1 + c2);
    lemma_lines_append(c1, c2);
    assert forall|i: int| 0 <= i < points.len() implies is_one_line(#[trigger] points[i]) by {
        assert(is_v_line(points[i]));
    }
    lemma_lines_concat(points);
    let es = chosen_edges(b, o);
    lemma_edge_lines_lines(es);
    let pts = concat(points);
    let el = edge_lines(es);
    let tail = if o.dual {
        dual_head(name) + concat(duals) + normal_line(o.normals) + walls_text(b.points@.len(), b.walls@, o)
    } else {
        seq![]
    };
    if o.dual {
        lemma_block_dual_lines(b, o, duals);
    } else {
        assert(lines(tail) =~= Seq::<Seq<char>>::empty());
    }
    let text = obj_text(b, o, points, duals);
    assert(text =~= obj_head(name) + (pts + (el + tail)));
    lemma_lines_append(el, tail);
    lemma_lines_append(pts, el + tail);
    lemma_lines_append(obj_head(name), pts + (el + tail));
    assert(lines(text) =~= block_lines(b, o, points, duals));
}

/// The file after the lattice object of a written block.
pub open spec fn block_head_file<P>(b: LatticeBlock<P>, o: ObjOptions, points: Seq<Seq<char>>) -> ObjFileView {
    ObjFileView {
        vertices: points.map_values(|p: Seq<char>| coords_of(p)),
        objects: seq![
            ObjObjectView {
                name: lattice_word(lattice_name(b.kind)),
                vertices: span(0, points.len()),
                lines: chosen_edges(b, o),
                faces: seq![],
            },
        ],
    }
}

proof fn lemma_chosen_below<P>(b: LatticeBlock<P>, o: ObjOptions, n: nat)
    requires
        forall|k: int| 0 <= k < b.shell1@.len() ==> (#[trigger] b.shell1@[k]).0 < n && b.shell1@[k].1 < n,
        forall|k: int| 0 <= k < b.shell2@.len() ==> (#[trigger] b.shell2@[k]).0 < n && b.shell2@[k].1 < n,
    ensures
        forall|k: int| 0 <= k < chosen_edges(b, o).len() ==> (#[trigger] chosen_edges(b, o)[k]).0 < n
            && chosen_edges(b, o)[k].1 < n,
{
    let es = chosen_edges(b, o);
    assert forall|k: int| 0 <= k < es.len() implies (#[trigger] es[k]).0 < n && es[k].1 < n by {
        if o.lines == crate::block_obj::Lines::Both {
            if k < b.shell1@.len() {
                assert(es[k] == b.shell1@[k]);
            } else {
                assert(es[k] == b.shell2@[k - b.shell1@.len()]);
            }
        }
    }
}

/// Reading the lattice object of a written block.
#[verifier::spinoff_prover]
#[verifier::rlimit(40)]
proof fn lemma_block_parse_head<P>(b: LatticeBlock<P>, o: ObjOptions, points: Seq<Seq<char>>, duals: Seq<Seq<char>>)
    requires
        block_writable(b, o, points, duals),
    ensures
        parse_prefix(
            block_lines(b, o, points, duals),
            2 + points.len() + chosen_edges(b, o).len(),
        ) == Ok::<ObjFileView, ObjErrorView>(block_head_file(b, o, points)),
{
    let ls = block_lines(b, o, points, duals);
    let name = lattice_name(b.kind);
    let np = points.len();
    let es = chosen_edges(b, o);
    let f0 = initial_file();
    // the comment
    let cl = comment_line();
    assert(ls[0] == cl);
    assert(cl.take(1) =~= seq!['#']);
    assert(seq!['#'] != seq!['v'] && seq!['#'] != seq!['l'] && seq!['#'] != seq!['f'] && seq!['#'] != seq!['o']) by {
        assert(seq!['#'][0] != seq!['v'][0]);
        assert(seq!['#'][0] != seq!['l'][0]);
        assert(seq!['#'][0] != seq!['f'][0]);
        assert(seq!['#'][0] != seq!['o'][0]);
    }
    assert(parse_prefix(ls, 0) == Ok::<ObjFileView, ObjErrorView>(f0));
    lemma_other_step(ls, 0, f0, 1);
    // the name of the lattice object
    lemma_name_plain(b.kind, seq!['_', 'l', 'a', 't', 't', 'i', 'c', 'e']);
    lemma_tokens_object(lattice_word(name));
    let t1 = tokens(ls[1]);
    assert(ls[1] == seq!['o', ' '] + lattice_word(name));
    assert(t1[0] != seq!['v'] && t1[0] != seq!['l'] && t1[0] != seq!['f']) by {
        assert(t1[0][0] != seq!['v'][0]);
        assert(t1[0][0] != seq!['l'][0]);
        assert(t1[0][0] != seq!['f'][0]);
    }
    assert(t1.drop_first() =~= seq![lattice_word(name)]);
    assert(f0.last_object() == empty_object());
    let g0 = ObjObjectView { name: lattice_word(name), ..empty_object() };
    let f1 = f0.with_last(g0);
    assert(parse_prefix(ls, 2) == parse_line(f0, 2, t1));
    assert(parse_prefix(ls, 2) == Ok::<ObjFileView, ObjErrorView>(f1));
    // the points
    assert forall|i: int| 0 <= i < points.len() implies #[trigger] ls[2 + i] == points[i].drop_last() by {
        assert(ls[2 + i] == bodies(points)[i]);
    }
    lemma_v_run(ls, 2, points, f1);
    assert(f1.objects =~= seq![g0]);
    assert(f1.vertices =~= Seq::<(Seq<char>, Seq<char>, Seq<char>)>::empty());
    let g1 = ObjObjectView { vertices: span(0, np), ..g0 };
    let f2 = ObjFileView { vertices: points.map_values(|p: Seq<char>| coords_of(p)), objects: seq![g1] };
    assert(f1.objects.update(0, ObjObjectView { vertices: g0.vertices + span(0, np), ..g0 }) =~= seq![g1]);
    assert(f1.vertices + points.map_values(|p: Seq<char>| coords_of(p)) =~= f2.vertices);
    assert(parse_prefix(ls, 2 + np) == Ok::<ObjFileView, ObjErrorView>(f2));
    // the edges
    lemma_chosen_below(b, o, np);
    let ebs = bodies(es.map_values(|e: (usize, usize)| edge_line(e)));
    assert forall|i: int| 0 <= i < es.len() implies #[trigger] ls[(2 + np) + i] == edge_line(es[i]).drop_last() by {
        assert(ls[2 + np + i] == ebs[i]);
    }
    lemma_edge_run(ls, 2 + np, es, f2);
    let g2 = ObjObjectView { lines: es, ..g1 };
    assert(g1.lines + es =~= es);
    assert(f2.with_last(ObjObjectView { lines: g1.lines + es, ..g1 }).objects =~= seq![g2]);
    assert(block_head_file(b, o, points).objects =~= seq![g2]);
}

/// Reading the dual object of a written block.
#[verifier::spinoff_prover]
#[verifier::rlimit(40)]
proof fn lemma_block_parse_dual<P>(b: LatticeBlock<P>, o: ObjOptions, points: Seq<Seq<char>>, duals: Seq<Seq<char>>)
    requires
        block_writable(b, o, points, duals),
        o.dual,
        parse_prefix(
            block_lines(b, o, points, duals),
            2 + points.len() + chosen_edges(b, o).len(),
        ) == Ok::<ObjFileView, ObjErrorView>(block_head_file(b, o, points)),
    ensures
        parse_prefix(block_lines(b, o, points, duals), block_lines(b, o, points, duals).len()) == Ok::<
            ObjFileView,
            ObjErrorView,
        >(read_back_block(b, o, points, duals)),
{
    let ls = block_lines(b, o, points, duals);
    let name = lattice_name(b.kind);
    let np = points.len();
    let nd = duals.len();
    let es = chosen_edges(b, o);
    let fs = walls_faces(b.walls@, o);
    let f3 = block_head_file(b, o, points);
    let k = 2 + np + es.len();
    let g2 = f3.objects[0];
    // the name of the dual object
    assert(g2.vertices.len() == np && np > 0);
    lemma_name_plain(b.kind, seq!['_', 'v', 'o', 'r', 'o', 'n', 'o', 'i']);
    lemma_tokens_object(voronoi_word(name));
    let t = tokens(ls[k as int]);
    assert(ls[k as int] == seq!['o', ' '] + voronoi_word(name));
    assert(t[0] != seq!['v'] && t[0] != seq!['l'] && t[0] != seq!['f']) by {
        assert(t[0][0] != seq!['v'][0]);
        assert(t[0][0] != seq!['l'][0]);
        assert(t[0][0] != seq!['f'][0]);
    }
    assert(t.drop_first() =~= seq![voronoi_word(name)]);
    let d0 = ObjObjectView { name: voronoi_word(name), ..empty_object() };
    let f4 = ObjFileView { objects: seq![g2, d0], ..f3 };
    assert(parse_prefix(ls, k + 1) == parse_line(f3, k + 1, t));
    assert(f3.objects.push(d0) =~= f4.objects);
    assert(parse_prefix(ls, k + 1) == Ok::<ObjFileView, ObjErrorView>(f4));
    // the dual vertices
    assert forall|i: int| 0 <= i < duals.len() implies #[trigger] ls[(k + 1) + i] == duals[i].drop_last() by {
        assert(ls[k + 1 + i] == bodies(duals)[i]);
    }
    lemma_v_run(ls, k + 1, duals, f4);
    let d1 = ObjObjectView { vertices: span(np, nd), ..d0 };
    let f5 = ObjFileView {
        vertices: points.map_values(|p: Seq<char>| coords_of(p)) + duals.map_values(|p: Seq<char>| coords_of(p)),
        objects: seq![g2, d1],
    };
    assert(d0.vertices + span(np, nd) =~= span(np, nd));
    assert(f4.objects.update(1, ObjObjectView { vertices: d0.vertices + span(f4.vertices.len(), nd), ..d0 }) =~= f5.objects);
    let k2 = k + 1 + nd;
    assert(parse_prefix(ls, k2) == Ok::<ObjFileView, ObjErrorView>(f5));
    // the normal
    let k3: nat = if o.normals { k2 + 1 } else { k2 };
    if o.normals {
        let x = ls[k2 as int];
        assert(x == seq!['v', 'n', ' ', '0', ' ', '0', ' ', '1']);
        assert(x.take(2) =~= seq!['v', 'n']);
        assert(seq!['v', 'n'] != seq!['v'] && seq!['v', 'n'] != seq!['l'] && seq!['v', 'n'] != seq!['f']
            && seq!['v', 'n'] != seq!['o']) by {
            assert(seq!['v', 'n'].len() != seq!['v'].len());
            assert(seq!['v', 'n'].len() != seq!['l'].len());
            assert(seq!['v', 'n'].len() != seq!['f'].len());
            assert(seq!['v', 'n'].len() != seq!['o'].len());
        }
        lemma_other_step(ls, k2, f5, 2);
    }
    assert(parse_prefix(ls, k3) == Ok::<ObjFileView, ObjErrorView>(f5));
    // the walls
    lemma_walls_faces_ids(b.walls@, o, nd);
    let fls = bodies(fs.map_values(|ids: Seq<usize>| face_line(b.points@.len(), ids, o.normals)));
    assert forall|i: int| 0 <= i < fs.len() implies #[trigger] ls[k3 + i] == face_line(np, fs[i], o.normals).drop_last() by {
        assert(ls[k3 + i] == fls[i]);
    }
    assert forall|i: int, j: int| 0 <= i < fs.len() && 0 <= j < fs[i].len() implies np + #[trigger] fs[i][j]
        < f5.vertices.len() && np + fs[i][j] + 1 <= isize::MAX by {
        assert(fs[i][j] < nd);
    }
    lemma_faces_run(ls, k3, np, fs, o.normals, f5);
    assert(ls.len() == k3 + fs.len());
    let d2 = ObjObjectView { faces: d1.faces + fs.map_values(|ids: Seq<usize>| shifted(np, ids)), ..d1 };
    assert(d1.faces + fs.map_values(|ids: Seq<usize>| shifted(np, ids)) =~= fs.map_values(
        |ids: Seq<usize>| shifted(np, ids),
    ));
    assert(f5.objects.update(1, d2) =~= read_back_block(b, o, points, duals).objects);
}

/// Collecting the grid from a block read back.
#[verifier::spinoff_prover]
proof fn lemma_block_collect<P>(b: LatticeBlock<P>, o: ObjOptions, points: Seq<Seq<char>>, duals: Seq<Seq<char>>)
    requires
        block_writable(b, o, points, duals),
    ensures
        collect_spec(read_back_block(b, o, points, duals)) == Ok::<PartsView, Seq<char>>(
            read_back_block_parts(b, o, points, duals),
        ),
{
    let f = read_back_block(b, o, points, duals);
    let np = points.len();
    let nd = duals.len();
    let nv = f.vertices.len();
    let es = chosen_edges(b, o);
    let polys = walls_faces(b.walls@, o).map_values(|ids: Seq<usize>| shifted(np, ids));
    assert(nv <= usize::MAX);
    let none = Seq::new(nv, |i: int| None::<usize>);
    assert(none =~= first_points(nv, 0));
    let o0 = f.objects[0];
    assert(!o0.is_dual());
    lemma_assign_range(nv, 0, np);
    let pov = first_points(nv, np);
    lemma_chosen_below(b, o, np);
    lemma_map_identity(pov, es);
    assert(Seq::<usize>::empty() + span(0, np) =~= span(0, np));
    assert(Seq::<(usize, usize)>::empty() + es =~= es);
    assert(collect_prefix(f, 0) == Ok::<PartsView, Seq<char>>(
        PartsView { point_of: none, points: seq![], line_edges: seq![], faces: seq![] },
    ));
    let st1 = PartsView { point_of: pov, points: span(0, np), line_edges: es, faces: seq![] };
    assert(collect_prefix(f, 1) == Ok::<PartsView, Seq<char>>(st1));
    let want = read_back_block_parts(b, o, points, duals);
    if o.dual {
        let o1 = f.objects[1];
        if polys.len() > 0 {
            assert(o1.is_dual());
            assert(Seq::<Seq<usize>>::empty() + o1.faces =~= o1.faces);
            assert(collect_prefix(f, 2) == Ok::<PartsView, Seq<char>>(want));
        } else {
            assert(!o1.is_dual());
            assert(nv == np + nd);
            lemma_assign_range(nv, np, nd);
            assert(map_lines(first_points(nv, nv), Seq::<(usize, usize)>::empty()) == Some(
                Seq::<(usize, usize)>::empty(),
            ));
            assert(span(0, np) + span(np, nd) =~= span(0, nv));
            assert(es + Seq::<(usize, usize)>::empty() =~= es);
            assert(collect_prefix(f, 2) == Ok::<PartsView, Seq<char>>(want));
        }
    } else {
        assert(st1 == want);
    }
}

/// Writing a lattice block as `.obj` text and reading it back gives the block back: the
/// text parses without error into the object `<NAME>_lattice`, whose vertices are the
/// points, in order, and whose lines are the edges the options chose, and, when the dual
/// is written, the object `<NAME>_voronoi`, whose vertices are the dual vertices and whose
/// polygons are the walls as the options wrote them (outer walls left out unless asked
/// for, each wall twice when duplicated, fan triangles when triangulated), over exactly
/// those vertices.  Collecting the grid from that file gives the points, the chosen edges
/// and those polygons; a dual object without polygons is read as more points.
pub proof fn law_written_block_reads_back<P>(
    b: LatticeBlock<P>,
    o: ObjOptions,
    points: Seq<Seq<char>>,
    duals: Seq<Seq<char>>,
)
    requires
        block_writable(b, o, points, duals),
    ensures
        parse_obj(obj_text(b, o, points, duals)) == Ok::<ObjFileView, ObjErrorView>(
            read_back_block(b, o, points, duals),
        ),
        collect_spec(read_back_block(b, o, points, duals)) == Ok::<PartsView, Seq<char>>(
            read_back_block_parts(b, o, points, duals),
        ),
{
    lemma_block_lines(b, o, points, duals);
    lemma_block_parse_head(b, o, points, duals);
    if o.dual {
        lemma_block_parse_dual(b, o, points, duals);
    } else {
        let ls = block_lines(b, o, points, duals);
        assert(ls.len() == 2 + points.len() + chosen_edges(b, o).len());
        assert(block_head_file(b, o, points) == read_back_block(b, o, points, duals));
    }
    lemma_block_collect(b, o, points, duals);
}

/// Every grid built from points, edges between them and dual faces joining them (as
/// `from_parts` and `assemble` build it) can be written and read back: with one `v` line per
/// point and per face vertex, and ids that fit, the premises of the round trip hold.
pub proof fn law_built_grid_writable<P>(
    g: VineyardsGridMesh<P>,
    es: Seq<(usize, usize)>,
    points: Seq<Seq<char>>,
    fv: Seq<Seq<Seq<char>>>,
)
    requires
        g.points@.len() <= isize::MAX,
        endpoints_below(es, g.points@.len()),
        lists(g.neighbors@) == adjacency(g.points@.len(), es),
        faces_below(g.dual_faces@, g.points@.len()),
        points.len() == g.points@.len(),
        fv.len() == g.dual_faces@.len(),
        forall|j: int| 0 <= j < fv.len() ==> (#[trigger] fv[j]).len() == g.dual_faces@[j].vertices@.len(),
        forall|i: int| 0 <= i < points.len() ==> is_v_line(#[trigger] points[i]),
        forall|j: int, i: int| 0 <= j < fv.len() && 0 <= i < fv[j].len() ==> is_v_line(#[trigger] fv[j][i]),
        points.len() + total(lens(fv)) <= isize::MAX,
    ensures
        writable(g, points, fv),
{
    let n = g.points@.len();
    lemma_adjacency(n, es);
    let nb = lists(g.neighbors@);
    assert forall|a: int, j: int|
        0 <= a < g.neighbors@.len() && 0 <= j < g.neighbors@[a]@.len() implies 0 <= #[trigger] g.neighbors@[a]@[j] < points.len() by {
        assert(nb[a] == g.neighbors@[a]@);
        assert(nb[a][j] == adjacency(n, es)[a][j]);
    }
}

/// The shells of a block that `lattice_block` builds are sorted lists of pairs `(i, j)` with
/// `i < j` below the number of points, and every wall refers to dual vertices; so, with one
/// `v` line per point and per dual vertex, a point when the dual is written, and ids that fit,
/// the block can be written and read back.
pub proof fn law_lattice_block_writable(
    b: LatticeBlock<Point3>,
    s1: Seq<Point3>,
    s2: Seq<Point3>,
    rs: Seq<Point3>,
    faces: Seq<Seq<usize>>,
    vz: Seq<Point3>,
    o: ObjOptions,
    points: Seq<Seq<char>>,
    duals: Seq<Seq<char>>,
)
    requires
        pairs_ok(b.points@, s1, b.shell1@),
        pairs_ok(b.points@, s2, b.shell2@),
        walls_ok(b.points@, rs, faces, vz, b.dual_vertices@, b.walls@),
        points.len() == b.points@.len(),
        duals.len() == b.dual_vertices@.len(),
        forall|i: int| 0 <= i < points.len() ==> is_v_line(#[trigger] points[i]),
        forall|i: int| 0 <= i < duals.len() ==> is_v_line(#[trigger] duals[i]),
        o.dual ==> points.len() > 0,
        points.len() + duals.len() <= isize::MAX,
    ensures
        forall|i: int, j: int| 0 <= i < j < b.shell1@.len() ==> pair_lt(#[trigger] b.shell1@[i], #[trigger] b.shell1@[j]),
        forall|i: int, j: int| 0 <= i < j < b.shell2@.len() ==> pair_lt(#[trigger] b.shell2@[i], #[trigger] b.shell2@[j]),
        forall|k: int| 0 <= k < b.shell1@.len() ==> (#[trigger] b.shell1@[k]).0 < b.shell1@[k].1 < b.points@.len(),
        forall|k: int| 0 <= k < b.shell2@.len() ==> (#[trigger] b.shell2@[k]).0 < b.shell2@[k].1 < b.points@.len(),
        block_writable(b, o, points, duals),
{
    assert forall|k: int| 0 <= k < b.shell1@.len() implies (#[trigger] b.shell1@[k]).0 < b.shell1@[k].1 < b.points@.len() by {
        assert(b.shell1@.contains((b.shell1@[k].0, b.shell1@[k].1)));
    }
    assert forall|k: int| 0 <= k < b.shell2@.len() implies (#[trigger] b.shell2@[k]).0 < b.shell2@[k].1 < b.points@.len() by {
        assert(b.shell2@.contains((b.shell2@[k].0, b.shell2@[k].1)));
    }
    assert forall|m: int, t: int|
        0 <= m < b.walls@.len() && 0 <= t < b.walls@[m].2@.len() implies #[trigger] b.walls@[m].2@[t] < duals.len() by {
        let w = b.walls@[m];
        assert(w.2@[t] < b.dual_vertices@.len());
    }
}

} // verus!
