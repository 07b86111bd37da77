//! Cubic lattices with their Voronoi tessellation, in exact integer coordinates.
//!
//! Two coordinate systems: Y is twice the fractional cell coordinate of a lattice point, Z is
//! four times the fractional coordinate of a Voronoi vertex.  The real coordinates, `(a/2) Y`
//! and `(a/4) Z` shifted to where the block is centred, are left to the caller.
use vstd::prelude::*;

use crate::regular::half;

verus! {

/// Which cubic lattice.
#[derive(Clone, Copy, Debug, PartialEq, Eq, Structural)]
pub enum Lattice {
    Sc,
    Bcc,
    Fcc,
}

/// A point or vector in integer coordinates.
pub type Point3 = [i64; 3];

/// The name of the lattice, as written in object names.
pub open spec fn lattice_name(k: Lattice) -> Seq<char> {
    match k {
        Lattice::Sc => seq!['S', 'C'],
        Lattice::Bcc => seq!['B', 'C', 'C'],
        Lattice::Fcc => seq!['F', 'C', 'C'],
    }
}

/// Basis offsets of the conventional cell, in Y coordinates.
pub open spec fn basis_spec(k: Lattice) -> Seq<Point3> {
    match k {
        Lattice::Sc => seq![[0i64, 0, 0]],
        Lattice::Bcc => seq![[0i64, 0, 0], [1i64, 1, 1]],
        Lattice::Fcc => seq![[0i64, 0, 0], [1i64, 1, 0], [1i64, 0, 1], [0i64, 1, 1]],
    }
}

/// The `p`-th permutation of three coordinates, in lexicographic order.
pub open spec fn perm(p: int) -> Seq<int> {
    if p == 0 {
        seq![0, 1, 2]
    } else if p == 1 {
        seq![0, 2, 1]
    } else if p == 2 {
        seq![1, 0, 2]
    } else if p == 3 {
        seq![1, 2, 0]
    } else if p == 4 {
        seq![2, 0, 1]
    } else {
        seq![2, 1, 0]
    }
}

/// The sign that bit `k` of `s` chooses: `-1` if it is set.
pub open spec fn sign(s: int, k: int) -> int {
    if (if k == 0 {
        s % 2
    } else if k == 1 {
        (s / 2) % 2
    } else {
        (s / 4) % 2
    }) == 1 {
        -1
    } else {
        1
    }
}

/// The coordinates of `v` permuted by `p`, with signs chosen by the bits of `s`.
pub open spec fn image(v: Point3, p: int, s: int) -> Seq<int> {
    seq![
        sign(s, 0) * v@[perm(p)[0]],
        sign(s, 1) * v@[perm(p)[1]],
        sign(s, 2) * v@[perm(p)[2]],
    ]
}

/// `c` is a coordinate permutation of `v` with some choice of signs.
pub open spec fn in_orbit(v: Point3, c: Point3) -> bool {
    exists|p: int, s: int| 0 <= p < 6 && 0 <= s < 8 && #[trigger] image(v, p, s) == c@.map_values(|x: i64| x as int)
}

/// Some element of `s` is the image of `v` under permutation `q` and signs `t`.
pub open spec fn has_image(s: Seq<Point3>, v: Point3, q: int, t: int) -> bool {
    exists|c: Point3| #[trigger] s.contains(c) && image(v, q, t) == c@.map_values(|x: i64| x as int)
}

/// Lexicographic order.
pub open spec fn lex_lt(a: Point3, b: Point3) -> bool {
    a@[0] < b@[0] || (a@[0] == b@[0] && (a@[1] < b@[1] || (a@[1] == b@[1] && a@[2] < b@[2])))
}

/// Strictly increasing in lexicographic order.
pub open spec fn strictly_sorted(s: Seq<Point3>) -> bool {
    forall|i: int, j: int| 0 <= i < j < s.len() ==> lex_lt(#[trigger] s[i], #[trigger] s[j])
}

/// `s` is the orbit of `v`: every signed permutation of it, once each, sorted.
pub open spec fn is_orbit(s: Seq<Point3>, v: Point3) -> bool {
    &&& strictly_sorted(s)
    &&& forall|c: Point3| s.contains(c) <==> in_orbit(v, c)
}

/// The entries of `v` can be negated.
pub open spec fn negatable(v: Point3) -> bool {
    forall|i: int| 0 <= i < 3 ==> #[trigger] v@[i] > i64::MIN
}

fn lex_less(a: &Point3, b: &Point3) -> (r: bool)
    ensures
        r == lex_lt(*a, *b),
{
    a[0] < b[0] || (a[0] == b[0] && (a[1] < b[1] || (a[1] == b[1] && a[2] < b[2])))
}

fn same_point(a: &Point3, b: &Point3) -> (r: bool)
    ensures
        r == (*a == *b),
{
    let r = a[0] == b[0] && a[1] == b[1] && a[2] == b[2];
    proof {
        if r {
            assert(*a =~= *b);
        }
    }
    r
}

proof fn lemma_lex_total(a: Point3, b: Point3)
    requires
        !lex_lt(a, b),
        a != b,
    ensures
        lex_lt(b, a),
{
    if !lex_lt(b, a) {
        assert(a =~= b);
    }
}

/// Inserts `c` into a strictly sorted sequence, unless it is there already.
fn insert_sorted(out: &mut Vec<Point3>, c: Point3)
    requires
        strictly_sorted(old(out)@),
    ensures
        strictly_sorted(final(out)@),
        forall|x: Point3| #[trigger] final(out)@.contains(x) <==> (old(out)@.contains(x) || x == c),
{
    let mut k: usize = 0;
    while k < out.len() && lex_less(&out[k], &c)
        invariant
            k <= out.len(),
            strictly_sorted(out@),
            forall|i: int| 0 <= i < k ==> lex_lt(#[trigger] out@[i], c),
        decreases out.len() - k,
    {
        k += 1;
    }
    if k < out.len() && same_point(&out[k], &c) {
        proof {
            assert forall|x: Point3| #[trigger] out@.contains(x) <==> (out@.contains(x) || x == c) by {
                if x == c {
                    assert(out@[k as int] == x);
                }
            }
        }
        return;
    }
    let ghost o = out@;
    out.insert(k, c);
    proof {
        assert(out@ =~= o.take(k as int).push(c) + o.skip(k as int));
        assert forall|i: int, j: int| 0 <= i < j < out@.len() implies lex_lt(#[trigger] out@[i], #[trigger] out@[j]) by {
            if j < k {
                assert(out@[i] == o[i] && out@[j] == o[j]);
            } else if j == k {
                assert(out@[i] == o[i]);
            } else if i < k {
                assert(out@[i] == o[i] && out@[j] == o[j - 1]);
                assert(lex_lt(o[i], o[j - 1]));
            } else if i == k {
                assert(out@[j] == o[j - 1]);
                assert(!lex_lt(o[k as int], c));
                assert(o[k as int] != c);
                lemma_lex_total(o[k as int], c);
                if j - 1 > k {
                    assert(lex_lt(o[k as int], o[j - 1]));
                }
            } else {
                assert(out@[i] == o[i - 1] && out@[j] == o[j - 1]);
            }
        }
        assert forall|x: Point3| #[trigger] out@.contains(x) <==> (o.contains(x) || x == c) by {
            if out@.contains(x) {
                let i = choose|i: int| 0 <= i < out@.len() && out@[i] == x;
                if i < k {
                    assert(o[i] == x);
                } else if i > k {
                    assert(o[i - 1] == x);
                }
            }
            if o.contains(x) {
                let i = choose|i: int| 0 <= i < o.len() && o[i] == x;
                if i < k {
                    assert(out@[i] == x);
                } else {
                    assert(out@[i + 1] == x);
                }
            }
            if x == c {
                assert(out@[k as int] == x);
            }
        }
    }
}

fn perm_exec(p: usize) -> (r: [usize; 3])
    requires
        p < 6,
    ensures
        forall|i: int| 0 <= i < 3 ==> r@[i] == #[trigger] perm(p as int)[i],
{
    let r = if p == 0 {
        [0, 1, 2]
    } else if p == 1 {
        [0, 2, 1]
    } else if p == 2 {
        [1, 0, 2]
    } else if p == 3 {
        [1, 2, 0]
    } else if p == 4 {
        [2, 0, 1]
    } else {
        [2, 1, 0]
    };
    assert forall|i: int| 0 <= i < 3 implies r@[i] == #[trigger] perm(p as int)[i] by {}
    r
}

fn signed(s: usize, k: usize, x: i64) -> (r: i64)
    requires
        k < 3,
        x > i64::MIN,
    ensures
        r == sign(s as int, k as int) * x,
{
    let bit = if k == 0 {
        s % 2
    } else if k == 1 {
        (s / 2) % 2
    } else {
        (s / 4) % 2
    };
    if bit == 1 {
        -x
    } else {
        x
    }
}

/// All coordinate permutations of `v` with all sign choices, each once, sorted.
#[verifier::spinoff_prover]
pub fn orbit(v: Point3) -> (r: Vec<Point3>)
    requires
        negatable(v),
    ensures
        is_orbit(r@, v),
{
    let mut out: Vec<Point3> = Vec::new();
    for p in 0..6
        invariant
            negatable(v),
            strictly_sorted(out@),
            forall|k: int| 0 <= k < out@.len() ==> in_orbit(v, #[trigger] out@[k]),
            forall|q: int, s: int|
                0 <= q < p && 0 <= s < 8 ==> #[trigger] has_image(out@, v, q, s),
    {
        let pm = perm_exec(p);
        for s in 0..8
            invariant
                negatable(v),
                p < 6,
                forall|i: int| 0 <= i < 3 ==> pm@[i] == #[trigger] perm(p as int)[i],
                strictly_sorted(out@),
                forall|k: int| 0 <= k < out@.len() ==> in_orbit(v, #[trigger] out@[k]),
                forall|q: int, s2: int|
                    0 <= q < p && 0 <= s2 < 8 ==> #[trigger] has_image(out@, v, q, s2),
                forall|s2: int| 0 <= s2 < s ==> #[trigger] has_image(out@, v, p as int, s2),
        {
            assert(v@[0] > i64::MIN && v@[1] > i64::MIN && v@[2] > i64::MIN);
            assert(pm@[0] < 3 && pm@[1] < 3 && pm@[2] < 3) by {
                assert(pm@[0] == perm(p as int)[0]);
                assert(pm@[1] == perm(p as int)[1]);
                assert(pm@[2] == perm(p as int)[2]);
            }
            let c = [signed(s, 0, v[pm[0]]), signed(s, 1, v[pm[1]]), signed(s, 2, v[pm[2]])];
            let ghost o = out@;
            proof {
                assert(pm@[0] == perm(p as int)[0]);
                assert(pm@[1] == perm(p as int)[1]);
                assert(pm@[2] == perm(p as int)[2]);
                assert(image(v, p as int, s as int) =~= c@.map_values(|x: i64| x as int));
            }
            insert_sorted(&mut out, c);
            proof {
                assert(out@.contains(c));
                assert forall|k: int| 0 <= k < out@.len() implies in_orbit(v, #[trigger] out@[k]) by {
                    assert(out@.contains(out@[k]));
                    if out@[k] != c {
                        let i = choose|i: int| 0 <= i < o.len() && o[i] == out@[k];
                        assert(in_orbit(v, o[i]));
                    }
                }
                assert forall|q: int, s2: int|
                    0 <= q < p && 0 <= s2 < 8 implies #[trigger] has_image(out@, v, q, s2) by {
                    assert(has_image(o, v, q, s2));
                    let c2 = choose|c2: Point3| #[trigger] o.contains(c2) && image(v, q, s2) == c2@.map_values(|x: i64| x as int);
                    assert(out@.contains(c2));
                }
                assert forall|s2: int| 0 <= s2 < s + 1 implies #[trigger] has_image(out@, v, p as int, s2) by {
                    if s2 < s {
                        assert(has_image(o, v, p as int, s2));
                        let c2 = choose|c2: Point3| #[trigger] o.contains(c2) && image(v, p as int, s2) == c2@.map_values(|x: i64| x as int);
                        assert(out@.contains(c2));
                    } else {
                        assert(out@.contains(c));
                    }
                }
            }
        }
    }
    proof {
        assert forall|c: Point3| out@.contains(c) <==> in_orbit(v, c) by {
            if out@.contains(c) {
                let i = choose|i: int| 0 <= i < out@.len() && out@[i] == c;
                assert(in_orbit(v, out@[i]));
            }
            if in_orbit(v, c) {
                let (q, s) = choose|q: int, s: int| 0 <= q < 6 && 0 <= s < 8 && #[trigger] image(v, q, s) == c@.map_values(|x: i64| x as int);
                assert(has_image(out@, v, q, s));
                let c2 = choose|c2: Point3| #[trigger] out@.contains(c2) && image(v, q, s) == c2@.map_values(|x: i64| x as int);
                assert(c2@.map_values(|x: i64| x as int) == c@.map_values(|x: i64| x as int));
                assert(c2 =~= c) by {
                    assert forall|i: int| 0 <= i < 3 implies c2@[i] == c@[i] by {
                        assert(c2@.map_values(|x: i64| x as int)[i] == c@.map_values(|x: i64| x as int)[i]);
                    }
                }
                assert(c2 == c);
            }
        }
    }
    out
}

/// `s` is the orbit of `a` followed by the orbit of `b`.
pub open spec fn two_orbits(s: Seq<Point3>, a: Point3, b: Point3) -> bool {
    exists|k: int| 0 <= k <= s.len() && is_orbit(s.take(k), a) && #[trigger] is_orbit(s.skip(k), b)
}

/// The vertices of the Voronoi cell around the origin, in Z coordinates: a cube (SC), a
/// truncated octahedron (BCC), a rhombic dodecahedron (FCC).
pub open spec fn voronoi_vertices_ok(k: Lattice, s: Seq<Point3>) -> bool {
    match k {
        Lattice::Sc => is_orbit(s, [2i64, 2, 2]),
        Lattice::Bcc => is_orbit(s, [0i64, 1, 2]),
        Lattice::Fcc => two_orbits(s, [2i64, 0, 0], [1i64, 1, 1]),
    }
}

/// The lattice vectors whose bisector planes carry a facet of the Voronoi cell, in Z
/// coordinates.
pub open spec fn relevant_ok(k: Lattice, s: Seq<Point3>) -> bool {
    match k {
        Lattice::Sc => is_orbit(s, [4i64, 0, 0]),
        Lattice::Bcc => two_orbits(s, [2i64, 2, 2], [4i64, 0, 0]),
        Lattice::Fcc => is_orbit(s, [2i64, 2, 0]),
    }
}

/// The offsets to the first and second coordination shells, in Y coordinates.
pub open spec fn shells_ok(k: Lattice, s1: Seq<Point3>, s2: Seq<Point3>) -> bool {
    match k {
        Lattice::Sc => is_orbit(s1, [2i64, 0, 0]) && is_orbit(s2, [2i64, 2, 0]),
        Lattice::Bcc => is_orbit(s1, [1i64, 1, 1]) && is_orbit(s2, [2i64, 0, 0]),
        Lattice::Fcc => is_orbit(s1, [1i64, 1, 0]) && is_orbit(s2, [2i64, 0, 0]),
    }
}

fn two_orbits_exec(a: Point3, b: Point3) -> (r: Vec<Point3>)
    requires
        negatable(a),
        negatable(b),
    ensures
        two_orbits(r@, a, b),
{
    let mut r = orbit(a);
    let k = r.len();
    let mut t = orbit(b);
    let ghost ra = r@;
    let ghost tb = t@;
    r.append(&mut t);
    assert(r@.take(k as int) =~= ra);
    assert(r@.skip(k as int) =~= tb);
    assert(is_orbit(r@.skip(k as int), b));
    r
}

impl Lattice {
    /// The lattice's name.
    pub fn name(self) -> (r: &'static str)
        ensures
            r@ == lattice_name(self),
    {
        match self {
            Lattice::Sc => {
                proof {
                    reveal_strlit("SC");
                }
                "SC"
            },
            Lattice::Bcc => {
                proof {
                    reveal_strlit("BCC");
                }
                "BCC"
            },
            Lattice::Fcc => {
                proof {
                    reveal_strlit("FCC");
                }
                "FCC"
            },
        }
    }

    /// Basis offsets of the conventional cell, in Y coordinates.
    pub fn basis_y(self) -> (r: Vec<Point3>)
        ensures
            r@ == basis_spec(self),
    {
        let r = match self {
            Lattice::Sc => vec![[0, 0, 0]],
            Lattice::Bcc => vec![[0, 0, 0], [1, 1, 1]],
            Lattice::Fcc => vec![[0, 0, 0], [1, 1, 0], [1, 0, 1], [0, 1, 1]],
        };
        assert(r@ =~= basis_spec(self));
        r
    }

    /// Vertices of the Voronoi cell around the origin, in Z coordinates.
    pub fn voronoi_vertices_z(self) -> (r: Vec<Point3>)
        ensures
            voronoi_vertices_ok(self, r@),
    {
        match self {
            Lattice::Sc => orbit([2, 2, 2]),
            Lattice::Bcc => orbit([0, 1, 2]),
            Lattice::Fcc => two_orbits_exec([2, 0, 0], [1, 1, 1]),
        }
    }

    /// Lattice vectors whose bisector planes carry a facet, in Z coordinates.
    pub fn relevant_z(self) -> (r: Vec<Point3>)
        ensures
            relevant_ok(self, r@),
    {
        match self {
            Lattice::Sc => orbit([4, 0, 0]),
            Lattice::Bcc => two_orbits_exec([2, 2, 2], [4, 0, 0]),
            Lattice::Fcc => orbit([2, 2, 0]),
        }
    }

    /// Offsets to the first and second coordination shells, in Y coordinates.
    pub fn shell_offsets_y(self) -> (r: (Vec<Point3>, Vec<Point3>))
        ensures
            shells_ok(self, r.0@, r.1@),
    {
        match self {
            Lattice::Sc => (orbit([2, 0, 0]), orbit([2, 2, 0])),
            Lattice::Bcc => (orbit([1, 1, 1]), orbit([2, 0, 0])),
            Lattice::Fcc => (orbit([1, 1, 0]), orbit([2, 0, 0])),
        }
    }
}

/// The largest number of cells along an axis of a block: a bound that only keeps the
/// coordinates in range, since every coordinate of a point (at most `2 n`), of a vertex
/// (`2 p + v`) or of a neighbour (`p + o`) then fits in an `i64` with room to spare.
pub const MAX_CELLS: u64 = 1_000_000_000_000_000;

/// The position of `p`'s parity pattern in the basis of `k`, or `-1` if it is none of them.
pub open spec fn rank(k: Lattice, p: Point3) -> int {
    let par = (p@[0] as int % 2, p@[1] as int % 2, p@[2] as int % 2);
    match k {
        Lattice::Sc => if par == (0int, 0int, 0int) {
            0
        } else {
            -1
        },
        Lattice::Bcc => if par == (0int, 0int, 0int) {
            0
        } else if par == (1int, 1int, 1int) {
            1
        } else {
            -1
        },
        Lattice::Fcc => if par == (0int, 0int, 0int) {
            0
        } else if par == (1int, 1int, 0int) {
            1
        } else if par == (1int, 0int, 1int) {
            2
        } else if par == (0int, 1int, 1int) {
            3
        } else {
            -1
        },
    }
}

/// `p` is a lattice point of the closed block of `n` conventional cells, in Y coordinates.
pub open spec fn in_block(k: Lattice, n: [usize; 3], p: Point3) -> bool {
    &&& forall|c: int| 0 <= c < 3 ==> 0 <= #[trigger] p@[c] <= 2 * n@[c]
    &&& rank(k, p) >= 0
}

/// Where a point comes in the block: by cell, then by basis offset.
pub open spec fn block_key(k: Lattice, p: Point3) -> (int, int, int, int) {
    (p@[0] / 2, p@[1] / 2, p@[2] / 2, rank(k, p))
}

/// Lexicographic order on keys.
pub open spec fn key_lt(a: (int, int, int, int), b: (int, int, int, int)) -> bool {
    a.0 < b.0 || (a.0 == b.0 && (a.1 < b.1 || (a.1 == b.1 && (a.2 < b.2 || (a.2 == b.2
        && a.3 < b.3)))))
}

/// The points of the block, each once, ordered by cell and basis offset.
pub open spec fn block_points_ok(k: Lattice, n: [usize; 3], s: Seq<Point3>) -> bool {
    &&& forall|i: int, j: int|
        0 <= i < j < s.len() ==> key_lt(block_key(k, #[trigger] s[i]), block_key(k, #[trigger] s[j]))
    &&& forall|p: Point3| #[trigger] s.contains(p) <==> in_block(k, n, p)
}

/// The point of cell `(i, j, l)` with basis offset `t` has that key.
proof fn lemma_key_of(k: Lattice, i: int, j: int, l: int, t: int, p: Point3)
    requires
        0 <= i,
        0 <= j,
        0 <= l,
        0 <= t < basis_spec(k).len(),
        p@[0] == 2 * i + basis_spec(k)[t]@[0],
        p@[1] == 2 * j + basis_spec(k)[t]@[1],
        p@[2] == 2 * l + basis_spec(k)[t]@[2],
    ensures
        block_key(k, p) == (i, j, l, t),
{
    let b = basis_spec(k)[t];
    assert(0 <= b@[0] <= 1 && 0 <= b@[1] <= 1 && 0 <= b@[2] <= 1) by {
        match k {
            Lattice::Sc => {},
            Lattice::Bcc => {},
            Lattice::Fcc => {},
        }
    }
    assert(p@[0] / 2 == i && p@[0] % 2 == b@[0]);
    assert(p@[1] / 2 == j && p@[1] % 2 == b@[1]);
    assert(p@[2] / 2 == l && p@[2] % 2 == b@[2]);
}

/// A point with a rank is its cell plus the basis offset of that rank.
proof fn lemma_rank_basis(k: Lattice, p: Point3)
    requires
        rank(k, p) >= 0,
        forall|c: int| 0 <= c < 3 ==> 0 <= #[trigger] p@[c],
    ensures
        rank(k, p) < basis_spec(k).len(),
        p@[0] == 2 * (p@[0] / 2) + basis_spec(k)[rank(k, p)]@[0],
        p@[1] == 2 * (p@[1] / 2) + basis_spec(k)[rank(k, p)]@[1],
        p@[2] == 2 * (p@[2] / 2) + basis_spec(k)[rank(k, p)]@[2],
{
    assert(0 <= p@[0] && 0 <= p@[1] && 0 <= p@[2]);
}

/// Lists the points of the block in order.
#[verifier::spinoff_prover]
fn block_points(k: Lattice, n: [usize; 3]) -> (ys: Vec<Point3>)
    requires
        forall|c: int| 0 <= c < 3 ==> #[trigger] n@[c] <= MAX_CELLS && n@[c] < usize::MAX,
    ensures
        block_points_ok(k, n, ys@),
{
    let basis = k.basis_y();
    let lim = [2 * n[0] as i64, 2 * n[1] as i64, 2 * n[2] as i64];
    assert(n@[0] <= MAX_CELLS && n@[1] <= MAX_CELLS && n@[2] <= MAX_CELLS);
    assert(n@[0] < usize::MAX && n@[1] < usize::MAX && n@[2] < usize::MAX);
    let mut ys: Vec<Point3> = Vec::new();
    let ghost bs = basis_spec(k);
    let (n0, n1, n2) = (n[0], n[1], n[2]);
    for i in 0..n0 + 1
        invariant
            basis@ == bs,
            bs == basis_spec(k),
            lim@[0] == 2 * n@[0] && lim@[1] == 2 * n@[1] && lim@[2] == 2 * n@[2],
            n0 == n@[0] && n1 == n@[1] && n2 == n@[2],
            n@[0] <= MAX_CELLS && n@[1] <= MAX_CELLS && n@[2] <= MAX_CELLS,
            n@[0] < usize::MAX && n@[1] < usize::MAX && n@[2] < usize::MAX,
            forall|a: int, b: int|
                0 <= a < b < ys@.len() ==> key_lt(block_key(k, #[trigger] ys@[a]), block_key(k, #[trigger] ys@[b])),
            forall|a: int| 0 <= a < ys@.len() ==> in_block(k, n, #[trigger] ys@[a]) && key_lt(block_key(k, ys@[a]), (i as int, 0, 0, 0)),
            forall|p: Point3| in_block(k, n, p) && key_lt(block_key(k, p), (i as int, 0, 0, 0)) ==> #[trigger] ys@.contains(p),
    {
        for j in 0..n1 + 1
            invariant
                basis@ == bs,
                bs == basis_spec(k),
                i <= n@[0],
                lim@[0] == 2 * n@[0] && lim@[1] == 2 * n@[1] && lim@[2] == 2 * n@[2],
                n0 == n@[0] && n1 == n@[1] && n2 == n@[2],
            n0 == n@[0] && n1 == n@[1] && n2 == n@[2],
                n@[0] <= MAX_CELLS && n@[1] <= MAX_CELLS && n@[2] <= MAX_CELLS,
            n@[0] < usize::MAX && n@[1] < usize::MAX && n@[2] < usize::MAX,
                forall|a: int, b: int|
                    0 <= a < b < ys@.len() ==> key_lt(block_key(k, #[trigger] ys@[a]), block_key(k, #[trigger] ys@[b])),
                forall|a: int| 0 <= a < ys@.len() ==> in_block(k, n, #[trigger] ys@[a]) && key_lt(block_key(k, ys@[a]), (i as int, j as int, 0, 0)),
                forall|p: Point3| in_block(k, n, p) && key_lt(block_key(k, p), (i as int, j as int, 0, 0)) ==> #[trigger] ys@.contains(p),
        {
            for l in 0..n2 + 1
                invariant
                    basis@ == bs,
                    bs == basis_spec(k),
                    i <= n@[0],
                    j <= n@[1],
                    lim@[0] == 2 * n@[0] && lim@[1] == 2 * n@[1] && lim@[2] == 2 * n@[2],
                    n0 == n@[0] && n1 == n@[1] && n2 == n@[2],
                n0 == n@[0] && n1 == n@[1] && n2 == n@[2],
            n0 == n@[0] && n1 == n@[1] && n2 == n@[2],
                    n@[0] <= MAX_CELLS && n@[1] <= MAX_CELLS && n@[2] <= MAX_CELLS,
            n@[0] < usize::MAX && n@[1] < usize::MAX && n@[2] < usize::MAX,
                    forall|a: int, b: int|
                        0 <= a < b < ys@.len() ==> key_lt(block_key(k, #[trigger] ys@[a]), block_key(k, #[trigger] ys@[b])),
                    forall|a: int| 0 <= a < ys@.len() ==> in_block(k, n, #[trigger] ys@[a]) && key_lt(block_key(k, ys@[a]), (i as int, j as int, l as int, 0)),
                    forall|p: Point3| in_block(k, n, p) && key_lt(block_key(k, p), (i as int, j as int, l as int, 0)) ==> #[trigger] ys@.contains(p),
            {
                for t in 0..basis.len()
                    invariant
                        basis@ == bs,
                        bs == basis_spec(k),
                        i <= n@[0],
                        j <= n@[1],
                        l <= n@[2],
                        lim@[0] == 2 * n@[0] && lim@[1] == 2 * n@[1] && lim@[2] == 2 * n@[2],
                        n0 == n@[0] && n1 == n@[1] && n2 == n@[2],
                    n0 == n@[0] && n1 == n@[1] && n2 == n@[2],
                n0 == n@[0] && n1 == n@[1] && n2 == n@[2],
            n0 == n@[0] && n1 == n@[1] && n2 == n@[2],
                        n@[0] <= MAX_CELLS && n@[1] <= MAX_CELLS && n@[2] <= MAX_CELLS,
            n@[0] < usize::MAX && n@[1] < usize::MAX && n@[2] < usize::MAX,
                        forall|a: int, b: int|
                            0 <= a < b < ys@.len() ==> key_lt(block_key(k, #[trigger] ys@[a]), block_key(k, #[trigger] ys@[b])),
                        forall|a: int| 0 <= a < ys@.len() ==> in_block(k, n, #[trigger] ys@[a]) && key_lt(block_key(k, ys@[a]), (i as int, j as int, l as int, t as int)),
                        forall|p: Point3| in_block(k, n, p) && key_lt(block_key(k, p), (i as int, j as int, l as int, t as int)) ==> #[trigger] ys@.contains(p),
                {
                    let off = basis[t];
                    assert(0 <= off@[0] <= 1 && 0 <= off@[1] <= 1 && 0 <= off@[2] <= 1) by {
                        assert(off == bs[t as int]);
                        match k {
                            Lattice::Sc => {},
                            Lattice::Bcc => {},
                            Lattice::Fcc => {},
                        }
                    }
                    let p = [2 * i as i64 + off[0], 2 * j as i64 + off[1], 2 * l as i64 + off[2]];
                    proof {
                        lemma_key_of(k, i as int, j as int, l as int, t as int, p);
                    }
                    let ghost y0 = ys@;
                    if p[0] <= lim[0] && p[1] <= lim[1] && p[2] <= lim[2] {
                        ys.push(p);
                        proof {
                            assert(rank(k, p) == t);
                            assert(in_block(k, n, p));
                            assert forall|a: int, b: int|
                                0 <= a < b < ys@.len() implies key_lt(block_key(k, #[trigger] ys@[a]), block_key(k, #[trigger] ys@[b])) by {
                                if b < y0.len() {
                                    assert(ys@[a] == y0[a] && ys@[b] == y0[b]);
                                } else {
                                    assert(ys@[a] == y0[a]);
                                }
                            }
                            assert forall|a: int| 0 <= a < ys@.len() implies in_block(k, n, #[trigger] ys@[a]) && key_lt(block_key(k, ys@[a]), (i as int, j as int, l as int, t + 1)) by {
                                if a < y0.len() {
                                    assert(ys@[a] == y0[a]);
                                }
                            }
                        }
                    }
                    proof {
                        assert forall|q: Point3| in_block(k, n, q) && key_lt(block_key(k, q), (i as int, j as int, l as int, t + 1)) implies #[trigger] ys@.contains(q) by {
                            if key_lt(block_key(k, q), (i as int, j as int, l as int, t as int)) {
                                assert(y0.contains(q));
                                let a = choose|a: int| 0 <= a < y0.len() && y0[a] == q;
                                assert(ys@[a] == q);
                            } else {
                                lemma_rank_basis(k, q);
                                assert(block_key(k, q) == (i as int, j as int, l as int, t as int));
                                assert(q =~= p);
                                assert(ys@[ys@.len() - 1] == p);
                            }
                        }
                    }
                }
                proof {
                    assert forall|a: int| 0 <= a < ys@.len() implies in_block(k, n, #[trigger] ys@[a]) && key_lt(block_key(k, ys@[a]), (i as int, j as int, l + 1, 0)) by {
                        lemma_rank_basis(k, ys@[a]);
                    }
                    assert forall|q: Point3| in_block(k, n, q) && key_lt(block_key(k, q), (i as int, j as int, l + 1, 0)) implies #[trigger] ys@.contains(q) by {
                        lemma_rank_basis(k, q);
                    }
                }
            }
            proof {
                assert forall|a: int| 0 <= a < ys@.len() implies in_block(k, n, #[trigger] ys@[a]) && key_lt(block_key(k, ys@[a]), (i as int, j + 1, 0, 0)) by {
                    assert(ys@[a]@[2] <= 2 * n@[2]);
                }
                assert forall|q: Point3| in_block(k, n, q) && key_lt(block_key(k, q), (i as int, j + 1, 0, 0)) implies #[trigger] ys@.contains(q) by {
                    assert(q@[2] <= 2 * n@[2]);
                    assert(key_lt(block_key(k, q), (i as int, j as int, n@[2] + 1, 0)));
                }
            }
        }
        proof {
            assert forall|a: int| 0 <= a < ys@.len() implies in_block(k, n, #[trigger] ys@[a]) && key_lt(block_key(k, ys@[a]), (i + 1, 0, 0, 0)) by {
                assert(ys@[a]@[1] <= 2 * n@[1]);
            }
            assert forall|q: Point3| in_block(k, n, q) && key_lt(block_key(k, q), (i + 1, 0, 0, 0)) implies #[trigger] ys@.contains(q) by {
                assert(q@[1] <= 2 * n@[1]);
                assert(key_lt(block_key(k, q), (i as int, n@[1] + 1, 0, 0)));
            }
        }
    }
    proof {
        assert forall|p: Point3| #[trigger] ys@.contains(p) <==> in_block(k, n, p) by {
            if ys@.contains(p) {
                let a = choose|a: int| 0 <= a < ys@.len() && ys@[a] == p;
                assert(in_block(k, n, ys@[a]));
            }
            if in_block(k, n, p) {
                assert(p@[0] <= 2 * n@[0]);
                assert(key_lt(block_key(k, p), (n@[0] + 1, 0, 0, 0)));
            }
        }
    }
    ys
}

/// `q` is `p` moved by `o`.
pub open spec fn shifted(p: Point3, o: Point3, q: Point3) -> bool {
    forall|c: int| 0 <= c < 3 ==> #[trigger] q@[c] == p@[c] + o@[c]
}

/// `q` is `p` moved by one of the first `k` offsets.
pub open spec fn off_upto(offs: Seq<Point3>, k: int, p: Point3, q: Point3) -> bool {
    exists|t: int| 0 <= t < k && #[trigger] shifted(p, offs[t], q)
}

/// Lexicographic order on pairs.
pub open spec fn pair_lt(a: (usize, usize), b: (usize, usize)) -> bool {
    a.0 < b.0 || (a.0 == b.0 && a.1 < b.1)
}

/// The pairs `(a, b)`, `a < b`, of points that differ by one of the offsets, each once, sorted.
pub open spec fn pairs_ok(ys: Seq<Point3>, offs: Seq<Point3>, v: Seq<(usize, usize)>) -> bool {
    &&& forall|i: int, j: int| 0 <= i < j < v.len() ==> pair_lt(#[trigger] v[i], #[trigger] v[j])
    &&& forall|a: usize, b: usize|
        #[trigger] v.contains((a, b)) <==> (a < b < ys.len() && off_upto(offs, offs.len() as int, ys[a as int], ys[b as int]))
}

/// Entries bounded by `m` in absolute value.
pub open spec fn bounded(v: Point3, m: int) -> bool {
    forall|c: int| 0 <= c < 3 ==> -m <= #[trigger] v@[c] <= m
}

/// The bound on coordinates and offsets handed to the block builder: the coordinates of the
/// points (at most `2 * MAX_CELLS`), with room for the offsets and facet vectors, whose sums
/// and doublings stay far below `i64::MAX`.
pub open spec fn coord_bound() -> int {
    4 * MAX_CELLS + 4
}

/// The first position of `q` among the points, if it is one.
fn find_point(ys: &Vec<Point3>, q: &Point3) -> (r: Option<usize>)
    ensures
        match r {
            Some(j) => j < ys.len() && ys@[j as int] == *q && forall|i: int| 0 <= i < j ==> ys@[i] != *q,
            None => !ys@.contains(*q),
        },
{
    for j in 0..ys.len()
        invariant
            forall|i: int| 0 <= i < j ==> ys@[i] != *q,
    {
        if same_point(&ys[j], q) {
            return Some(j);
        }
    }
    None
}

fn shift(p: &Point3, o: &Point3) -> (q: Point3)
    requires
        bounded(*p, coord_bound()),
        bounded(*o, coord_bound()),
    ensures
        shifted(*p, *o, q),
{
    assert(bounded(*p, coord_bound()) && -coord_bound() <= p@[0] <= coord_bound());
    assert(-coord_bound() <= p@[1] <= coord_bound() && -coord_bound() <= p@[2] <= coord_bound());
    assert(-coord_bound() <= o@[0] <= coord_bound() && -coord_bound() <= o@[1] <= coord_bound());
    assert(-coord_bound() <= o@[2] <= coord_bound());
    [p[0] + o[0], p[1] + o[1], p[2] + o[2]]
}

fn insert_pair(v: &mut Vec<(usize, usize)>, x: (usize, usize))
    requires
        forall|i: int, j: int| 0 <= i < j < old(v)@.len() ==> pair_lt(#[trigger] old(v)@[i], #[trigger] old(v)@[j]),
    ensures
        forall|i: int, j: int| 0 <= i < j < final(v)@.len() ==> pair_lt(#[trigger] final(v)@[i], #[trigger] final(v)@[j]),
        forall|y: (usize, usize)| #[trigger] final(v)@.contains(y) <==> (old(v)@.contains(y) || y == x),
{
    let mut k: usize = 0;
    while k < v.len() && (v[k].0 < x.0 || (v[k].0 == x.0 && v[k].1 < x.1))
        invariant
            k <= v.len(),
            forall|i: int, j: int| 0 <= i < j < v@.len() ==> pair_lt(#[trigger] v@[i], #[trigger] v@[j]),
            forall|i: int| 0 <= i < k ==> pair_lt(#[trigger] v@[i], x),
        decreases v.len() - k,
    {
        k += 1;
    }
    if k < v.len() && v[k].0 == x.0 && v[k].1 == x.1 {
        proof {
            assert forall|y: (usize, usize)| #[trigger] v@.contains(y) <==> (v@.contains(y) || y == x) by {
                if y == x {
                    assert(v@[k as int] == y);
                }
            }
        }
        return;
    }
    let ghost o = v@;
    v.insert(k, x);
    proof {
        assert forall|i: int, j: int| 0 <= i < j < v@.len() implies pair_lt(#[trigger] v@[i], #[trigger] v@[j]) by {
            if j < k {
                assert(v@[i] == o[i] && v@[j] == o[j]);
            } else if j == k {
                assert(v@[i] == o[i]);
            } else if i < k {
                assert(v@[i] == o[i] && v@[j] == o[j - 1]);
                assert(pair_lt(o[i], o[j - 1]));
            } else if i == k {
                assert(v@[j] == o[j - 1]);
                if j - 1 > k {
                    assert(pair_lt(o[k as int], o[j - 1]));
                }
            } else {
                assert(v@[i] == o[i - 1] && v@[j] == o[j - 1]);
            }
        }
        assert forall|y: (usize, usize)| #[trigger] v@.contains(y) <==> (o.contains(y) || y == x) by {
            if v@.contains(y) {
                let i = choose|i: int| 0 <= i < v@.len() && v@[i] == y;
                if i < k {
                    assert(o[i] == y);
                } else if i > k {
                    assert(o[i - 1] == y);
                }
            }
            if o.contains(y) {
                let i = choose|i: int| 0 <= i < o.len() && o[i] == y;
                if i < k {
                    assert(v@[i] == y);
                } else {
                    assert(v@[i + 1] == y);
                }
            }
            if y == x {
                assert(v@[k as int] == y);
            }
        }
    }
}

/// The pairs of points that differ by one of the offsets, lower index first, sorted.
#[verifier::spinoff_prover]
fn pairs(ys: &Vec<Point3>, offs: &Vec<Point3>) -> (v: Vec<(usize, usize)>)
    requires
        forall|i: int| 0 <= i < ys@.len() ==> bounded(#[trigger] ys@[i], coord_bound()),
        forall|i: int| 0 <= i < offs@.len() ==> bounded(#[trigger] offs@[i], coord_bound()),
        forall|i: int, j: int| 0 <= i < j < ys@.len() ==> ys@[i] != ys@[j],
    ensures
        pairs_ok(ys@, offs@, v@),
{
    let mut v: Vec<(usize, usize)> = Vec::new();
    for i in 0..ys.len()
        invariant
            forall|i: int| 0 <= i < ys@.len() ==> bounded(#[trigger] ys@[i], coord_bound()),
            forall|i: int| 0 <= i < offs@.len() ==> bounded(#[trigger] offs@[i], coord_bound()),
            forall|i: int, j: int| 0 <= i < j < ys@.len() ==> ys@[i] != ys@[j],
            forall|a: int, b: int| 0 <= a < b < v@.len() ==> pair_lt(#[trigger] v@[a], #[trigger] v@[b]),
            forall|a: usize, b: usize|
                #[trigger] v@.contains((a, b)) <==> (a < b < ys.len() && a < i && off_upto(offs@, offs@.len() as int, ys@[a as int], ys@[b as int])),
    {
        for t in 0..offs.len()
            invariant
                i < ys.len(),
                forall|i: int| 0 <= i < ys@.len() ==> bounded(#[trigger] ys@[i], coord_bound()),
                forall|i: int| 0 <= i < offs@.len() ==> bounded(#[trigger] offs@[i], coord_bound()),
                forall|i: int, j: int| 0 <= i < j < ys@.len() ==> ys@[i] != ys@[j],
                forall|a: int, b: int| 0 <= a < b < v@.len() ==> pair_lt(#[trigger] v@[a], #[trigger] v@[b]),
                forall|a: usize, b: usize|
                    #[trigger] v@.contains((a, b)) <==> (a < b < ys.len() && ((a < i && off_upto(offs@, offs@.len() as int, ys@[a as int], ys@[b as int]))
                        || (a == i && off_upto(offs@, t as int, ys@[a as int], ys@[b as int])))),
        {
            let q = shift(&ys[i], &offs[t]);
            let ghost v0 = v@;
            match find_point(ys, &q) {
                Some(j) => {
                    if i < j {
                        insert_pair(&mut v, (i, j));
                    }
                },
                None => {},
            }
            proof {
                assert forall|a: usize, b: usize|
                    #[trigger] v@.contains((a, b)) <==> (a < b < ys.len() && ((a < i && off_upto(offs@, offs@.len() as int, ys@[a as int], ys@[b as int]))
                        || (a == i && off_upto(offs@, t + 1, ys@[a as int], ys@[b as int])))) by {
                    if a == i && b < ys.len() {
                        if shifted(ys@[a as int], offs@[t as int], ys@[b as int]) {
                            assert(ys@[b as int] =~= q);
                            assert(ys@.contains(q));
                        }
                        if off_upto(offs@, t + 1, ys@[a as int], ys@[b as int]) && !shifted(ys@[a as int], offs@[t as int], ys@[b as int]) {
                            let t2 = choose|t2: int| 0 <= t2 < t + 1 && #[trigger] shifted(ys@[a as int], offs@[t2], ys@[b as int]);
                            assert(off_upto(offs@, t as int, ys@[a as int], ys@[b as int]));
                        }
                        if off_upto(offs@, t as int, ys@[a as int], ys@[b as int]) {
                            let t2 = choose|t2: int| 0 <= t2 < t && #[trigger] shifted(ys@[a as int], offs@[t2], ys@[b as int]);
                            assert(off_upto(offs@, t + 1, ys@[a as int], ys@[b as int]));
                        }
                        if v@.contains((a, b)) && !v0.contains((a, b)) {
                            assert(shifted(ys@[a as int], offs@[t as int], ys@[b as int]));
                        }
                    }
                }
            }
        }
        proof {
            assert forall|a: usize, b: usize|
                #[trigger] v@.contains((a, b)) <==> (a < b < ys.len() && a < i + 1 && off_upto(offs@, offs@.len() as int, ys@[a as int], ys@[b as int])) by {
            }
        }
    }
    v
}

/// The index of `q` among the points, if it is one of them.
pub open spec fn point_index(ys: Seq<Point3>, q: Point3) -> Option<int> {
    if ys.contains(q) {
        Some(choose|j: int| 0 <= j < ys.len() && ys[j] == q)
    } else {
        None
    }
}

/// The site on the other side of the facet of `p` bisecting the lattice vector `r` (in Z
/// coordinates, so half of it in Y coordinates).
pub open spec fn across(ys: Seq<Point3>, p: Point3, r: Point3) -> Option<int> {
    point_index(
        ys,
        [
            (p@[0] + half(r@[0] as int)) as i64,
            (p@[1] + half(r@[1] as int)) as i64,
            (p@[2] + half(r@[2] as int)) as i64,
        ],
    )
}

/// The walls of site `i` through its first `f` facets: `(i, other site, facet)`, leaving out
/// those whose other site comes first (they belong to that site).
pub open spec fn site_walls(ys: Seq<Point3>, rs: Seq<Point3>, i: int, f: nat) -> Seq<(int, Option<int>, int)>
    decreases f,
{
    if f == 0 {
        seq![]
    } else {
        let prev = site_walls(ys, rs, i, (f - 1) as nat);
        let j = across(ys, ys[i], rs[f - 1]);
        if j is Some && j->0 < i {
            prev
        } else {
            prev.push((i, j, f - 1))
        }
    }
}

/// The walls of the first `i` sites.
pub open spec fn wall_sites(ys: Seq<Point3>, rs: Seq<Point3>, i: nat) -> Seq<(int, Option<int>, int)>
    decreases i,
{
    if i == 0 {
        seq![]
    } else {
        wall_sites(ys, rs, (i - 1) as nat) + site_walls(ys, rs, i - 1, rs.len())
    }
}

/// The Voronoi vertex at offset `v` (Z coordinates) from the site `p` (Y coordinates).
pub open spec fn dual_key(p: Point3, v: Point3) -> Point3 {
    [
        (2 * p@[0] + v@[0]) as i64,
        (2 * p@[1] + v@[1]) as i64,
        (2 * p@[2] + v@[2]) as i64,
    ]
}

/// The vertices of a wall, in the facet's order.
pub open spec fn wall_keys(ys: Seq<Point3>, vz: Seq<Point3>, faces: Seq<Seq<usize>>, w: (int, Option<int>, int)) -> Seq<Point3> {
    Seq::new(faces[w.2].len(), |t: int| dual_key(ys[w.0], vz[faces[w.2][t] as int]))
}

/// The vertices of all walls, in order.
pub open spec fn all_keys(ys: Seq<Point3>, vz: Seq<Point3>, faces: Seq<Seq<usize>>, ws: Seq<(int, Option<int>, int)>) -> Seq<Point3>
    decreases ws.len(),
{
    if ws.len() == 0 {
        seq![]
    } else {
        all_keys(ys, vz, faces, ws.drop_last()) + wall_keys(ys, vz, faces, ws.last())
    }
}

/// The distinct elements in order of first occurrence.
pub open spec fn first_occurrences(s: Seq<Point3>) -> Seq<Point3>
    decreases s.len(),
{
    if s.len() == 0 {
        seq![]
    } else {
        let r = first_occurrences(s.drop_last());
        if r.contains(s.last()) {
            r
        } else {
            r.push(s.last())
        }
    }
}

proof fn lemma_first_occurrences(s: Seq<Point3>)
    ensures
        first_occurrences(s).no_duplicates(),
        forall|x: Point3| #[trigger] first_occurrences(s).contains(x) <==> s.contains(x),
    decreases s.len(),
{
    if s.len() > 0 {
        lemma_first_occurrences(s.drop_last());
        let r = first_occurrences(s.drop_last());
        assert forall|x: Point3| #[trigger] first_occurrences(s).contains(x) <==> s.contains(x) by {
            if s.contains(x) && x != s.last() {
                let i = choose|i: int| 0 <= i < s.len() && s[i] == x;
                assert(s.drop_last()[i] == x);
            }
            if s.drop_last().contains(x) {
                let i = choose|i: int| 0 <= i < s.drop_last().len() && s.drop_last()[i] == x;
                assert(s[i] == x);
            }
            if x == s.last() {
                assert(s[s.len() - 1] == x);
            }
            if !r.contains(s.last()) {
                if r.push(s.last()).contains(x) && x != s.last() {
                    let i = choose|i: int| 0 <= i < r.push(s.last()).len() && r.push(s.last())[i] == x;
                    assert(r[i] == x);
                }
                if r.contains(x) {
                    let i = choose|i: int| 0 <= i < r.len() && r[i] == x;
                    assert(r.push(s.last())[i] == x);
                }
                if x == s.last() {
                    assert(r.push(s.last())[r.len() as int] == x);
                }
            }
        }
    }
}

/// The walls built so far are the walls `ws`, with their vertex ids into the deduplicated dual
/// vertices.
pub open spec fn walls_prefix_ok(
    ys: Seq<Point3>,
    rs: Seq<Point3>,
    faces: Seq<Seq<usize>>,
    vz: Seq<Point3>,
    dual: Seq<Point3>,
    walls: Seq<(usize, Option<usize>, Vec<usize>)>,
    ws: Seq<(int, Option<int>, int)>,
) -> bool {
    &&& walls.len() == ws.len()
    &&& dual == first_occurrences(all_keys(ys, vz, faces, ws))
    &&& forall|m: int|
        0 <= m < walls.len() ==> {
            let w = #[trigger] walls[m];
            &&& w.0 == ws[m].0
            &&& (match w.1 {
                Some(j) => ws[m].1 == Some(j as int),
                None => ws[m].1 is None,
            })
            &&& w.2@.len() == faces[ws[m].2].len()
            &&& forall|t: int|
                0 <= t < w.2@.len() ==> #[trigger] w.2@[t] < dual.len() && dual[w.2@[t] as int] == wall_keys(ys, vz, faces, ws[m])[t]
        }
}

/// Every wall of the block once, with its vertex ids into the deduplicated dual vertices.
pub open spec fn walls_ok(
    ys: Seq<Point3>,
    rs: Seq<Point3>,
    faces: Seq<Seq<usize>>,
    vz: Seq<Point3>,
    dual: Seq<Point3>,
    walls: Seq<(usize, Option<usize>, Vec<usize>)>,
) -> bool {
    walls_prefix_ok(ys, rs, faces, vz, dual, walls, wall_sites(ys, rs, ys.len()))
}

fn half_i64(v: i64) -> (r: i64)
    requires
        v > i64::MIN,
    ensures
        r == half(v as int),
{
    if v >= 0 {
        v / 2
    } else {
        -((-v) / 2)
    }
}

/// In a list without repeats, the index of a point is the first one.
proof fn lemma_point_index(ys: Seq<Point3>, j: int)
    requires
        0 <= j < ys.len(),
        forall|a: int, b: int| 0 <= a < b < ys.len() ==> ys[a] != ys[b],
    ensures
        point_index(ys, ys[j]) == Some(j),
{
    assert(ys.contains(ys[j]));
    let k = choose|k: int| 0 <= k < ys.len() && ys[k] == ys[j];
    if k < j {
        assert(ys[k] != ys[j]);
    } else if k > j {
        assert(ys[j] != ys[k]);
    }
}

/// Builds the walls of the block and its deduplicated Voronoi vertices.
#[verifier::spinoff_prover]
fn block_walls(ys: &Vec<Point3>, facets: &Vec<(Point3, Vec<usize>)>, vz: &Vec<Point3>) -> (r: (
    Vec<Point3>,
    Vec<(usize, Option<usize>, Vec<usize>)>,
))
    requires
        forall|a: int, b: int| 0 <= a < b < ys@.len() ==> ys@[a] != ys@[b],
        forall|a: int| 0 <= a < ys@.len() ==> bounded(#[trigger] ys@[a], coord_bound()),
        forall|a: int| 0 <= a < vz@.len() ==> bounded(#[trigger] vz@[a], coord_bound()),
        forall|f: int| 0 <= f < facets@.len() ==> bounded((#[trigger] facets@[f]).0, coord_bound()),
        forall|f: int, t: int|
            0 <= f < facets@.len() && 0 <= t < facets@[f].1@.len() ==> #[trigger] facets@[f].1@[t] < vz@.len(),
    ensures
        walls_ok(
            ys@,
            facets@.map_values(|f: (Point3, Vec<usize>)| f.0),
            facets@.map_values(|f: (Point3, Vec<usize>)| f.1@),
            vz@,
            r.0@,
            r.1@,
        ),
{
    let ghost rs = facets@.map_values(|f: (Point3, Vec<usize>)| f.0);
    let ghost faces = facets@.map_values(|f: (Point3, Vec<usize>)| f.1@);
    let mut dual: Vec<Point3> = Vec::new();
    let mut walls: Vec<(usize, Option<usize>, Vec<usize>)> = Vec::new();
    for i in 0..ys.len()
        invariant
            rs == facets@.map_values(|f: (Point3, Vec<usize>)| f.0),
            faces == facets@.map_values(|f: (Point3, Vec<usize>)| f.1@),
            forall|a: int, b: int| 0 <= a < b < ys@.len() ==> ys@[a] != ys@[b],
            forall|a: int| 0 <= a < ys@.len() ==> bounded(#[trigger] ys@[a], coord_bound()),
            forall|a: int| 0 <= a < vz@.len() ==> bounded(#[trigger] vz@[a], coord_bound()),
            forall|f: int| 0 <= f < facets@.len() ==> bounded((#[trigger] facets@[f]).0, coord_bound()),
            forall|f: int, t: int|
                0 <= f < facets@.len() && 0 <= t < facets@[f].1@.len() ==> #[trigger] facets@[f].1@[t] < vz@.len(),
            walls_prefix_ok(ys@, rs, faces, vz@, dual@, walls@, wall_sites(ys@, rs, i as nat)),
    {
        let p = ys[i];
        assert(bounded(p, coord_bound()));
        assert(-coord_bound() <= p@[0] <= coord_bound() && -coord_bound() <= p@[1] <= coord_bound()
            && -coord_bound() <= p@[2] <= coord_bound());
        let ghost base = wall_sites(ys@, rs, i as nat);
        for f in 0..facets.len()
            invariant
                i < ys@.len(),
                p == ys@[i as int],
                -coord_bound() <= p@[0] <= coord_bound() && -coord_bound() <= p@[1] <= coord_bound()
                    && -coord_bound() <= p@[2] <= coord_bound(),
                base == wall_sites(ys@, rs, i as nat),
                rs == facets@.map_values(|f: (Point3, Vec<usize>)| f.0),
                faces == facets@.map_values(|f: (Point3, Vec<usize>)| f.1@),
                forall|a: int, b: int| 0 <= a < b < ys@.len() ==> ys@[a] != ys@[b],
                forall|a: int| 0 <= a < ys@.len() ==> bounded(#[trigger] ys@[a], coord_bound()),
                forall|a: int| 0 <= a < vz@.len() ==> bounded(#[trigger] vz@[a], coord_bound()),
                forall|f: int| 0 <= f < facets@.len() ==> bounded((#[trigger] facets@[f]).0, coord_bound()),
                forall|f: int, t: int|
                    0 <= f < facets@.len() && 0 <= t < facets@[f].1@.len() ==> #[trigger] facets@[f].1@[t] < vz@.len(),
                walls_prefix_ok(ys@, rs, faces, vz@, dual@, walls@, base + site_walls(ys@, rs, i as int, f as nat)),
        {
            let r = facets[f].0;
            assert(r == rs[f as int]);
            assert(bounded(r, coord_bound()));
            assert(-coord_bound() <= r@[0] <= coord_bound() && -coord_bound() <= r@[1] <= coord_bound()
                && -coord_bound() <= r@[2] <= coord_bound());
            let q = [p[0] + half_i64(r[0]), p[1] + half_i64(r[1]), p[2] + half_i64(r[2])];
            let j = find_point(ys, &q);
            let ghost qs: Point3 = [
                (p@[0] + half(r@[0] as int)) as i64,
                (p@[1] + half(r@[1] as int)) as i64,
                (p@[2] + half(r@[2] as int)) as i64,
            ];
            proof {
                assert(q =~= qs);
                match j {
                    Some(jj) => {
                        lemma_point_index(ys@, jj as int);
                    },
                    None => {},
                }
                assert(across(ys@, ys@[i as int], rs[f as int]) == match j {
                    Some(jj) => Some(jj as int),
                    None => None::<int>,
                });
            }
            let skip = match j {
                Some(jj) => jj < i,
                None => false,
            };
            let ghost cur = base + site_walls(ys@, rs, i as int, f as nat);
            proof {
                assert(site_walls(ys@, rs, i as int, (f + 1) as nat) == if skip {
                    site_walls(ys@, rs, i as int, f as nat)
                } else {
                    site_walls(ys@, rs, i as int, f as nat).push((i as int, across(ys@, ys@[i as int], rs[f as int]), f as int))
                });
            }
            if !skip {
                let ghost w = (i as int, across(ys@, ys@[i as int], rs[f as int]), f as int);
                let face = &facets[f].1;
                assert(face@ == faces[f as int]);
                let ghost keys = wall_keys(ys@, vz@, faces, w);
                let ghost d0 = dual@;
                let mut ids: Vec<usize> = Vec::new();
                for t in 0..face.len()
                    invariant
                        face@ == faces[f as int],
                        f < facets@.len(),
                        faces == facets@.map_values(|f: (Point3, Vec<usize>)| f.1@),
                        i < ys@.len(),
                        p == ys@[i as int],
                        -coord_bound() <= p@[0] <= coord_bound() && -coord_bound() <= p@[1] <= coord_bound()
                            && -coord_bound() <= p@[2] <= coord_bound(),
                        forall|a: int| 0 <= a < vz@.len() ==> bounded(#[trigger] vz@[a], coord_bound()),
                        forall|f: int, t: int|
                            0 <= f < facets@.len() && 0 <= t < facets@[f].1@.len() ==> #[trigger] facets@[f].1@[t] < vz@.len(),
                        keys == wall_keys(ys@, vz@, faces, w),
                        w.0 == i && w.2 == f,
                        dual@.len() >= d0.len(),
                        forall|x: int| 0 <= x < d0.len() ==> #[trigger] dual@[x] == d0[x],
                        d0 == first_occurrences(all_keys(ys@, vz@, faces, cur)),
                        dual@ == first_occurrences(all_keys(ys@, vz@, faces, cur) + keys.take(t as int)),
                        ids@.len() == t,
                        forall|t2: int| 0 <= t2 < t ==> #[trigger] ids@[t2] < dual@.len() && dual@[ids@[t2] as int] == keys[t2],
                {
                    let vi = face[t];
                    assert(vi < vz@.len()) by {
                        assert(facets@[f as int].1@[t as int] == vi);
                    }
                    let v = vz[vi];
                    assert(bounded(v, coord_bound()));
                    assert(-coord_bound() <= v@[0] <= coord_bound() && -coord_bound() <= v@[1] <= coord_bound()
                        && -coord_bound() <= v@[2] <= coord_bound());
                    let k = [2 * p[0] + v[0], 2 * p[1] + v[1], 2 * p[2] + v[2]];
                    proof {
                        assert(k =~= keys[t as int]);
                        let before = all_keys(ys@, vz@, faces, cur) + keys.take(t as int);
                        assert(all_keys(ys@, vz@, faces, cur) + keys.take(t + 1) =~= before.push(k));
                        assert(before.push(k).drop_last() =~= before);
                    }
                    let ghost dv = dual@;
                    let id = match find_point(&dual, &k) {
                        Some(id) => id,
                        None => {
                            dual.push(k);
                            dual.len() - 1
                        },
                    };
                    proof {
                        if dual@.len() > dv.len() {
                            assert(!dv.contains(k));
                        } else {
                            assert(dv.contains(k));
                        }
                    }
                    ids.push(id);
                }
                proof {
                    assert(keys.take(face@.len() as int) =~= keys);
                    assert(cur.push(w).drop_last() =~= cur);
                    assert(all_keys(ys@, vz@, faces, cur.push(w)) == all_keys(ys@, vz@, faces, cur) + keys);
                }
                let ghost wv = walls@;
                walls.push((i, j, ids));
                proof {
                    let ws2 = base + site_walls(ys@, rs, i as int, (f + 1) as nat);
                    assert(ws2 =~= cur.push(w));
                    assert forall|m: int| 0 <= m < walls@.len() implies {
                        let wm = #[trigger] walls@[m];
                        &&& wm.0 == ws2[m].0
                        &&& (match wm.1 {
                            Some(j) => ws2[m].1 == Some(j as int),
                            None => ws2[m].1 is None,
                        })
                        &&& wm.2@.len() == faces[ws2[m].2].len()
                        &&& forall|t: int|
                            0 <= t < wm.2@.len() ==> #[trigger] wm.2@[t] < dual@.len() && dual@[wm.2@[t] as int] == wall_keys(ys@, vz@, faces, ws2[m])[t]
                    } by {
                        if m < wv.len() {
                            assert(walls@[m] == wv[m]);
                            assert(ws2[m] == cur[m]);
                            assert forall|t: int| 0 <= t < walls@[m].2@.len() implies #[trigger] walls@[m].2@[t] < dual@.len() && dual@[walls@[m].2@[t] as int] == wall_keys(ys@, vz@, faces, ws2[m])[t] by {
                                assert(walls@[m].2@[t] < d0.len());
                            }
                        }
                    }
                }
            } else {
                proof {
                    assert(base + site_walls(ys@, rs, i as int, (f + 1) as nat) == cur);
                }
            }
        }
        proof {
            assert(wall_sites(ys@, rs, (i + 1) as nat) == base + site_walls(ys@, rs, i as int, rs.len()));
        }
    }
    (dual, walls)
}

proof fn lemma_orbit_bounded(s: Seq<Point3>, v: Point3, m: int)
    requires
        is_orbit(s, v),
        bounded(v, m),
    ensures
        forall|i: int| 0 <= i < s.len() ==> bounded(#[trigger] s[i], m),
{
    assert forall|i: int| 0 <= i < s.len() implies bounded(#[trigger] s[i], m) by {
        assert(s.contains(s[i]));
        assert(in_orbit(v, s[i]));
        let (p, t) = choose|p: int, t: int| 0 <= p < 6 && 0 <= t < 8 && #[trigger] image(v, p, t) == s[i]@.map_values(|x: i64| x as int);
        assert forall|c: int| 0 <= c < 3 implies -m <= #[trigger] s[i]@[c] <= m by {
            assert(s[i]@.map_values(|x: i64| x as int)[c] == image(v, p, t)[c]);
            assert(0 <= perm(p)[c] < 3);
            assert(-m <= v@[perm(p)[c]] <= m);
        }
    }
}

/// A rectangular block of a cubic lattice with its Voronoi tessellation.  In the block that
/// [lattice_block] builds, points are in Y and dual vertices in Z coordinates.
pub struct LatticeBlock<P> {
    pub kind: Lattice,
    pub points: Vec<P>,
    /// Nearest-neighbour edges (`i < j`).
    pub shell1: Vec<(usize, usize)>,
    /// Second-shell edges of length `a` (`i < j`); for BCC these are the six axis neighbours.
    pub shell2: Vec<(usize, usize)>,
    pub dual_vertices: Vec<P>,
    /// Every Voronoi wall once: `(site, other site or None for an outer wall, dual vertex ids)`.
    pub walls: Vec<(usize, Option<usize>, Vec<usize>)>,
}

/// The number of walls with a site on both sides.
pub open spec fn inner_count(ws: Seq<(usize, Option<usize>, Vec<usize>)>) -> nat
    decreases ws.len(),
{
    if ws.len() == 0 {
        0
    } else {
        inner_count(ws.drop_last()) + if ws.last().1 is Some {
            1nat
        } else {
            0nat
        }
    }
}

proof fn lemma_inner_count_le(ws: Seq<(usize, Option<usize>, Vec<usize>)>)
    ensures
        inner_count(ws) <= ws.len(),
    decreases ws.len(),
{
    if ws.len() > 0 {
        lemma_inner_count_le(ws.drop_last());
    }
}

impl<P> LatticeBlock<P> {
    /// The walls between two sites of the block.
    pub fn inner_walls(&self) -> (r: usize)
        ensures
            r == inner_count(self.walls@),
    {
        let mut r: usize = 0;
        for i in 0..self.walls.len()
            invariant
                r == inner_count(self.walls@.take(i as int)),
                r <= i,
        {
            proof {
                assert(self.walls@.take(i + 1).drop_last() =~= self.walls@.take(i as int));
            }
            if self.walls[i].1.is_some() {
                r += 1;
            }
        }
        proof {
            assert(self.walls@.take(self.walls@.len() as int) =~= self.walls@);
        }
        r
    }

    /// The walls on the outside of the block.
    pub fn outer_walls(&self) -> (r: usize)
        ensures
            r == self.walls@.len() - inner_count(self.walls@),
    {
        proof {
            lemma_inner_count_le(self.walls@);
        }
        self.walls.len() - self.inner_walls()
    }
}

/// The integer structure of a block of `n` conventional cells: lattice points (Y
/// coordinates), the first and second shell edges, and the Voronoi walls with their vertices (Z
/// coordinates).  `vz` and `facets` are the Voronoi cell of the lattice around the origin: its
/// vertices, and per facet the lattice vector it bisects with its vertex ids in cyclic order.
#[verifier::spinoff_prover]
pub fn lattice_block(kind: Lattice, n: [usize; 3], vz: &Vec<Point3>, facets: &Vec<(Point3, Vec<usize>)>) -> (b: LatticeBlock<Point3>)
    requires
        forall|c: int| 0 <= c < 3 ==> #[trigger] n@[c] <= MAX_CELLS && n@[c] < usize::MAX,
        forall|a: int| 0 <= a < vz@.len() ==> bounded(#[trigger] vz@[a], coord_bound()),
        forall|f: int| 0 <= f < facets@.len() ==> bounded((#[trigger] facets@[f]).0, coord_bound()),
        forall|f: int, t: int|
            0 <= f < facets@.len() && 0 <= t < facets@[f].1@.len() ==> #[trigger] facets@[f].1@[t] < vz@.len(),
    ensures
        b.kind == kind,
        block_points_ok(kind, n, b.points@),
        exists|s1: Seq<Point3>, s2: Seq<Point3>|
            shells_ok(kind, s1, s2) && #[trigger] pairs_ok(b.points@, s1, b.shell1@) && #[trigger] pairs_ok(b.points@, s2, b.shell2@),
        walls_ok(
            b.points@,
            facets@.map_values(|f: (Point3, Vec<usize>)| f.0),
            facets@.map_values(|f: (Point3, Vec<usize>)| f.1@),
            vz@,
            b.dual_vertices@,
            b.walls@,
        ),
{
    let ys = block_points(kind, n);
    proof {
        assert forall|a: int| 0 <= a < ys@.len() implies bounded(#[trigger] ys@[a], coord_bound()) by {
            assert(ys@.contains(ys@[a]));
            assert(in_block(kind, n, ys@[a]));
            assert forall|c: int| 0 <= c < 3 implies -coord_bound() <= #[trigger] ys@[a]@[c] <= coord_bound() by {
                assert(n@[c] <= MAX_CELLS);
                assert(0 <= ys@[a]@[c] <= 2 * n@[c]);
            }
        }
        assert forall|a: int, c: int| 0 <= a < c < ys@.len() implies ys@[a] != ys@[c] by {
            assert(key_lt(block_key(kind, ys@[a]), block_key(kind, ys@[c])));
        }
    }
    let (s1, s2) = kind.shell_offsets_y();
    proof {
        let (v1, v2): (Point3, Point3) = match kind {
            Lattice::Sc => ([2i64, 0, 0], [2i64, 2, 0]),
            Lattice::Bcc => ([1i64, 1, 1], [2i64, 0, 0]),
            Lattice::Fcc => ([1i64, 1, 0], [2i64, 0, 0]),
        };
        assert(is_orbit(s1@, v1) && is_orbit(s2@, v2));
        assert(bounded(v1, coord_bound()) && bounded(v2, coord_bound()));
        lemma_orbit_bounded(s1@, v1, coord_bound());
        lemma_orbit_bounded(s2@, v2, coord_bound());
    }
    let shell1 = pairs(&ys, &s1);
    let shell2 = pairs(&ys, &s2);
    let (dual, walls) = block_walls(&ys, facets, vz);
    let b = LatticeBlock { kind, points: ys, shell1, shell2, dual_vertices: dual, walls };
    assert(shells_ok(kind, s1@, s2@) && pairs_ok(b.points@, s1@, b.shell1@) && pairs_ok(b.points@, s2@, b.shell2@));
    b
}

/// The walls of site `i` through its first `f` facets come in facet order, each with the site
/// across its facet, never one that comes before `i`.
proof fn lemma_site_walls_shape(ys: Seq<Point3>, rs: Seq<Point3>, i: int, f: nat)
    requires
        f <= rs.len(),
    ensures
        forall|m: int|
            0 <= m < site_walls(ys, rs, i, f).len() ==> {
                let w = #[trigger] site_walls(ys, rs, i, f)[m];
                &&& w.0 == i
                &&& 0 <= w.2 < f
                &&& w.1 == across(ys, ys[i], rs[w.2])
                &&& !(w.1 is Some && w.1->0 < i)
            },
        forall|m1: int, m2: int|
            0 <= m1 < m2 < site_walls(ys, rs, i, f).len() ==> #[trigger] site_walls(ys, rs, i, f)[m1].2
                < #[trigger] site_walls(ys, rs, i, f)[m2].2,
    decreases f,
{
    if f > 0 {
        lemma_site_walls_shape(ys, rs, i, (f - 1) as nat);
    }
}

/// The walls of the first `n` sites, site by site and facet by facet.
proof fn lemma_wall_sites_shape(ys: Seq<Point3>, rs: Seq<Point3>, n: nat)
    ensures
        forall|m: int|
            0 <= m < wall_sites(ys, rs, n).len() ==> {
                let w = #[trigger] wall_sites(ys, rs, n)[m];
                &&& 0 <= w.0 < n
                &&& 0 <= w.2 < rs.len()
                &&& w.1 == across(ys, ys[w.0], rs[w.2])
                &&& !(w.1 is Some && w.1->0 < w.0)
            },
        forall|m1: int, m2: int|
            0 <= m1 < m2 < wall_sites(ys, rs, n).len() ==> {
                let (w1, w2) = (#[trigger] wall_sites(ys, rs, n)[m1], #[trigger] wall_sites(ys, rs, n)[m2]);
                w1.0 < w2.0 || (w1.0 == w2.0 && w1.2 < w2.2)
            },
    decreases n,
{
    if n > 0 {
        lemma_wall_sites_shape(ys, rs, (n - 1) as nat);
        lemma_site_walls_shape(ys, rs, n - 1, rs.len());
        let a = wall_sites(ys, rs, (n - 1) as nat);
        let sw = site_walls(ys, rs, n - 1, rs.len());
        let ws = wall_sites(ys, rs, n);
        assert(ws == a + sw);
        assert forall|m: int| 0 <= m < ws.len() implies {
            let w = #[trigger] ws[m];
            &&& 0 <= w.0 < n
            &&& 0 <= w.2 < rs.len()
            &&& w.1 == across(ys, ys[w.0], rs[w.2])
            &&& !(w.1 is Some && w.1->0 < w.0)
        } by {
            if m < a.len() {
                assert(ws[m] == a[m]);
            } else {
                assert(ws[m] == sw[m - a.len()]);
            }
        }
        assert forall|m1: int, m2: int| 0 <= m1 < m2 < ws.len() implies {
            let (w1, w2) = (#[trigger] ws[m1], #[trigger] ws[m2]);
            w1.0 < w2.0 || (w1.0 == w2.0 && w1.2 < w2.2)
        } by {
            if m2 < a.len() {
                assert(ws[m1] == a[m1] && ws[m2] == a[m2]);
            } else if m1 >= a.len() {
                assert(ws[m1] == sw[m1 - a.len()] && ws[m2] == sw[m2 - a.len()]);
            } else {
                assert(ws[m1] == a[m1] && ws[m2] == sw[m2 - a.len()]);
            }
        }
    }
}

/// The facet vectors `v` that a wall may be built from: even, not zero, and bounded.
pub open spec fn facet_vector(v: Point3) -> bool {
    &&& bounded(v, coord_bound())
    &&& forall|c: int| 0 <= c < 3 ==> #[trigger] v@[c] % 2 == 0
    &&& v != [0i64, 0, 0]
}

/// Half of an even value, twice, is the value.
proof fn lemma_half_even(v: int)
    requires
        v % 2 == 0,
    ensures
        2 * half(v) == v,
{
    if v < 0 {
        assert((-v) % 2 == 0);
    }
}

/// Every wall of a block that `lattice_block` builds, from even, non-zero, distinct facet
/// vectors, joins a site to a later site or to none; no two walls join the same two sites;
/// every wall's ids are dual vertices; and a wall has as many vertices as its facet, so at
/// least three when every facet has.
pub proof fn law_block_walls_once(
    kind: Lattice,
    n: [usize; 3],
    b: LatticeBlock<Point3>,
    rs: Seq<Point3>,
    faces: Seq<Seq<usize>>,
    vz: Seq<Point3>,
)
    requires
        forall|c: int| 0 <= c < 3 ==> #[trigger] n@[c] <= MAX_CELLS,
        block_points_ok(kind, n, b.points@),
        walls_ok(b.points@, rs, faces, vz, b.dual_vertices@, b.walls@),
        faces.len() == rs.len(),
        forall|f: int| 0 <= f < rs.len() ==> facet_vector(#[trigger] rs[f]),
        forall|f1: int, f2: int| 0 <= f1 < f2 < rs.len() ==> #[trigger] rs[f1] != #[trigger] rs[f2],
    ensures
        forall|m: int|
            0 <= m < b.walls@.len() ==> (#[trigger] b.walls@[m]).0 < b.points@.len() && (b.walls@[m].1 matches Some(j)
                ==> b.walls@[m].0 < j < b.points@.len()),
        forall|m1: int, m2: int|
            0 <= m1 < m2 < b.walls@.len() && (#[trigger] b.walls@[m1]).1 is Some && (#[trigger] b.walls@[m2]).1 is Some
                ==> (b.walls@[m1].0, b.walls@[m1].1) != (b.walls@[m2].0, b.walls@[m2].1),
        forall|m: int, t: int|
            0 <= m < b.walls@.len() && 0 <= t < b.walls@[m].2@.len() ==> #[trigger] b.walls@[m].2@[t]
                < b.dual_vertices@.len(),
        (forall|f: int| 0 <= f < faces.len() ==> (#[trigger] faces[f]).len() >= 3) ==> forall|m: int|
            0 <= m < b.walls@.len() ==> (#[trigger] b.walls@[m]).2@.len() >= 3,
{
    let ys = b.points@;
    let ws = wall_sites(ys, rs, ys.len());
    lemma_wall_sites_shape(ys, rs, ys.len());
    let cb = coord_bound();
    assert forall|i: int, c: int| 0 <= i < ys.len() && 0 <= c < 3 implies 0 <= #[trigger] ys[i]@[c] <= 2 * MAX_CELLS by {
        assert(ys.contains(ys[i]));
        assert(in_block(kind, n, ys[i]));
        assert(n@[c] <= MAX_CELLS);
    }
    // The site across a facet is another site, and different facets lead to different sites.
    assert forall|m: int| 0 <= m < ws.len() && (#[trigger] ws[m]).1 is Some implies ws[m].0 < ws[m].1->0 < ys.len() by {
        let (i, f) = (ws[m].0, ws[m].2);
        let j = ws[m].1->0;
        let r = rs[f];
        let q: Point3 = [
            (ys[i]@[0] + half(r@[0] as int)) as i64,
            (ys[i]@[1] + half(r@[1] as int)) as i64,
            (ys[i]@[2] + half(r@[2] as int)) as i64,
        ];
        assert(ys.contains(q));
        assert(0 <= j < ys.len() && ys[j] == q);
        if j == i {
            assert(facet_vector(r));
            assert forall|c: int| 0 <= c < 3 implies #[trigger] r@[c] == 0 by {
                assert(0 <= ys[i]@[c] <= 2 * MAX_CELLS);
                assert(-cb <= r@[c] <= cb);
                assert(r@[c] % 2 == 0);
                lemma_half_even(r@[c] as int);
                assert(q@[c] == ys[i]@[c]);
            }
            assert(r =~= [0i64, 0, 0]);
        }
    }
    assert forall|m1: int, m2: int|
        0 <= m1 < m2 < ws.len() && (#[trigger] ws[m1]).1 is Some && (#[trigger] ws[m2]).1 is Some implies (ws[m1].0, ws[m1].1)
            != (ws[m2].0, ws[m2].1) by {
        if ws[m1].0 == ws[m2].0 && ws[m1].1 == ws[m2].1 {
            let i = ws[m1].0;
            let (f1, f2) = (ws[m1].2, ws[m2].2);
            assert(f1 < f2);
            let j = ws[m1].1->0;
            let (r1, r2) = (rs[f1], rs[f2]);
            let q1: Point3 = [
                (ys[i]@[0] + half(r1@[0] as int)) as i64,
                (ys[i]@[1] + half(r1@[1] as int)) as i64,
                (ys[i]@[2] + half(r1@[2] as int)) as i64,
            ];
            let q2: Point3 = [
                (ys[i]@[0] + half(r2@[0] as int)) as i64,
                (ys[i]@[1] + half(r2@[1] as int)) as i64,
                (ys[i]@[2] + half(r2@[2] as int)) as i64,
            ];
            assert(ys.contains(q1) && ys.contains(q2));
            assert(ys[j] == q1 && ys[j] == q2);
            assert(facet_vector(r1) && facet_vector(r2));
            assert forall|c: int| 0 <= c < 3 implies #[trigger] r1@[c] == r2@[c] by {
                assert(0 <= ys[i]@[c] <= 2 * MAX_CELLS);
                assert(-cb <= r1@[c] <= cb && -cb <= r2@[c] <= cb);
                assert(r1@[c] % 2 == 0 && r2@[c] % 2 == 0);
                lemma_half_even(r1@[c] as int);
                lemma_half_even(r2@[c] as int);
                assert(q1@[c] == q2@[c]);
            }
            assert(r1 =~= r2);
        }
    }
    assert forall|m: int|
        0 <= m < b.walls@.len() implies (#[trigger] b.walls@[m]).0 < b.points@.len() && (b.walls@[m].1 matches Some(j)
            ==> b.walls@[m].0 < j < b.points@.len()) by {
        let w = b.walls@[m];
        assert(w.0 == ws[m].0);
        if let Some(j) = w.1 {
            assert(ws[m].1 == Some(j as int));
        }
    }
    assert forall|m1: int, m2: int|
        0 <= m1 < m2 < b.walls@.len() && (#[trigger] b.walls@[m1]).1 is Some && (#[trigger] b.walls@[m2]).1 is Some implies (
        b.walls@[m1].0, b.walls@[m1].1) != (b.walls@[m2].0, b.walls@[m2].1) by {
        let (w1, w2) = (b.walls@[m1], b.walls@[m2]);
        assert(ws[m1].1 == Some(w1.1->0 as int));
        assert(ws[m2].1 == Some(w2.1->0 as int));
        assert(w1.0 == ws[m1].0 && w2.0 == ws[m2].0);
    }
    if forall|f: int| 0 <= f < faces.len() ==> (#[trigger] faces[f]).len() >= 3 {
        assert forall|m: int| 0 <= m < b.walls@.len() implies (#[trigger] b.walls@[m]).2@.len() >= 3 by {
            assert(b.walls@[m].2@.len() == faces[ws[m].2].len());
        }
    }
}

// ------------------------------------------------------------------------------------------
// The facets of the Voronoi cell
// ------------------------------------------------------------------------------------------

pub open spec fn dot(a: Point3, b: Point3) -> int {
    a@[0] * b@[0] + a@[1] * b@[1] + a@[2] * b@[2]
}

/// `v` lies on the plane that bisects the lattice vector `r`: `2 v·r == r·r`.
pub open spec fn on_plane(v: Point3, r: Point3) -> bool {
    2 * dot(v, r) == dot(r, r)
}

/// The indices among the first `k` vertices that lie on the bisector plane of `r`, in order.
pub open spec fn plane_ids(vz: Seq<Point3>, r: Point3, k: nat) -> Seq<usize>
    decreases k,
{
    if k == 0 {
        seq![]
    } else {
        plane_ids(vz, r, (k - 1) as nat) + if on_plane(vz[k - 1], r) {
            seq![(k - 1) as usize]
        } else {
            seq![]
        }
    }
}

/// The facets of the cell: each vector of `rs` whose bisector plane holds at least three
/// vertices, with those vertices in index order.
pub open spec fn facet_list(vz: Seq<Point3>, rs: Seq<Point3>) -> Seq<(Point3, Seq<usize>)>
    decreases rs.len(),
{
    if rs.len() == 0 {
        seq![]
    } else {
        let ids = plane_ids(vz, rs.last(), vz.len());
        facet_list(vz, rs.drop_last()) + if ids.len() >= 3 {
            seq![(rs.last(), ids)]
        } else {
            seq![]
        }
    }
}

pub open spec fn facet_views(fs: Seq<(Point3, Vec<usize>)>) -> Seq<(Point3, Seq<usize>)> {
    fs.map_values(|f: (Point3, Vec<usize>)| (f.0, f.1@))
}

fn dot_exec(a: &Point3, b: &Point3) -> (r: i64)
    requires
        bounded(*a, 8),
        bounded(*b, 8),
    ensures
        r == dot(*a, *b),
        -192 <= r <= 192,
{
    assert(-8 <= a@[0] <= 8 && -8 <= a@[1] <= 8 && -8 <= a@[2] <= 8);
    assert(-8 <= b@[0] <= 8 && -8 <= b@[1] <= 8 && -8 <= b@[2] <= 8);
    assert(-64 <= a@[0] * b@[0] <= 64 && -64 <= a@[1] * b@[1] <= 64 && -64 <= a@[2] * b@[2] <= 64) by (nonlinear_arith)
        requires
            -8 <= a@[0] <= 8 && -8 <= a@[1] <= 8 && -8 <= a@[2] <= 8,
            -8 <= b@[0] <= 8 && -8 <= b@[1] <= 8 && -8 <= b@[2] <= 8,
    ;
    a[0] * b[0] + a[1] * b[1] + a[2] * b[2]
}

/// The facets of the cell with vertices `vz` for the lattice vectors `rs`.
fn facets_of(vz: &Vec<Point3>, rs: &Vec<Point3>) -> (r: Vec<(Point3, Vec<usize>)>)
    requires
        forall|a: int| 0 <= a < vz@.len() ==> bounded(#[trigger] vz@[a], 8),
        forall|a: int| 0 <= a < rs@.len() ==> bounded(#[trigger] rs@[a], 8),
    ensures
        facet_views(r@) == facet_list(vz@, rs@),
{
    let mut out: Vec<(Point3, Vec<usize>)> = Vec::new();
    for f in 0..rs.len()
        invariant
            forall|a: int| 0 <= a < vz@.len() ==> bounded(#[trigger] vz@[a], 8),
            forall|a: int| 0 <= a < rs@.len() ==> bounded(#[trigger] rs@[a], 8),
            facet_views(out@) == facet_list(vz@, rs@.take(f as int)),
    {
        let r = rs[f];
        assert(bounded(r, 8));
        let rr = dot_exec(&r, &r);
        let mut on: Vec<usize> = Vec::new();
        for i in 0..vz.len()
            invariant
                forall|a: int| 0 <= a < vz@.len() ==> bounded(#[trigger] vz@[a], 8),
                bounded(r, 8),
                rr == dot(r, r),
                on@ == plane_ids(vz@, r, i as nat),
        {
            assert(bounded(vz@[i as int], 8));
            let d = dot_exec(&vz[i], &r);
            if 2 * d == rr {
                on.push(i);
            }
            assert(on@ =~= plane_ids(vz@, r, (i + 1) as nat));
        }
        let ghost before = out@;
        if on.len() >= 3 {
            out.push((r, on));
        }
        proof {
            let t = rs@.take(f + 1);
            assert(t.drop_last() =~= rs@.take(f as int));
            assert(t.last() == r);
            assert(facet_views(out@) =~= facet_list(vz@, t));
        }
    }
    assert(rs@.take(rs@.len() as int) =~= rs@);
    out
}

proof fn lemma_two_orbits_bounded(s: Seq<Point3>, a: Point3, b: Point3, m: int)
    requires
        two_orbits(s, a, b),
        bounded(a, m),
        bounded(b, m),
    ensures
        forall|i: int| 0 <= i < s.len() ==> bounded(#[trigger] s[i], m),
{
    let k = choose|k: int| 0 <= k <= s.len() && is_orbit(s.take(k), a) && #[trigger] is_orbit(s.skip(k), b);
    lemma_orbit_bounded(s.take(k), a, m);
    lemma_orbit_bounded(s.skip(k), b, m);
    assert forall|i: int| 0 <= i < s.len() implies bounded(#[trigger] s[i], m) by {
        if i < k {
            assert(s[i] == s.take(k)[i]);
        } else {
            assert(s[i] == s.skip(k)[i - k]);
        }
    }
}

impl Lattice {
    /// The Voronoi cell around the origin, in Z coordinates: its vertices and, per facet, the
    /// lattice vector it bisects with the ids of the vertices on it, in index order.  (The
    /// cyclic order of a facet's vertices is a matter of angles.)
    pub fn voronoi_facets_z(self) -> (r: (Vec<Point3>, Vec<(Point3, Vec<usize>)>))
        ensures
            voronoi_vertices_ok(self, r.0@),
            exists|rs: Seq<Point3>| relevant_ok(self, rs) && #[trigger] facet_list(r.0@, rs) == facet_views(r.1@),
    {
        let vz = self.voronoi_vertices_z();
        let rs = self.relevant_z();
        proof {
            match self {
                Lattice::Sc => {
                    lemma_orbit_bounded(vz@, [2i64, 2, 2], 8);
                    lemma_orbit_bounded(rs@, [4i64, 0, 0], 8);
                },
                Lattice::Bcc => {
                    lemma_orbit_bounded(vz@, [0i64, 1, 2], 8);
                    lemma_two_orbits_bounded(rs@, [2i64, 2, 2], [4i64, 0, 0], 8);
                },
                Lattice::Fcc => {
                    lemma_two_orbits_bounded(vz@, [2i64, 0, 0], [1i64, 1, 1], 8);
                    lemma_orbit_bounded(rs@, [2i64, 2, 0], 8);
                },
            }
        }
        let facets = facets_of(&vz, &rs);
        assert(relevant_ok(self, rs@) && facet_list(vz@, rs@) == facet_views(facets@));
        (vz, facets)
    }
}

/// The vertices on a plane are vertices, in increasing order.
proof fn lemma_plane_ids(vz: Seq<Point3>, r: Point3, k: nat)
    requires
        k <= vz.len(),
    ensures
        forall|t: int| 0 <= t < plane_ids(vz, r, k).len() ==> #[trigger] plane_ids(vz, r, k)[t] < k,
    decreases k,
{
    if k > 0 {
        lemma_plane_ids(vz, r, (k - 1) as nat);
        let a = plane_ids(vz, r, (k - 1) as nat);
        let p = plane_ids(vz, r, k);
        assert forall|t: int| 0 <= t < p.len() implies #[trigger] p[t] < k by {
            if t < a.len() {
                assert(p[t] == a[t]);
            }
        }
    }
}

/// Each facet is a vector of `rs`, later facets of later vectors, with at least three vertex ids
/// below the number of vertices.
proof fn lemma_facet_list(vz: Seq<Point3>, rs: Seq<Point3>) -> (idx: Seq<int>)
    ensures
        idx.len() == facet_list(vz, rs).len(),
        forall|f: int| 0 <= f < idx.len() ==> 0 <= #[trigger] idx[f] < rs.len() && facet_list(vz, rs)[f].0 == rs[idx[f]],
        forall|f1: int, f2: int| 0 <= f1 < f2 < idx.len() ==> #[trigger] idx[f1] < #[trigger] idx[f2],
        forall|f: int| 0 <= f < idx.len() ==> (#[trigger] facet_list(vz, rs)[f]).1.len() >= 3,
        forall|f: int, t: int|
            0 <= f < idx.len() && 0 <= t < facet_list(vz, rs)[f].1.len() ==> #[trigger] facet_list(vz, rs)[f].1[t] < vz.len(),
    decreases rs.len(),
{
    if rs.len() == 0 {
        seq![]
    } else {
        let d = rs.drop_last();
        let i0 = lemma_facet_list(vz, d);
        let fl0 = facet_list(vz, d);
        let fl = facet_list(vz, rs);
        let ids = plane_ids(vz, rs.last(), vz.len());
        lemma_plane_ids(vz, rs.last(), vz.len());
        let idx = if ids.len() >= 3 {
            i0.push(rs.len() - 1)
        } else {
            i0
        };
        assert forall|f: int| 0 <= f < idx.len() implies 0 <= #[trigger] idx[f] < rs.len() && fl[f].0 == rs[idx[f]] by {
            if f < i0.len() {
                assert(fl[f] == fl0[f]);
                assert(d[i0[f]] == rs[i0[f]]);
            }
        }
        assert forall|f: int| 0 <= f < idx.len() implies (#[trigger] fl[f]).1.len() >= 3 by {
            if f < i0.len() {
                assert(fl[f] == fl0[f]);
            }
        }
        assert forall|f: int, t: int| 0 <= f < idx.len() && 0 <= t < fl[f].1.len() implies #[trigger] fl[f].1[t] < vz.len() by {
            if f < i0.len() {
                assert(fl[f] == fl0[f]);
            }
        }
        idx
    }
}

/// The entries of a signed permutation of `v` are those of `v` in the order of some
/// permutation `p`, each with a sign.
proof fn lemma_orbit_entries(v: Point3, c: Point3) -> (p: int)
    requires
        in_orbit(v, c),
    ensures
        0 <= p < 6,
        forall|i: int| 0 <= i < 3 ==> #[trigger] c@[i] == v@[perm(p)[i]] || c@[i] == -v@[perm(p)[i]],
{
    let (p, s) = choose|p: int, s: int| 0 <= p < 6 && 0 <= s < 8 && #[trigger] image(v, p, s) == c@.map_values(|x: i64| x as int);
    assert forall|i: int| 0 <= i < 3 implies #[trigger] c@[i] == v@[perm(p)[i]] || c@[i] == -v@[perm(p)[i]] by {
        assert(c@.map_values(|x: i64| x as int)[i] == image(v, p, s)[i]);
        assert(sign(s, i) == 1 || sign(s, i) == -1);
    }
    p
}

/// Some position of a permutation takes the first entry.
proof fn lemma_perm_has_first(p: int) -> (i: int)
    requires
        0 <= p < 6,
    ensures
        0 <= i < 3,
        perm(p)[i] == 0,
{
    if p <= 1 {
        0
    } else if p == 2 || p == 4 {
        1
    } else {
        2
    }
}

/// An even entry of at most four in size.
pub open spec fn small_even(x: int) -> bool {
    x == -4 || x == -2 || x == 0 || x == 2 || x == 4
}

/// A signed permutation of a vector of small even entries with a non-zero first entry is a
/// facet vector.
#[verifier::spinoff_prover]
proof fn lemma_orbit_facet_vector(v: Point3, c: Point3)
    requires
        in_orbit(v, c),
        forall|i: int| 0 <= i < 3 ==> small_even(#[trigger] v@[i] as int),
        v@[0] != 0,
    ensures
        facet_vector(c),
{
    let p = lemma_orbit_entries(v, c);
    assert forall|i: int| 0 <= i < 3 implies small_even(#[trigger] c@[i] as int) by {
        let q = perm(p)[i];
        assert(0 <= q < 3);
        assert(small_even(v@[q] as int));
    }
    assert(small_even(c@[0] as int) && small_even(c@[1] as int) && small_even(c@[2] as int));
    assert forall|i: int| 0 <= i < 3 implies #[trigger] c@[i] % 2 == 0 by {
        assert(small_even(c@[i] as int));
    }
    assert(bounded(c, coord_bound()));
    let i = lemma_perm_has_first(p);
    assert(c@[i] != 0);
    if c == [0i64, 0, 0] {
        assert(c@ =~= seq![0i64, 0, 0]);
        assert(c@[i] == 0);
    }
}

/// A vector of the orbit of `(2, 2, 2)` is not one of the orbit of `(4, 0, 0)`.
proof fn lemma_orbits_apart(c: Point3)
    requires
        in_orbit([2i64, 2, 2], c),
    ensures
        !in_orbit([4i64, 0, 0], c),
{
    let v = [2i64, 2, 2];
    let p = lemma_orbit_entries(v, c);
    assert forall|i: int| 0 <= i < 3 implies #[trigger] c@[i] == 2 || c@[i] == -2 by {
        assert(0 <= perm(p)[i] < 3);
    }
    if in_orbit([4i64, 0, 0], c) {
        let q = lemma_orbit_entries([4i64, 0, 0], c);
        let i = lemma_perm_has_first(q);
        assert(c@[i] == 4 || c@[i] == -4);
    }
}

/// The facets of a lattice's Voronoi cell: each bisects an even, non-zero, bounded lattice
/// vector, no two the same vector, and each has at least three vertices, all of the cell.
pub proof fn law_lattice_facets(k: Lattice, vz: Seq<Point3>, rs: Seq<Point3>)
    requires
        voronoi_vertices_ok(k, vz),
        relevant_ok(k, rs),
    ensures
        forall|f: int| 0 <= f < facet_list(vz, rs).len() ==> facet_vector(#[trigger] facet_list(vz, rs)[f].0),
        forall|f1: int, f2: int|
            0 <= f1 < f2 < facet_list(vz, rs).len() ==> #[trigger] facet_list(vz, rs)[f1].0 != #[trigger] facet_list(vz, rs)[f2].0,
        forall|f: int| 0 <= f < facet_list(vz, rs).len() ==> (#[trigger] facet_list(vz, rs)[f]).1.len() >= 3,
        forall|f: int, t: int|
            0 <= f < facet_list(vz, rs).len() && 0 <= t < facet_list(vz, rs)[f].1.len() ==> #[trigger] facet_list(vz, rs)[f].1[t] < vz.len(),
{
    let idx = lemma_facet_list(vz, rs);
    let fl = facet_list(vz, rs);
    // every relevant vector is a facet vector, and they are distinct
    let (a, b, kk): (Point3, Point3, int) = match k {
        Lattice::Sc => ([4i64, 0, 0], [4i64, 0, 0], rs.len() as int),
        Lattice::Bcc => {
            let a0: Point3 = [2i64, 2, 2];
            let b0: Point3 = [4i64, 0, 0];
            assert(two_orbits(rs, a0, b0));
            let kk = choose|kk: int| 0 <= kk <= rs.len() && is_orbit(rs.take(kk), a0) && #[trigger] is_orbit(rs.skip(kk), b0);
            (a0, b0, kk)
        },
        Lattice::Fcc => ([2i64, 2, 0], [2i64, 2, 0], rs.len() as int),
    };
    assert(0 <= kk <= rs.len());
    if k != Lattice::Bcc {
        assert(rs.take(kk) =~= rs);
    }
    assert(is_orbit(rs.take(kk), a));
    assert(is_orbit(rs.skip(kk), b) || kk == rs.len());
    assert forall|j: int| 0 <= j < rs.len() implies facet_vector(#[trigger] rs[j]) by {
        if j < kk {
            assert(rs.take(kk).contains(rs.take(kk)[j]));
            assert(rs[j] == rs.take(kk)[j]);
            lemma_orbit_facet_vector(a, rs[j]);
        } else {
            assert(rs.skip(kk).contains(rs.skip(kk)[j - kk]));
            assert(rs[j] == rs.skip(kk)[j - kk]);
            lemma_orbit_facet_vector(b, rs[j]);
        }
    }
    assert forall|j1: int, j2: int| 0 <= j1 < j2 < rs.len() implies #[trigger] rs[j1] != #[trigger] rs[j2] by {
        if j2 < kk {
            assert(rs[j1] == rs.take(kk)[j1] && rs[j2] == rs.take(kk)[j2]);
            assert(lex_lt(rs.take(kk)[j1], rs.take(kk)[j2]));
        } else if j1 >= kk {
            assert(rs[j1] == rs.skip(kk)[j1 - kk] && rs[j2] == rs.skip(kk)[j2 - kk]);
            assert(lex_lt(rs.skip(kk)[j1 - kk], rs.skip(kk)[j2 - kk]));
        } else {
            assert(rs[j1] == rs.take(kk)[j1] && rs[j2] == rs.skip(kk)[j2 - kk]);
            assert(rs.take(kk).contains(rs[j1]));
            assert(rs.skip(kk).contains(rs[j2]));
            assert(k == Lattice::Bcc);
            lemma_orbits_apart(rs[j1]);
        }
    }
    assert forall|f: int| 0 <= f < fl.len() implies facet_vector(#[trigger] fl[f].0) by {
        assert(fl[f].0 == rs[idx[f]]);
    }
    assert forall|f1: int, f2: int| 0 <= f1 < f2 < fl.len() implies #[trigger] fl[f1].0 != #[trigger] fl[f2].0 by {
        assert(idx[f1] < idx[f2]);
        assert(fl[f1].0 == rs[idx[f1]] && fl[f2].0 == rs[idx[f2]]);
    }
}

/// Every wall of a block that `lattice_block` builds from the facets of the lattice's Voronoi
/// cell (their vertices in any order) joins a site to a later site or to none; no two walls
/// join the same two sites; and every wall has at least three vertices, all dual vertices.
pub proof fn law_lattice_block_walls(
    kind: Lattice,
    n: [usize; 3],
    b: LatticeBlock<Point3>,
    vz: Seq<Point3>,
    rs: Seq<Point3>,
    vectors: Seq<Point3>,
    faces: Seq<Seq<usize>>,
)
    requires
        forall|c: int| 0 <= c < 3 ==> #[trigger] n@[c] <= MAX_CELLS,
        block_points_ok(kind, n, b.points@),
        walls_ok(b.points@, vectors, faces, vz, b.dual_vertices@, b.walls@),
        voronoi_vertices_ok(kind, vz),
        relevant_ok(kind, rs),
        vectors.len() == facet_list(vz, rs).len(),
        faces.len() == vectors.len(),
        forall|f: int| 0 <= f < vectors.len() ==> #[trigger] vectors[f] == facet_list(vz, rs)[f].0
            && faces[f].len() == facet_list(vz, rs)[f].1.len(),
    ensures
        forall|m: int|
            0 <= m < b.walls@.len() ==> (#[trigger] b.walls@[m]).0 < b.points@.len() && (b.walls@[m].1 matches Some(j)
                ==> b.walls@[m].0 < j < b.points@.len()),
        forall|m1: int, m2: int|
            0 <= m1 < m2 < b.walls@.len() && (#[trigger] b.walls@[m1]).1 is Some && (#[trigger] b.walls@[m2]).1 is Some
                ==> (b.walls@[m1].0, b.walls@[m1].1) != (b.walls@[m2].0, b.walls@[m2].1),
        forall|m: int, t: int|
            0 <= m < b.walls@.len() && 0 <= t < b.walls@[m].2@.len() ==> #[trigger] b.walls@[m].2@[t]
                < b.dual_vertices@.len(),
        forall|m: int| 0 <= m < b.walls@.len() ==> (#[trigger] b.walls@[m]).2@.len() >= 3,
{
    law_lattice_facets(kind, vz, rs);
    let fl = facet_list(vz, rs);
    assert forall|f: int| 0 <= f < vectors.len() implies facet_vector(#[trigger] vectors[f]) by {
        assert(facet_vector(fl[f].0));
    }
    assert forall|f1: int, f2: int| 0 <= f1 < f2 < vectors.len() implies #[trigger] vectors[f1] != #[trigger] vectors[f2] by {
        assert(fl[f1].0 != fl[f2].0);
    }
    assert forall|f: int| 0 <= f < faces.len() implies (#[trigger] faces[f]).len() >= 3 by {
        assert(vectors[f] == fl[f].0);
        assert(fl[f].1.len() >= 3);
    }
    law_block_walls_once(kind, n, b, vectors, faces, vz);
}

} // verus!
