//! Undirected edge sets over the vertices `0..n`, kept as adjacency lists in the
//! order the edges were first seen, and histograms of small counts.
use vstd::prelude::*;

verus! {

broadcast use vstd::seq_lib::group_to_multiset_ensures;

/// The key of an undirected edge: its endpoints, smaller first.
pub open spec fn key(a: usize, b: usize) -> (usize, usize) {
    if a <= b {
        (a, b)
    } else {
        (b, a)
    }
}

/// The distinct keys of the edges `es`, in the order they first occur; edges
/// from a vertex to itself are left out.
pub open spec fn edge_order(es: Seq<(usize, usize)>) -> Seq<(usize, usize)>
    decreases es.len(),
{
    if es.len() == 0 {
        seq![]
    } else {
        let o = edge_order(es.drop_last());
        let (a, b) = es.last();
        if a != b && !o.contains(key(a, b)) {
            o.push(key(a, b))
        } else {
            o
        }
    }
}

/// The adjacency lists over `0..n` after adding the edges `es` one by one: an
/// edge that is new gets each endpoint appended to the other's list.
pub open spec fn adjacency(n: nat, es: Seq<(usize, usize)>) -> Seq<Seq<isize>>
    decreases es.len(),
{
    if es.len() == 0 {
        Seq::new(n, |i: int| Seq::<isize>::empty())
    } else {
        let prev = adjacency(n, es.drop_last());
        let (a, b) = es.last();
        if a != b && !edge_order(es.drop_last()).contains(key(a, b)) {
            prev.update(a as int, prev[a as int].push(b as isize)).update(
                b as int,
                prev[b as int].push(a as isize),
            )
        } else {
            prev
        }
    }
}

/// Every endpoint of `es` is below `n`.
pub open spec fn endpoints_below(es: Seq<(usize, usize)>, n: nat) -> bool {
    forall|i: int| 0 <= i < es.len() ==> #[trigger] es[i].0 < n && es[i].1 < n
}

/// Number of elements of `s` that do not occur in `t`.
pub open spec fn count_not_in(s: Seq<(usize, usize)>, t: Seq<(usize, usize)>) -> nat
    decreases s.len(),
{
    if s.len() == 0 {
        0
    } else {
        count_not_in(s.drop_last(), t) + if t.contains(s.last()) {
            0nat
        } else {
            1nat
        }
    }
}

/// The lengths of the lists.
pub open spec fn lengths(v: Seq<Seq<isize>>) -> Seq<usize> {
    v.map_values(|l: Seq<isize>| l.len() as usize)
}

pub proof fn lemma_edge_order(es: Seq<(usize, usize)>)
    ensures
        edge_order(es).no_duplicates(),
        forall|k: (usize, usize)|
            edge_order(es).contains(k) <==> exists|i: int|
                0 <= i < es.len() && es[i].0 != es[i].1 && #[trigger] key(es[i].0, es[i].1) == k,
        forall|i: int|
            0 <= i < edge_order(es).len() ==> (#[trigger] edge_order(es)[i]).0 < edge_order(
                es,
            )[i].1,
        edge_order(es).len() <= es.len(),
    decreases es.len(),
{
    broadcast use vstd::seq_lib::lemma_seq_contains_after_push;

    if es.len() > 0 {
        let p = es.drop_last();
        lemma_edge_order(p);
        let (a, b) = es.last();
        let o = edge_order(p);
        assert(es[es.len() - 1] == es.last());
        assert forall|k: (usize, usize)| edge_order(es).contains(k) implies exists|i: int|
            0 <= i < es.len() && es[i].0 != es[i].1 && #[trigger] key(es[i].0, es[i].1) == k by {
            if o.contains(k) {
                let i = choose|i: int|
                    0 <= i < p.len() && p[i].0 != p[i].1 && #[trigger] key(p[i].0, p[i].1) == k;
                assert(es[i] == p[i]);
                assert(0 <= i < es.len() && es[i].0 != es[i].1 && key(es[i].0, es[i].1) == k);
            } else {
                let i = es.len() - 1;
                assert(0 <= i < es.len() && es[i].0 != es[i].1 && key(es[i].0, es[i].1) == k);
            }
        }
        assert forall|k: (usize, usize)|
            (exists|i: int|
                0 <= i < es.len() && es[i].0 != es[i].1 && #[trigger] key(es[i].0, es[i].1)
                    == k) implies edge_order(es).contains(k) by {
            let i = choose|i: int|
                0 <= i < es.len() && es[i].0 != es[i].1 && #[trigger] key(es[i].0, es[i].1) == k;
            if i < es.len() - 1 {
                assert(p[i] == es[i]);
                assert(0 <= i < p.len() && p[i].0 != p[i].1 && key(p[i].0, p[i].1) == k);
                assert(o.contains(k));
            }
        }
        if a != b && !o.contains(key(a, b)) {
            assert forall|i: int, j: int|
                0 <= i < j < edge_order(es).len() implies edge_order(es)[i] != edge_order(
                    es,
                )[j] by {
                if j == o.len() {
                    assert(o.contains(o[i]));
                }
            }
        }
    }
}

proof fn lemma_key_cases(a: usize, b: usize, x: usize, y: usize)
    ensures
        key(a, b) == key(x, y) <==> ((a == x && b == y) || (a == y && b == x)),
{
}

/// An entry `b` is in the list of `a` exactly when `{a, b}` is one of the edges.
pub proof fn lemma_adjacency(n: nat, es: Seq<(usize, usize)>)
    requires
        endpoints_below(es, n),
        n <= isize::MAX,
    ensures
        adjacency(n, es).len() == n,
        forall|a: usize, b: usize|
            a < n && b < n ==> (#[trigger] adjacency(n, es)[a as int].contains(b as isize) <==> (a
                != b && edge_order(es).contains(key(a, b)))),
        forall|a: int, j: int|
            0 <= a < n && 0 <= j < adjacency(n, es)[a].len() ==> 0 <= #[trigger] adjacency(
                n,
                es,
            )[a][j] < n,
    decreases es.len(),
{
    broadcast use vstd::seq_lib::lemma_seq_contains_after_push;

    if es.len() > 0 {
        let p = es.drop_last();
        assert(endpoints_below(p, n)) by {
            assert forall|i: int| 0 <= i < p.len() implies #[trigger] p[i].0 < n && p[i].1 < n by {
                assert(p[i] == es[i]);
            }
        }
        lemma_adjacency(n, p);
        let (x, y) = es.last();
        assert(es[es.len() - 1] == es.last());
        let prev = adjacency(n, p);
        let o = edge_order(p);
        if x != y && !o.contains(key(x, y)) {
            let cur = adjacency(n, es);
            let mid = prev.update(x as int, prev[x as int].push(y as isize));
            assert(cur == mid.update(y as int, mid[y as int].push(x as isize)));
            assert(mid[y as int] == prev[y as int]);
            assert(cur[x as int] == prev[x as int].push(y as isize));
            assert(cur[y as int] == prev[y as int].push(x as isize));
            assert(edge_order(es) == o.push(key(x, y)));
            assert forall|a: usize, b: usize| a < n && b < n implies (#[trigger] cur[a as int].contains(
                b as isize,
            ) <==> (a != b && edge_order(es).contains(key(a, b)))) by {
                lemma_key_cases(a, b, x, y);
                assert(prev[a as int].contains(b as isize) <==> (a != b && o.contains(key(a, b))));
                assert(o.push(key(x, y)).contains(key(a, b)) <==> (key(x, y) == key(a, b) || o.contains(key(a, b))));
                if a == x {
                    assert(prev[x as int].push(y as isize).contains(b as isize) <==> (y as isize == b as isize || prev[x as int].contains(b as isize)));
                } else if a == y {
                    assert(prev[y as int].push(x as isize).contains(b as isize) <==> (x as isize == b as isize || prev[y as int].contains(b as isize)));
                } else {
                    assert(cur[a as int] == prev[a as int]);
                }
            }
            assert(es[es.len() - 1].0 < n && es[es.len() - 1].1 < n);
            assert forall|a: int, j: int|
                0 <= a < n && 0 <= j < cur[a].len() implies 0 <= #[trigger] cur[a][j] < n by {
                if a == x {
                    if j < prev[a].len() {
                        assert(cur[a][j] == prev[a][j]);
                    }
                } else if a == y {
                    if j < prev[a].len() {
                        assert(cur[a][j] == prev[a][j]);
                    }
                } else {
                    assert(cur[a] == prev[a]);
                }
            }
        }
    }
}

/// Each new edge adds one to the lengths of two lists.
pub proof fn lemma_degree_sum(n: nat, es: Seq<(usize, usize)>)
    requires
        endpoints_below(es, n),
        n <= isize::MAX,
    ensures
        sum_lengths(adjacency(n, es)) == 2 * edge_order(es).len(),
    decreases es.len(),
{
    if es.len() == 0 {
        lemma_sum_lengths_empty(n);
    } else {
        let p = es.drop_last();
        assert(endpoints_below(p, n)) by {
            assert forall|i: int| 0 <= i < p.len() implies #[trigger] p[i].0 < n && p[i].1 < n by {
                assert(p[i] == es[i]);
            }
        }
        lemma_degree_sum(n, p);
        lemma_adjacency(n, p);
        let (x, y) = es.last();
        assert(es[es.len() - 1] == es.last());
        let prev = adjacency(n, p);
        if x != y && !edge_order(p).contains(key(x, y)) {
            let mid = prev.update(x as int, prev[x as int].push(y as isize));
            lemma_sum_lengths_update(prev, x as int, prev[x as int].push(y as isize));
            lemma_sum_lengths_update(mid, y as int, mid[y as int].push(x as isize));
        }
    }
}

/// The sum of the lengths of the lists.
pub open spec fn sum_lengths(v: Seq<Seq<isize>>) -> int
    decreases v.len(),
{
    if v.len() == 0 {
        0
    } else {
        sum_lengths(v.drop_last()) + v.last().len()
    }
}

proof fn lemma_sum_lengths_empty(n: nat)
    ensures
        sum_lengths(Seq::new(n, |i: int| Seq::<isize>::empty())) == 0,
    decreases n,
{
    if n > 0 {
        lemma_sum_lengths_empty((n - 1) as nat);
        assert(Seq::new(n, |i: int| Seq::<isize>::empty()).drop_last() =~= Seq::new(
            (n - 1) as nat,
            |i: int| Seq::<isize>::empty(),
        ));
    }
}

proof fn lemma_sum_lengths_update(v: Seq<Seq<isize>>, i: int, l: Seq<isize>)
    requires
        0 <= i < v.len(),
    ensures
        sum_lengths(v.update(i, l)) == sum_lengths(v) - v[i].len() + l.len(),
    decreases v.len(),
{
    if i < v.len() - 1 {
        lemma_sum_lengths_update(v.drop_last(), i, l);
        assert(v.update(i, l).drop_last() =~= v.drop_last().update(i, l));
    } else {
        assert(v.update(i, l).drop_last() =~= v.drop_last());
    }
}

// ------------------------------------------------------------------------------------------
// Exec
// ------------------------------------------------------------------------------------------

/// Adjacency lists over `0..n` with the distinct edges in the order they came.
pub struct EdgeSet {
    pub n: usize,
    pub neighbors: Vec<Vec<isize>>,
    pub order: Vec<(usize, usize)>,
}

pub open spec fn lists(v: Seq<Vec<isize>>) -> Seq<Seq<isize>> {
    v.map_values(|l: Vec<isize>| l@)
}

impl EdgeSet {
    /// The set holds exactly the edges `es`.
    pub open spec fn holds(&self, es: Seq<(usize, usize)>) -> bool {
        &&& endpoints_below(es, self.n as nat)
        &&& lists(self.neighbors@) == adjacency(self.n as nat, es)
        &&& self.order@ == edge_order(es)
        &&& self.n <= isize::MAX
    }

    pub fn new(n: usize) -> (r: EdgeSet)
        requires
            n <= isize::MAX,
        ensures
            r.n == n,
            r.holds(seq![]),
    {
        let mut neighbors: Vec<Vec<isize>> = Vec::new();
        for i in 0..n
            invariant
                neighbors.len() == i,
                forall|j: int| 0 <= j < i ==> (#[trigger] neighbors@[j])@ == Seq::<isize>::empty(),
        {
            neighbors.push(Vec::new());
        }
        let r = EdgeSet { n, neighbors, order: Vec::new() };
        assert(lists(r.neighbors@) =~= adjacency(n as nat, seq![]));
        r
    }

    /// True if `{a, b}` is one of the edges.
    pub fn contains(&self, a: usize, b: usize, Ghost(es): Ghost<Seq<(usize, usize)>>) -> (r: bool)
        requires
            self.holds(es),
            a < self.n,
            b < self.n,
        ensures
            r == (a != b && edge_order(es).contains(key(a, b))),
    {
        proof {
            lemma_adjacency(self.n as nat, es);
        }
        let l = &self.neighbors[a];
        assert(l@ == lists(self.neighbors@)[a as int]);
        let r = contains_isize(l, b as isize);
        assert(r == adjacency(self.n as nat, es)[a as int].contains(b as isize));
        r
    }

    /// Adds the edge `{a, b}`; returns true if it was new.
    pub fn add(&mut self, a: usize, b: usize, Ghost(es): Ghost<Seq<(usize, usize)>>) -> (r: bool)
        requires
            old(self).holds(es),
            a < old(self).n,
            b < old(self).n,
        ensures
            final(self).n == old(self).n,
            final(self).holds(es.push((a, b))),
            r == (a != b && !edge_order(es).contains(key(a, b))),
    {
        let ghost es2 = es.push((a, b));
        assert(es2.drop_last() =~= es);
        assert(es2.last() == (a, b));
        let present = self.contains(a, b, Ghost(es));
        proof {
            lemma_adjacency(self.n as nat, es);
            assert(endpoints_below(es2, self.n as nat)) by {
                assert forall|i: int| 0 <= i < es2.len() implies #[trigger] es2[i].0 < self.n
                    && es2[i].1 < self.n by {
                    if i < es.len() {
                        assert(es2[i] == es[i]);
                    }
                }
            }
        }
        if a == b || present {
            return false;
        }
        let ghost before = lists(self.neighbors@);
        self.neighbors[a].push(b as isize);
        self.neighbors[b].push(a as isize);
        self.order.push(key_exec(a, b));
        proof {
            assert(lists(self.neighbors@) =~= before.update(
                a as int,
                before[a as int].push(b as isize),
            ).update(b as int, before[b as int].push(a as isize)));
        }
        true
    }
}

/// True if `t` occurs in `l`.
pub fn contains_isize(l: &Vec<isize>, t: isize) -> (r: bool)
    ensures
        r == l@.contains(t),
{
    for j in 0..l.len()
        invariant
            forall|k: int| 0 <= k < j ==> l@[k] != t,
    {
        if l[j] == t {
            assert(l@[j as int] == t);
            return true;
        }
    }
    false
}

pub fn key_exec(a: usize, b: usize) -> (k: (usize, usize))
    ensures
        k == key(a, b),
{
    if a <= b {
        (a, b)
    } else {
        (b, a)
    }
}

// ------------------------------------------------------------------------------------------
// Histograms
// ------------------------------------------------------------------------------------------

/// `h` lists `(value, count)` for each distinct value of `vals`, sorted by value.
pub open spec fn is_histogram(h: Seq<(usize, usize)>, vals: Seq<usize>) -> bool {
    &&& forall|i: int, j: int| 0 <= i < j < h.len() ==> h[i].0 < h[j].0
    &&& forall|i: int|
        0 <= i < h.len() ==> (#[trigger] h[i]).1 == vals.to_multiset().count(h[i].0) && h[i].1 > 0
    &&& forall|v: usize| vals.contains(v) ==> exists|i: int| 0 <= i < h.len() && (#[trigger] h[i]).0 == v
}

/// `(value, count)` pairs of `vals`, sorted by value.
pub fn histogram(vals: &Vec<usize>) -> (h: Vec<(usize, usize)>)
    ensures
        is_histogram(h@, vals@),
{
    broadcast use vstd::multiset::group_multiset_axioms;

    let mut h: Vec<(usize, usize)> = Vec::new();
    for i in 0..vals.len()
        invariant
            is_histogram(h@, vals@.take(i as int)),
            h.len() <= i,
    {
        let v = vals[i];
        let ghost pre = vals@.take(i as int);
        let ghost post = vals@.take(i + 1);
        assert(post =~= pre.push(v));
        assert(post.to_multiset() =~= pre.to_multiset().insert(v));
        let mut p: usize = 0;
        while p < h.len() && h[p].0 < v
            invariant
                p <= h.len(),
                forall|k: int| 0 <= k < p ==> (#[trigger] h@[k]).0 < v,
            decreases h.len() - p,
        {
            p += 1;
        }
        if p < h.len() && h[p].0 == v {
            let c = h[p].1;
            proof {
                assert(c == pre.to_multiset().count(v));
                assert(pre.to_multiset().len() == pre.len());
                assert(pre.to_multiset().count(v) <= pre.to_multiset().len());
            }
            let ghost old_h = h@;
            h.set(p, (v, c + 1));
            proof {
                assert forall|v2: usize| post.contains(v2) implies exists|k: int|
                    0 <= k < h@.len() && (#[trigger] h@[k]).0 == v2 by {
                    if v2 != v {
                        let m = choose|m: int| 0 <= m < post.len() && post[m] == v2;
                        assert(pre[m] == v2);
                        assert(pre.contains(v2));
                        let k = choose|k: int| 0 <= k < old_h.len() && (#[trigger] old_h[k]).0 == v2;
                        assert(h@[k] == old_h[k]);
                    } else {
                        assert(h@[p as int].0 == v2);
                    }
                }
                assert forall|k: int| 0 <= k < h@.len() implies (#[trigger] h@[k]).1
                    == post.to_multiset().count(h@[k].0) && h@[k].1 > 0 by {
                    if k != p {
                        assert(h@[k] == old_h[k]);
                    }
                }
                assert forall|a: int, b: int| 0 <= a < b < h@.len() implies h@[a].0 < h@[b].0 by {
                    assert(h@[a].0 == old_h[a].0 && h@[b].0 == old_h[b].0);
                }
            }
        } else {
            let ghost old_h = h@;
            h.insert(p, (v, 1));
            proof {
                assert(pre.to_multiset().count(v) == 0) by {
                    if pre.contains(v) {
                        let k = choose|k: int| 0 <= k < old_h.len() && (#[trigger] old_h[k]).0 == v;
                        if k < p {
                        } else if k == p {
                        } else {
                            assert(old_h[p as int].0 < old_h[k].0);
                        }
                    }
                }
                assert forall|a: int, b: int| 0 <= a < b < h@.len() implies h@[a].0 < h@[b].0 by {
                    if b < p {
                        assert(h@[a] == old_h[a] && h@[b] == old_h[b]);
                    } else if b == p {
                        assert(h@[a] == old_h[a]);
                    } else if a < p {
                        assert(h@[a] == old_h[a] && h@[b] == old_h[b - 1]);
                        assert(old_h[b - 1].0 >= v) by {
                            if b - 1 == p {
                            } else {
                                assert(old_h[p as int].0 < old_h[b - 1].0);
                            }
                        }
                        if p < old_h.len() {
                            assert(old_h[p as int].0 != v);
                        }
                    } else if a == p {
                        assert(h@[b] == old_h[b - 1]);
                        if b - 1 > p {
                            assert(old_h[p as int].0 < old_h[b - 1].0);
                        }
                        assert(old_h[p as int].0 != v);
                    } else {
                        assert(h@[a] == old_h[a - 1] && h@[b] == old_h[b - 1]);
                    }
                }
                assert forall|k: int| 0 <= k < h@.len() implies (#[trigger] h@[k]).1
                    == post.to_multiset().count(h@[k].0) && h@[k].1 > 0 by {
                    if k < p {
                        assert(h@[k] == old_h[k]);
                    } else if k > p {
                        assert(h@[k] == old_h[k - 1]);
                        if p < old_h.len() {
                            assert(old_h[p as int].0 != v);
                            if k - 1 > p {
                                assert(old_h[p as int].0 < old_h[k - 1].0);
                            }
                        }
                    }
                }
                assert forall|v2: usize| post.contains(v2) implies exists|k: int|
                    0 <= k < h@.len() && (#[trigger] h@[k]).0 == v2 by {
                    if v2 != v {
                        let m = choose|m: int| 0 <= m < post.len() && post[m] == v2;
                        assert(pre[m] == v2);
                        assert(pre.contains(v2));
                        let k = choose|k: int| 0 <= k < old_h.len() && (#[trigger] old_h[k]).0 == v2;
                        if k < p {
                            assert(h@[k] == old_h[k]);
                        } else {
                            assert(h@[k + 1] == old_h[k]);
                        }
                    } else {
                        assert(h@[p as int].0 == v2);
                    }
                }
            }
        }
    }
    assert(vals@.take(vals.len() as int) =~= vals@);
    h
}

} // verus!
