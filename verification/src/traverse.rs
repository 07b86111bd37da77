//! The order in which the persistence state is carried across the edges of a grid.
//!
//! A traversal starts a component at a root, whose state is computed from scratch, and then
//! steps along edges from a vertex whose state is known to a neighbour.  The plans here are
//! sequences of [Visit]s; whoever runs the vineyards algorithm performs them in order.
use vstd::prelude::*;

use crate::edges::lists;
use crate::mesh::VineyardsGridMesh;

verus! {

/// One event of a traversal.
#[derive(Clone, Copy, Debug, PartialEq, Eq, Structural)]
pub enum Visit {
    /// Start a component here: its state is computed from scratch.
    Root(usize),
    /// Step from the first vertex, whose state is known, to the second.
    Edge(usize, usize),
    /// The state of the vertex is not needed any more.
    Drop(usize),
}

/// Every neighbour id is a vertex.
pub open spec fn ids_ok(g: Seq<Seq<isize>>) -> bool {
    forall|v: int, j: int|
        0 <= v < g.len() && 0 <= j < g[v].len() ==> 0 <= #[trigger] g[v][j] < g.len()
}

/// An undirected graph without loops or repeated edges, given by adjacency lists.
pub open spec fn simple(g: Seq<Seq<isize>>) -> bool {
    &&& ids_ok(g)
    &&& forall|v: int, j: int|
        0 <= v < g.len() && 0 <= j < g[v].len() ==> g[#[trigger] g[v][j] as int].contains(
            v as isize,
        ) && g[v][j] != v
    &&& forall|v: int| 0 <= v < g.len() ==> (#[trigger] g[v]).no_duplicates()
}

/// `w` is a neighbour of `u`.
pub open spec fn is_edge(g: Seq<Seq<isize>>, u: int, w: int) -> bool {
    0 <= u < g.len() && exists|j: int| 0 <= j < g[u].len() && #[trigger] g[u][j] == w
}

/// After the event, the state of `v` is known.
pub open spec fn reaches(e: Visit, v: int) -> bool {
    match e {
        Visit::Root(r) => r == v,
        Visit::Edge(_, n) => n == v,
        Visit::Drop(_) => false,
    }
}

/// Some event before position `k` reaches `v`.
pub open spec fn reached_before(ev: Seq<Visit>, k: int, v: int) -> bool {
    exists|j: int| 0 <= j < k && #[trigger] reaches(ev[j], v)
}

/// The event is a step along the edge between `u` and `w`, in either direction.
pub open spec fn joins(e: Visit, u: int, w: int) -> bool {
    match e {
        Visit::Edge(f, n) => (f == u && n == w) || (f == w && n == u),
        _ => false,
    }
}

/// Both events are steps along the same edge.
pub open spec fn same_edge(a: Visit, b: Visit) -> bool {
    match a {
        Visit::Edge(f, n) => joins(b, f as int, n as int),
        _ => false,
    }
}

/// No edge is stepped along twice.
pub open spec fn no_repeated_edge(s: Seq<Visit>) -> bool {
    forall|i: int, j: int| 0 <= i < j < s.len() ==> !same_edge(#[trigger] s[i], #[trigger] s[j])
}

/// Some event steps along the edge between `u` and `w`.
pub open spec fn listed(s: Seq<Visit>, u: int, w: int) -> bool {
    exists|k: int| 0 <= k < s.len() && #[trigger] joins(s[k], u, w)
}

/// The event at `k` is allowed: a root is a vertex not reached before, and a step goes along an
/// edge from a vertex reached before.
pub open spec fn step_ok(g: Seq<Seq<isize>>, ev: Seq<Visit>, k: int) -> bool {
    match ev[k] {
        Visit::Root(r) => r < g.len() && !reached_before(ev, k, r as int),
        Visit::Edge(f, n) => is_edge(g, f as int, n as int) && reached_before(ev, k, f as int),
        Visit::Drop(_) => false,
    }
}

/// Every event is allowed.
pub open spec fn plan_ok(g: Seq<Seq<isize>>, ev: Seq<Visit>) -> bool {
    forall|k: int| 0 <= k < ev.len() ==> #[trigger] step_ok(g, ev, k)
}

/// `seen` marks exactly the vertices reached.
pub open spec fn seen_is_reached(seen: Seq<bool>, ev: Seq<Visit>) -> bool {
    forall|v: int| 0 <= v < seen.len() ==> (#[trigger] seen[v] <==> reached_before(ev, ev.len() as int, v))
}

/// Every step starts at a marked vertex.
pub open spec fn froms_seen(s: Seq<Visit>, seen: Seq<bool>) -> bool {
    forall|k: int|
        0 <= k < s.len() ==> match #[trigger] s[k] {
            Visit::Edge(f, _) => f < seen.len() && seen[f as int],
            Visit::Root(_) => true,
            Visit::Drop(_) => false,
        }
}

/// Every edge at a marked vertex is stepped along.
pub open spec fn covers(g: Seq<Seq<isize>>, seen: Seq<bool>, s: Seq<Visit>) -> bool {
    forall|u: int, j: int|
        0 <= u < g.len() && seen[u] && 0 <= j < g[u].len() ==> listed(s, u, #[trigger] g[u][j] as int)
}

/// Pending steps: along edges, from marked vertices.
pub open spec fn pending_ok(g: Seq<Seq<isize>>, seen: Seq<bool>, st: Seq<Visit>) -> bool {
    forall|i: int|
        0 <= i < st.len() ==> match #[trigger] st[i] {
            Visit::Edge(f, n) => is_edge(g, f as int, n as int) && f < seen.len() && seen[f as int],
            _ => false,
        }
}

/// The number of unmarked vertices.
pub open spec fn unseen(s: Seq<bool>) -> nat
    decreases s.len(),
{
    if s.len() == 0 {
        0
    } else {
        unseen(s.drop_last()) + if s.last() {
            0nat
        } else {
            1nat
        }
    }
}

pub proof fn lemma_unseen_mark(s: Seq<bool>, i: int)
    requires
        0 <= i < s.len(),
        !s[i],
    ensures
        unseen(s.update(i, true)) + 1 == unseen(s),
    decreases s.len(),
{
    let t = s.update(i, true);
    if i == s.len() - 1 {
        assert(t.drop_last() =~= s.drop_last());
    } else {
        assert(t.drop_last() =~= s.drop_last().update(i, true));
        lemma_unseen_mark(s.drop_last(), i);
    }
}

/// Facts about a sequence of events carry over to any extension of it.
proof fn lemma_prefix(g: Seq<Seq<isize>>, a: Seq<Visit>, b: Seq<Visit>)
    requires
        a.len() <= b.len(),
        forall|j: int| 0 <= j < a.len() ==> a[j] == b[j],
    ensures
        forall|k: int, v: int|
            0 <= k <= a.len() ==> (reached_before(a, k, v) == #[trigger] reached_before(b, k, v)),
        forall|k: int| 0 <= k < a.len() ==> (step_ok(g, a, k) == #[trigger] step_ok(g, b, k)),
{
    assert forall|k: int, v: int| 0 <= k <= a.len() implies (reached_before(a, k, v)
        == #[trigger] reached_before(b, k, v)) by {
        if reached_before(a, k, v) {
            let j = choose|j: int| 0 <= j < k && #[trigger] reaches(a[j], v);
            assert(reaches(b[j], v));
        }
        if reached_before(b, k, v) {
            let j = choose|j: int| 0 <= j < k && #[trigger] reaches(b[j], v);
            assert(reaches(a[j], v));
        }
    }
    assert forall|k: int| 0 <= k < a.len() implies (step_ok(g, a, k) == #[trigger] step_ok(
        g,
        b,
        k,
    )) by {
        assert(a[k] == b[k]);
        match a[k] {
            Visit::Root(r) => {
                assert(reached_before(a, k, r as int) == reached_before(b, k, r as int));
            },
            Visit::Edge(f, n) => {
                assert(reached_before(a, k, f as int) == reached_before(b, k, f as int));
            },
            Visit::Drop(_) => {},
        }
    }
}

/// Reaching after appending one event.
proof fn lemma_reached_push(ev: Seq<Visit>, e: Visit, v: int)
    ensures
        reached_before(ev.push(e), ev.len() as int + 1, v) == (reached_before(ev, ev.len() as int, v)
            || reaches(e, v)),
{
    let b = ev.push(e);
    lemma_prefix(seq![], ev, b);
    if reached_before(b, ev.len() as int + 1, v) && !reaches(e, v) {
        let j = choose|j: int| 0 <= j < ev.len() + 1 && #[trigger] reaches(b[j], v);
        assert(j < ev.len());
        assert(reaches(ev[j], v));
    }
    if reaches(e, v) {
        assert(reaches(b[ev.len() as int], v));
    }
    if reached_before(ev, ev.len() as int, v) {
        let j = choose|j: int| 0 <= j < ev.len() && #[trigger] reaches(ev[j], v);
        assert(reaches(b[j], v));
    }
}

/// Listing survives appending.
proof fn lemma_listed_push(s: Seq<Visit>, x: Visit, u: int, w: int)
    requires
        listed(s, u, w),
    ensures
        listed(s.push(x), u, w),
{
    let k = choose|k: int| 0 <= k < s.len() && #[trigger] joins(s[k], u, w);
    assert(s.push(x)[k] == s[k]);
    assert(joins(s.push(x)[k], u, w));
}

proof fn lemma_covers_push(g: Seq<Seq<isize>>, seen: Seq<bool>, s: Seq<Visit>, x: Visit)
    requires
        covers(g, seen, s),
    ensures
        covers(g, seen, s.push(x)),
{
    assert forall|u: int, j: int|
        0 <= u < g.len() && seen[u] && 0 <= j < g[u].len() implies listed(
        s.push(x),
        u,
        #[trigger] g[u][j] as int,
    ) by {
        lemma_listed_push(s, x, u, g[u][j] as int);
    }
}

/// Where an element of `a.push(b[r]) + b.remove(r)` sits in `a + b`.
spec fn moved(alen: int, r: int, k: int) -> int {
    if k < alen {
        k
    } else if k == alen {
        alen + r
    } else if k - alen - 1 < r {
        k - 1
    } else {
        k
    }
}

/// Where an element of `a + b` sits in `a.push(b[r]) + b.remove(r)`.
spec fn unmoved(alen: int, r: int, k: int) -> int {
    if k < alen {
        k
    } else if k == alen + r {
        alen
    } else if k < alen + r {
        k + 1
    } else {
        k
    }
}

/// Moving one pending step into the events keeps the events and pending steps, as a whole,
/// the same.
proof fn lemma_move(a: Seq<Visit>, b: Seq<Visit>, r: int, seen: Seq<bool>)
    requires
        0 <= r < b.len(),
    ensures
        no_repeated_edge(a + b) ==> no_repeated_edge(a.push(b[r]) + b.remove(r)),
        froms_seen(a + b, seen) ==> froms_seen(a.push(b[r]) + b.remove(r), seen),
        forall|u: int, w: int|
            listed(a + b, u, w) ==> #[trigger] listed(a.push(b[r]) + b.remove(r), u, w),
{
    let c = a.push(b[r]) + b.remove(r);
    let d = a + b;
    let n = a.len() as int;
    assert(c.len() == d.len());
    assert forall|k: int| 0 <= k < c.len() implies #[trigger] c[k] == d[moved(n, r, k)] && 0
        <= moved(n, r, k) < d.len() by {
        if k < n {
        } else if k == n {
        } else if k - n - 1 < r {
            assert(c[k] == b.remove(r)[k - n - 1]);
        } else {
            assert(c[k] == b.remove(r)[k - n - 1]);
        }
    }
    assert forall|k: int| 0 <= k < d.len() implies #[trigger] d[k] == c[unmoved(n, r, k)] && 0
        <= unmoved(n, r, k) < c.len() by {
        if k < n {
        } else if k == n + r {
        } else if k < n + r {
            assert(c[k + 1] == b.remove(r)[k - n]);
        } else {
            assert(c[k] == b.remove(r)[k - n - 1]);
        }
    }
    if no_repeated_edge(d) {
        assert forall|i: int, j: int| 0 <= i < j < c.len() implies !same_edge(
            #[trigger] c[i],
            #[trigger] c[j],
        ) by {
            let (mi, mj) = (moved(n, r, i), moved(n, r, j));
            assert(c[i] == d[mi]);
            assert(c[j] == d[mj]);
            assert(mi != mj);
            if mi < mj {
                assert(!same_edge(d[mi], d[mj]));
            } else {
                assert(!same_edge(d[mj], d[mi]));
            }
        }
    }
    if froms_seen(d, seen) {
        assert forall|k: int| 0 <= k < c.len() implies match #[trigger] c[k] {
            Visit::Edge(f, _) => f < seen.len() && seen[f as int],
            Visit::Root(_) => true,
            Visit::Drop(_) => false,
        } by {
            assert(c[k] == d[moved(n, r, k)]);
        }
    }
    assert forall|u: int, w: int| listed(d, u, w) implies #[trigger] listed(c, u, w) by {
        let k = choose|k: int| 0 <= k < d.len() && #[trigger] joins(d[k], u, w);
        assert(d[k] == c[unmoved(n, r, k)]);
        assert(joins(c[unmoved(n, r, k)], u, w));
    }
}

proof fn lemma_edge_in_range(g: Seq<Seq<isize>>, u: int, w: int)
    requires
        ids_ok(g),
        is_edge(g, u, w),
    ensures
        0 <= w < g.len(),
{
    let j = choose|j: int| 0 <= j < g[u].len() && #[trigger] g[u][j] == w;
    assert(0 <= g[u][j] < g.len());
}

proof fn lemma_listed_sym(s: Seq<Visit>, u: int, w: int)
    requires
        listed(s, u, w),
    ensures
        listed(s, w, u),
{
    let k = choose|k: int| 0 <= k < s.len() && #[trigger] joins(s[k], u, w);
    assert(joins(s[k], w, u));
}

proof fn lemma_take_contains(s: Seq<isize>, j: int, x: isize)
    requires
        0 <= j < s.len(),
        s.take(j).contains(x) || s[j] == x,
    ensures
        s.take(j + 1).contains(x),
{
    if s[j] == x {
        assert(s.take(j + 1)[j] == x);
    } else {
        let i = choose|i: int| 0 <= i < j && s.take(j)[i] == x;
        assert(s.take(j + 1)[i] == x);
    }
}

/// The steps queued when `n` is first reached: one to each neighbour not yet marked, in list
/// order.
pub open spec fn queued(l: Seq<isize>, n: usize, seen: Seq<bool>) -> Seq<Visit>
    decreases l.len(),
{
    if l.len() == 0 {
        seq![]
    } else {
        let w = l.last();
        queued(l.drop_last(), n, seen) + if 0 <= w < seen.len() && !seen[w as int] {
            seq![Visit::Edge(n, w as usize)]
        } else {
            seq![]
        }
    }
}

/// Runs the pending steps to the end: take the first pending step if `fifo`, else the last; step
/// along it; the first time a vertex is reached, mark it and queue its unmarked neighbours.
/// The result is the marks and the events.
pub open spec fn drain(g: Seq<Seq<isize>>, fifo: bool, seen: Seq<bool>, st: Seq<Visit>, ev: Seq<Visit>) -> (Seq<bool>, Seq<Visit>)
    decreases unseen(seen), st.len(),
{
    if st.len() == 0 {
        (seen, ev)
    } else {
        let r = if fifo {
            0
        } else {
            st.len() - 1
        };
        let e = st[r];
        let rest = st.remove(r);
        match e {
            Visit::Edge(_, n) => if n < seen.len() && n < g.len() && !seen[n as int] {
                proof {
                    lemma_unseen_mark(seen, n as int);
                }
                let seen1 = seen.update(n as int, true);
                drain(g, fifo, seen1, rest + queued(g[n as int], n, seen1), ev.push(e))
            } else {
                drain(g, fifo, seen, rest, ev.push(e))
            },
            _ => drain(g, fifo, seen, rest, ev.push(e)),
        }
    }
}

/// The steps queued at a root: one to each of its neighbours.
pub open spec fn root_queue(l: Seq<isize>, root: usize) -> Seq<Visit> {
    Seq::new(l.len(), |j: int| Visit::Edge(root, l[j] as usize))
}

/// Exploring the component of `root`: mark it, queue a step to each of its neighbours, and run
/// the pending steps to the end.
pub open spec fn explore_spec(g: Seq<Seq<isize>>, root: usize, fifo: bool, seen: Seq<bool>, ev: Seq<Visit>) -> (Seq<bool>, Seq<Visit>) {
    drain(g, fifo, seen.update(root as int, true), root_queue(g[root as int], root), ev.push(Visit::Root(root)))
}

pub proof fn lemma_drain_marks(g: Seq<Seq<isize>>, fifo: bool, seen: Seq<bool>, st: Seq<Visit>, ev: Seq<Visit>)
    ensures
        drain(g, fifo, seen, st, ev).0.len() == seen.len(),
        unseen(drain(g, fifo, seen, st, ev).0) <= unseen(seen),
    decreases unseen(seen), st.len(),
{
    if st.len() > 0 {
        let r = if fifo {
            0
        } else {
            st.len() - 1
        };
        let e = st[r];
        let rest = st.remove(r);
        match e {
            Visit::Edge(_, n) => if n < seen.len() && n < g.len() && !seen[n as int] {
                lemma_unseen_mark(seen, n as int);
                let seen1 = seen.update(n as int, true);
                lemma_drain_marks(g, fifo, seen1, rest + queued(g[n as int], n, seen1), ev.push(e));
            } else {
                lemma_drain_marks(g, fifo, seen, rest, ev.push(e));
            },
            _ => lemma_drain_marks(g, fifo, seen, rest, ev.push(e)),
        }
    }
}

/// The first vertex from `v` on that is not marked and has neighbours.
pub open spec fn first_open(g: Seq<Seq<isize>>, seen: Seq<bool>, v: int) -> Option<int>
    decreases g.len() - v,
{
    if v < 0 || v >= g.len() {
        None
    } else if v < seen.len() && !seen[v] && g[v].len() > 0 {
        Some(v)
    } else {
        first_open(g, seen, v + 1)
    }
}

proof fn lemma_first_open(g: Seq<Seq<isize>>, seen: Seq<bool>, v: int)
    requires
        0 <= v <= g.len(),
        seen.len() == g.len(),
        forall|u: int| 0 <= u < v && g[u].len() > 0 ==> seen[u],
    ensures
        match first_open(g, seen, v) {
            Some(u) => 0 <= u < g.len() && !seen[u] && g[u].len() > 0 && forall|x: int|
                0 <= x < u && g[x].len() > 0 ==> seen[x],
            None => forall|x: int| 0 <= x < g.len() && g[x].len() > 0 ==> seen[x],
        },
    decreases g.len() - v,
{
    if v < g.len() && !(!seen[v] && g[v].len() > 0) {
        lemma_first_open(g, seen, v + 1);
    }
}

/// Every component in turn, from its first vertex that is not marked and has neighbours.
pub open spec fn components(g: Seq<Seq<isize>>, fifo: bool, seen: Seq<bool>, ev: Seq<Visit>) -> Seq<Visit>
    decreases unseen(seen),
{
    match first_open(g, seen, 0) {
        None => ev,
        Some(v) => if 0 <= v < seen.len() && v <= usize::MAX && !seen[v] {
            let next = explore_spec(g, v as usize, fifo, seen, ev);
            proof {
                lemma_unseen_mark(seen, v);
                lemma_drain_marks(
                    g,
                    fifo,
                    seen.update(v as usize as int, true),
                    root_queue(g[v as usize as int], v as usize),
                    ev.push(Visit::Root(v as usize)),
                );
            }
            components(g, fifo, next.0, next.1)
        } else {
            ev
        },
    }
}

/// The traversal of the whole graph, breadth first if `fifo`, else depth first.
pub open spec fn plan_spec(g: Seq<Seq<isize>>, fifo: bool) -> Seq<Visit> {
    components(g, fifo, Seq::new(g.len(), |i: int| false), seq![])
}

/// The invariant of a traversal between components.
pub open spec fn traversal_inv(g: Seq<Seq<isize>>, seen: Seq<bool>, ev: Seq<Visit>) -> bool {
    &&& seen.len() == g.len()
    &&& plan_ok(g, ev)
    &&& seen_is_reached(seen, ev)
    &&& froms_seen(ev, seen)
    &&& simple(g) ==> no_repeated_edge(ev) && covers(g, seen, ev)
}

/// Explores the component of `root` (not yet marked), breadth first if `fifo`, else depth
/// first.  A step is taken for every pending edge; the neighbours of a vertex are queued the
/// first time it is reached (all of them for the root, the unmarked ones otherwise).
#[verifier::spinoff_prover]
pub(crate) fn explore(g: &Vec<Vec<isize>>, root: usize, fifo: bool, seen: &mut Vec<bool>, ev: &mut Vec<Visit>)
    requires
        ids_ok(lists(g@)),
        g.len() <= isize::MAX,
        root < g.len(),
        !old(seen)@[root as int],
        traversal_inv(lists(g@), old(seen)@, old(ev)@),
    ensures
        traversal_inv(lists(g@), final(seen)@, final(ev)@),
        old(ev)@.len() < final(ev)@.len(),
        forall|j: int| 0 <= j < old(ev)@.len() ==> #[trigger] final(ev)@[j] == old(ev)@[j],
        final(ev)@[old(ev)@.len() as int] == Visit::Root(root),
        forall|k: int| old(ev)@.len() < k < final(ev)@.len() ==> (#[trigger] final(ev)@[k]) is Edge,
        forall|v: int| 0 <= v < g.len() && old(seen)@[v] ==> #[trigger] final(seen)@[v],
        unseen(final(seen)@) < unseen(old(seen)@),
        (final(seen)@, final(ev)@) == explore_spec(lists(g@), root, fifo, old(seen)@, old(ev)@),
{
    let ghost gg = lists(g@);
    let ghost ev0 = ev@;
    let ghost seen0 = seen@;
    proof {
        lemma_unseen_mark(seen@, root as int);
        lemma_reached_push(ev@, Visit::Root(root), root as int);
    }
    seen.set(root, true);
    ev.push(Visit::Root(root));
    proof {
        lemma_prefix(gg, ev0, ev@);
        assert(!reached_before(ev0, ev0.len() as int, root as int));
        assert(step_ok(gg, ev@, ev0.len() as int));
        assert forall|k: int| 0 <= k < ev@.len() implies #[trigger] step_ok(gg, ev@, k) by {
            if k < ev0.len() {
                assert(step_ok(gg, ev0, k));
            }
        }
        assert forall|v: int| 0 <= v < seen@.len() implies (#[trigger] seen@[v]
            <==> reached_before(ev@, ev@.len() as int, v)) by {
            lemma_reached_push(ev0, Visit::Root(root), v);
        }
        assert forall|k: int| 0 <= k < ev@.len() implies match #[trigger] ev@[k] {
            Visit::Edge(f, _) => f < seen@.len() && seen@[f as int],
            Visit::Root(_) => true,
            Visit::Drop(_) => false,
        } by {
            if k < ev0.len() {
                assert(ev@[k] == ev0[k]);
            }
        }
        if simple(gg) {
            assert forall|i: int, j: int| 0 <= i < j < ev@.len() implies !same_edge(
                #[trigger] ev@[i],
                #[trigger] ev@[j],
            ) by {
                if j < ev0.len() {
                    assert(ev@[i] == ev0[i] && ev@[j] == ev0[j]);
                } else {
                    assert(ev@[i] == ev0[i]);
                }
            }
            lemma_covers_push(gg, seen0, ev0, Visit::Root(root));
        }
    }
    let mut st: Vec<Visit> = Vec::new();
    let ns = &g[root];
    assert(ns@ == gg[root as int]);
    for j in 0..ns.len()
        invariant
            ns@ == gg[root as int],
            gg == lists(g@),
            ids_ok(gg),
            root < g.len(),
            g.len() <= isize::MAX,
            seen@ == seen0.update(root as int, true),
            seen0.len() == g.len(),
            !seen0[root as int],
            seen_is_reached(seen@, ev@),
            ev@ == ev0.push(Visit::Root(root)),
            st@.len() == j,
            forall|i: int| 0 <= i < j ==> #[trigger] st@[i] == Visit::Edge(root, ns@[i] as usize),
    {
        st.push(Visit::Edge(root, ns[j] as usize));
    }
    let ghost target = explore_spec(gg, root, fifo, seen0, ev0);
    proof {
        assert(st@ =~= root_queue(gg[root as int], root));
        let all = ev@ + st@;
        assert forall|i: int| 0 <= i < st@.len() implies match #[trigger] st@[i] {
            Visit::Edge(f, n) => is_edge(gg, f as int, n as int) && f < seen@.len() && seen@[f as int],
            _ => false,
        } by {
            assert(st@[i] == Visit::Edge(root, ns@[i] as usize));
            assert(0 <= ns@[i] < gg.len());
            assert(gg[root as int][i] == ns@[i]);
        }
        assert forall|k: int| 0 <= k < all.len() implies match #[trigger] all[k] {
            Visit::Edge(f, _) => f < seen@.len() && seen@[f as int],
            Visit::Root(_) => true,
            Visit::Drop(_) => false,
        } by {
            if k < ev@.len() {
                assert(all[k] == ev@[k]);
            } else {
                assert(all[k] == st@[k - ev@.len()]);
            }
        }
        if simple(gg) {
            // Every earlier step ends at a vertex reached before, so none touches the root.
            assert forall|i: int, j: int| 0 <= i < j < all.len() implies !same_edge(
                #[trigger] all[i],
                #[trigger] all[j],
            ) by {
                if j < ev@.len() {
                    assert(all[i] == ev@[i] && all[j] == ev@[j]);
                } else if i < ev@.len() {
                    assert(all[i] == ev@[i]);
                    let jj = j - ev@.len();
                    assert(all[j] == st@[jj]);
                    assert(st@[jj] == Visit::Edge(root, ns@[jj] as usize));
                    match ev@[i] {
                        Visit::Edge(f, n) => {
                            assert(step_ok(gg, ev@, i));
                            lemma_edge_in_range(gg, f as int, n as int);
                            assert(reaches(ev@[i], n as int));
                            assert(reached_before(ev0, ev0.len() as int, n as int)) by {
                                assert(i < ev0.len());
                                assert(ev0[i] == ev@[i]);
                                assert(reaches(ev0[i], n as int));
                            }
                            assert(seen0[n as int]);
                            assert(seen0[f as int]) by {
                                assert(ev0[i] == ev@[i]);
                                assert(froms_seen(ev0, seen0));
                                assert(match ev0[i] {
                                    Visit::Edge(f, _) => f < seen0.len() && seen0[f as int],
                                    Visit::Root(_) => true,
                                    Visit::Drop(_) => false,
                                });
                            }
                        },
                        _ => {},
                    }
                } else {
                    let ii = i - ev@.len();
                    let jj = j - ev@.len();
                    assert(all[i] == st@[ii]);
                    assert(all[j] == st@[jj]);
                    assert(gg[root as int].no_duplicates());
                    assert(ns@[ii] != ns@[jj]);
                    assert(ns@[ii] != root);
                    assert(ns@[jj] != root) by {
                        assert(gg[root as int][jj] != root);
                    }
                }
            }
            assert forall|u: int, j: int|
                0 <= u < gg.len() && seen@[u] && 0 <= j < gg[u].len() implies listed(
                all,
                u,
                #[trigger] gg[u][j] as int,
            ) by {
                if u == root {
                    let k = ev@.len() + j;
                    assert(all[k] == st@[j]);
                    assert(joins(all[k], u, gg[u][j] as int));
                } else {
                    assert(seen0[u]);
                    assert(listed(ev0, u, gg[u][j] as int));
                    let k = choose|k: int| 0 <= k < ev0.len() && #[trigger] joins(ev0[k], u, gg[u][j] as int);
                    assert(all[k] == ev0[k]);
                    assert(joins(all[k], u, gg[u][j] as int));
                }
            }
        }
    }
    while st.len() > 0
        invariant
            gg == lists(g@),
            ids_ok(gg),
            seen.len() == g.len(),
            root < g.len(),
            g.len() <= isize::MAX,
            plan_ok(gg, ev@),
            seen_is_reached(seen@, ev@),
            pending_ok(gg, seen@, st@),
            froms_seen(ev@ + st@, seen@),
            simple(gg) ==> no_repeated_edge(ev@ + st@) && covers(gg, seen@, ev@ + st@),
            ev0.len() < ev@.len(),
            forall|j: int| 0 <= j < ev0.len() ==> #[trigger] ev@[j] == ev0[j],
            ev@[ev0.len() as int] == Visit::Root(root),
            forall|k: int| ev0.len() < k < ev@.len() ==> (#[trigger] ev@[k]) is Edge,
            forall|v: int| 0 <= v < g.len() && seen0[v] ==> #[trigger] seen@[v],
            seen@[root as int],
            unseen(seen@) < unseen(seen0),
            seen0.len() == g.len(),
            drain(gg, fifo, seen@, st@, ev@) == target,
        decreases unseen(seen@), st.len(),
    {
        let r = if fifo {
            0
        } else {
            st.len() - 1
        };
        let ghost evb = ev@;
        let ghost stb = st@;
        let ghost seenb = seen@;
        let e = st.remove(r);
        assert(e == stb[r as int]);
        assert(match stb[r as int] {
            Visit::Edge(f, n) => is_edge(gg, f as int, n as int) && f < seenb.len() && seenb[f as int],
            _ => false,
        });
        let (f, n) = match e {
            Visit::Edge(f, n) => (f, n),
            _ => {
                proof {
                    assert(false);
                }
                (0, 0)
            },
        };
        assert(e == Visit::Edge(f, n));
        ev.push(e);
        proof {
            lemma_move(evb, stb, r as int, seenb);
            assert(ev@ + st@ == evb.push(stb[r as int]) + stb.remove(r as int));
            lemma_prefix(gg, evb, ev@);
            lemma_edge_in_range(gg, f as int, n as int);
            assert(0 <= n < gg.len());
            assert(reached_before(evb, evb.len() as int, f as int));
            assert forall|v: int| #![trigger reached_before(ev@, ev@.len() as int, v)]
                0 <= v < seenb.len() implies (reached_before(ev@, ev@.len() as int, v) <==> (seenb[v]
                || v == n)) by {
                lemma_reached_push(evb, e, v);
            }
            assert(reached_before(ev@, evb.len() as int, f as int));
            assert(step_ok(gg, ev@, evb.len() as int));
            assert forall|k: int| 0 <= k < ev@.len() implies #[trigger] step_ok(gg, ev@, k) by {
                if k < evb.len() {
                    assert(step_ok(gg, evb, k));
                }
            }
            assert forall|i: int| 0 <= i < st@.len() implies match #[trigger] st@[i] {
                Visit::Edge(f, n) => is_edge(gg, f as int, n as int) && f < seen@.len() && seen@[f as int],
                _ => false,
            } by {
                if i < r {
                    assert(st@[i] == stb[i]);
                } else {
                    assert(st@[i] == stb[i + 1]);
                }
            }
            if simple(gg) {
                assert forall|u: int, j: int|
                    0 <= u < gg.len() && seen@[u] && 0 <= j < gg[u].len() implies listed(
                    ev@ + st@,
                    u,
                    #[trigger] gg[u][j] as int,
                ) by {
                    assert(listed(evb + stb, u, gg[u][j] as int));
                }
            }
        }
        if !seen[n] {
            let ghost seen1 = seen@;
            proof {
                lemma_unseen_mark(seen@, n as int);
                lemma_reached_push(evb, e, n as int);
            }
            seen.set(n, true);
            proof {
                assert forall|v: int| 0 <= v < seen@.len() implies (#[trigger] seen@[v]
                    <==> reached_before(ev@, ev@.len() as int, v)) by {
                    lemma_reached_push(evb, e, v);
                }
            }
            let ns = &g[n];
            assert(ns@ == gg[n as int]);
            let ghost base = ev@ + st@;
            let ghost stb2 = st@;
            for j in 0..ns.len()
                invariant
                    ns@ == gg[n as int],
                    gg == lists(g@),
                    ids_ok(gg),
                    n < g.len(),
                    g.len() <= isize::MAX,
                    seen1.len() == g.len(),
                    !seen1[n as int],
                    seen@ == seen1.update(n as int, true),
                    st@.len() >= stb2.len(),
                    forall|i: int| 0 <= i < stb2.len() ==> #[trigger] st@[i] == stb2[i],
                    forall|i: int|
                        stb2.len() <= i < st@.len() ==> #[trigger] st@[i] == Visit::Edge(
                            n,
                            st@[i]->Edge_1,
                        ) && ns@.take(j as int).contains(st@[i]->Edge_1 as isize) && !seen@[st@[i]->Edge_1 as int]
                            && st@[i]->Edge_1 < g.len(),
                    base == ev@ + stb2,
                    froms_seen(base, seen1),
                    pending_ok(gg, seen@, stb2),
                    simple(gg) ==> no_repeated_edge(ev@ + st@),
                    simple(gg) ==> covers(gg, seen1, ev@ + st@),
                    simple(gg) ==> forall|i: int|
                        0 <= i < j ==> listed(ev@ + st@, n as int, #[trigger] ns@[i] as int),
                    st@ == stb2 + queued(ns@.take(j as int), n, seen@),
            {
                let w = ns[j];
                assert(0 <= w < gg.len());
                if !seen[w as usize] {
                    let ghost sbefore = st@;
                    let x = Visit::Edge(n, w as usize);
                    st.push(x);
                    proof {
                        let all0 = ev@ + sbefore;
                        assert(ev@ + st@ == all0.push(x));
                        if simple(gg) {
                            assert forall|k: int| 0 <= k < all0.len() implies !same_edge(
                                #[trigger] all0[k],
                                x,
                            ) by {
                                if k < base.len() {
                                    assert(all0[k] == base[k]);
                                    assert(match base[k] {
                                        Visit::Edge(f, _) => f < seen1.len() && seen1[f as int],
                                        Visit::Root(_) => true,
                                        Visit::Drop(_) => false,
                                    });
                                } else {
                                    let i = k - ev@.len();
                                    assert(all0[k] == sbefore[i]);
                                    assert(sbefore[i] == st@[i]);
                                    let w2 = st@[i]->Edge_1;
                                    assert(ns@.take(j as int).contains(w2 as isize));
                                    let jj = choose|jj: int| 0 <= jj < j && ns@.take(j as int)[jj] == w2 as isize;
                                    assert(gg[n as int].no_duplicates());
                                    assert(ns@[jj] == w2 as isize);
                                    assert(w2 != w);
                                }
                            }
                            assert forall|i2: int, j2: int| 0 <= i2 < j2 < all0.len() + 1 implies !same_edge(
                                #[trigger] all0.push(x)[i2],
                                #[trigger] all0.push(x)[j2],
                            ) by {
                                if j2 < all0.len() {
                                    assert(all0.push(x)[i2] == all0[i2]);
                                    assert(all0.push(x)[j2] == all0[j2]);
                                } else {
                                    assert(all0.push(x)[i2] == all0[i2]);
                                    assert(!same_edge(all0[i2], x));
                                }
                            }
                            lemma_covers_push(gg, seen1, all0, x);
                            assert(joins(all0.push(x)[all0.len() as int], n as int, w as int));
                            assert forall|i: int|
                                0 <= i < j + 1 implies listed(ev@ + st@, n as int, #[trigger] ns@[i] as int) by {
                                if i < j {
                                    lemma_listed_push(all0, x, n as int, ns@[i] as int);
                                }
                            }
                        }
                    }
                } else {
                    proof {
                        if simple(gg) {
                            assert(w != n) by {
                                assert(gg[n as int][j as int] != n);
                            }
                            assert(seen1[w as int]);
                            assert(gg[w as int].contains(n as isize));
                            let j2 = choose|j2: int| 0 <= j2 < gg[w as int].len() && gg[w as int][j2] == n as isize;
                            assert(listed(ev@ + st@, w as int, gg[w as int][j2] as int));
                            lemma_listed_sym(ev@ + st@, w as int, n as int);
                        }
                    }
                }
                proof {
                    assert forall|i: int| stb2.len() <= i < st@.len() implies ns@.take(j + 1).contains(
                        (#[trigger] st@[i])->Edge_1 as isize,
                    ) by {
                        lemma_take_contains(ns@, j as int, st@[i]->Edge_1 as isize);
                    }
                    assert(ns@.take(j + 1).drop_last() =~= ns@.take(j as int));
                    assert(st@ =~= stb2 + queued(ns@.take(j + 1), n, seen@));
                }
            }
            proof {
                assert(ns@.take(ns@.len() as int) =~= ns@);
                let all = ev@ + st@;
                assert forall|i: int| 0 <= i < st@.len() implies match #[trigger] st@[i] {
                    Visit::Edge(f, n) => is_edge(gg, f as int, n as int) && f < seen@.len() && seen@[f as int],
                    _ => false,
                } by {
                    if i < stb2.len() {
                        assert(st@[i] == stb2[i]);
                    } else {
                        let w2 = st@[i]->Edge_1;
                        let jj = choose|jj: int| 0 <= jj < ns@.len() && ns@.take(ns@.len() as int)[jj] == w2 as isize;
                        assert(gg[n as int].contains(w2 as isize));
                    }
                }
                assert forall|k: int| 0 <= k < all.len() implies match #[trigger] all[k] {
                    Visit::Edge(f, _) => f < seen@.len() && seen@[f as int],
                    Visit::Root(_) => true,
                    Visit::Drop(_) => false,
                } by {
                    if k < base.len() {
                        assert(all[k] == base[k]);
                        assert(match base[k] {
                            Visit::Edge(f, _) => f < seen1.len() && seen1[f as int],
                            Visit::Root(_) => true,
                            Visit::Drop(_) => false,
                        });
                    } else {
                        assert(all[k] == st@[k - ev@.len()]);
                    }
                }
                if simple(gg) {
                    assert forall|u: int, j: int|
                        0 <= u < gg.len() && seen@[u] && 0 <= j < gg[u].len() implies listed(
                        all,
                        u,
                        #[trigger] gg[u][j] as int,
                    ) by {
                        if u == n {
                            assert(listed(all, n as int, ns@[j] as int));
                        } else {
                            assert(seen1[u]);
                        }
                    }
                }
            }
        }
    }
    proof {
        assert(ev@ + st@ =~= ev@);
    }
}

/// Each root is the first vertex, in order, that has neighbours and is not reached yet.
pub open spec fn roots_first(g: Seq<Seq<isize>>, ev: Seq<Visit>) -> bool {
    forall|k: int|
        0 <= k < ev.len() && (#[trigger] ev[k]) is Root ==> {
            let r = ev[k]->Root_0 as int;
            &&& 0 <= r < g.len()
            &&& g[r].len() > 0
            &&& forall|u: int| 0 <= u < r && g[u].len() > 0 ==> reached_before(ev, k, u)
        }
}

/// A plan that carries the state across every edge of the grid: every event is allowed, roots
/// are chosen in order, every vertex with a neighbour is reached, and in a simple graph every
/// edge is stepped along exactly once.
pub open spec fn complete_plan(g: Seq<Seq<isize>>, ev: Seq<Visit>) -> bool {
    &&& plan_ok(g, ev)
    &&& roots_first(g, ev)
    &&& forall|v: int| 0 <= v < g.len() && g[v].len() > 0 ==> reached_before(ev, ev.len() as int, v)
    &&& simple(g) ==> no_repeated_edge(ev) && forall|u: int, j: int|
        0 <= u < g.len() && 0 <= j < g[u].len() ==> listed(ev, u, #[trigger] g[u][j] as int)
}

/// The first vertex, in order, that has neighbours and is not marked.
fn first_unreached(g: &Vec<Vec<isize>>, seen: &Vec<bool>) -> (r: Option<usize>)
    requires
        seen.len() == g.len(),
    ensures
        match r {
            Some(v) => v < g.len() && !seen@[v as int] && g@[v as int]@.len() > 0 && forall|u: int|
                0 <= u < v && (#[trigger] g@[u])@.len() > 0 ==> seen@[u],
            None => forall|u: int| 0 <= u < g.len() && (#[trigger] g@[u])@.len() > 0 ==> seen@[u],
        },
{
    for v in 0..g.len()
        invariant
            seen.len() == g.len(),
            forall|u: int| 0 <= u < v && (#[trigger] g@[u])@.len() > 0 ==> seen@[u],
    {
        if !seen[v] && g[v].len() > 0 {
            return Some(v);
        }
    }
    None
}

/// Plans a traversal of every component, breadth first if `fifo`, else depth first.
#[verifier::spinoff_prover]
fn plan(g: &Vec<Vec<isize>>, fifo: bool) -> (ev: Vec<Visit>)
    requires
        ids_ok(lists(g@)),
        g.len() <= isize::MAX,
    ensures
        complete_plan(lists(g@), ev@),
        ev@ == plan_spec(lists(g@), fifo),
{
    let ghost gg = lists(g@);
    let mut seen: Vec<bool> = Vec::new();
    for i in 0..g.len()
        invariant
            seen@.len() == i,
            forall|v: int| 0 <= v < i ==> !(#[trigger] seen@[v]),
    {
        seen.push(false);
    }
    let mut ev: Vec<Visit> = Vec::new();
    proof {
        assert forall|v: int| 0 <= v < seen@.len() implies (#[trigger] seen@[v]
            <==> reached_before(ev@, ev@.len() as int, v)) by {
        }
        if simple(gg) {
            assert forall|u: int, j: int|
                0 <= u < gg.len() && seen@[u] && 0 <= j < gg[u].len() implies listed(
                ev@,
                u,
                #[trigger] gg[u][j] as int,
            ) by {
            }
        }
    }
    let mut done = false;
    assert(seen@ =~= Seq::new(gg.len(), |i: int| false));
    while !done
        invariant
            gg == lists(g@),
            ids_ok(gg),
            g.len() <= isize::MAX,
            traversal_inv(gg, seen@, ev@),
            roots_first(gg, ev@),
            done ==> forall|u: int| 0 <= u < g.len() && (#[trigger] g@[u])@.len() > 0 ==> seen@[u],
            done ==> ev@ == plan_spec(gg, fifo),
            !done ==> components(gg, fifo, seen@, ev@) == plan_spec(gg, fifo),
        decreases unseen(seen@) + if done {
            0int
        } else {
            1int
        },
    {
        let next = first_unreached(g, &seen);
        proof {
            assert forall|u: int| 0 <= u < gg.len() implies #[trigger] gg[u] == g@[u]@ by {}
            lemma_first_open(gg, seen@, 0);
            match next {
                Some(v) => {
                    let w = first_open(gg, seen@, 0)->Some_0;
                    assert(first_open(gg, seen@, 0) is Some) by {
                        assert(g@[v as int]@.len() > 0);
                    }
                    if w < v {
                        assert(g@[w]@.len() > 0);
                    } else if w > v {
                        assert(gg[v as int].len() > 0);
                    }
                    assert(first_open(gg, seen@, 0) == Some(v as int));
                },
                None => {
                    if first_open(gg, seen@, 0) is Some {
                        let w = first_open(gg, seen@, 0)->Some_0;
                        assert(g@[w]@.len() > 0);
                    }
                },
            }
        }
        match next {
            None => {
                done = true;
            },
            Some(v) => {
                let ghost ev0 = ev@;
                let ghost seen0 = seen@;
                explore(g, v, fifo, &mut seen, &mut ev);
                proof {
                    lemma_prefix(gg, ev0, ev@);
                    assert forall|k: int|
                        0 <= k < ev@.len() && (#[trigger] ev@[k]) is Root implies {
                        let r = ev@[k]->Root_0 as int;
                        &&& 0 <= r < gg.len()
                        &&& gg[r].len() > 0
                        &&& forall|u: int| 0 <= u < r && gg[u].len() > 0 ==> reached_before(ev@, k, u)
                    } by {
                        if k < ev0.len() {
                            assert(ev@[k] == ev0[k]);
                            let r = ev@[k]->Root_0 as int;
                            assert forall|u: int| 0 <= u < r && gg[u].len() > 0 implies reached_before(ev@, k, u) by {
                                assert(reached_before(ev0, k, u));
                            }
                        } else if k == ev0.len() {
                            assert forall|u: int| 0 <= u < v && gg[u].len() > 0 implies reached_before(ev@, k, u) by {
                                assert(g@[u]@ == gg[u]);
                                assert(seen0[u]);
                                assert(reached_before(ev0, k, u));
                            }
                        }
                    }
                }
            },
        }
    }
    proof {
        assert forall|v: int| 0 <= v < gg.len() && gg[v].len() > 0 implies reached_before(ev@, ev@.len() as int, v) by {
            assert(g@[v]@ == gg[v]);
            assert(seen@[v]);
        }
        if simple(gg) {
            assert forall|u: int, j: int|
                0 <= u < gg.len() && 0 <= j < gg[u].len() implies listed(ev@, u, #[trigger] gg[u][j] as int) by {
                assert(g@[u]@ == gg[u]);
                assert(seen@[u]);
            }
        }
    }
    ev
}

/// The plan without its drops.
pub open spec fn without_drops(s: Seq<Visit>) -> Seq<Visit>
    decreases s.len(),
{
    if s.len() == 0 {
        seq![]
    } else if s.last() is Drop {
        without_drops(s.drop_last())
    } else {
        without_drops(s.drop_last()).push(s.last())
    }
}

/// The event drops the state of `v`.
pub open spec fn drops(e: Visit, v: int) -> bool {
    match e {
        Visit::Drop(d) => d == v,
        _ => false,
    }
}

/// Some event before position `k` drops the state of `v`.
pub open spec fn dropped_before(s: Seq<Visit>, k: int, v: int) -> bool {
    exists|i: int| 0 <= i < k && #[trigger] drops(s[i], v)
}

/// Some event before position `k` steps along the edge between `u` and `w`.
pub open spec fn listed_before(s: Seq<Visit>, k: int, u: int, w: int) -> bool {
    exists|i: int| 0 <= i < k && #[trigger] joins(s[i], u, w)
}

/// The event at `k` of a plan with drops is allowed: a step starts from a state that is there
/// and does not lead to a dropped one; a state is dropped once, after every edge at its vertex
/// has been stepped along.
pub open spec fn slim_step_ok(g: Seq<Seq<isize>>, s: Seq<Visit>, k: int) -> bool {
    match s[k] {
        Visit::Root(r) => r < g.len() && !reached_before(s, k, r as int),
        Visit::Edge(f, n) => is_edge(g, f as int, n as int) && reached_before(s, k, f as int)
            && !dropped_before(s, k, f as int) && !dropped_before(s, k, n as int),
        Visit::Drop(v) => v < g.len() && reached_before(s, k, v as int) && !dropped_before(
            s,
            k,
            v as int,
        ) && forall|j: int|
            0 <= j < g[v as int].len() ==> listed_before(s, k, v as int, #[trigger] g[v as int][j] as int),
    }
}

/// A plan with drops: the same traversal as a complete plan, every event allowed, and the
/// state of every vertex with a neighbour dropped in the end.
pub open spec fn slim_plan(g: Seq<Seq<isize>>, s: Seq<Visit>) -> bool {
    &&& complete_plan(g, without_drops(s))
    &&& forall|k: int| 0 <= k < s.len() ==> #[trigger] slim_step_ok(g, s, k)
    &&& forall|v: int| 0 <= v < g.len() && g[v].len() > 0 ==> dropped_before(s, s.len() as int, v)
}

/// Facts about a plan with drops carry over to any extension of it.
proof fn lemma_prefix_slim(g: Seq<Seq<isize>>, a: Seq<Visit>, b: Seq<Visit>)
    requires
        a.len() <= b.len(),
        forall|j: int| 0 <= j < a.len() ==> a[j] == b[j],
    ensures
        forall|k: int, v: int|
            0 <= k <= a.len() ==> (dropped_before(a, k, v) == #[trigger] dropped_before(b, k, v)),
        forall|k: int, u: int, w: int|
            0 <= k <= a.len() ==> (listed_before(a, k, u, w) == #[trigger] listed_before(b, k, u, w)),
        forall|k: int| 0 <= k < a.len() ==> (slim_step_ok(g, a, k) == #[trigger] slim_step_ok(g, b, k)),
{
    lemma_prefix(g, a, b);
    assert forall|k: int, v: int| 0 <= k <= a.len() implies (dropped_before(a, k, v)
        == #[trigger] dropped_before(b, k, v)) by {
        if dropped_before(a, k, v) {
            let j = choose|j: int| 0 <= j < k && #[trigger] drops(a[j], v);
            assert(drops(b[j], v));
        }
        if dropped_before(b, k, v) {
            let j = choose|j: int| 0 <= j < k && #[trigger] drops(b[j], v);
            assert(drops(a[j], v));
        }
    }
    assert forall|k: int, u: int, w: int| 0 <= k <= a.len() implies (listed_before(a, k, u, w)
        == #[trigger] listed_before(b, k, u, w)) by {
        if listed_before(a, k, u, w) {
            let j = choose|j: int| 0 <= j < k && #[trigger] joins(a[j], u, w);
            assert(joins(b[j], u, w));
        }
        if listed_before(b, k, u, w) {
            let j = choose|j: int| 0 <= j < k && #[trigger] joins(b[j], u, w);
            assert(joins(a[j], u, w));
        }
    }
    assert forall|k: int| 0 <= k < a.len() implies (slim_step_ok(g, a, k) == #[trigger] slim_step_ok(
        g,
        b,
        k,
    )) by {
        assert(a[k] == b[k]);
        match a[k] {
            Visit::Root(r) => {
                assert(reached_before(a, k, r as int) == reached_before(b, k, r as int));
            },
            Visit::Edge(f, n) => {
                assert(reached_before(a, k, f as int) == reached_before(b, k, f as int));
                assert(dropped_before(a, k, f as int) == dropped_before(b, k, f as int));
                assert(dropped_before(a, k, n as int) == dropped_before(b, k, n as int));
            },
            Visit::Drop(v) => {
                assert(reached_before(a, k, v as int) == reached_before(b, k, v as int));
                assert(dropped_before(a, k, v as int) == dropped_before(b, k, v as int));
                assert forall|j: int| 0 <= j < g[v as int].len() implies (listed_before(
                    a,
                    k,
                    v as int,
                    #[trigger] g[v as int][j] as int,
                ) == listed_before(b, k, v as int, g[v as int][j] as int)) by {}
            },
        }
    }
}

/// What one more event adds.
proof fn lemma_push_slim(s: Seq<Visit>, e: Visit)
    ensures
        forall|v: int| #[trigger] dropped_before(s.push(e), s.len() as int + 1, v) == (dropped_before(s, s.len() as int, v) || drops(e, v)),
        forall|u: int, w: int| #[trigger] listed_before(s.push(e), s.len() as int + 1, u, w) == (listed_before(s, s.len() as int, u, w) || joins(e, u, w)),
        forall|v: int| #[trigger] reached_before(s.push(e), s.len() as int + 1, v) == (reached_before(s, s.len() as int, v) || reaches(e, v)),
        without_drops(s.push(e)) == if e is Drop {
            without_drops(s)
        } else {
            without_drops(s).push(e)
        },
{
    let b = s.push(e);
    assert(b.drop_last() =~= s);
    assert forall|v: int| #[trigger] dropped_before(b, s.len() as int + 1, v) == (dropped_before(s, s.len() as int, v) || drops(e, v)) by {
        if dropped_before(b, s.len() as int + 1, v) && !drops(e, v) {
            let j = choose|j: int| 0 <= j < s.len() + 1 && #[trigger] drops(b[j], v);
            assert(drops(s[j], v));
        }
        if drops(e, v) {
            assert(drops(b[s.len() as int], v));
        }
        if dropped_before(s, s.len() as int, v) {
            let j = choose|j: int| 0 <= j < s.len() && #[trigger] drops(s[j], v);
            assert(drops(b[j], v));
        }
    }
    assert forall|u: int, w: int| #[trigger] listed_before(b, s.len() as int + 1, u, w) == (listed_before(s, s.len() as int, u, w) || joins(e, u, w)) by {
        if listed_before(b, s.len() as int + 1, u, w) && !joins(e, u, w) {
            let j = choose|j: int| 0 <= j < s.len() + 1 && #[trigger] joins(b[j], u, w);
            assert(joins(s[j], u, w));
        }
        if joins(e, u, w) {
            assert(joins(b[s.len() as int], u, w));
        }
        if listed_before(s, s.len() as int, u, w) {
            let j = choose|j: int| 0 <= j < s.len() && #[trigger] joins(s[j], u, w);
            assert(joins(b[j], u, w));
        }
    }
    assert forall|v: int| #[trigger] reached_before(b, s.len() as int + 1, v) == (reached_before(s, s.len() as int, v) || reaches(e, v)) by {
        lemma_reached_push(s, e, v);
    }
}

/// The plan with drops after its first events, and the number of edges left at each vertex:
/// after each step the state of an endpoint is dropped when no edge is left at it.
pub open spec fn with_drops(g: Seq<Seq<isize>>, plan: Seq<Visit>) -> (Seq<int>, Seq<Visit>)
    decreases plan.len(),
{
    if plan.len() == 0 {
        (Seq::new(g.len(), |v: int| g[v].len() as int), seq![])
    } else {
        let (left, out) = with_drops(g, plan.drop_last());
        match plan.last() {
            Visit::Edge(f, n) => {
                let l1 = left.update(f as int, left[f as int] - 1);
                let o1 = out.push(plan.last()) + if l1[f as int] == 0 {
                    seq![Visit::Drop(f)]
                } else {
                    seq![]
                };
                let l2 = l1.update(n as int, l1[n as int] - 1);
                (l2, o1 + if l2[n as int] == 0 {
                    seq![Visit::Drop(n)]
                } else {
                    seq![]
                })
            },
            _ => (left, out.push(plan.last())),
        }
    }
}

/// The neighbours of `v` along whose edge some event steps.
spec fn partners_ok(g: Seq<Seq<isize>>, ps: Seq<Set<isize>>, s: Seq<Visit>) -> bool {
    forall|v: int, w: isize|
        0 <= v < g.len() ==> ((#[trigger] ps[v].contains(w)) <==> (g[v].contains(w)
            && listed_before(s, s.len() as int, v, w as int)))
}

/// The edges of a vertex of a simple graph whose step is not listed yet: at least one if one of
/// them is missing, none if all are listed.
proof fn lemma_partners(g: Seq<Seq<isize>>, ps: Seq<Set<isize>>, s: Seq<Visit>, v: int)
    requires
        simple(g),
        0 <= v < g.len(),
        ps.len() == g.len(),
        partners_ok(g, ps, s),
    ensures
        ps[v].finite(),
        ps[v].len() <= g[v].len(),
        forall|w: isize| g[v].contains(w) && !ps[v].contains(w) ==> ps[v].len() < g[v].len(),
        ps[v].len() == g[v].len() ==> forall|j: int|
            0 <= j < g[v].len() ==> listed_before(s, s.len() as int, v, #[trigger] g[v][j] as int),
{
    let t = g[v].to_set();
    assert(g[v].no_duplicates());
    g[v].unique_seq_to_set();
    assert(ps[v].subset_of(t)) by {
        assert forall|w: isize| ps[v].contains(w) implies t.contains(w) by {}
    }
    vstd::set_lib::lemma_len_subset(ps[v], t);
    assert forall|w: isize| g[v].contains(w) && !ps[v].contains(w) implies ps[v].len() < g[v].len() by {
        assert(ps[v].subset_of(t.remove(w)));
        vstd::set_lib::lemma_len_subset(ps[v], t.remove(w));
    }
    if ps[v].len() == g[v].len() {
        vstd::set_lib::lemma_subset_equality(ps[v], t);
        assert forall|j: int| 0 <= j < g[v].len() implies listed_before(
            s,
            s.len() as int,
            v,
            #[trigger] g[v][j] as int,
        ) by {
            assert(t.contains(g[v][j]));
            assert(ps[v].contains(g[v][j]));
        }
    }
}

/// Inserts the drops into a complete plan: after each step, the state of an endpoint is dropped
/// once every edge at that endpoint has been stepped along.
#[verifier::spinoff_prover]
fn insert_drops(g: &Vec<Vec<isize>>, plan: &Vec<Visit>) -> (out: Vec<Visit>)
    requires
        simple(lists(g@)),
        g.len() <= isize::MAX,
        complete_plan(lists(g@), plan@),
    ensures
        slim_plan(lists(g@), out@),
        without_drops(out@) == plan@,
        out@ == with_drops(lists(g@), plan@).1,
{
    let ghost gg = lists(g@);
    let mut left: Vec<usize> = Vec::new();
    for v in 0..g.len()
        invariant
            gg == lists(g@),
            left@.len() == v,
            forall|u: int| 0 <= u < v ==> #[trigger] left@[u] == gg[u].len(),
    {
        left.push(g[v].len());
    }
    let ghost mut ps: Seq<Set<isize>> = Seq::new(g.len() as nat, |v: int| Set::<isize>::empty());
    let mut out: Vec<Visit> = Vec::new();
    proof {
        assert(plan@.take(0) =~= seq![]);
        assert(without_drops(out@) =~= plan@.take(0));
        assert forall|v: int| 0 <= v < gg.len() implies #[trigger] left@[v] + ps[v].len() == gg[v].len() && ps[v].finite() by {
            assert(ps[v] == Set::<isize>::empty());
        }
    }
    for i in 0..plan.len()
        invariant
            gg == lists(g@),
            simple(gg),
            g.len() <= isize::MAX,
            complete_plan(gg, plan@),
            left@.len() == g.len(),
            ps.len() == g.len(),
            partners_ok(gg, ps, out@),
            forall|v: int| 0 <= v < gg.len() ==> #[trigger] left@[v] + ps[v].len() == gg[v].len() && ps[v].finite(),
            without_drops(out@) == plan@.take(i as int),
            forall|v: int| #[trigger] reached_before(out@, out@.len() as int, v) == reached_before(plan@, i as int, v),
            forall|u: int, w: int| #[trigger] listed_before(out@, out@.len() as int, u, w) == listed_before(plan@, i as int, u, w),
            forall|k: int| 0 <= k < out@.len() ==> #[trigger] slim_step_ok(gg, out@, k),
            forall|v: int| 0 <= v < gg.len() ==> (#[trigger] dropped_before(out@, out@.len() as int, v) <==> (gg[v].len() > 0 && left@[v] == 0)),
            with_drops(gg, plan@.take(i as int)).0.len() == gg.len(),
            forall|v: int| 0 <= v < gg.len() ==> #[trigger] left@[v] == with_drops(gg, plan@.take(i as int)).0[v],
            out@ == with_drops(gg, plan@.take(i as int)).1,
    {
        let e = plan[i];
        let ghost wd = with_drops(gg, plan@.take(i as int));
        proof {
            assert(plan@.take(i + 1).drop_last() =~= plan@.take(i as int));
            assert(plan@.take(i + 1).last() == e);
        }
        assert(step_ok(gg, plan@, i as int));
        proof {
            assert(plan@.take(i + 1) =~= plan@.take(i as int).push(e));
        }
        match e {
            Visit::Edge(f, n) => {
                let ghost o0 = out@;
                proof {
                    lemma_edge_in_range(gg, f as int, n as int);
                    // The edge was not stepped along before.
                    if listed_before(plan@, i as int, f as int, n as int) {
                        let k = choose|k: int| 0 <= k < i && #[trigger] joins(plan@[k], f as int, n as int);
                        assert(same_edge(plan@[k], plan@[i as int]));
                    }
                    assert(!listed_before(o0, o0.len() as int, f as int, n as int));
                    assert(!listed_before(o0, o0.len() as int, n as int, f as int)) by {
                        if listed_before(o0, o0.len() as int, n as int, f as int) {
                            let k = choose|k: int| 0 <= k < o0.len() && #[trigger] joins(o0[k], n as int, f as int);
                            assert(joins(o0[k], f as int, n as int));
                        }
                    }
                    let jn = choose|jn: int| 0 <= jn < gg[f as int].len() && #[trigger] gg[f as int][jn] == n as int;
                    assert(gg[f as int].contains(n as isize));
                    assert(gg[n as int].contains(f as isize));
                    assert(f != n);
                    lemma_partners(gg, ps, o0, f as int);
                    lemma_partners(gg, ps, o0, n as int);
                    assert(!ps[f as int].contains(n as isize));
                    assert(!ps[n as int].contains(f as isize));
                    assert(left@[f as int] >= 1);
                    assert(left@[n as int] >= 1);
                    assert(reached_before(o0, o0.len() as int, f as int));
                    assert(!dropped_before(o0, o0.len() as int, f as int));
                    assert(!dropped_before(o0, o0.len() as int, n as int));
                }
                out.push(e);
                proof {
                    lemma_push_slim(o0, e);
                    lemma_prefix_slim(gg, o0, out@);
                    lemma_prefix(gg, o0, out@);
                    assert(!dropped_before(o0, o0.len() as int, f as int));
                    assert(!dropped_before(o0, o0.len() as int, n as int));
                    assert(reached_before(out@, o0.len() as int, f as int));
                    assert(!dropped_before(out@, o0.len() as int, f as int));
                    assert(!dropped_before(out@, o0.len() as int, n as int));
                    assert(is_edge(gg, f as int, n as int));
                    assert(slim_step_ok(gg, out@, o0.len() as int));
                    let ps0 = ps;
                    vstd::set::axiom_set_insert_len(ps0[f as int], n as isize);
                    vstd::set::axiom_set_insert_len(ps0[n as int], f as isize);
                    ps = ps.update(f as int, ps[f as int].insert(n as isize));
                    ps = ps.update(n as int, ps[n as int].insert(f as isize));
                    assert(ps[f as int].len() == ps0[f as int].len() + 1);
                    assert(ps[n as int].len() == ps0[n as int].len() + 1);
                    assert forall|v: int, w: isize| 0 <= v < gg.len() implies ((#[trigger] ps[v].contains(w)) <==> (
                        gg[v].contains(w) && listed_before(out@, out@.len() as int, v, w as int))) by {
                        assert(listed_before(out@, out@.len() as int, v, w as int) == (listed_before(o0, o0.len() as int, v, w as int) || joins(e, v, w as int)));
                        if v == f as int {
                        } else if v == n as int {
                        } else {
                            assert(ps[v] == ps0[v]);
                        }
                    }
                }
                let ghost s1 = out@;
                let lf = left[f] - 1;
                left.set(f, lf);
                if lf == 0 {
                    let ghost o1 = out@;
                    out.push(Visit::Drop(f));
                    proof {
                        lemma_push_slim(o1, Visit::Drop(f));
                        lemma_prefix_slim(gg, o1, out@);
                        lemma_prefix(gg, o1, out@);
                        assert(reached_before(o1, o1.len() as int, f as int));
                        lemma_partners(gg, ps, o1, f as int);
                        assert(reaches(o1[o0.len() as int], n as int));
                        assert(reached_before(o0, o0.len() as int, f as int));
                        lemma_prefix(gg, o0, o1);
                        assert(slim_step_ok(gg, out@, o1.len() as int));
                        assert forall|v: int, w: isize| 0 <= v < gg.len() implies ((#[trigger] ps[v].contains(w)) <==> (
                            gg[v].contains(w) && listed_before(out@, out@.len() as int, v, w as int))) by {
                            assert(listed_before(out@, out@.len() as int, v, w as int) == listed_before(o1, o1.len() as int, v, w as int));
                        }
                    }
                }
                let ghost s2 = out@;
                let ln = left[n] - 1;
                left.set(n, ln);
                if ln == 0 {
                    let ghost o2 = out@;
                    out.push(Visit::Drop(n));
                    proof {
                        lemma_push_slim(o2, Visit::Drop(n));
                        lemma_prefix_slim(gg, o2, out@);
                        lemma_prefix(gg, o2, out@);
                        lemma_partners(gg, ps, o2, n as int);
                        assert(reaches(o2[o0.len() as int], n as int));
                        assert(!dropped_before(o2, o2.len() as int, n as int)) by {
                            lemma_prefix_slim(gg, o0, o2);
                            if o2.len() > o0.len() + 1 {
                                lemma_push_slim(o0.push(e), Visit::Drop(f));
                                assert(o2 == o0.push(e).push(Visit::Drop(f)));
                            }
                        }
                        assert(slim_step_ok(gg, out@, o2.len() as int));
                        assert forall|v: int, w: isize| 0 <= v < gg.len() implies ((#[trigger] ps[v].contains(w)) <==> (
                            gg[v].contains(w) && listed_before(out@, out@.len() as int, v, w as int))) by {
                            assert(listed_before(out@, out@.len() as int, v, w as int) == listed_before(o2, o2.len() as int, v, w as int));
                        }
                    }
                }
                proof {
                    lemma_prefix_slim(gg, o0, out@);
                    lemma_prefix_slim(gg, s1, out@);
                    lemma_prefix_slim(gg, s2, out@);
                    assert forall|k: int| 0 <= k < out@.len() implies #[trigger] slim_step_ok(gg, out@, k) by {
                        if k < o0.len() {
                            assert(slim_step_ok(gg, o0, k));
                        } else if k == o0.len() {
                            assert(slim_step_ok(gg, s1, k));
                        } else if k == s1.len() && lf == 0 {
                            assert(slim_step_ok(gg, s2, k));
                        } else {
                            assert(ln == 0 && k == s2.len());
                            assert(slim_step_ok(gg, out@, s2.len() as int));
                        }
                    }
                    assert forall|v: int| 0 <= v < gg.len() implies #[trigger] left@[v] + ps[v].len() == gg[v].len() && ps[v].finite() by {
                        if v == f as int || v == n as int {
                        }
                    }
                    lemma_push_slim(o0, e);
                    if lf == 0 {
                        lemma_push_slim(o0.push(e), Visit::Drop(f));
                    }
                    if ln == 0 {
                        if lf == 0 {
                            lemma_push_slim(o0.push(e).push(Visit::Drop(f)), Visit::Drop(n));
                        } else {
                            lemma_push_slim(o0.push(e), Visit::Drop(n));
                        }
                    }
                }
            },
            _ => {
                let ghost o0 = out@;
                out.push(e);
                proof {
                    lemma_push_slim(o0, e);
                    lemma_prefix_slim(gg, o0, out@);
                    lemma_prefix(gg, o0, out@);
                    if let Visit::Root(r) = e {
                        assert(!reached_before(o0, o0.len() as int, r as int));
                        assert(!reached_before(out@, o0.len() as int, r as int));
                    }
                    assert forall|k: int| 0 <= k < out@.len() implies #[trigger] slim_step_ok(gg, out@, k) by {
                        if k < o0.len() {
                            assert(slim_step_ok(gg, o0, k));
                        }
                    }
                    assert forall|v: int, w: isize| 0 <= v < gg.len() implies ((#[trigger] ps[v].contains(w)) <==> (
                        gg[v].contains(w) && listed_before(out@, out@.len() as int, v, w as int))) by {
                        assert(listed_before(out@, out@.len() as int, v, w as int) == listed_before(o0, o0.len() as int, v, w as int));
                    }
                }
            },
        }
        proof {
            lemma_push_slim(plan@.take(i as int), e);
        }
    }
    proof {
        assert(plan@.take(plan@.len() as int) =~= plan@);
        assert forall|v: int| 0 <= v < gg.len() && gg[v].len() > 0 implies dropped_before(out@, out@.len() as int, v) by {
            lemma_partners(gg, ps, out@, v);
            assert(ps[v].len() == gg[v].len()) by {
                assert forall|w: isize| gg[v].contains(w) implies ps[v].contains(w) by {
                    let j = choose|j: int| 0 <= j < gg[v].len() && gg[v][j] == w;
                    assert(listed(plan@, v, gg[v][j] as int));
                    let k = choose|k: int| 0 <= k < plan@.len() && #[trigger] joins(plan@[k], v, gg[v][j] as int);
                    assert(listed_before(plan@, plan@.len() as int, v, w as int));
                }
                assert(ps[v] =~= gg[v].to_set());
                gg[v].unique_seq_to_set();
            }
        }
    }
    out
}

impl<P> VineyardsGridMesh<P> {
    /// The order in which the slim vineyards runs across the grid: each component from its
    /// first vertex that has a neighbour, then breadth first along every edge, and the state of
    /// a vertex dropped as soon as every edge at it has been stepped along.  The grid must be a
    /// simple graph: with a repeated edge the count of edges left at a vertex would run out.
    pub fn run_vineyards_slim(&self) -> (ev: Vec<Visit>)
        requires
            simple(lists(self.neighbors@)),
            self.neighbors.len() <= isize::MAX,
        ensures
            self.points.len() == 0 ==> ev@.len() == 0,
            self.points.len() > 0 ==> slim_plan(lists(self.neighbors@), ev@),
            self.points.len() > 0 ==> ev@ == with_drops(lists(self.neighbors@), plan_spec(lists(self.neighbors@), true)).1,
    {
        if self.points.len() == 0 {
            return Vec::new();
        }
        let p = plan(&self.neighbors, true);
        insert_drops(&self.neighbors, &p)
    }
}

impl<P> VineyardsGridMesh<P> {
    /// The order in which vineyards runs across the grid: each component from its first vertex
    /// that has a neighbour, then depth first along every edge.  An empty grid has no plan.
    pub fn run_vineyards(&self) -> (ev: Vec<Visit>)
        requires
            ids_ok(lists(self.neighbors@)),
            self.neighbors.len() <= isize::MAX,
        ensures
            self.points.len() == 0 ==> ev@.len() == 0,
            self.points.len() > 0 ==> complete_plan(lists(self.neighbors@), ev@),
            self.points.len() > 0 ==> ev@ == plan_spec(lists(self.neighbors@), false),
    {
        if self.points.len() == 0 {
            return Vec::new();
        }
        plan(&self.neighbors, false)
    }
}

} // verus!
