//! Facts about walks and simple paths that the tracer's searches rest on.

use vstd::prelude::*;
use crate::graph::{is_path_between, is_simple_path, is_walk, reaches, step};

verus! {

/// Number of `false` entries: what a depth-first search has left to visit.
pub open spec fn count_false(s: Seq<bool>) -> nat
    decreases s.len(),
{
    if s.len() == 0 {
        0
    } else {
        count_false(s.drop_last()) + if s.last() {
            0nat
        } else {
            1nat
        }
    }
}

/// Marking an unmarked entry lowers the count by one.
pub proof fn lemma_count_false_mark(s: Seq<bool>, i: int)
    requires
        0 <= i < s.len(),
        !s[i],
    ensures
        count_false(s.update(i, true)) + 1 == count_false(s),
    decreases s.len(),
{
    let t = s.update(i, true);
    if i == s.len() - 1 {
        assert(t.drop_last() =~= s.drop_last());
    } else {
        assert(t.drop_last() =~= s.drop_last().update(i, true));
        lemma_count_false_mark(s.drop_last(), i);
    }
}

/// One more step after a node that is the start or is reached from it.
pub proof fn lemma_reaches_extend(
    edges: Seq<(usize, usize)>,
    s: usize,
    x: usize,
    w: usize,
    outgoing: bool,
)
    requires
        x == s || reaches(edges, s, x, outgoing),
        step(edges, x, w, outgoing),
    ensures
        reaches(edges, s, w, outgoing),
{
    if x == s {
        let p = seq![s, w];
        assert(is_walk(edges, p, outgoing)) by {
            assert forall|i: int| 0 <= i < p.len() - 1 implies #[trigger] step(
                edges,
                p[i],
                p[i + 1],
                outgoing,
            ) by {
                assert(i == 0);
            }
        }
        assert(p.last() == w);
    } else {
        let p = choose|p: Seq<usize>|
            #[trigger] is_walk(edges, p, outgoing) && p.len() >= 2 && p[0] == s && p.last() == x;
        let q = p.push(w);
        assert(is_walk(edges, q, outgoing)) by {
            assert forall|i: int| 0 <= i < q.len() - 1 implies #[trigger] step(
                edges,
                q[i],
                q[i + 1],
                outgoing,
            ) by {
                if i < p.len() - 1 {
                    assert(step(edges, p[i], p[i + 1], outgoing));
                } else {
                    assert(q[i] == x);
                }
            }
        }
        assert(q.last() == w);
    }
}

proof fn lemma_walk_stays(
    edges: Seq<(usize, usize)>,
    n: usize,
    vis: Seq<bool>,
    p: Seq<usize>,
    outgoing: bool,
    k: int,
)
    requires
        vis.len() == n,
        is_walk(edges, p, outgoing),
        0 <= k < p.len(),
        p[0] < n,
        vis[p[0] as int],
        forall|u: usize, w: usize|
            u < n && vis[u as int] && #[trigger] step(edges, u, w, outgoing) ==> w < n && vis[w
                as int],
    ensures
        p[k] < n,
        vis[p[k] as int],
    decreases k,
{
    if k > 0 {
        lemma_walk_stays(edges, n, vis, p, outgoing, k - 1);
        assert(step(edges, p[k - 1], p[(k - 1) + 1], outgoing));
    }
}

/// A set of marked nodes that holds `s` and is closed under steps holds every
/// node that `s` reaches.
pub proof fn lemma_closed_holds_reached(
    edges: Seq<(usize, usize)>,
    n: usize,
    vis: Seq<bool>,
    s: usize,
    t: usize,
    outgoing: bool,
)
    requires
        vis.len() == n,
        s < n,
        vis[s as int],
        forall|u: usize, w: usize|
            u < n && vis[u as int] && #[trigger] step(edges, u, w, outgoing) ==> w < n && vis[w
                as int],
        reaches(edges, s, t, outgoing),
    ensures
        t < n,
        vis[t as int],
{
    let p = choose|p: Seq<usize>|
        #[trigger] is_walk(edges, p, outgoing) && p.len() >= 2 && p[0] == s && p.last() == t;
    lemma_walk_stays(edges, n, vis, p, outgoing, p.len() - 1);
}

/// Pushing keeps every element that was there and adds the new one.
pub proof fn lemma_push_contains<A>(s: Seq<A>, a: A)
    ensures
        s.push(a).contains(a),
        forall|y: A| s.contains(y) ==> #[trigger] s.push(a).contains(y),
{
    assert(s.push(a)[s.len() as int] == a);
    assert forall|y: A| s.contains(y) implies #[trigger] s.push(a).contains(y) by {
        let i = choose|i: int| 0 <= i < s.len() && s[i] == y;
        assert(s.push(a)[i] == y);
    }
}

/// Dropping the last element keeps every other element.
pub proof fn lemma_pop_contains<A>(s: Seq<A>, y: A)
    requires
        s.len() > 0,
        s.contains(y),
        y != s.last(),
    ensures
        s.drop_last().contains(y),
{
    let i = choose|i: int| 0 <= i < s.len() && s[i] == y;
    assert(s.drop_last()[i] == y);
}


/// `q` starts with `p`.
pub open spec fn extends(p: Seq<usize>, q: Seq<usize>) -> bool {
    p.len() <= q.len() && q.subrange(0, p.len() as int) == p
}

/// The views of a sequence of vectors.
pub open spec fn views(s: Seq<Vec<usize>>) -> Seq<Seq<usize>> {
    s.map_values(|v: Vec<usize>| v@)
}

/// `l` lists, each once, every simple path that starts with `prefix` and ends
/// at `target`.
pub open spec fn lists_paths(
    l: Seq<Seq<usize>>,
    edges: Seq<(usize, usize)>,
    prefix: Seq<usize>,
    target: usize,
) -> bool {
    &&& l.no_duplicates()
    &&& forall|q: Seq<usize>|
        #[trigger] l.contains(q) <==> (is_simple_path(edges, q) && q.last() == target && extends(
            prefix,
            q,
        ))
}

/// A simple path that extends a prefix already ending at its own last node is
/// that prefix.
pub proof fn lemma_path_at_target(edges: Seq<(usize, usize)>, pc: Seq<usize>, q: Seq<usize>)
    requires
        pc.len() >= 1,
        is_simple_path(edges, q),
        q.last() == pc.last(),
        extends(pc, q),
    ensures
        q == pc,
{
    if q.len() > pc.len() {
        assert(q[pc.len() - 1] == pc[pc.len() - 1]);
        assert(q[pc.len() - 1] == q[q.len() - 1]);
    }
    assert(q =~= pc);
}

/// The node after a prefix on a longer simple path is a fresh successor of the
/// prefix's last node.
pub proof fn lemma_path_next(edges: Seq<(usize, usize)>, pc: Seq<usize>, q: Seq<usize>)
    requires
        pc.len() >= 1,
        is_simple_path(edges, q),
        extends(pc, q),
        q.len() > pc.len(),
    ensures
        step(edges, pc.last(), q[pc.len() as int], true),
        !pc.contains(q[pc.len() as int]),
        extends(pc.push(q[pc.len() as int]), q),
{
    let k = pc.len() as int;
    assert(q[k - 1] == pc[k - 1]);
    assert(step(edges, q[k - 1], q[(k - 1) + 1], true));
    if pc.contains(q[k]) {
        let i = choose|i: int| 0 <= i < pc.len() && pc[i] == q[k];
        assert(q[i] == pc[i]);
    }
    assert(q.subrange(0, k + 1) =~= pc.push(q[k]));
}

/// Membership in a concatenation.
pub proof fn lemma_concat_contains<A>(a: Seq<A>, b: Seq<A>)
    ensures
        forall|y: A| #[trigger] (a + b).contains(y) <==> (a.contains(y) || b.contains(y)),
{
    assert forall|y: A| #[trigger] (a + b).contains(y) <==> (a.contains(y) || b.contains(y)) by {
        if a.contains(y) {
            let i = choose|i: int| 0 <= i < a.len() && a[i] == y;
            assert((a + b)[i] == y);
        }
        if b.contains(y) {
            let i = choose|i: int| 0 <= i < b.len() && b[i] == y;
            assert((a + b)[a.len() + i] == y);
        }
        if (a + b).contains(y) {
            let i = choose|i: int| 0 <= i < (a + b).len() && (a + b)[i] == y;
            if i < a.len() {
                assert(a[i] == y);
            } else {
                assert(b[i - a.len()] == y);
            }
        }
    }
}

} // verus!

verus! {

/// The nodes that a sequence of edges visits when it starts at `s`.
pub open spec fn path_nodes(edges: Seq<(usize, usize)>, s: usize, es: Seq<usize>) -> Seq<usize> {
    seq![s] + es.map_values(|e: usize| edges[e as int].1)
}

/// Each edge of `es` leaves the node that the previous one entered, the first
/// one leaving `s`.
pub open spec fn is_edge_chain(edges: Seq<(usize, usize)>, s: usize, es: Seq<usize>) -> bool {
    forall|i: int| 0 <= i < es.len() ==> #[trigger] chain_link(edges, s, es, i)
}

/// The `i`-th edge of `es` exists and leaves the `i`-th node of the walk.
pub open spec fn chain_link(edges: Seq<(usize, usize)>, s: usize, es: Seq<usize>, i: int) -> bool {
    es[i] < edges.len() && edges[es[i] as int].0 == path_nodes(edges, s, es)[i]
}

/// The node sequences of a list of edge chains from `s`.
pub open spec fn chain_nodes(edges: Seq<(usize, usize)>, s: usize, ps: Seq<Seq<usize>>) -> Seq<
    Seq<usize>,
> {
    ps.map_values(|es: Seq<usize>| path_nodes(edges, s, es))
}

/// `ps` holds, as edge chains, every simple path from `s` to `t`, each once.
pub open spec fn exact_paths(
    edges: Seq<(usize, usize)>,
    s: usize,
    t: usize,
    ps: Seq<Seq<usize>>,
) -> bool {
    &&& forall|i: int| 0 <= i < ps.len() ==> is_edge_chain(edges, s, #[trigger] ps[i])
    &&& chain_nodes(edges, s, ps).no_duplicates()
    &&& forall|q: Seq<usize>|
        #[trigger] chain_nodes(edges, s, ps).contains(q) <==> is_path_between(edges, s, t, q)
}

/// A copy of a sequence of indices.
pub fn copy_indices(v: &Vec<usize>) -> (r: Vec<usize>)
    ensures
        r@ == v@,
{
    let mut r: Vec<usize> = Vec::new();
    let mut i: usize = 0;
    while i < v.len()
        invariant
            i <= v@.len(),
            r@ == v@.subrange(0, i as int),
        decreases v@.len() - i,
    {
        r.push(v[i]);
        i += 1;
        proof {
            assert(r@ =~= v@.subrange(0, i as int));
        }
    }
    proof {
        assert(r@ =~= v@);
    }
    r
}

} // verus!
