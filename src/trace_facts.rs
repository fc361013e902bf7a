//! Consequences of the tracer's contracts for particular graphs and origins.

use vstd::prelude::*;
use crate::dag_tracer::{is_identity_row, DagTracer, TraceRow};
use crate::graph::{is_path_between, is_walk, reaches, step};
use crate::walks::{chain_link, chain_nodes, exact_paths, is_edge_chain, path_nodes};

verus! {

/// Tracing a single origin that names no node yields exactly its identity row,
/// whose single empty path gives it the factor one in each of the four shares.
pub proof fn lemma_unknown_origin_traces_to_itself(
    t: DagTracer,
    o: Seq<char>,
    blocks: Seq<Seq<TraceRow>>,
    rows: Seq<TraceRow>,
)
    requires
        t.wf(),
        !t.node_ids().contains(o),
        blocks.len() == 1,
        rows == blocks.flatten(),
        t.origin_block(o, blocks[0]),
    ensures
        rows.len() == 1,
        is_identity_row(rows[0], o),
{
    reveal_with_fuel(Seq::flatten, 2);
    assert(blocks.drop_first() =~= Seq::<Seq<TraceRow>>::empty());
    assert(rows =~= blocks[0]);
}

/// A node that no edge touches reaches nothing, in either direction.
pub proof fn lemma_isolated_reaches_nothing(
    edges: Seq<(usize, usize)>,
    oi: usize,
    v: usize,
    forward: bool,
)
    requires
        forall|e: int| 0 <= e < edges.len() ==> (#[trigger] edges[e]).0 != oi && edges[e].1 != oi,
    ensures
        !reaches(edges, oi, v, forward),
{
    if reaches(edges, oi, v, forward) {
        let p = choose|p: Seq<usize>|
            #[trigger] is_walk(edges, p, forward) && p.len() >= 2 && p[0] == oi && p.last() == v;
        assert(step(edges, p[0], p[0int + 1], forward));
    }
}

/// Tracing a single origin whose node no edge touches yields exactly its
/// identity row.
pub proof fn lemma_isolated_origin_traces_to_itself(
    t: DagTracer,
    o: Seq<char>,
    oi: usize,
    blocks: Seq<Seq<TraceRow>>,
    rows: Seq<TraceRow>,
)
    requires
        t.wf(),
        oi < t.node_ids().len(),
        t.node_ids()[oi as int] == o,
        forall|e: int| 0 <= e < t.edges().len() ==> (#[trigger] t.edges()[e]).0 != oi && t.edges()[e].1 != oi,
        blocks.len() == 1,
        rows == blocks.flatten(),
        t.origin_block(o, blocks[0]),
    ensures
        rows.len() == 1,
        is_identity_row(rows[0], o),
{
    reveal_with_fuel(Seq::flatten, 2);
    assert(blocks.drop_first() =~= Seq::<Seq<TraceRow>>::empty());
    assert(rows =~= blocks[0]);
    let block = blocks[0];
    let nf = choose|nf: int| #[trigger] t.split_at(o, oi, block, nf);
    let fw = block.subrange(1, nf);
    let bw = block.subrange(nf, block.len() as int);
    let vf = choose|vs: Seq<usize>| #[trigger] t.traced_part_with(o, oi, fw, true, vs);
    let vb = choose|vs: Seq<usize>| #[trigger] t.traced_part_with(o, oi, bw, false, vs);
    if vf.len() > 0 {
        assert(vf.contains(vf[0]));
        lemma_isolated_reaches_nothing(t.edges(), oi, vf[0], true);
    }
    if vb.len() > 0 {
        assert(vb.contains(vb[0]));
        lemma_isolated_reaches_nothing(t.edges(), oi, vb[0], false);
    }
}

/// Path counting is additive: when exactly two simple paths join `s` to `t`,
/// the tracer reports exactly those two, so the pair's factor is the sum of
/// their two products.
pub proof fn lemma_two_paths_both_counted(
    edges: Seq<(usize, usize)>,
    s: usize,
    t: usize,
    ps: Seq<Seq<usize>>,
    q1: Seq<usize>,
    q2: Seq<usize>,
)
    requires
        exact_paths(edges, s, t, ps),
        is_path_between(edges, s, t, q1),
        is_path_between(edges, s, t, q2),
        q1 != q2,
        forall|q: Seq<usize>| is_path_between(edges, s, t, q) ==> q == q1 || q == q2,
    ensures
        ps.len() == 2,
        chain_nodes(edges, s, ps).contains(q1),
        chain_nodes(edges, s, ps).contains(q2),
{
    let l = chain_nodes(edges, s, ps);
    assert(l.contains(q1));
    assert(l.contains(q2));
    let i1 = choose|i: int| 0 <= i < l.len() && l[i] == q1;
    let i2 = choose|i: int| 0 <= i < l.len() && l[i] == q2;
    assert(i1 != i2);
    if l.len() > 2 {
        let k = if i1 != 0 && i2 != 0 {
            0
        } else if i1 != 1 && i2 != 1 {
            1
        } else {
            2
        };
        assert(l.contains(l[k]));
        assert(is_path_between(edges, s, t, l[k]));
    }
}

/// Along a chain `a -> b -> c` of two transfers, the only simple path from `a`
/// to `c` is the chain itself, so the pair's factor is the product of the two
/// transfers' factors.
pub proof fn lemma_chain_single_path(
    edges: Seq<(usize, usize)>,
    a: usize,
    b: usize,
    c: usize,
    ps: Seq<Seq<usize>>,
)
    requires
        a != b,
        b != c,
        a != c,
        edges == seq![(a, b), (b, c)],
        exact_paths(edges, a, c, ps),
    ensures
        ps == seq![seq![0usize, 1usize]],
{
    let abc = seq![a, b, c];
    assert(is_path_between(edges, a, c, abc)) by {
        assert(step(edges, a, b, true)) by {
            assert(edges[0] == (a, b));
        }
        assert(step(edges, b, c, true)) by {
            assert(edges[1] == (b, c));
        }
        assert forall|i: int| 0 <= i < abc.len() - 1 implies #[trigger] step(edges, abc[i], abc[i + 1], true) by {
            if i == 0 {
                assert(abc[i] == a && abc[i + 1] == b);
            } else {
                assert(abc[i] == b && abc[i + 1] == c);
            }
        }
    }
    assert forall|q: Seq<usize>| is_path_between(edges, a, c, q) implies q == abc by {
        assert(q.len() >= 2);
        assert(step(edges, q[0], q[0int + 1], true));
        let e0 = choose|e: int| 0 <= e < edges.len() && #[trigger] edges[e] == (q[0], q[1]);
        assert(e0 == 0);
        assert(q[1] == b);
        assert(q.len() >= 3);
        assert(step(edges, q[1], q[1int + 1], true));
        let e1 = choose|e: int| 0 <= e < edges.len() && #[trigger] edges[e] == (q[1], q[2]);
        assert(e1 == 1);
        assert(q[2] == c);
        if q.len() > 3 {
            assert(step(edges, q[2], q[2int + 1], true));
            let e2 = choose|e: int| 0 <= e < edges.len() && #[trigger] edges[e] == (q[2], q[3]);
        }
        assert(q =~= abc);
    }
    let l = chain_nodes(edges, a, ps);
    assert(l.contains(abc));
    if l.len() > 1 {
        assert(l.contains(l[0]));
        assert(l.contains(l[1]));
        assert(is_path_between(edges, a, c, l[0]));
        assert(is_path_between(edges, a, c, l[1]));
    }
    assert(l.len() == 1);
    assert(l[0] == abc);
    let p = ps[0];
    assert(path_nodes(edges, a, p) == abc);
    assert(p.len() == 2);
    assert(is_edge_chain(edges, a, p));
    assert(chain_link(edges, a, p, 0));
    assert(chain_link(edges, a, p, 1));
    assert(path_nodes(edges, a, p)[0] == a);
    assert(path_nodes(edges, a, p)[1] == b);
    assert(p[0] == 0);
    assert(p[1] == 1);
    assert(p =~= seq![0usize, 1usize]);
    assert(ps =~= seq![seq![0usize, 1usize]]);
}

} // verus!
