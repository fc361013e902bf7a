//! Building the graph from transfer records and tracing origins through it.

use vstd::prelude::*;
use crate::error::SdtError;
use crate::graph::{
    edges_of, edges_within, graph_add_edge, graph_add_node, graph_find_edge, graph_neighbors,
    graph_new, is_path_between, is_simple_path, node_count_of, reaches, step, TransferGraph,
};
use crate::text::{id_views, position_of};
use crate::walks::{
    chain_link, chain_nodes, copy_indices, count_false, exact_paths, extends, is_edge_chain,
    lemma_closed_holds_reached, lemma_concat_contains, lemma_count_false_mark,
    lemma_path_at_target, lemma_path_next, lemma_pop_contains, lemma_push_contains,
    lemma_reaches_extend, lists_paths, path_nodes, views,
};

verus! {

/// Which way a traced entity relates to its origin.
#[derive(Clone, Copy, Debug, PartialEq, Eq, Structural)]
pub enum Direction {
    /// The origin itself.
    Identity,
    /// A descendant: material flowed from the origin to it.
    Forward,
    /// An ancestor: material flowed from it to the origin.
    Backward,
}

/// The endpoints of one transfer record. `None` stands for a null id. The
/// record's four share factors stay with the caller: every path that the
/// tracer reports names transfer records by their index.
#[derive(Clone, Debug)]
pub struct TransferRecord {
    pub source_id: Option<String>,
    pub dest_id: Option<String>,
}

/// One row of a trace: an origin, an entity traced from it, the direction,
/// and every simple path between the two as a sequence of transfer record
/// indices. A row's factor is the sum over its paths of the product of the
/// factors of their transfers; the identity row holds the single empty path.
#[derive(Clone, Debug)]
pub struct TraceRow {
    pub origin_id: String,
    pub traced_id: String,
    pub direction: Direction,
    pub paths: Vec<Vec<usize>>,
}

/// `ids` with `id` added at the end unless it is already there.
pub open spec fn intern(ids: Seq<Seq<char>>, id: Seq<char>) -> Seq<Seq<char>> {
    if ids.contains(id) {
        ids
    } else {
        ids.push(id)
    }
}

/// Every record has both ids.
pub open spec fn records_complete(rows: Seq<TransferRecord>) -> bool {
    forall|k: int| 0 <= k < rows.len() ==> (#[trigger] rows[k]).source_id.is_some() && rows[k].dest_id.is_some()
}

/// The node ids after the first `k` records, in order of first sighting.
pub open spec fn ids_after(rows: Seq<TransferRecord>, k: nat) -> Seq<Seq<char>>
    decreases k,
{
    if k == 0 || k > rows.len() {
        Seq::empty()
    } else {
        let r = rows[k - 1];
        intern(intern(ids_after(rows, (k - 1) as nat), r.source_id.unwrap()@), r.dest_id.unwrap()@)
    }
}

/// The identity row of origin `o`: itself, with the single empty path.
pub open spec fn is_identity_row(row: TraceRow, o: Seq<char>) -> bool {
    &&& row.origin_id@ == o
    &&& row.traced_id@ == o
    &&& row.direction == Direction::Identity
    &&& views(row.paths@) == seq![Seq::<usize>::empty()]
}

/// The node of `id`, added to `graph` and `ids` on first sighting.
fn intern_node(graph: &mut TransferGraph, ids: &mut Vec<String>, id: &String) -> (r: usize)
    requires
        node_count_of(*old(graph)) == old(ids)@.len(),
        old(ids)@.len() < usize::MAX,
        id_views(old(ids)@).no_duplicates(),
    ensures
        id_views(final(ids)@) == intern(id_views(old(ids)@), id@),
        node_count_of(*final(graph)) == final(ids)@.len(),
        edges_of(*final(graph)) == edges_of(*old(graph)),
        id_views(final(ids)@).no_duplicates(),
        r < final(ids)@.len(),
        id_views(final(ids)@)[r as int] == id@,
        final(ids)@.len() <= old(ids)@.len() + 1,
{
    match position_of(ids, id) {
        Some(i) => {
            proof {
                assert(id_views(ids@).contains(id@));
            }
            i
        },
        None => {
            let ghost v0 = id_views(ids@);
            let r = graph_add_node(graph);
            ids.push(id.clone());
            proof {
                assert(id_views(ids@) =~= v0.push(id@));
                assert(id_views(ids@)[r as int] == id@);
            }
            r
        },
    }
}

/// The tracer: the transfer multigraph and the entity id of each node.
pub struct DagTracer {
    graph: TransferGraph,
    ids: Vec<String>,
}

/// Whether `x` occurs among the first `end` entries of `v`.
fn prefix_has(v: &Vec<usize>, end: usize, x: usize) -> (r: bool)
    requires
        end <= v@.len(),
    ensures
        r == v@.subrange(0, end as int).contains(x),
{
    let mut i: usize = 0;
    while i < end
        invariant
            i <= end,
            end <= v@.len(),
            !v@.subrange(0, i as int).contains(x),
        decreases end - i,
    {
        if v[i] == x {
            proof {
                assert(v@.subrange(0, end as int)[i as int] == x);
            }
            return true;
        }
        i += 1;
        proof {
            assert(v@.subrange(0, i as int) =~= v@.subrange(0, i - 1).push(v@[i - 1]));
            lemma_push_contains(v@.subrange(0, i - 1), v@[i - 1]);
            if v@.subrange(0, i as int).contains(x) {
                let k = choose|k: int| 0 <= k < i && v@.subrange(0, i as int)[k] == x;
                assert(v@.subrange(0, i - 1)[k] == x);
            }
        }
    }
    false
}

impl DagTracer {
    /// The entity id of each node, by node index.
    pub closed spec fn node_ids(&self) -> Seq<Seq<char>> {
        id_views(self.ids@)
    }

    /// The edges, by edge index (the index of the transfer record), as
    /// (source node, destination node).
    pub closed spec fn edges(&self) -> Seq<(usize, usize)> {
        edges_of(self.graph)
    }

    /// The graph has one node per id.
    pub closed spec fn count_matches(&self) -> bool {
        node_count_of(self.graph) == self.ids@.len()
    }

    /// Well-formed: ids are unique and every edge joins two known nodes.
    pub open spec fn wf(&self) -> bool {
        &&& self.count_matches()
        &&& self.node_ids().no_duplicates()
        &&& edges_within(self.edges(), self.node_ids().len() as usize)
        &&& self.node_ids().len() < usize::MAX
    }

    /// `row` traces origin `o`, at node `oi`, to node `v`: forward to a
    /// descendant or backward to an ancestor, with every simple path between
    /// the two.
    pub open spec fn is_traced_row(&self, o: Seq<char>, oi: usize, v: usize, row: TraceRow, forward: bool) -> bool {
        &&& v < self.node_ids().len()
        &&& row.origin_id@ == o
        &&& row.traced_id@ == self.node_ids()[v as int]
        &&& row.direction == (if forward {
            Direction::Forward
        } else {
            Direction::Backward
        })
        &&& if forward {
            exact_paths(self.edges(), oi, v, views(row.paths@))
        } else {
            exact_paths(self.edges(), v, oi, views(row.paths@))
        }
    }

    /// `rows` trace origin `o`, at node `oi`, to the nodes `vs`, which are
    /// exactly the nodes other than `oi` reached in that direction, each once.
    pub open spec fn traced_part_with(
        &self,
        o: Seq<char>,
        oi: usize,
        rows: Seq<TraceRow>,
        forward: bool,
        vs: Seq<usize>,
    ) -> bool {
        &&& vs.len() == rows.len()
        &&& vs.no_duplicates()
        &&& forall|v: usize| vs.contains(v) <==> (v != oi && reaches(self.edges(), oi, v, forward))
        &&& forall|i: int| 0 <= i < rows.len() ==> self.is_traced_row(o, oi, vs[i], #[trigger] rows[i], forward)
    }

    /// `rows` hold one row for each node reached from `oi` in that direction.
    pub open spec fn traced_part(&self, o: Seq<char>, oi: usize, rows: Seq<TraceRow>, forward: bool) -> bool {
        exists|vs: Seq<usize>| #[trigger] self.traced_part_with(o, oi, rows, forward, vs)
    }

    /// After the identity row, the first `nf - 1` rows are the forward rows of
    /// `oi` and the rest its backward rows.
    pub open spec fn split_at(&self, o: Seq<char>, oi: usize, block: Seq<TraceRow>, nf: int) -> bool {
        &&& 1 <= nf <= block.len()
        &&& self.traced_part(o, oi, block.subrange(1, nf), true)
        &&& self.traced_part(o, oi, block.subrange(nf, block.len() as int), false)
    }

    /// The rows that tracing origin `o` yields: its identity row, then, when
    /// `o` names a node, one forward row per descendant and one backward row per
    /// ancestor.
    pub open spec fn origin_block(&self, o: Seq<char>, block: Seq<TraceRow>) -> bool {
        &&& block.len() >= 1
        &&& is_identity_row(block[0], o)
        &&& !self.node_ids().contains(o) ==> block.len() == 1
        &&& forall|oi: usize|
            oi < self.node_ids().len() && #[trigger] self.node_ids()[oi as int] == o ==> exists|nf: int|
                #[trigger] self.split_at(o, oi, block, nf)
    }

    /// Every node other than `start` that a walk of at least one step reaches,
    /// following edges forward (`outgoing`) or backward; each once.
    fn reachable(&self, start: usize, outgoing: bool) -> (r: Vec<usize>)
        requires
            self.wf(),
            start < self.node_ids().len(),
        ensures
            r@.no_duplicates(),
            forall|v: usize|
                r@.contains(v) <==> (v != start && reaches(self.edges(), start, v, outgoing)),
            forall|i: int| 0 <= i < r@.len() ==> #[trigger] r@[i] < self.node_ids().len(),
    {
        let ghost edges = self.edges();
        let n = self.ids.len();
        let mut visited: Vec<bool> = Vec::new();
        let mut k: usize = 0;
        while k < n
            invariant
                k <= n,
                visited@.len() == k,
                forall|i: int| 0 <= i < k ==> !visited@[i],
            decreases n - k,
        {
            visited.push(false);
            k += 1;
        }
        visited.set(start, true);
        let mut result: Vec<usize> = Vec::new();
        let mut stack = graph_neighbors(&self.graph, start, outgoing);
        proof {
            assert forall|i: int| 0 <= i < stack@.len() implies stack@[i] < n && reaches(
                edges,
                start,
                #[trigger] stack@[i],
                outgoing,
            ) by {
                assert(stack@.contains(stack@[i]));
                lemma_reaches_extend(edges, start, start, stack@[i], outgoing);
            }
        }
        while stack.len() > 0
            invariant
                self.wf(),
                edges == self.edges(),
                n == self.node_ids().len(),
                start < n,
                visited@.len() == n,
                visited@[start as int],
                forall|v: usize| v < n ==> (visited@[v as int] <==> (v == start || result@.contains(v))),
                result@.no_duplicates(),
                forall|v: usize|
                    result@.contains(v) ==> v != start && v < n && reaches(edges, start, v, outgoing),
                forall|i: int|
                    0 <= i < stack@.len() ==> stack@[i] < n && reaches(
                        edges,
                        start,
                        #[trigger] stack@[i],
                        outgoing,
                    ),
                forall|u: usize, w: usize|
                    u < n && visited@[u as int] && #[trigger] step(edges, u, w, outgoing) ==> (
                    visited@[w as int] || stack@.contains(w)),
            decreases count_false(visited@), stack@.len(),
        {
            let ghost before = stack@;
            let x = stack.pop().unwrap();
            proof {
                assert(stack@ == before.drop_last());
                assert(x == before[before.len() - 1]);
                assert(before[before.len() - 1] < n && reaches(
                    edges,
                    start,
                    before[before.len() - 1],
                    outgoing,
                ));
                assert forall|u: usize, w: usize|
                    u < n && visited@[u as int] && #[trigger] step(edges, u, w, outgoing) && w
                        != x implies (visited@[w as int] || stack@.contains(w)) by {
                    if !visited@[w as int] {
                        lemma_pop_contains(before, w);
                    }
                }
            }
            if visited[x] {
                continue;
            }
            let ghost vis0 = visited@;
            visited.set(x, true);
            proof {
                lemma_count_false_mark(vis0, x as int);
                assert(!result@.contains(x));
                lemma_push_contains(result@, x);
            }
            let ghost res0 = result@;
            result.push(x);
            proof {
                assert(res0 == result@.drop_last());
                assert forall|v: usize| v < n implies (visited@[v as int] <==> (v == start
                    || result@.contains(v))) by {
                    if v != x && result@.contains(v) {
                        let i = choose|i: int| 0 <= i < result@.len() && result@[i] == v;
                        assert(result@.drop_last()[i] == v);
                    }
                }
                assert forall|v: usize| result@.contains(v) implies v != start && v < n && reaches(
                    edges,
                    start,
                    v,
                    outgoing,
                ) by {
                    if v != x {
                        let i = choose|i: int| 0 <= i < result@.len() && result@[i] == v;
                        assert(res0[i] == v);
                        assert(res0.contains(v));
                    }
                }
            }
            let nbrs = graph_neighbors(&self.graph, x, outgoing);
            let ghost base = stack@;
            proof {
                assert forall|i: int| 0 <= i < nbrs@.len() implies #[trigger] nbrs@[i] < n by {
                    assert(nbrs@.contains(nbrs@[i]));
                    let e = choose|e: int|
                        0 <= e < edges.len() && #[trigger] edges[e] == (if outgoing {
                            (x, nbrs@[i])
                        } else {
                            (nbrs@[i], x)
                        });
                    assert(edges[e].0 < n && edges[e].1 < n);
                }
            }
            let mut j: usize = 0;
            while j < nbrs.len()
                invariant
                    self.wf(),
                    edges == self.edges(),
                    n == self.node_ids().len(),
                    start < n,
                    x < n,
                    reaches(edges, start, x, outgoing),
                    visited@.len() == n,
                    visited@[x as int],
                    forall|w: usize| nbrs@.contains(w) <==> step(edges, x, w, outgoing),
                    j <= nbrs@.len(),
                    forall|i: int|
                        0 <= i < stack@.len() ==> stack@[i] < n && reaches(
                            edges,
                            start,
                            #[trigger] stack@[i],
                            outgoing,
                        ),
                    forall|y: usize| base.contains(y) ==> stack@.contains(y),
                    forall|i: int| 0 <= i < nbrs@.len() ==> #[trigger] nbrs@[i] < n,
                    forall|i: int|
                        0 <= i < j ==> visited@[nbrs@[i] as int] || stack@.contains(
                            #[trigger] nbrs@[i],
                        ),
                decreases nbrs@.len() - j,
            {
                let w = nbrs[j];
                proof {
                    assert(nbrs@.contains(w));
                    let e = choose|e: int|
                        0 <= e < edges.len() && #[trigger] edges[e] == (if outgoing {
                            (x, w)
                        } else {
                            (w, x)
                        });
                    assert(edges[e].0 < n && edges[e].1 < n);
                }
                if !visited[w] {
                    proof {
                        lemma_push_contains(stack@, w);
                        lemma_reaches_extend(edges, start, x, w, outgoing);
                    }
                    stack.push(w);
                }
                j += 1;
            }
            proof {
                assert forall|u: usize, w: usize|
                    u < n && visited@[u as int] && #[trigger] step(edges, u, w, outgoing) implies (
                    visited@[w as int] || stack@.contains(w)) by {
                    if u == x {
                        assert(nbrs@.contains(w));
                        let i = choose|i: int| 0 <= i < nbrs@.len() && nbrs@[i] == w;
                        assert(visited@[nbrs@[i] as int] || stack@.contains(nbrs@[i]));
                    } else if w != x && !visited@[w as int] {
                        assert(vis0[u as int]);
                        assert(base.contains(w));
                    }
                }
            }
        }
        proof {
            assert forall|v: usize|
                v != start && reaches(edges, start, v, outgoing) implies result@.contains(v) by {
                lemma_closed_holds_reached(edges, n, visited@, start, v, outgoing);
            }
            assert forall|i: int| 0 <= i < result@.len() implies #[trigger] result@[i] < n by {
                assert(result@.contains(result@[i]));
            }
        }
        result
    }

    /// Appends to `out` every simple path that starts with `path` followed by
    /// `current` and ends at `target`, each once. `on_path` marks the nodes of
    /// `path`; both are restored on return.
    fn enumerate_paths(
        &self,
        current: usize,
        target: usize,
        path: &mut Vec<usize>,
        on_path: &mut Vec<bool>,
        out: &mut Vec<Vec<usize>>,
        Ghost(rank): Ghost<nat>,
    )
        requires
            rank == count_false(old(on_path)@),
            self.wf(),
            current < self.node_ids().len(),
            old(on_path)@.len() == self.node_ids().len(),
            forall|v: usize|
                v < self.node_ids().len() ==> (old(on_path)@[v as int] <==> old(path)@.contains(v)),
            !old(on_path)@[current as int],
            is_simple_path(self.edges(), old(path)@.push(current)),
        ensures
            final(path)@ == old(path)@,
            final(on_path)@ == old(on_path)@,
            old(out)@.len() <= final(out)@.len(),
            final(out)@.subrange(0, old(out)@.len() as int) == old(out)@,
            lists_paths(
                views(final(out)@).subrange(old(out)@.len() as int, final(out)@.len() as int),
                self.edges(),
                old(path)@.push(current),
                target,
            ),
        decreases rank,
    {
        let ghost edges = self.edges();
        let ghost n = self.node_ids().len();
        let ghost pc = old(path)@.push(current);
        let ghost start_len = old(out)@.len() as int;
        let ghost on0 = old(on_path)@;
        path.push(current);
        on_path.set(current, true);
        proof {
            lemma_count_false_mark(on0, current as int);
            lemma_push_contains(old(path)@, current);
            assert forall|v: usize| v < n implies (on_path@[v as int] <==> pc.contains(v)) by {
                if v != current && pc.contains(v) {
                    let i = choose|i: int| 0 <= i < pc.len() && pc[i] == v;
                    assert(old(path)@[i] == v);
                }
            }
        }
        if current == target {
            let p = copy_indices(path);
            out.push(p);
            proof {
                let seg = views(out@).subrange(start_len, out@.len() as int);
                assert(seg =~= seq![pc]);
                assert forall|q: Seq<usize>|
                    #[trigger] seg.contains(q) <==> (is_simple_path(edges, q) && q.last() == target
                        && extends(pc, q)) by {
                    if seg.contains(q) {
                        assert(seg[0] == q);
                        assert(pc.subrange(0, pc.len() as int) =~= pc);
                    }
                    if is_simple_path(edges, q) && q.last() == target && extends(pc, q) {
                        lemma_path_at_target(edges, pc, q);
                        assert(seg[0] == q);
                    }
                }
                assert(out@.subrange(0, start_len) =~= old(out)@);
            }
        } else {
            let nbrs = graph_neighbors(&self.graph, current, true);
            let mut j: usize = 0;
            proof {
                assert(views(out@).subrange(start_len, out@.len() as int) =~= Seq::<Seq<usize>>::empty());
                assert(out@.subrange(0, start_len) =~= old(out)@);
            }
            while j < nbrs.len()
                invariant
                    self.wf(),
                    edges == self.edges(),
                    n == self.node_ids().len(),
                    current < n,
                    current != target,
                    pc == old(path)@.push(current),
                    is_simple_path(edges, pc),
                    path@ == pc,
                    on0.len() == n,
                    on_path@ == on0.update(current as int, true),
                    on_path@.len() == n,
                    count_false(on_path@) < count_false(on0),
                    forall|v: usize| v < n ==> (on_path@[v as int] <==> pc.contains(v)),
                    forall|w: usize| nbrs@.contains(w) <==> step(edges, current, w, true),
                    j <= nbrs@.len(),
                    rank == count_false(on0),
                    start_len == old(out)@.len(),
                    start_len <= out@.len(),
                    out@.subrange(0, start_len) == old(out)@,
                    views(out@).subrange(start_len, out@.len() as int).no_duplicates(),
                    forall|q: Seq<usize>|
                        #[trigger] views(out@).subrange(start_len, out@.len() as int).contains(q)
                            ==> (is_simple_path(edges, q) && q.last() == target && extends(pc, q)
                            && q.len() > pc.len() && nbrs@.subrange(0, j as int).contains(
                            q[pc.len() as int],
                        )),
                    forall|q: Seq<usize>|
                        (is_simple_path(edges, q) && q.last() == target && extends(pc, q) && q.len()
                            > pc.len() && #[trigger] nbrs@.subrange(0, j as int).contains(
                            q[pc.len() as int],
                        )) ==> views(out@).subrange(start_len, out@.len() as int).contains(q),
                decreases nbrs@.len() - j,
            {
                let w = nbrs[j];
                let ghost seg0 = views(out@).subrange(start_len, out@.len() as int);
                let ghost out0 = out@;
                proof {
                    assert(nbrs@.contains(w));
                    let e = choose|e: int| 0 <= e < edges.len() && #[trigger] edges[e] == (current, w);
                    assert(edges[e].0 < n && edges[e].1 < n);
                    assert(nbrs@.subrange(0, j + 1) =~= nbrs@.subrange(0, j as int).push(w));
                    lemma_push_contains(nbrs@.subrange(0, j as int), w);
                }
                let seen = prefix_has(&nbrs, j, w);
                if !on_path[w] && !seen {
                    proof {
                        lemma_push_contains(pc, w);
                        assert(!pc.contains(w));
                        let pw = pc.push(w);
                        assert(is_simple_path(edges, pw)) by {
                            assert forall|i: int| 0 <= i < pw.len() - 1 implies #[trigger] step(
                                edges,
                                pw[i],
                                pw[i + 1],
                                true,
                            ) by {
                                if i < pc.len() - 1 {
                                    assert(step(edges, pc[i], pc[i + 1], true));
                                } else {
                                    assert(pw[i] == current);
                                }
                            }
                            assert forall|a: int, b: int|
                                0 <= a < pw.len() && 0 <= b < pw.len() && a != b implies pw[a]
                                != pw[b] by {
                                if a < pc.len() && b < pc.len() {
                                } else if a < pc.len() {
                                    assert(pc[a] == pw[a]);
                                } else if b < pc.len() {
                                    assert(pc[b] == pw[b]);
                                }
                            }
                        }
                    }
                    self.enumerate_paths(w, target, path, on_path, out, Ghost(count_false(on_path@)));
                    proof {
                        let pw = pc.push(w);
                        let l = views(out@).subrange(out0.len() as int, out@.len() as int);
                        let seg = views(out@).subrange(start_len, out@.len() as int);
                        assert(out@.subrange(0, out0.len() as int) == out0);
                        assert(views(out0).len() == out0.len());
                        assert(views(out@).len() == out@.len());
                        assert(seg0.len() == out0.len() - start_len);
                        assert(seg =~= seg0 + l) by {
                            assert forall|i: int| 0 <= i < seg0.len() implies seg0[i] == seg[i] by {
                                assert(start_len + i < out0.len());
                                assert(out0[start_len + i] == out@.subrange(0, out0.len() as int)[start_len + i]);
                                assert(out@[start_len + i] == out0[start_len + i]);
                                assert(seg[i] == out@[start_len + i]@);
                                assert(seg0[i] == out0[start_len + i]@);
                            }
                            assert(seg.len() == seg0.len() + l.len());
                            assert forall|i: int| 0 <= i < l.len() implies l[i] == seg[seg0.len() + i] by {
                            }
                        }
                        assert forall|a: int, b: int|
                            0 <= a < seg0.len() && 0 <= b < l.len() implies seg0[a] != l[b] by {
                            assert(seg0.contains(seg0[a]));
                            assert(l.contains(l[b]));
                            assert(l[b].subrange(0, pw.len() as int) == pw);
                            assert(l[b][pc.len() as int] == pw[pc.len() as int]);
                        }
                        vstd::seq_lib::lemma_no_dup_in_concat(seg0, l);
                        lemma_concat_contains(seg0, l);
                        assert forall|q: Seq<usize>| #[trigger] seg.contains(q) implies (
                            is_simple_path(edges, q) && q.last() == target && extends(pc, q)
                            && q.len() > pc.len() && nbrs@.subrange(0, j + 1).contains(
                            q[pc.len() as int],
                        )) by {
                            if l.contains(q) {
                                assert(q.subrange(0, pw.len() as int) == pw);
                                assert(q[pc.len() as int] == pw[pc.len() as int]);
                                assert(q.subrange(0, pc.len() as int) =~= pc);
                            } else {
                                assert(seg0.contains(q));
                            }
                        }
                        assert forall|q: Seq<usize>|
                            (is_simple_path(edges, q) && q.last() == target && extends(pc, q)
                                && q.len() > pc.len() && #[trigger] nbrs@.subrange(
                                0,
                                j + 1,
                            ).contains(q[pc.len() as int])) implies seg.contains(q) by {
                            if nbrs@.subrange(0, j as int).contains(q[pc.len() as int]) {
                                assert(seg0.contains(q));
                            } else {
                                lemma_path_next(edges, pc, q);
                                assert(l.contains(q));
                            }
                        }
                        assert(out@.subrange(0, start_len) =~= old(out)@) by {
                            assert forall|i: int| 0 <= i < start_len implies out@[i] == old(out)@[i] by {
                                assert(out@.subrange(0, out0.len() as int)[i] == out0[i]);
                                assert(out0.subrange(0, start_len)[i] == out0[i]);
                            }
                        }
                    }
                } else {
                    proof {
                        assert forall|q: Seq<usize>|
                            (is_simple_path(edges, q) && q.last() == target && extends(pc, q)
                                && q.len() > pc.len() && #[trigger] nbrs@.subrange(
                                0,
                                j + 1,
                            ).contains(q[pc.len() as int])) implies seg0.contains(q) by {
                            if !nbrs@.subrange(0, j as int).contains(q[pc.len() as int]) {
                                lemma_path_next(edges, pc, q);
                                assert(q[pc.len() as int] == w);
                            }
                        }
                    }
                }
                j += 1;
            }
            proof {
                assert(nbrs@.subrange(0, nbrs@.len() as int) =~= nbrs@);
                let seg = views(out@).subrange(start_len, out@.len() as int);
                assert forall|q: Seq<usize>|
                    (is_simple_path(edges, q) && q.last() == target && extends(pc, q)) implies
                    #[trigger] seg.contains(q) by {
                    if q.len() <= pc.len() {
                        assert(q =~= pc);
                    } else {
                        lemma_path_next(edges, pc, q);
                        assert(nbrs@.contains(q[pc.len() as int]));
                    }
                }
            }
        }
        path.pop();
        on_path.set(current, false);
        proof {
            assert(path@ =~= old(path)@);
            assert(on_path@ =~= on0);
        }
    }

    /// The edges along a simple path, one connecting edge for each two
    /// consecutive nodes.
    fn edges_along(&self, q: &Vec<usize>) -> (es: Vec<usize>)
        requires
            self.wf(),
            is_simple_path(self.edges(), q@),
        ensures
            is_edge_chain(self.edges(), q@[0], es@),
            path_nodes(self.edges(), q@[0], es@) == q@,
    {
        let ghost edges = self.edges();
        let mut es: Vec<usize> = Vec::new();
        let mut i: usize = 0;
        proof {
            assert(path_nodes(edges, q@[0], es@) =~= q@.subrange(0, 1));
        }
        while i < q.len() - 1
            invariant
                edges == self.edges(),
                is_simple_path(edges, q@),
                i < q@.len(),
                es@.len() == i,
                is_edge_chain(edges, q@[0], es@),
                path_nodes(edges, q@[0], es@) == q@.subrange(0, i + 1),
            decreases q@.len() - i,
        {
            assert(step(edges, q@[i as int], q@[i + 1], true));
            match graph_find_edge(&self.graph, q[i], q[i + 1]) {
                Some(e) => {
                    let ghost es0 = es@;
                    let ghost pn0 = path_nodes(edges, q@[0], es0);
                    es.push(e);
                    proof {
                        assert(es0.map_values(|x: usize| edges[x as int].1).push(edges[e as int].1)
                            =~= es@.map_values(|x: usize| edges[x as int].1));
                        assert(path_nodes(edges, q@[0], es@) =~= q@.subrange(0, i + 2));
                        assert(is_edge_chain(edges, q@[0], es@)) by {
                            assert forall|k: int| 0 <= k < es@.len() implies #[trigger] chain_link(
                                edges,
                                q@[0],
                                es@,
                                k,
                            ) by {
                            assert(path_nodes(edges, q@[0], es@)[k] == q@[k]);
                            if k < es0.len() {
                                assert(es0[k] == es@[k]);
                                assert(pn0[k] == q@[k]);
                                assert(chain_link(edges, q@[0], es0, k));
                            } else {
                                assert(es@[k] == e);
                            }
                        }
                        }
                    }
                },
                None => {
                    proof {
                        assert(false);
                    }
                },
            }
            i += 1;
        }
        proof {
            assert(q@.subrange(0, i + 1) =~= q@);
        }
        es
    }

    /// Every simple path from `source` to `target`, each as the sequence of
    /// edges it takes (edge indices are transfer record indices).
    fn simple_paths(&self, source: usize, target: usize) -> (r: Vec<Vec<usize>>)
        requires
            self.wf(),
            source < self.node_ids().len(),
        ensures
            exact_paths(self.edges(), source, target, views(r@)),
    {
        let ghost edges = self.edges();
        let n = self.ids.len();
        let mut on_path: Vec<bool> = Vec::new();
        let mut k: usize = 0;
        while k < n
            invariant
                k <= n,
                on_path@.len() == k,
                forall|i: int| 0 <= i < k ==> !on_path@[i],
            decreases n - k,
        {
            on_path.push(false);
            k += 1;
        }
        let mut path: Vec<usize> = Vec::new();
        let mut found: Vec<Vec<usize>> = Vec::new();
        proof {
            let pc = path@.push(source);
            assert(pc =~= seq![source]);
            assert(is_simple_path(edges, pc)) by {
                assert forall|a: int, b: int| 0 <= a < pc.len() && 0 <= b < pc.len() && a != b implies pc[a] != pc[b] by {
                }
            }
        }
        let ghost rank = count_false(on_path@);
        self.enumerate_paths(source, target, &mut path, &mut on_path, &mut found, Ghost(rank));
        let ghost l = views(found@).subrange(0, found@.len() as int);
        proof {
            assert(l =~= views(found@));
            assert(path@.push(source) =~= seq![source]);
        }
        let mut r: Vec<Vec<usize>> = Vec::new();
        let mut i: usize = 0;
        while i < found.len()
            invariant
                self.wf(),
                edges == self.edges(),
                l == views(found@),
                lists_paths(l, edges, seq![source], target),
                i <= found@.len(),
                r@.len() == i,
                forall|k: int| 0 <= k < i ==> is_edge_chain(edges, source, #[trigger] r@[k]@),
                forall|k: int| 0 <= k < i ==> path_nodes(edges, source, #[trigger] r@[k]@) == l[k],
            decreases found@.len() - i,
        {
            proof {
                assert(l.contains(l[i as int]));
                assert(extends(seq![source], l[i as int]));
                assert(l[i as int].subrange(0, 1)[0] == l[i as int][0]);
            }
            let es = self.edges_along(&found[i]);
            r.push(es);
            i += 1;
        }
        proof {
            let ps = views(r@);
            assert(chain_nodes(edges, source, ps) =~= l);
            assert forall|k: int| 0 <= k < ps.len() implies is_edge_chain(edges, source, #[trigger] ps[k]) by {
                assert(ps[k] == r@[k]@);
            }
            assert forall|q: Seq<usize>| #[trigger] l.contains(q) <==> is_path_between(edges, source, target, q) by {
                if is_path_between(edges, source, target, q) {
                    assert(q.subrange(0, 1) =~= seq![source]);
                }
                if l.contains(q) {
                    assert(extends(seq![source], q));
                    assert(q.subrange(0, 1)[0] == q[0]);
                }
            }
        }
        r
    }

    /// Builds the graph: one node per distinct id, in order of first sighting,
    /// and one edge per record, in order. A record with a null id is refused.
    pub fn from_transfers(rows: &Vec<TransferRecord>) -> (r: Result<DagTracer, SdtError>)
        requires
            rows@.len() < usize::MAX / 2,
        ensures
            r.is_err() <==> !records_complete(rows@),
            match r {
                Ok(t) => {
                    &&& t.wf()
                    &&& t.node_ids() == ids_after(rows@, rows@.len())
                    &&& t.edges().len() == rows@.len()
                    &&& forall|k: int|
                        0 <= k < rows@.len() ==> t.node_ids()[(#[trigger] t.edges()[k]).0 as int]
                            == rows@[k].source_id.unwrap()@ && t.node_ids()[t.edges()[k].1 as int]
                            == rows@[k].dest_id.unwrap()@
                },
                Err(e) => e is InvalidData,
            },
    {
        let mut graph = graph_new();
        let mut ids: Vec<String> = Vec::new();
        let mut i: usize = 0;
        while i < rows.len()
            invariant
                i <= rows@.len(),
                rows@.len() < usize::MAX / 2,
                node_count_of(graph) == ids@.len(),
                ids@.len() <= 2 * i,
                id_views(ids@).no_duplicates(),
                id_views(ids@) == ids_after(rows@, i as nat),
                edges_of(graph).len() == i,
                edges_within(edges_of(graph), ids@.len() as usize),
                forall|k: int| 0 <= k < i ==> (#[trigger] rows@[k]).source_id.is_some() && rows@[k].dest_id.is_some(),
                forall|k: int|
                    0 <= k < i ==> id_views(ids@)[(#[trigger] edges_of(graph)[k]).0 as int]
                        == rows@[k].source_id.unwrap()@ && id_views(ids@)[edges_of(graph)[k].1 as int]
                        == rows@[k].dest_id.unwrap()@,
            decreases rows@.len() - i,
        {
            let row = &rows[i];
            let src = match &row.source_id {
                Some(s) => s,
                None => {
                    return Err(SdtError::InvalidData(String::from_str("null source id in transfer record")));
                },
            };
            let dst = match &row.dest_id {
                Some(d) => d,
                None => {
                    return Err(SdtError::InvalidData(String::from_str("null destination id in transfer record")));
                },
            };
            let ghost v0 = id_views(ids@);
            let ghost e0 = edges_of(graph);
            let a = intern_node(&mut graph, &mut ids, src);
            let ghost v1 = id_views(ids@);
            let b = intern_node(&mut graph, &mut ids, dst);
            proof {
                assert(v1.len() <= id_views(ids@).len());
                assert forall|k: int| 0 <= k < v1.len() implies id_views(ids@)[k] == v1[k] by {
                    if !v1.contains(dst@) {
                        assert(id_views(ids@) == v1.push(dst@));
                    }
                }
                assert forall|k: int| 0 <= k < v0.len() implies v1[k] == v0[k] by {
                    if !v0.contains(src@) {
                        assert(v1 == v0.push(src@));
                    }
                }
            }
            let e = graph_add_edge(&mut graph, a, b);
            proof {
                assert(ids_after(rows@, (i + 1) as nat) == intern(intern(ids_after(rows@, i as nat), src@), dst@));
                assert forall|k: int| 0 <= k < edges_of(graph).len() implies (#[trigger] edges_of(graph)[k]).0 < ids@.len() && edges_of(graph)[k].1 < ids@.len() by {
                    if k < e0.len() {
                        assert(edges_of(graph)[k] == e0[k]);
                    }
                }
                assert forall|k: int| 0 <= k < i + 1 implies id_views(ids@)[(#[trigger] edges_of(graph)[k]).0 as int]
                        == rows@[k].source_id.unwrap()@ && id_views(ids@)[edges_of(graph)[k].1 as int]
                        == rows@[k].dest_id.unwrap()@ by {
                    if k < i {
                        assert(edges_of(graph)[k] == e0[k]);
                        assert(id_views(ids@)[e0[k].0 as int] == v0[e0[k].0 as int]);
                        assert(id_views(ids@)[e0[k].1 as int] == v0[e0[k].1 as int]);
                    }
                }
            }
            i += 1;
        }
        proof {
            assert(records_complete(rows@));
        }
        Ok(DagTracer { graph, ids })
    }

    /// The rows of one origin: its identity row, then a forward row for each
    /// descendant and a backward row for each ancestor when it is in the graph.
    fn trace_single(&self, origin_id: &String) -> (block: Vec<TraceRow>)
        requires
            self.wf(),
        ensures
            self.origin_block(origin_id@, block@),
    {
        let ghost o = origin_id@;
        let ghost edges = self.edges();
        let mut block: Vec<TraceRow> = Vec::new();
        let mut unit: Vec<Vec<usize>> = Vec::new();
        unit.push(Vec::new());
        proof {
            assert(views(unit@) =~= seq![Seq::<usize>::empty()]);
        }
        block.push(
            TraceRow {
                origin_id: origin_id.clone(),
                traced_id: origin_id.clone(),
                direction: Direction::Identity,
                paths: unit,
            },
        );
        let oi = match position_of(&self.ids, origin_id) {
            Some(i) => i,
            None => {
                proof {
                    assert forall|oi: usize|
                        oi < self.node_ids().len() && #[trigger] self.node_ids()[oi as int] == o implies exists|nf: int|
                            #[trigger] self.split_at(o, oi, block@, nf) by {
                        assert(self.node_ids().contains(o));
                    }
                }
                return block;
            },
        };
        let ds = self.reachable(oi, true);
        let mut j: usize = 0;
        while j < ds.len()
            invariant
                self.wf(),
                o == origin_id@,
                oi < self.node_ids().len(),
                self.node_ids()[oi as int] == o,
                forall|i: int| 0 <= i < ds@.len() ==> #[trigger] ds@[i] < self.node_ids().len(),
                j <= ds@.len(),
                block@.len() == 1 + j,
                is_identity_row(block@[0], o),
                forall|i: int| 0 <= i < j ==> self.is_traced_row(o, oi, ds@[i], #[trigger] block@[1 + i], true),
            decreases ds@.len() - j,
        {
            let d = ds[j];
            let paths = self.simple_paths(oi, d);
            let ghost b0 = block@;
            block.push(
                TraceRow {
                    origin_id: origin_id.clone(),
                    traced_id: self.ids[d].clone(),
                    direction: Direction::Forward,
                    paths,
                },
            );
            proof {
                assert(block@[1 + j as int].traced_id@ == self.node_ids()[d as int]);
                assert forall|i: int| 0 <= i < j + 1 implies self.is_traced_row(o, oi, ds@[i], #[trigger] block@[1 + i], true) by {
                    if i < j {
                        assert(block@[1 + i] == b0[1 + i]);
                    }
                }
            }
            j += 1;
        }
        let nf = block.len();
        let us = self.reachable(oi, false);
        let mut j: usize = 0;
        while j < us.len()
            invariant
                self.wf(),
                o == origin_id@,
                oi < self.node_ids().len(),
                self.node_ids()[oi as int] == o,
                forall|i: int| 0 <= i < us@.len() ==> #[trigger] us@[i] < self.node_ids().len(),
                j <= us@.len(),
                nf == 1 + ds@.len(),
                block@.len() == nf + j,
                is_identity_row(block@[0], o),
                forall|i: int| 0 <= i < ds@.len() ==> self.is_traced_row(o, oi, ds@[i], #[trigger] block@[1 + i], true),
                forall|i: int| 0 <= i < j ==> self.is_traced_row(o, oi, us@[i], #[trigger] block@[nf + i], false),
            decreases us@.len() - j,
        {
            let a = us[j];
            let paths = self.simple_paths(a, oi);
            let ghost b0 = block@;
            block.push(
                TraceRow {
                    origin_id: origin_id.clone(),
                    traced_id: self.ids[a].clone(),
                    direction: Direction::Backward,
                    paths,
                },
            );
            proof {
                assert(block@[nf + j].traced_id@ == self.node_ids()[a as int]);
                assert forall|i: int| 0 <= i < ds@.len() implies self.is_traced_row(o, oi, ds@[i], #[trigger] block@[1 + i], true) by {
                    assert(block@[1 + i] == b0[1 + i]);
                }
                assert forall|i: int| 0 <= i < j + 1 implies self.is_traced_row(o, oi, us@[i], #[trigger] block@[nf + i], false) by {
                    if i < j {
                        assert(block@[nf + i] == b0[nf + i]);
                    }
                }
            }
            j += 1;
        }
        proof {
            let b = block@;
            let fw = b.subrange(1, nf as int);
            let bw = b.subrange(nf as int, b.len() as int);
            assert forall|i: int| 0 <= i < fw.len() implies self.is_traced_row(o, oi, ds@[i], #[trigger] fw[i], true) by {
                assert(fw[i] == b[1 + i]);
            }
            assert forall|i: int| 0 <= i < bw.len() implies self.is_traced_row(o, oi, us@[i], #[trigger] bw[i], false) by {
                assert(bw[i] == b[nf + i]);
            }
            assert(self.traced_part_with(o, oi, fw, true, ds@));
            assert(self.traced_part_with(o, oi, bw, false, us@));
            assert(self.split_at(o, oi, b, nf as int));
            assert forall|oj: usize|
                oj < self.node_ids().len() && #[trigger] self.node_ids()[oj as int] == o implies exists|k: int|
                    #[trigger] self.split_at(o, oj, b, k) by {
                assert(oj == oi);
            }
        }
        block
    }

    /// Traces each origin in turn, in input order and without deduplication:
    /// the rows are the blocks of the origins, concatenated.
    pub fn trace(&self, origin_ids: &Vec<String>) -> (r: Vec<TraceRow>)
        requires
            self.wf(),
        ensures
            exists|blocks: Seq<Seq<TraceRow>>|
                #[trigger] blocks.len() == origin_ids@.len() && r@ == blocks.flatten() && forall|k: int|
                    0 <= k < blocks.len() ==> self.origin_block(origin_ids@[k]@, #[trigger] blocks[k]),
    {
        let mut out: Vec<TraceRow> = Vec::new();
        let ghost mut blocks: Seq<Seq<TraceRow>> = Seq::empty();
        let mut k: usize = 0;
        proof {
            assert(out@ =~= blocks.flatten());
        }
        while k < origin_ids.len()
            invariant
                self.wf(),
                k <= origin_ids@.len(),
                blocks.len() == k,
                out@ == blocks.flatten(),
                forall|i: int| 0 <= i < k ==> self.origin_block(origin_ids@[i]@, #[trigger] blocks[i]),
            decreases origin_ids@.len() - k,
        {
            let mut b = self.trace_single(&origin_ids[k]);
            let ghost bv = b@;
            let ghost out0 = out@;
            out.append(&mut b);
            proof {
                assert(out@ == out0 + bv);
                let blocks0 = blocks;
                vstd::seq_lib::lemma_flatten_concat(blocks, seq![bv]);
                assert(seq![bv].flatten() =~= bv) by {
                    reveal_with_fuel(Seq::flatten, 2);
                    assert(seq![bv].drop_first() =~= Seq::<Seq<TraceRow>>::empty());
                }
                blocks = blocks.push(bv);
                assert(blocks =~= blocks0 + seq![bv]);
                assert(out@ =~= blocks.flatten());
            }
            k += 1;
        }
        proof {
            assert(blocks.len() == origin_ids@.len() && out@ == blocks.flatten());
        }
        out
    }
}

} // verus!
