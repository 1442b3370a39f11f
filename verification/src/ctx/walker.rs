use vstd::prelude::*;

use crate::check::contains_str;
use crate::common::string_views;
use crate::ctx::types::{ContextError, UpstreamArtifact};
use crate::graph::{find_node, lemma_find_node, Edge, EdgeKind, Node, TraceGraph};
use crate::text::str_eq;

verus! {

/// Whether the upstream walk follows an edge of this kind.
pub open spec fn follows(k: EdgeKind) -> bool {
    k == EdgeKind::Chain || k == EdgeKind::ParentChild
}

/// An upstream artifact as found by the walk: id, type code, path and distance.
pub type Found = (Seq<char>, Seq<char>, Seq<char>, int);

/// The state of the breadth-first walk: the ids seen so far, the queue of ids with
/// their distance (entries before `head` are done), and the artifacts found.
pub struct WalkState {
    pub visited: Seq<Seq<char>>,
    pub queue: Seq<(Seq<char>, int)>,
    pub head: int,
    pub out: Seq<Found>,
}

/// The state after looking, in order, at edges `k..` for predecessors of `cur` (at
/// distance `d`): each edge of a followed kind into `cur` whose source has not been
/// seen marks its source seen and queues it at distance `d + 1`; a source that is a
/// node of the graph is also found.
pub open spec fn scan(nodes: Seq<Node>, edges: Seq<Edge>, cur: Seq<char>, d: int, k: int, st: WalkState) -> WalkState
    decreases edges.len() - k,
{
    if k < 0 || k >= edges.len() {
        st
    } else {
        let e = edges[k];
        let next = if e.to@ == cur && follows(e.kind) && !st.visited.contains(e.from@) {
            WalkState {
                visited: st.visited.push(e.from@),
                queue: st.queue.push((e.from@, d + 1)),
                head: st.head,
                out: match find_node(nodes, e.from@) {
                    Some(i) => st.out.push((nodes[i].id@, nodes[i].type_code@, nodes[i].path@, d + 1)),
                    None => st.out,
                },
            }
        } else {
            st
        };
        scan(nodes, edges, cur, d, k + 1, next)
    }
}

/// One step of the walk: take the next queued id; unless its distance has reached the
/// limit, look for its predecessors.
pub open spec fn walk_step(nodes: Seq<Node>, edges: Seq<Edge>, limit: Option<usize>, st: WalkState) -> WalkState {
    if st.head < 0 || st.head >= st.queue.len() {
        st
    } else {
        let (cur, d) = st.queue[st.head];
        let taken = WalkState { head: st.head + 1, ..st };
        match limit {
            Some(l) => if d >= l {
                taken
            } else {
                scan(nodes, edges, cur, d, 0, taken)
            },
            None => scan(nodes, edges, cur, d, 0, taken),
        }
    }
}

/// `n` steps of the walk.
pub open spec fn walk_steps(nodes: Seq<Node>, edges: Seq<Edge>, limit: Option<usize>, st: WalkState, n: nat) -> WalkState
    decreases n,
{
    if n == 0 {
        st
    } else {
        walk_steps(nodes, edges, limit, walk_step(nodes, edges, limit, st), (n - 1) as nat)
    }
}

/// The walk before its first step: only `start` seen and queued.
pub open spec fn walk_start(start: Seq<char>) -> WalkState {
    WalkState { visited: seq![start], queue: seq![(start, 0int)], head: 0, out: Seq::empty() }
}

/// The queue is used up.
pub open spec fn walk_done(st: WalkState) -> bool {
    st.head >= st.queue.len()
}

/// The artifacts upstream of `start`, in the order a breadth-first walk against the
/// direction of chain and parent-child edges (taking edges in their order) finds
/// them, each with its distance, and not beyond `limit` steps. Nothing when `start`
/// is not a node.
/// These are the nodes other than `start` within `limit` steps upstream, each at its
/// shortest distance (`law_upstream_found_at_distance`, `law_upstream_shortest`,
/// `law_upstream_complete`).
pub open spec fn upstream_of(nodes: Seq<Node>, edges: Seq<Edge>, start: Seq<char>, limit: Option<usize>) -> Seq<Found> {
    if find_node(nodes, start) is None {
        Seq::empty()
    } else {
        let n = choose|n: nat| walk_done(walk_steps(nodes, edges, limit, walk_start(start), n));
        walk_steps(nodes, edges, limit, walk_start(start), n).out
    }
}

proof fn lemma_done_stays(nodes: Seq<Node>, edges: Seq<Edge>, limit: Option<usize>, st: WalkState, n: nat)
    requires
        walk_done(st),
    ensures
        walk_steps(nodes, edges, limit, st, n) == st,
    decreases n,
{
    if n > 0 {
        lemma_done_stays(nodes, edges, limit, st, (n - 1) as nat);
    }
}

proof fn lemma_steps_split(nodes: Seq<Node>, edges: Seq<Edge>, limit: Option<usize>, st: WalkState, a: nat, b: nat)
    ensures
        walk_steps(nodes, edges, limit, st, a + b) == walk_steps(
            nodes,
            edges,
            limit,
            walk_steps(nodes, edges, limit, st, a),
            b,
        ),
    decreases a,
{
    if a > 0 {
        lemma_steps_split(nodes, edges, limit, walk_step(nodes, edges, limit, st), (a - 1) as nat, b);
        assert((a + b - 1) as nat == ((a - 1) as nat + b) as nat);
    }
}

proof fn lemma_done_unique(nodes: Seq<Node>, edges: Seq<Edge>, limit: Option<usize>, st: WalkState, m: nat, n: nat)
    requires
        walk_done(walk_steps(nodes, edges, limit, st, m)),
        walk_done(walk_steps(nodes, edges, limit, st, n)),
    ensures
        walk_steps(nodes, edges, limit, st, m) == walk_steps(nodes, edges, limit, st, n),
{
    if m <= n {
        lemma_steps_split(nodes, edges, limit, st, m, (n - m) as nat);
        lemma_done_stays(nodes, edges, limit, walk_steps(nodes, edges, limit, st, m), (n - m) as nat);
        assert((m + (n - m) as nat) as nat == n);
    } else {
        lemma_steps_split(nodes, edges, limit, st, n, (m - n) as nat);
        lemma_done_stays(nodes, edges, limit, walk_steps(nodes, edges, limit, st, n), (m - n) as nat);
        assert((n + (m - n) as nat) as nat == m);
    }
}

/// The number of edges whose source has not been seen.
pub open spec fn pending(edges: Seq<Edge>, vis: Seq<Seq<char>>) -> nat
    decreases edges.len(),
{
    if edges.len() == 0 {
        0
    } else {
        pending(edges.drop_last(), vis) + if vis.contains(edges.last().from@) {
            0nat
        } else {
            1nat
        }
    }
}

proof fn lemma_pending_mark(edges: Seq<Edge>, vis: Seq<Seq<char>>, x: Seq<char>)
    ensures
        pending(edges, vis.push(x)) <= pending(edges, vis),
        (exists|k: int| 0 <= k < edges.len() && #[trigger] edges[k].from@ == x) && !vis.contains(x) ==> pending(
            edges,
            vis.push(x),
        ) < pending(edges, vis),
    decreases edges.len(),
{
    if edges.len() > 0 {
        let d = edges.drop_last();
        lemma_pending_mark(d, vis, x);
        assert(vis.push(x).contains(x)) by {
            assert(vis.push(x)[vis.len() as int] == x);
        }
        assert forall|y: Seq<char>| vis.contains(y) implies vis.push(x).contains(y) by {
            let i = choose|i: int| 0 <= i < vis.len() && vis[i] == y;
            assert(vis.push(x)[i] == y);
        }
        if (exists|k: int| 0 <= k < edges.len() && #[trigger] edges[k].from@ == x) && !vis.contains(x) {
            let k = choose|k: int| 0 <= k < edges.len() && #[trigger] edges[k].from@ == x;
            if k < edges.len() - 1 {
                assert(d[k].from@ == x);
            }
        }
    }
}

/// A walk along the upstream chain of a graph.
pub struct UpstreamWalker<'a> {
    graph: &'a TraceGraph,
}

/// The walk state held by the executable walk.
pub open spec fn state_of(
    visited: Seq<String>,
    queue: Seq<(String, usize)>,
    head: int,
    out: Seq<UpstreamArtifact>,
) -> WalkState {
    WalkState {
        visited: string_views(visited),
        queue: queue.map_values(|q: (String, usize)| (q.0@, q.1 as int)),
        head,
        out: out.map_values(|a: UpstreamArtifact| (a.artifact_id@, a.type_code@, a.file_path@, a.chain_distance as int)),
    }
}

/// A bare artifact: empty body, no subnode, anchor or drift score.
pub open spec fn bare(a: UpstreamArtifact) -> bool {
    &&& a.body@ == Seq::<char>::empty()
    &&& a.subnode_id is None
    &&& a.anchor is None
    &&& a.drift_score is None
}

impl<'a> UpstreamWalker<'a> {
    /// The graph walked.
    pub closed spec fn graph(&self) -> TraceGraph {
        *self.graph
    }

    /// A walker over `graph`.
    pub fn new(graph: &'a TraceGraph) -> (r: Self)
        ensures
            r.graph() == *graph,
    {
        UpstreamWalker { graph }
    }

    /// The artifacts upstream of `start` (see `upstream_of`), each as a bare artifact
    /// with the node's id, type code and path and its distance from `start`.
    pub fn walk_chain_parent_only_with_depth(&self, start: &str, depth_limit: Option<usize>) -> (r: Result<
        Vec<UpstreamArtifact>,
        ContextError,
    >)
        ensures
            r matches Ok(v) && v@.map_values(
                |a: UpstreamArtifact| (a.artifact_id@, a.type_code@, a.file_path@, a.chain_distance as int),
            ) == upstream_of(self.graph().node_seq(), self.graph().edge_seq(), start@, depth_limit) && forall|i: int|
                0 <= i < v@.len() ==> bare(#[trigger] v@[i]),
    {
        let ghost nodes = self.graph.node_seq();
        let ghost edges = self.graph.edge_seq();
        let mut out: Vec<UpstreamArtifact> = Vec::new();
        if self.graph.node(start).is_none() {
            assert(out@.map_values(
                |a: UpstreamArtifact| (a.artifact_id@, a.type_code@, a.file_path@, a.chain_distance as int),
            ) =~= Seq::<Found>::empty());
            return Ok(out);
        }
        let es = self.graph.edges();
        let mut visited: Vec<String> = Vec::new();
        visited.push(String::from_str(start));
        let mut queue: Vec<(String, usize)> = Vec::new();
        queue.push((String::from_str(start), 0));
        let mut head: usize = 0;
        let ghost mut n: nat = 0;
        proof {
            assert(string_views(visited@) =~= seq![start@]);
            assert(queue@.map_values(|q: (String, usize)| (q.0@, q.1 as int)) =~= seq![(start@, 0int)]);
            assert(out@.map_values(
                |a: UpstreamArtifact| (a.artifact_id@, a.type_code@, a.file_path@, a.chain_distance as int),
            ) =~= Seq::<Found>::empty());
            assert(state_of(visited@, queue@, 0, out@) == walk_start(start@));
        }
        while head < queue.len()
            invariant
                es@ == edges,
                edges == self.graph.edge_seq(),
                nodes == self.graph.node_seq(),
                head <= queue@.len(),
                state_of(visited@, queue@, head as int, out@) == walk_steps(
                    nodes,
                    edges,
                    depth_limit,
                    walk_start(start@),
                    n,
                ),
                forall|i: int| 0 <= i < queue@.len() ==> #[trigger] queue@[i].1 <= i,
                forall|i: int| 0 <= i < out@.len() ==> bare(#[trigger] out@[i]),
            decreases pending(edges, string_views(visited@)) + queue@.len() - head,
        {
            let ghost st0 = state_of(visited@, queue@, head as int, out@);
            let ghost m0 = pending(edges, string_views(visited@)) + queue@.len() - head;
            let cur = queue[head].0.clone();
            let d = queue[head].1;
            head = head + 1;
            let ghost taken = WalkState { head: st0.head + 1, ..st0 };
            assert(state_of(visited@, queue@, head as int, out@) == taken);
            let skip = match depth_limit {
                Some(l) => d >= l,
                None => false,
            };
            if !skip {
                let mut k: usize = 0;
                while k < es.len()
                    invariant
                        es@ == edges,
                        edges == self.graph.edge_seq(),
                        nodes == self.graph.node_seq(),
                        k <= es@.len(),
                        0 < head <= queue@.len(),
                        d < head,
                        forall|i: int| 0 <= i < queue@.len() ==> #[trigger] queue@[i].1 <= i,
                        forall|i: int| 0 <= i < out@.len() ==> bare(#[trigger] out@[i]),
                        scan(nodes, edges, cur@, d as int, 0, taken) == scan(
                            nodes,
                            edges,
                            cur@,
                            d as int,
                            k as int,
                            state_of(visited@, queue@, head as int, out@),
                        ),
                        pending(edges, string_views(visited@)) + queue@.len() - head < m0,
                    decreases es@.len() - k,
                {
                    let e = &es[k];
                    let ghost st = state_of(visited@, queue@, head as int, out@);
                    if str_eq(e.to.as_str(), cur.as_str()) && (e.kind == EdgeKind::Chain || e.kind
                        == EdgeKind::ParentChild) && !contains_str(&visited, e.from.as_str()) {
                        proof {
                            lemma_pending_mark(edges, string_views(visited@), e.from@);
                            assert(edges[k as int].from@ == e.from@);
                        }
                        let ghost vprev = visited@;
                        visited.push(e.from.clone());
                        assert(string_views(visited@) =~= string_views(vprev).push(e.from@));
                        let ghost oprev = out@;
                        match self.graph.node(e.from.as_str()) {
                            Some(node) => {
                                out.push(
                                    UpstreamArtifact {
                                        artifact_id: node.id.clone(),
                                        type_code: node.type_code.clone(),
                                        file_path: node.path.clone(),
                                        chain_distance: d + 1,
                                        body: String::new(),
                                        subnode_id: None,
                                        anchor: None,
                                        drift_score: None,
                                    },
                                );
                                assert(out@.map_values(
                                    |a: UpstreamArtifact|
                                        (a.artifact_id@, a.type_code@, a.file_path@, a.chain_distance as int),
                                ) =~= st.out.push((node.id@, node.type_code@, node.path@, d + 1)));
                            },
                            None => {},
                        }
                        let ghost qprev = queue@;
                        queue.push((e.from.clone(), d + 1));
                        assert(queue@.map_values(|q: (String, usize)| (q.0@, q.1 as int)) =~= st.queue.push(
                            (e.from@, d + 1),
                        ));
                        assert forall|i: int| 0 <= i < queue@.len() implies #[trigger] queue@[i].1 <= i by {
                            if i < qprev.len() {
                                assert(queue@[i] == qprev[i]);
                            }
                        }
                        assert forall|i: int| 0 <= i < out@.len() implies bare(#[trigger] out@[i]) by {
                            if i < oprev.len() {
                                assert(out@[i] == oprev[i]);
                            }
                        }
                    }
                    k = k + 1;
                }
                proof {
                    assert(scan(nodes, edges, cur@, d as int, k as int, state_of(visited@, queue@, head as int, out@))
                        == state_of(visited@, queue@, head as int, out@));
                }
            }
            proof {
                lemma_steps_split(nodes, edges, depth_limit, walk_start(start@), n, 1);
                reveal_with_fuel(walk_steps, 2);
                assert(walk_steps(nodes, edges, depth_limit, st0, 1) == walk_step(nodes, edges, depth_limit, st0));
                n = n + 1;
            }
        }
        proof {
            let st = walk_steps(nodes, edges, depth_limit, walk_start(start@), n);
            assert(walk_done(st));
            lemma_find_node(nodes, start@);
            let c = choose|c: nat| walk_done(walk_steps(nodes, edges, depth_limit, walk_start(start@), c));
            lemma_done_unique(nodes, edges, depth_limit, walk_start(start@), n, c);
        }
        Ok(out)
    }
}


/// Distances in the walk are within the limit: queued ones at most the limit, found
/// ones between 1 and the limit.
pub open spec fn within_limit(st: WalkState, limit: Option<usize>) -> bool {
    &&& forall|i: int| 0 <= i < st.queue.len() ==> 0 <= (#[trigger] st.queue[i]).1 && (limit matches Some(l) ==> st.queue[i].1 <= l)
    &&& forall|i: int| 0 <= i < st.out.len() ==> 1 <= (#[trigger] st.out[i]).3 && (limit matches Some(l) ==> st.out[i].3 <= l)
}

proof fn lemma_scan_within(nodes: Seq<Node>, edges: Seq<Edge>, cur: Seq<char>, d: int, k: int, st: WalkState, limit: Option<usize>)
    requires
        within_limit(st, limit),
        0 <= d,
        limit matches Some(l) ==> d < l,
    ensures
        within_limit(scan(nodes, edges, cur, d, k, st), limit),
    decreases edges.len() - k,
{
    if 0 <= k < edges.len() {
        let e = edges[k];
        if e.to@ == cur && follows(e.kind) && !st.visited.contains(e.from@) {
            let next = WalkState {
                visited: st.visited.push(e.from@),
                queue: st.queue.push((e.from@, d + 1)),
                head: st.head,
                out: match find_node(nodes, e.from@) {
                    Some(i) => st.out.push((nodes[i].id@, nodes[i].type_code@, nodes[i].path@, d + 1)),
                    None => st.out,
                },
            };
            assert(within_limit(next, limit)) by {
                assert forall|i: int| 0 <= i < next.queue.len() implies 0 <= (#[trigger] next.queue[i]).1 && (
                limit matches Some(l) ==> next.queue[i].1 <= l) by {
                    if i < st.queue.len() {
                        assert(next.queue[i] == st.queue[i]);
                    }
                }
                assert forall|i: int| 0 <= i < next.out.len() implies 1 <= (#[trigger] next.out[i]).3 && (
                limit matches Some(l) ==> next.out[i].3 <= l) by {
                    if i < st.out.len() {
                        assert(next.out[i] == st.out[i]);
                    }
                }
            }
            lemma_scan_within(nodes, edges, cur, d, k + 1, next, limit);
        } else {
            lemma_scan_within(nodes, edges, cur, d, k + 1, st, limit);
        }
    }
}

proof fn lemma_steps_within(nodes: Seq<Node>, edges: Seq<Edge>, limit: Option<usize>, st: WalkState, n: nat)
    requires
        within_limit(st, limit),
    ensures
        within_limit(walk_steps(nodes, edges, limit, st, n), limit),
    decreases n,
{
    if n > 0 {
        let next = walk_step(nodes, edges, limit, st);
        if 0 <= st.head < st.queue.len() {
            let (cur, d) = st.queue[st.head];
            let taken = WalkState { head: st.head + 1, ..st };
            assert(within_limit(taken, limit));
            match limit {
                Some(l) => if d < l {
                    lemma_scan_within(nodes, edges, cur, d, 0, taken, limit);
                },
                None => lemma_scan_within(nodes, edges, cur, d, 0, taken, limit),
            }
        }
        lemma_steps_within(nodes, edges, limit, next, (n - 1) as nat);
    }
}

/// The walk respects its depth limit: every artifact found upstream is at least one
/// and at most `limit` steps away.
pub proof fn lemma_upstream_within_limit(nodes: Seq<Node>, edges: Seq<Edge>, start: Seq<char>, limit: Option<usize>)
    ensures
        forall|i: int|
            0 <= i < upstream_of(nodes, edges, start, limit).len() ==> 1 <= (#[trigger] upstream_of(
                nodes,
                edges,
                start,
                limit,
            )[i]).3 && (limit matches Some(l) ==> upstream_of(nodes, edges, start, limit)[i].3 <= l),
{
    if find_node(nodes, start) is Some {
        let n = choose|n: nat| walk_done(walk_steps(nodes, edges, limit, walk_start(start), n));
        assert(within_limit(walk_start(start), limit));
        lemma_steps_within(nodes, edges, limit, walk_start(start), n);
    }
}

/// `x` lies `d` steps upstream of `start`: a path of `d` chain or parent-child edges,
/// each taken against its direction, leads from `start` to `x` (custom edges are never
/// part of such a path).
pub open spec fn upstream_at(edges: Seq<Edge>, start: Seq<char>, x: Seq<char>, d: int) -> bool
    decreases d,
{
    if d <= 0 {
        d == 0 && x == start
    } else {
        exists|k: int|
            0 <= k < edges.len() && ((#[trigger] edges[k]).kind == EdgeKind::Chain || edges[k].kind == EdgeKind::ParentChild)
                && edges[k].from@ == x && upstream_at(
                edges,
                start,
                edges[k].to@,
                d - 1,
            )
    }
}

/// Every id queued, and every artifact found, lies upstream of `start` at its
/// distance; an artifact found is the node of the graph with its id.
pub open spec fn all_upstream(st: WalkState, nodes: Seq<Node>, edges: Seq<Edge>, start: Seq<char>) -> bool {
    &&& forall|i: int| 0 <= i < st.queue.len() ==> upstream_at(edges, start, (#[trigger] st.queue[i]).0, st.queue[i].1)
    &&& forall|i: int|
        0 <= i < st.out.len() ==> upstream_at(edges, start, (#[trigger] st.out[i]).0, st.out[i].3) && (find_node(
            nodes,
            st.out[i].0,
        ) matches Some(x) && nodes[x].id@ == st.out[i].0 && nodes[x].type_code@ == st.out[i].1 && nodes[x].path@
            == st.out[i].2)
}

proof fn lemma_scan_upstream(
    nodes: Seq<Node>,
    edges: Seq<Edge>,
    start: Seq<char>,
    cur: Seq<char>,
    d: int,
    k: int,
    st: WalkState,
)
    requires
        all_upstream(st, nodes, edges, start),
        upstream_at(edges, start, cur, d),
        0 <= d,
    ensures
        all_upstream(scan(nodes, edges, cur, d, k, st), nodes, edges, start),
    decreases edges.len() - k,
{
    if 0 <= k < edges.len() {
        let e = edges[k];
        if e.to@ == cur && follows(e.kind) && !st.visited.contains(e.from@) {
            assert(upstream_at(edges, start, e.from@, d + 1)) by {
                assert(follows(edges[k].kind) && edges[k].from@ == e.from@ && upstream_at(edges, start, edges[k].to@, d));
            }
            lemma_find_node(nodes, e.from@);
            let next = WalkState {
                visited: st.visited.push(e.from@),
                queue: st.queue.push((e.from@, d + 1)),
                head: st.head,
                out: match find_node(nodes, e.from@) {
                    Some(i) => st.out.push((nodes[i].id@, nodes[i].type_code@, nodes[i].path@, d + 1)),
                    None => st.out,
                },
            };
            assert(all_upstream(next, nodes, edges, start)) by {
                assert forall|i: int| 0 <= i < next.queue.len() implies upstream_at(
                    edges,
                    start,
                    (#[trigger] next.queue[i]).0,
                    next.queue[i].1,
                ) by {
                    if i < st.queue.len() {
                        assert(next.queue[i] == st.queue[i]);
                    }
                }
                assert forall|i: int| 0 <= i < next.out.len() implies upstream_at(edges, start, (#[trigger] next.out[i]).0, next.out[i].3)
                    && (find_node(nodes, next.out[i].0) matches Some(x) && nodes[x].id@ == next.out[i].0
                    && nodes[x].type_code@ == next.out[i].1 && nodes[x].path@ == next.out[i].2) by {
                    if i < st.out.len() {
                        assert(next.out[i] == st.out[i]);
                    }
                }
            }
            lemma_scan_upstream(nodes, edges, start, cur, d, k + 1, next);
        } else {
            lemma_scan_upstream(nodes, edges, start, cur, d, k + 1, st);
        }
    }
}

proof fn lemma_steps_upstream(nodes: Seq<Node>, edges: Seq<Edge>, limit: Option<usize>, start: Seq<char>, st: WalkState, n: nat)
    requires
        all_upstream(st, nodes, edges, start),
        within_limit(st, limit),
    ensures
        all_upstream(walk_steps(nodes, edges, limit, st, n), nodes, edges, start),
    decreases n,
{
    if n > 0 {
        let next = walk_step(nodes, edges, limit, st);
        lemma_steps_within(nodes, edges, limit, st, 1);
        reveal_with_fuel(walk_steps, 2);
        assert(walk_steps(nodes, edges, limit, st, 1) == next);
        if 0 <= st.head < st.queue.len() {
            let (cur, d) = st.queue[st.head];
            let taken = WalkState { head: st.head + 1, ..st };
            assert(upstream_at(edges, start, cur, d));
            lemma_scan_upstream(nodes, edges, start, cur, d, 0, taken);
        }
        lemma_steps_upstream(nodes, edges, limit, start, next, (n - 1) as nat);
    }
}

/// Every artifact the upstream walk finds is the node of the graph with its id, and
/// lies upstream of the start at the distance given with it: that many chain or
/// parent-child edges, each taken against its direction, lead to it.
pub proof fn law_upstream_found_at_distance(nodes: Seq<Node>, edges: Seq<Edge>, start: Seq<char>, limit: Option<usize>, i: int)
    requires
        0 <= i < upstream_of(nodes, edges, start, limit).len(),
    ensures
        upstream_at(edges, start, upstream_of(nodes, edges, start, limit)[i].0, upstream_of(nodes, edges, start, limit)[i].3),
        find_node(nodes, upstream_of(nodes, edges, start, limit)[i].0) matches Some(x) && nodes[x].id@ == upstream_of(
            nodes,
            edges,
            start,
            limit,
        )[i].0 && nodes[x].type_code@ == upstream_of(nodes, edges, start, limit)[i].1 && nodes[x].path@ == upstream_of(
            nodes,
            edges,
            start,
            limit,
        )[i].2,
{
    if find_node(nodes, start) is Some {
        let n = choose|n: nat| walk_done(walk_steps(nodes, edges, limit, walk_start(start), n));
        let st = walk_start(start);
        assert(within_limit(st, limit));
        assert(upstream_at(edges, start, start, 0));
        assert(all_upstream(st, nodes, edges, start));
        lemma_steps_upstream(nodes, edges, limit, start, st, n);
    }
}

/// The ids of a queue.
pub open spec fn queue_ids(q: Seq<(Seq<char>, int)>) -> Seq<Seq<char>> {
    q.map_values(|e: (Seq<char>, int)| e.0)
}

/// Entry `p` of the queue is closed: each node one step upstream of it is queued, at
/// most one step further away.
pub open spec fn closed_at(edges: Seq<Edge>, q: Seq<(Seq<char>, int)>, p: int) -> bool {
    forall|k: int|
        0 <= k < edges.len() && follows((#[trigger] edges[k]).kind) && edges[k].to@ == q[p].0 ==> exists|j: int|
            0 <= j < q.len() && (#[trigger] q[j]).0 == edges[k].from@ && q[j].1 <= q[p].1 + 1
}

/// Entry `p` is closed for the edges before the `k`-th.
pub open spec fn closed_upto(edges: Seq<Edge>, q: Seq<(Seq<char>, int)>, p: int, k: int) -> bool {
    forall|kk: int|
        0 <= kk < k && kk < edges.len() && follows((#[trigger] edges[kk]).kind) && edges[kk].to@ == q[p].0 ==> exists|j: int|
            0 <= j < q.len() && (#[trigger] q[j]).0 == edges[kk].from@ && q[j].1 <= q[p].1 + 1
}

/// The distance `d` is below the limit.
pub open spec fn below(limit: Option<usize>, d: int) -> bool {
    limit matches Some(l) ==> d < l
}

/// The shape of a breadth-first walk from `start`: the start first, the ids seen are
/// those queued, each once, distances never decrease along the queue and exceed the
/// last taken one by at most one, and the artifacts found are the queued nodes.
pub open spec fn bfs_base(st: WalkState, nodes: Seq<Node>, start: Seq<char>) -> bool {
    &&& 0 <= st.head <= st.queue.len() && st.queue.len() >= 1 && st.queue[0] == (start, 0int)
    &&& (st.head == 0 ==> st.queue.len() == 1)
    &&& st.visited == queue_ids(st.queue)
    &&& forall|i: int, j: int| 0 <= i < j < st.queue.len() ==> (#[trigger] st.queue[i]).0 != (#[trigger] st.queue[j]).0
    &&& forall|i: int, j: int| 0 <= i <= j < st.queue.len() ==> (#[trigger] st.queue[i]).1 <= (#[trigger] st.queue[j]).1
    &&& (st.head >= 1 ==> forall|j: int| 0 <= j < st.queue.len() ==> (#[trigger] st.queue[j]).1 <= st.queue[st.head - 1].1 + 1)
    &&& forall|i: int| 0 <= i < st.out.len() ==> queued_beyond_start(st.queue, #[trigger] st.out[i])
    &&& forall|i: int, j: int| 0 <= i < j < st.out.len() ==> (#[trigger] st.out[i]).0 != (#[trigger] st.out[j]).0
    &&& forall|i: int, j: int| 0 <= i <= j < st.out.len() ==> (#[trigger] st.out[i]).3 <= (#[trigger] st.out[j]).3
    &&& forall|j: int|
        1 <= j < st.queue.len() && find_node(nodes, (#[trigger] st.queue[j]).0) is Some ==> found_in(st.out, st.queue[j].0)
}

/// Some entry after the first of the queue is `f`'s id at `f`'s distance.
pub open spec fn queued_beyond_start(q: Seq<(Seq<char>, int)>, f: Found) -> bool {
    exists|j: int| 1 <= j < q.len() && #[trigger] q[j] == (f.0, f.3)
}

/// Some artifact of `out` has id `x`.
pub open spec fn found_in(out: Seq<Found>, x: Seq<char>) -> bool {
    exists|i: int| 0 <= i < out.len() && (#[trigger] out[i]).0 == x
}

/// A breadth-first walk state whose taken entries below the limit are all closed.
pub open spec fn bfs_ok(st: WalkState, nodes: Seq<Node>, edges: Seq<Edge>, start: Seq<char>, limit: Option<usize>) -> bool {
    &&& bfs_base(st, nodes, start)
    &&& forall|p: int| 0 <= p < st.head && below(limit, st.queue[p].1) ==> #[trigger] closed_at(edges, st.queue, p)
}

proof fn lemma_closed_extend(edges: Seq<Edge>, q: Seq<(Seq<char>, int)>, x: (Seq<char>, int), p: int, k: int)
    requires
        0 <= p < q.len(),
        closed_upto(edges, q, p, k),
    ensures
        closed_upto(edges, q.push(x), p, k),
{
    let q2 = q.push(x);
    assert forall|kk: int|
        0 <= kk < k && kk < edges.len() && follows((#[trigger] edges[kk]).kind) && edges[kk].to@ == q2[p].0 implies exists|j: int|
            0 <= j < q2.len() && (#[trigger] q2[j]).0 == edges[kk].from@ && q2[j].1 <= q2[p].1 + 1 by {
        assert(q2[p] == q[p]);
        let j = choose|j: int| 0 <= j < q.len() && (#[trigger] q[j]).0 == edges[kk].from@ && q[j].1 <= q[p].1 + 1;
        assert(q2[j] == q[j]);
    }
}

proof fn lemma_closed_full(edges: Seq<Edge>, q: Seq<(Seq<char>, int)>, p: int)
    requires
        closed_upto(edges, q, p, edges.len() as int),
    ensures
        closed_at(edges, q, p),
{
}

proof fn lemma_closed_at_upto(edges: Seq<Edge>, q: Seq<(Seq<char>, int)>, p: int)
    requires
        closed_at(edges, q, p),
    ensures
        closed_upto(edges, q, p, edges.len() as int),
{
}

#[verifier::rlimit(40)]
proof fn lemma_scan_bfs(
    nodes: Seq<Node>,
    edges: Seq<Edge>,
    start: Seq<char>,
    limit: Option<usize>,
    cur: Seq<char>,
    d: int,
    k: int,
    st: WalkState,
)
    requires
        0 <= k,
        bfs_base(st, nodes, start),
        st.head >= 1,
        st.queue[st.head - 1] == (cur, d),
        below(limit, d),
        forall|p: int| 0 <= p < st.head - 1 && below(limit, st.queue[p].1) ==> #[trigger] closed_at(edges, st.queue, p),
        closed_upto(edges, st.queue, st.head - 1, k),
    ensures
        bfs_ok(scan(nodes, edges, cur, d, k, st), nodes, edges, start, limit),
    decreases edges.len() - k,
{
    let q = st.queue;
    let h = st.head;
    if k >= edges.len() {
        lemma_closed_full(edges, q, h - 1);
        assert forall|p: int| 0 <= p < h && below(limit, q[p].1) implies #[trigger] closed_at(edges, q, p) by {
            if p == h - 1 {
            }
        }
    } else {
        let e = edges[k];
        if e.to@ == cur && follows(e.kind) && !st.visited.contains(e.from@) {
            let x = (e.from@, d + 1);
            let q2 = q.push(x);
            lemma_find_node(nodes, e.from@);
            let next = WalkState {
                visited: st.visited.push(e.from@),
                queue: q2,
                head: h,
                out: match find_node(nodes, e.from@) {
                    Some(i) => st.out.push((nodes[i].id@, nodes[i].type_code@, nodes[i].path@, d + 1)),
                    None => st.out,
                },
            };
            assert(next.visited =~= queue_ids(q2));
            assert forall|i: int, j: int| 0 <= i < j < q2.len() implies (#[trigger] q2[i]).0 != (#[trigger] q2[j]).0 by {
                if j == q.len() {
                    assert(q2[i] == q[i]);
                    assert(queue_ids(q)[i] == q[i].0);
                    if q[i].0 == e.from@ {
                        assert(st.visited.contains(e.from@));
                    }
                } else {
                    assert(q2[i] == q[i] && q2[j] == q[j]);
                }
            }
            assert forall|i: int, j: int| 0 <= i <= j < q2.len() implies (#[trigger] q2[i]).1 <= (#[trigger] q2[j]).1 by {
                if j == q.len() {
                    if i < q.len() {
                        assert(q2[i] == q[i]);
                        assert(q[i].1 <= q[h - 1].1 + 1);
                    }
                } else {
                    assert(q2[i] == q[i] && q2[j] == q[j]);
                }
            }
            assert forall|j: int| 0 <= j < q2.len() implies (#[trigger] q2[j]).1 <= q2[h - 1].1 + 1 by {
                assert(q2[h - 1] == q[h - 1]);
                if j < q.len() {
                    assert(q2[j] == q[j]);
                }
            }
            assert forall|i: int| 0 <= i < next.out.len() implies queued_beyond_start(next.queue, #[trigger] next.out[i]) by {
                if i < st.out.len() {
                    assert(next.out[i] == st.out[i]);
                    assert(queued_beyond_start(q, st.out[i]));
                    let j = choose|j: int| 1 <= j < q.len() && #[trigger] q[j] == (st.out[i].0, st.out[i].3);
                    assert(q2[j] == q[j]);
                } else {
                    assert(q2[q.len() as int] == x);
                    assert(q2[q.len() as int] == (next.out[i].0, next.out[i].3));
                }
            }
            assert forall|j: int|
                1 <= j < next.queue.len() && find_node(nodes, (#[trigger] next.queue[j]).0) is Some implies found_in(next.out, next.queue[j].0) by {
                if j < q.len() {
                    assert(q2[j] == q[j]);
                    assert(found_in(st.out, q[j].0));
                    let i = choose|i: int| 0 <= i < st.out.len() && (#[trigger] st.out[i]).0 == q[j].0;
                    assert(next.out[i] == st.out[i]);
                } else {
                    assert(next.out[st.out.len() as int].0 == e.from@);
                }
            }
            assert forall|i: int| 0 <= i < st.out.len() implies (#[trigger] st.out[i]).0 != e.from@ && st.out[i].3 <= d + 1 by {
                assert(queued_beyond_start(q, st.out[i]));
                let j = choose|j: int| 1 <= j < q.len() && #[trigger] q[j] == (st.out[i].0, st.out[i].3);
                assert(queue_ids(q)[j] == q[j].0);
                if st.out[i].0 == e.from@ {
                    assert(st.visited.contains(e.from@));
                }
                assert(q[j].1 <= q[h - 1].1 + 1);
            }
            assert forall|i: int, j: int| 0 <= i < j < next.out.len() implies (#[trigger] next.out[i]).0 != (#[trigger] next.out[j]).0 by {
                if j < st.out.len() {
                    assert(next.out[i] == st.out[i] && next.out[j] == st.out[j]);
                } else {
                    assert(next.out[i] == st.out[i]);
                }
            }
            assert forall|i: int, j: int| 0 <= i <= j < next.out.len() implies (#[trigger] next.out[i]).3 <= (#[trigger] next.out[j]).3 by {
                if j < st.out.len() {
                    assert(next.out[i] == st.out[i] && next.out[j] == st.out[j]);
                } else if i < st.out.len() {
                    assert(next.out[i] == st.out[i]);
                }
            }
            assert(bfs_base(next, nodes, start));
            assert forall|p: int| 0 <= p < h - 1 && below(limit, q2[p].1) implies #[trigger] closed_at(edges, q2, p) by {
                assert(q2[p] == q[p]);
                assert(closed_at(edges, q, p));
                lemma_closed_at_upto(edges, q, p);
                lemma_closed_extend(edges, q, x, p, edges.len() as int);
                lemma_closed_full(edges, q2, p);
            }
            lemma_closed_extend(edges, q, x, h - 1, k);
            assert(closed_upto(edges, q2, h - 1, k + 1)) by {
                assert(q2[h - 1] == q[h - 1]);
                assert(q2[q.len() as int] == x);
            }
            lemma_scan_bfs(nodes, edges, start, limit, cur, d, k + 1, next);
        } else {
            assert(closed_upto(edges, q, h - 1, k + 1)) by {
                if e.to@ == cur && follows(e.kind) {
                    assert(st.visited.contains(e.from@));
                    let j = choose|j: int| 0 <= j < st.visited.len() && st.visited[j] == e.from@;
                    assert(queue_ids(q)[j] == q[j].0);
                    assert(q[j].1 <= q[h - 1].1 + 1);
                }
            }
            lemma_scan_bfs(nodes, edges, start, limit, cur, d, k + 1, st);
        }
    }
}

proof fn lemma_steps_bfs(nodes: Seq<Node>, edges: Seq<Edge>, limit: Option<usize>, start: Seq<char>, st: WalkState, n: nat)
    requires
        bfs_ok(st, nodes, edges, start, limit),
    ensures
        bfs_ok(walk_steps(nodes, edges, limit, st, n), nodes, edges, start, limit),
    decreases n,
{
    if n > 0 {
        let next = walk_step(nodes, edges, limit, st);
        let q = st.queue;
        let h = st.head;
        if 0 <= h < q.len() {
            let (cur, d) = q[h];
            let taken = WalkState { head: h + 1, ..st };
            assert(taken.queue == q && taken.out == st.out && taken.visited == st.visited);
            assert(bfs_base(taken, nodes, start)) by {
                assert forall|j: int| 0 <= j < q.len() implies (#[trigger] q[j]).1 <= q[h].1 + 1 by {
                    if h >= 1 {
                        assert(q[j].1 <= q[h - 1].1 + 1);
                        assert(q[h - 1].1 <= q[h].1);
                    } else {
                        assert(j == 0);
                    }
                }
            }
            if below(limit, d) {
                lemma_scan_bfs(nodes, edges, start, limit, cur, d, 0, taken);
            } else {
                assert forall|p: int| 0 <= p < taken.head && below(limit, taken.queue[p].1) implies #[trigger] closed_at(
                    edges,
                    taken.queue,
                    p,
                ) by {
                    if p == h {
                    }
                }
                assert(bfs_ok(taken, nodes, edges, start, limit));
            }
        }
        lemma_steps_bfs(nodes, edges, limit, start, next, (n - 1) as nat);
    }
}

proof fn lemma_bfs_complete(
    nodes: Seq<Node>,
    edges: Seq<Edge>,
    start: Seq<char>,
    limit: Option<usize>,
    st: WalkState,
    x: Seq<char>,
    e: int,
)
    requires
        bfs_ok(st, nodes, edges, start, limit),
        walk_done(st),
        upstream_at(edges, start, x, e),
        limit matches Some(l) ==> e <= l,
    ensures
        exists|j: int| 0 <= j < st.queue.len() && (#[trigger] st.queue[j]).0 == x && st.queue[j].1 <= e,
    decreases e,
{
    let q = st.queue;
    if e <= 0 {
        assert(q[0].0 == x);
    } else {
        let k = choose|k: int|
            0 <= k < edges.len() && follows((#[trigger] edges[k]).kind) && edges[k].from@ == x && upstream_at(
                edges,
                start,
                edges[k].to@,
                e - 1,
            );
        let y = edges[k].to@;
        lemma_bfs_complete(nodes, edges, start, limit, st, y, e - 1);
        let jy = choose|j: int| 0 <= j < q.len() && (#[trigger] q[j]).0 == y && q[j].1 <= e - 1;
        assert(below(limit, q[jy].1));
        assert(closed_at(edges, q, jy));
        assert(follows(edges[k].kind) && edges[k].to@ == q[jy].0);
        let j = choose|j: int| 0 <= j < q.len() && (#[trigger] q[j]).0 == edges[k].from@ && q[j].1 <= q[jy].1 + 1;
        assert(q[j].0 == x);
    }
}

proof fn lemma_scan_measure(nodes: Seq<Node>, edges: Seq<Edge>, cur: Seq<char>, d: int, k: int, st: WalkState)
    ensures
        scan(nodes, edges, cur, d, k, st).head == st.head,
        scan(nodes, edges, cur, d, k, st).queue.len() >= st.queue.len(),
        pending(edges, scan(nodes, edges, cur, d, k, st).visited) + scan(nodes, edges, cur, d, k, st).queue.len()
            <= pending(edges, st.visited) + st.queue.len(),
    decreases edges.len() - k,
{
    if 0 <= k < edges.len() {
        let e = edges[k];
        if e.to@ == cur && follows(e.kind) && !st.visited.contains(e.from@) {
            lemma_pending_mark(edges, st.visited, e.from@);
            assert(edges[k].from@ == e.from@);
            let next = WalkState {
                visited: st.visited.push(e.from@),
                queue: st.queue.push((e.from@, d + 1)),
                head: st.head,
                out: match find_node(nodes, e.from@) {
                    Some(i) => st.out.push((nodes[i].id@, nodes[i].type_code@, nodes[i].path@, d + 1)),
                    None => st.out,
                },
            };
            lemma_scan_measure(nodes, edges, cur, d, k + 1, next);
        } else {
            lemma_scan_measure(nodes, edges, cur, d, k + 1, st);
        }
    }
}

proof fn lemma_walk_terminates(nodes: Seq<Node>, edges: Seq<Edge>, limit: Option<usize>, st: WalkState)
    requires
        0 <= st.head,
    ensures
        exists|n: nat| walk_done(#[trigger] walk_steps(nodes, edges, limit, st, n)),
    decreases pending(edges, st.visited) + st.queue.len() - st.head,
{
    if walk_done(st) {
        assert(walk_steps(nodes, edges, limit, st, 0) == st);
        assert(walk_done(walk_steps(nodes, edges, limit, st, 0)));
    } else {
        let next = walk_step(nodes, edges, limit, st);
        let (cur, d) = st.queue[st.head];
        let taken = WalkState { head: st.head + 1, ..st };
        lemma_scan_measure(nodes, edges, cur, d, 0, taken);
        lemma_walk_terminates(nodes, edges, limit, next);
        let n = choose|n: nat| walk_done(#[trigger] walk_steps(nodes, edges, limit, next, n));
        let n1 = (n + 1) as nat;
        assert(walk_steps(nodes, edges, limit, st, n1) == walk_steps(nodes, edges, limit, next, (n1 - 1) as nat));
        assert((n1 - 1) as nat == n);
        assert(walk_done(walk_steps(nodes, edges, limit, st, n1)));
    }
}

proof fn lemma_upstream_bfs(nodes: Seq<Node>, edges: Seq<Edge>, start: Seq<char>, limit: Option<usize>) -> (st: WalkState)
    requires
        find_node(nodes, start) is Some,
    ensures
        st.out == upstream_of(nodes, edges, start, limit),
        walk_done(st),
        bfs_ok(st, nodes, edges, start, limit),
        within_limit(st, limit),
{
    lemma_walk_terminates(nodes, edges, limit, walk_start(start));
    let n = choose|n: nat| walk_done(walk_steps(nodes, edges, limit, walk_start(start), n));
    let s0 = walk_start(start);
    assert(s0.visited =~= queue_ids(s0.queue));
    assert(bfs_base(s0, nodes, start));
    assert(bfs_ok(s0, nodes, edges, start, limit));
    lemma_steps_bfs(nodes, edges, limit, start, s0, n);
    assert(within_limit(s0, limit));
    lemma_steps_within(nodes, edges, limit, s0, n);
    walk_steps(nodes, edges, limit, s0, n)
}

/// The walk finds each artifact at its shortest distance: no path of chain or
/// parent-child edges, taken against their direction, leads from the start to it in
/// fewer steps.
pub proof fn law_upstream_shortest(nodes: Seq<Node>, edges: Seq<Edge>, start: Seq<char>, limit: Option<usize>, i: int, e: int)
    requires
        0 <= i < upstream_of(nodes, edges, start, limit).len(),
        upstream_at(edges, start, upstream_of(nodes, edges, start, limit)[i].0, e),
    ensures
        upstream_of(nodes, edges, start, limit)[i].3 <= e,
{
    let st = lemma_upstream_bfs(nodes, edges, start, limit);
    let q = st.queue;
    let o = st.out[i];
    assert(queued_beyond_start(q, st.out[i]));
    let j = choose|j: int| 1 <= j < q.len() && #[trigger] q[j] == (st.out[i].0, st.out[i].3);
    assert(1 <= o.3 && (limit matches Some(l) ==> o.3 <= l));
    if limit matches Some(l) && e > l {
    } else {
        lemma_bfs_complete(nodes, edges, start, limit, st, o.0, e);
        let j2 = choose|j2: int| 0 <= j2 < q.len() && (#[trigger] q[j2]).0 == o.0 && q[j2].1 <= e;
        if j2 != j {
            if j2 < j {
                assert(q[j2].0 != q[j].0);
            } else {
                assert(q[j].0 != q[j2].0);
            }
        }
    }
}

/// The walk finds every node of the graph, other than the start, that lies at most
/// `limit` steps upstream of a start that is a node.
pub proof fn law_upstream_complete(nodes: Seq<Node>, edges: Seq<Edge>, start: Seq<char>, limit: Option<usize>, x: Seq<char>, e: int)
    requires
        find_node(nodes, start) is Some,
        find_node(nodes, x) is Some,
        x != start,
        upstream_at(edges, start, x, e),
        limit matches Some(l) ==> e <= l,
    ensures
        exists|i: int|
            0 <= i < upstream_of(nodes, edges, start, limit).len() && (#[trigger] upstream_of(nodes, edges, start, limit)[i]).0
                == x,
{
    let st = lemma_upstream_bfs(nodes, edges, start, limit);
    let q = st.queue;
    lemma_bfs_complete(nodes, edges, start, limit, st, x, e);
    let j = choose|j: int| 0 <= j < q.len() && (#[trigger] q[j]).0 == x && q[j].1 <= e;
    assert(j != 0);
    assert(find_node(nodes, q[j].0) is Some);
    assert(found_in(st.out, q[j].0));
    let i = choose|i: int| 0 <= i < st.out.len() && (#[trigger] st.out[i]).0 == q[j].0;
    assert(st.out[i].0 == x);
}

/// The walk yields each artifact once, never the start, and in non-decreasing
/// distance from the start.
pub proof fn law_upstream_once_in_distance_order(nodes: Seq<Node>, edges: Seq<Edge>, start: Seq<char>, limit: Option<usize>)
    ensures
        forall|i: int, j: int|
            0 <= i < j < upstream_of(nodes, edges, start, limit).len() ==> (#[trigger] upstream_of(
                nodes,
                edges,
                start,
                limit,
            )[i]).0 != (#[trigger] upstream_of(nodes, edges, start, limit)[j]).0 && upstream_of(
                nodes,
                edges,
                start,
                limit,
            )[i].3 <= upstream_of(nodes, edges, start, limit)[j].3,
        forall|i: int|
            0 <= i < upstream_of(nodes, edges, start, limit).len() ==> (#[trigger] upstream_of(
                nodes,
                edges,
                start,
                limit,
            )[i]).0 != start,
{
    if find_node(nodes, start) is Some {
        let st = lemma_upstream_bfs(nodes, edges, start, limit);
        let q = st.queue;
        assert forall|i: int| 0 <= i < st.out.len() implies (#[trigger] st.out[i]).0 != start by {
            assert(queued_beyond_start(q, st.out[i]));
            let j = choose|j: int| 1 <= j < q.len() && #[trigger] q[j] == (st.out[i].0, st.out[i].3);
            assert(q[0].0 != q[j].0);
        }
    }
}

/// A walk limited to zero steps finds nothing.
pub proof fn lemma_upstream_depth_zero(nodes: Seq<Node>, edges: Seq<Edge>, start: Seq<char>)
    ensures
        upstream_of(nodes, edges, start, Some(0)) == Seq::<Found>::empty(),
{
    if find_node(nodes, start) is Some {
        let st = walk_start(start);
        reveal_with_fuel(walk_steps, 2);
        let one = walk_steps(nodes, edges, Some(0), st, 1);
        assert(one == walk_step(nodes, edges, Some(0), st));
        assert(walk_done(one));
        let c = choose|c: nat| walk_done(walk_steps(nodes, edges, Some(0), st, c));
        lemma_done_unique(nodes, edges, Some(0), st, 1, c);
    }
}

} // verus!
