use vstd::prelude::*;

use indexmap::IndexMap;

use crate::text::contains_char;

verus! {

/// Failure to read a graph.
#[derive(Debug, Clone, PartialEq, Eq)]
pub enum GraphError {
    Parse(String),
    Io(String),
}

/// The message of a graph error.
pub open spec fn graph_error_text(e: GraphError) -> Seq<char> {
    match e {
        GraphError::Parse(m) => "graph parse error: "@ + m@,
        GraphError::Io(m) => "graph io error: "@ + m@,
    }
}

impl GraphError {
    /// The message of the error.
    pub fn message(&self) -> (r: String)
        ensures
            r@ == graph_error_text(*self),
    {
        let (p, m) = match self {
            GraphError::Parse(m) => ("graph parse error: ", m),
            GraphError::Io(m) => ("graph io error: ", m),
        };
        let mut s = String::from_str(p);
        s.append(m.as_str());
        s
    }
}

/// Graph node identifier.
pub type NodeId = String;

/// Kind of an edge.
#[derive(Debug, Clone, Copy, PartialEq, Eq, Structural)]
pub enum EdgeKind {
    Chain,
    Custom,
    ParentChild,
}

/// A node of the traceability graph.
///
/// `anchor` is the heading anchor of a subnode; document nodes have none.
#[derive(Debug, Clone, Default, PartialEq, Eq)]
pub struct Node {
    pub id: NodeId,
    pub type_code: String,
    pub path: String,
    pub parent_id: Option<NodeId>,
    pub anchor: Option<String>,
}

/// A directed edge.
#[derive(Debug, Clone, PartialEq, Eq)]
pub struct Edge {
    pub from: NodeId,
    pub to: NodeId,
    pub kind: EdgeKind,
}

#[verifier::external_type_specification]
#[verifier::external_body]
#[verifier::reject_recursive_types(K)]
#[verifier::reject_recursive_types(V)]
#[verifier::reject_recursive_types(S)]
pub struct ExIndexMap<K, V, S>(IndexMap<K, V, S>);

/// The entries of an insertion-ordered map from node ids to positions, in order.
pub uninterp spec fn position_entries(m: IndexMap<String, usize>) -> Seq<(Seq<char>, usize)>;

/// `IndexMap::new`: an empty map.
#[verifier::external_body]
fn positions_new() -> (m: IndexMap<String, usize>)
    ensures
        position_entries(m) == Seq::<(Seq<char>, usize)>::empty(),
{
    IndexMap::new()
}

/// `IndexMap::get`: the value stored under a key equal to `key`.
#[verifier::external_body]
fn positions_get(m: &IndexMap<String, usize>, key: &str) -> (r: Option<usize>)
    ensures
        match r {
            Some(v) => exists|i: int|
                0 <= i < position_entries(*m).len() && position_entries(*m)[i].0 == key@
                    && position_entries(*m)[i].1 == v,
            None => forall|i: int|
                0 <= i < position_entries(*m).len() ==> position_entries(*m)[i].0 != key@,
        },
{
    m.get(key).copied()
}

/// `IndexMap::insert`: an existing equal key keeps its place and gets the new value
/// (the old value is returned); otherwise the entry is appended last.
#[verifier::external_body]
fn positions_insert(m: &mut IndexMap<String, usize>, key: String, value: usize) -> (r: Option<usize>)
    ensures
        match r {
            Some(old_value) => exists|i: int|
                0 <= i < position_entries(*old(m)).len()
                    && position_entries(*old(m))[i].0 == key@
                    && position_entries(*old(m))[i].1 == old_value
                    && position_entries(*final(m)) == position_entries(*old(m)).update(
                    i,
                    (key@, value),
                ),
            None => (forall|i: int|
                0 <= i < position_entries(*old(m)).len() ==> position_entries(*old(m))[i].0
                    != key@) && position_entries(*final(m)) == position_entries(*old(m)).push(
                (key@, value),
            ),
        },
{
    m.insert(key, value)
}

/// A document id holds no `#` (subnode ids do).
pub open spec fn is_document_id(id: Seq<char>) -> bool {
    !id.contains('#')
}

/// The document nodes of a node sequence, in order.
pub open spec fn document_nodes_of(nodes: Seq<Node>) -> Seq<Node>
    decreases nodes.len(),
{
    if nodes.len() == 0 {
        Seq::empty()
    } else if is_document_id(nodes.last().id@) {
        document_nodes_of(nodes.drop_last()).push(nodes.last())
    } else {
        document_nodes_of(nodes.drop_last())
    }
}

/// Entry `e` holds key `k` and position `i`.
pub open spec fn entry_is(e: (Seq<char>, usize), k: Seq<char>, i: int) -> bool {
    e.0 == k && e.1 == i
}

/// Index of the node whose id is `id`, if any (the last such one).
pub open spec fn find_node(nodes: Seq<Node>, id: Seq<char>) -> Option<int>
    decreases nodes.len(),
{
    if nodes.len() == 0 {
        None
    } else if nodes.last().id@ == id {
        Some(nodes.len() - 1)
    } else {
        find_node(nodes.drop_last(), id)
    }
}

/// Map insertion of `n`: replaces the node with the same id in place, or appends.
pub open spec fn insert_node(nodes: Seq<Node>, n: Node) -> Seq<Node> {
    match find_node(nodes, n.id@) {
        Some(i) => nodes.update(i, n),
        None => nodes.push(n),
    }
}

/// The node sequence built by inserting `ns` in order.
pub open spec fn build_nodes(ns: Seq<Node>) -> Seq<Node>
    decreases ns.len(),
{
    if ns.len() == 0 {
        Seq::empty()
    } else {
        insert_node(build_nodes(ns.drop_last()), ns.last())
    }
}

/// No two nodes share an id.
pub open spec fn unique_ids(nodes: Seq<Node>) -> bool {
    forall|i: int, j: int| 0 <= i < nodes.len() && 0 <= j < nodes.len() && i != j
        ==> nodes[i].id@ != nodes[j].id@
}

pub proof fn lemma_find_node(nodes: Seq<Node>, id: Seq<char>)
    ensures
        match find_node(nodes, id) {
            Some(i) => 0 <= i < nodes.len() && nodes[i].id@ == id,
            None => forall|j: int| 0 <= j < nodes.len() ==> nodes[j].id@ != id,
        },
    decreases nodes.len(),
{
    if nodes.len() > 0 {
        let d = nodes.drop_last();
        lemma_find_node(d, id);
        assert forall|j: int| 0 <= j < d.len() implies d[j] == nodes[j] by {}
    }
}

pub proof fn lemma_find_node_unique(nodes: Seq<Node>, id: Seq<char>, k: int)
    requires
        unique_ids(nodes),
        0 <= k < nodes.len(),
        nodes[k].id@ == id,
    ensures
        find_node(nodes, id) == Some(k),
{
    lemma_find_node(nodes, id);
}

pub proof fn lemma_build_nodes_unique(ns: Seq<Node>)
    ensures
        unique_ids(build_nodes(ns)),
    decreases ns.len(),
{
    if ns.len() > 0 {
        lemma_build_nodes_unique(ns.drop_last());
        lemma_find_node(build_nodes(ns.drop_last()), ns.last().id@);
    }
}

/// Directed traceability graph: nodes in insertion order (keyed by id) and edges.
pub struct TraceGraph {
    positions: IndexMap<String, usize>,
    nodes: Vec<Node>,
    edges: Vec<Edge>,
}

impl TraceGraph {
    /// The nodes, in insertion order.
    pub closed spec fn node_seq(&self) -> Seq<Node> {
        self.nodes@
    }

    /// The edges, in insertion order.
    pub closed spec fn edge_seq(&self) -> Seq<Edge> {
        self.edges@
    }

    #[verifier::type_invariant]
    closed spec fn wf(&self) -> bool {
        &&& position_entries(self.positions).len() == self.nodes@.len()
        &&& forall|i: int|
            0 <= i < self.nodes@.len() ==> #[trigger] entry_is(position_entries(self.positions)[i], self.nodes@[i].id@, i)
        &&& unique_ids(self.nodes@)
    }

    /// The empty graph.
    pub fn empty() -> (g: TraceGraph)
        ensures
            g.node_seq() == Seq::<Node>::empty(),
            g.edge_seq() == Seq::<Edge>::empty(),
    {
        TraceGraph { positions: positions_new(), nodes: Vec::new(), edges: Vec::new() }
    }

    /// Builds a graph from node and edge lists; a later node with the id of an earlier
    /// one replaces it in its place.
    pub fn from_parts(nodes: Vec<Node>, edges: Vec<Edge>) -> (g: TraceGraph)
        ensures
            g.node_seq() == build_nodes(nodes@),
            g.edge_seq() == edges@,
    {
        let mut positions = positions_new();
        let mut list: Vec<Node> = Vec::new();
        let ghost input = nodes@;
        for n in it: nodes
            invariant
                input == it.seq(),
                list@ == build_nodes(input.take(it.index() as int)),
                position_entries(positions).len() == list@.len(),
                forall|i: int|
                    0 <= i < list@.len() ==> #[trigger] entry_is(position_entries(positions)[i], list@[i].id@, i),
                unique_ids(list@),
        {
            let ghost k = it.index() as int;
            let ghost old_list = list@;
            let ghost old_entries = position_entries(positions);
            proof {
                assert(input.take(k + 1).drop_last() == input.take(k));
                assert(input.take(k + 1).last() == n);
                lemma_build_nodes_unique(input.take(k + 1));
            }
            match positions_get(&positions, n.id.as_str()) {
                Some(p) => {
                    proof {
                        let i = choose|i: int|
                            0 <= i < position_entries(positions).len()
                                && position_entries(positions)[i].0 == n.id@
                                && position_entries(positions)[i].1 == p;
                        assert(entry_is(position_entries(positions)[i], list@[i].id@, i));
                        lemma_find_node_unique(list@, n.id@, i);
                    }
                    list.set(p, n);
                    assert(list@ == insert_node(old_list, n));
                    assert forall|i: int| 0 <= i < list@.len() implies #[trigger] entry_is(position_entries(positions)[i], list@[i].id@, i) by {
                        assert(entry_is(old_entries[i], old_list[i].id@, i));
                    }
                }
                None => {
                    proof {
                        assert forall|j: int| 0 <= j < list@.len() implies list@[j].id@ != n.id@ by {
                            assert(entry_is(position_entries(positions)[j], list@[j].id@, j));
                        }
                        lemma_find_node(list@, n.id@);
                    }
                    let key = n.id.clone();
                    let pos = list.len();
                    positions_insert(&mut positions, key, pos);
                    list.push(n);
                    assert(list@ == insert_node(old_list, n));
                    assert forall|i: int| 0 <= i < list@.len() implies #[trigger] entry_is(position_entries(positions)[i], list@[i].id@, i) by {
                        if i < old_list.len() {
                            assert(entry_is(old_entries[i], old_list[i].id@, i));
                        }
                    }
                }
            }
        }
        proof {
            assert(input.take(input.len() as int) == input);
        }
        TraceGraph { positions, nodes: list, edges }
    }

    /// The nodes, in insertion order.
    pub fn nodes(&self) -> (r: &[Node])
        ensures
            r@ == self.node_seq(),
            unique_ids(r@),
    {
        proof {
            use_type_invariant(self);
        }
        self.nodes.as_slice()
    }

    /// The edges, in insertion order.
    pub fn edges(&self) -> (r: &[Edge])
        ensures
            r@ == self.edge_seq(),
    {
        self.edges.as_slice()
    }

    /// The node whose id is `id`.
    pub fn node(&self, id: &str) -> (r: Option<&Node>)
        ensures
            match find_node(self.node_seq(), id@) {
                Some(i) => r == Some(&self.node_seq()[i]),
                None => r is None,
            },
    {
        proof {
            use_type_invariant(self);
            lemma_find_node(self.nodes@, id@);
        }
        match positions_get(&self.positions, id) {
            Some(p) => {
                proof {
                    let i = choose|i: int|
                        0 <= i < position_entries(self.positions).len()
                            && position_entries(self.positions)[i].0 == id@
                            && position_entries(self.positions)[i].1 == p;
                    assert(entry_is(position_entries(self.positions)[i], self.nodes@[i].id@, i));
                    lemma_find_node_unique(self.nodes@, id@, i);
                }
                Some(&self.nodes[p])
            },
            None => {
                proof {
                    assert forall|j: int| 0 <= j < self.nodes@.len() implies self.nodes@[j].id@ != id@ by {
                        assert(entry_is(position_entries(self.positions)[j], self.nodes@[j].id@, j));
                    }
                }
                None
            },
        }
    }

    /// Number of nodes.
    pub fn node_count(&self) -> (r: usize)
        ensures
            r == self.node_seq().len(),
    {
        self.nodes.len()
    }

    /// Document nodes (ids without `#`), in insertion order.
    pub fn document_nodes(&self) -> (r: Vec<&Node>)
        ensures
            r@.map_values(|n: &Node| *n) == document_nodes_of(self.node_seq()),
    {
        let mut out: Vec<&Node> = Vec::new();
        let mut i: usize = 0;
        while i < self.nodes.len()
            invariant
                i <= self.nodes@.len(),
                out@.map_values(|n: &Node| *n) == document_nodes_of(self.nodes@.take(i as int)),
            decreases self.nodes@.len() - i,
        {
            let n = &self.nodes[i];
            proof {
                assert(self.nodes@.take(i + 1).drop_last() == self.nodes@.take(i as int));
            }
            let ghost before = out@;
            if !contains_char(n.id.as_str(), '#') {
                out.push(n);
                assert(out@.map_values(|n: &Node| *n) =~= before.map_values(|n: &Node| *n).push(*n));
            }
            i = i + 1;
        }
        assert(self.nodes@.take(self.nodes@.len() as int) == self.nodes@);
        out
    }
}


/// A `[[nodes]]` entry of the graph file.
#[derive(Debug, Clone, PartialEq, Eq)]
pub struct NodeRow {
    pub id: String,
    pub type_code: String,
    pub path: String,
    pub parent_id: Option<String>,
}

/// An `[[edges]]` entry of the graph file; `kind` as written.
#[derive(Debug, Clone, PartialEq, Eq)]
pub struct EdgeRow {
    pub from: String,
    pub to: String,
    pub kind: String,
}

/// The edge kind a graph file names: `chain`, `custom` or `parent_child`.
pub open spec fn edge_kind_named(k: Seq<char>) -> Option<EdgeKind> {
    if k == "chain"@ {
        Some(EdgeKind::Chain)
    } else if k == "custom"@ {
        Some(EdgeKind::Custom)
    } else if k == "parent_child"@ {
        Some(EdgeKind::ParentChild)
    } else {
        None
    }
}

/// The first edge entry whose kind is none of the known ones.
pub open spec fn first_unknown_kind(edges: Seq<EdgeRow>) -> Option<int> {
    if exists|i: int| 0 <= i < edges.len() && edge_kind_named((#[trigger] edges[i]).kind@) is None {
        Some(choose|i: int| 0 <= i < edges.len() && edge_kind_named((#[trigger] edges[i]).kind@) is None
            && forall|j: int| 0 <= j < i ==> edge_kind_named((#[trigger] edges[j]).kind@) is Some)
    } else {
        None
    }
}

/// The node of a node entry (no anchor).
pub open spec fn node_of_row(r: NodeRow) -> Node {
    Node { id: r.id, type_code: r.type_code, path: r.path, parent_id: r.parent_id, anchor: None }
}

/// The message for an edge entry of unknown kind.
pub open spec fn unknown_kind_message(e: EdgeRow) -> Seq<char> {
    "unknown edge kind '"@ + e.kind@ + "' (from "@ + e.from@ + " to "@ + e.to@ + ")"@
}

fn kind_named(k: &str) -> (r: Option<EdgeKind>)
    ensures
        r == edge_kind_named(k@),
{
    if crate::text::str_eq(k, "chain") {
        Some(EdgeKind::Chain)
    } else if crate::text::str_eq(k, "custom") {
        Some(EdgeKind::Custom)
    } else if crate::text::str_eq(k, "parent_child") {
        Some(EdgeKind::ParentChild)
    } else {
        None
    }
}

/// The graph that the entries of a graph file describe: its nodes (a later entry with
/// the id of an earlier one replaces it) and its edges in order. An edge of unknown
/// kind is a parse error that names the first such edge.
pub fn graph_from_rows(nodes: Vec<NodeRow>, edges: Vec<EdgeRow>) -> (r: Result<TraceGraph, GraphError>)
    ensures
        match first_unknown_kind(edges@) {
            Some(i) => r matches Err(GraphError::Parse(m)) && m@ == unknown_kind_message(edges@[i]),
            None => r matches Ok(g) && g.node_seq() == build_nodes(nodes@.map_values(|n: NodeRow| node_of_row(n)))
                && g.edge_seq().len() == edges@.len() && forall|i: int|
                0 <= i < edges@.len() ==> (#[trigger] g.edge_seq()[i]).from == edges@[i].from && g.edge_seq()[i].to
                    == edges@[i].to && Some(g.edge_seq()[i].kind) == edge_kind_named(edges@[i].kind@),
        },
{
    let mut list: Vec<Edge> = Vec::new();
    let mut i: usize = 0;
    while i < edges.len()
        invariant
            i <= edges@.len(),
            list@.len() == i,
            forall|j: int| 0 <= j < i ==> edge_kind_named((#[trigger] edges@[j]).kind@) is Some,
            forall|j: int|
                0 <= j < i ==> (#[trigger] list@[j]).from == edges@[j].from && list@[j].to == edges@[j].to && Some(
                    list@[j].kind,
                ) == edge_kind_named(edges@[j].kind@),
        decreases edges@.len() - i,
    {
        let e = &edges[i];
        match kind_named(e.kind.as_str()) {
            Some(kind) => {
                list.push(Edge { from: e.from.clone(), to: e.to.clone(), kind });
            },
            None => {
                let mut m = String::from_str("unknown edge kind '");
                m.append(e.kind.as_str());
                m.append("' (from ");
                m.append(e.from.as_str());
                m.append(" to ");
                m.append(e.to.as_str());
                m.append(")");
                proof {
                    let k = i as int;
                    assert(0 <= k < edges@.len() && edge_kind_named(edges@[k].kind@) is None);
                    let c = choose|c: int| 0 <= c < edges@.len() && edge_kind_named((#[trigger] edges@[c]).kind@) is None
                        && forall|j: int| 0 <= j < c ==> edge_kind_named((#[trigger] edges@[j]).kind@) is Some;
                    assert(c == k) by {
                        if c < k {
                            assert(edge_kind_named(edges@[c].kind@) is Some);
                        } else if c > k {
                            assert(edge_kind_named(edges@[k].kind@) is Some);
                        }
                    }
                }
                return Err(GraphError::Parse(m));
            },
        }
        i = i + 1;
    }
    let mut ns: Vec<Node> = Vec::new();
    let mut k: usize = 0;
    while k < nodes.len()
        invariant
            k <= nodes@.len(),
            ns@ == nodes@.take(k as int).map_values(|n: NodeRow| node_of_row(n)),
        decreases nodes@.len() - k,
    {
        let n = &nodes[k];
        ns.push(Node { id: n.id.clone(), type_code: n.type_code.clone(), path: n.path.clone(), parent_id: n.parent_id.clone(), anchor: None });
        assert(ns@ =~= nodes@.take(k + 1).map_values(|n: NodeRow| node_of_row(n)));
        k = k + 1;
    }
    assert(nodes@.take(nodes@.len() as int) =~= nodes@);
    let g = TraceGraph::from_parts(ns, list);
    Ok(g)
}

} // verus!
