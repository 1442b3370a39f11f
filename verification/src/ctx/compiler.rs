use vstd::prelude::*;

use crate::check::contains_str;
use crate::common::{string_views, Config};
use crate::ctx::audit::{resolved_ids, write_entry};
use crate::ctx::outline::{build_outline, outline};
use crate::ctx::types::{
    CompileInput, ContextError, ContextResult, DbConn, Granularity, ResolvedTarget, TargetNodeMetadata,
    UpstreamArtifact,
};
use crate::ctx::walker::{upstream_of, Found, UpstreamWalker};
use crate::graph::{find_node, lemma_find_node, Edge, EdgeKind, Node, NodeId, TraceGraph};
use crate::order::{index_order, key_views, stable_order};
use crate::subnode::{
    byte_offsets, bytes_before, extract_from, extract_subnodes_with_levels, hash_count, lemma_hash_count,
    lemma_trailing_hashes, lemma_trim_end, lemma_trim_start, normalize_heading, normalized_heading,
    trailing_hashes, trim_end, trim_start, AutoSubnode, SubnodeView,
};
use crate::text::{chars_between, chars_of, contains_char, is_white, split_chars, split_on, str_eq, string_from_chars, views, white};

verus! {

/// The content of the first source file whose path is `p` (empty when there is none,
/// as for a file that cannot be read).
pub open spec fn source_body(s: Seq<(String, String)>, p: Seq<char>) -> Seq<char>
    decreases s.len(),
{
    if s.len() == 0 {
        Seq::empty()
    } else if s[0].0@ == p {
        s[0].1@
    } else {
        source_body(s.drop_first(), p)
    }
}

/// Index of the first node whose path is `p`.
pub open spec fn node_with_path(nodes: Seq<Node>, p: Seq<char>) -> Option<int>
    decreases nodes.len(),
{
    if nodes.len() == 0 {
        None
    } else if nodes[0].path@ == p {
        Some(0)
    } else {
        match node_with_path(nodes.drop_first(), p) {
            Some(i) => Some(i + 1),
            None => None,
        }
    }
}

/// A resolved target as plain values: path, node id and type code.
pub type TargetView = (Seq<char>, Option<Seq<char>>, Option<Seq<char>>);

/// How a target file resolves: to the first node with its path, if any.
pub open spec fn target_of(nodes: Seq<Node>, p: Seq<char>) -> TargetView {
    match node_with_path(nodes, p) {
        Some(i) => (p, Some(nodes[i].id@), Some(nodes[i].type_code@)),
        None => (p, None, None),
    }
}

/// A plain view of an optional string.
pub open spec fn opt_str(o: Option<String>) -> Option<Seq<char>> {
    match o {
        Some(s) => Some(s@),
        None => None,
    }
}

/// The view of a resolved target.
pub open spec fn target_view(t: ResolvedTarget) -> TargetView {
    (t.file_path@, opt_str(t.artifact_id), opt_str(t.type_code))
}

/// The paths of the targets that did not resolve, in order.
pub open spec fn unresolved_of(ts: Seq<TargetView>) -> Seq<Seq<char>>
    decreases ts.len(),
{
    if ts.len() == 0 {
        Seq::empty()
    } else if ts.last().1 is None {
        unresolved_of(ts.drop_last()).push(ts.last().0)
    } else {
        unresolved_of(ts.drop_last())
    }
}

/// Paths in path order: compared component by component (the pieces between `/`).
pub open spec fn path_order(ps: Seq<Seq<char>>) -> Seq<Seq<char>> {
    index_order(ps.map_values(|p: Seq<char>| split_on(p, '/')), ps.len() as int).map_values(|i: int| ps[i])
}

/// The text after the first `#` of `s`, if it has one.
pub open spec fn after_hash(s: Seq<char>) -> Option<Seq<char>>
    decreases s.len(),
{
    if s.len() == 0 {
        None
    } else if s[0] == '#' {
        Some(s.drop_first())
    } else {
        after_hash(s.drop_first())
    }
}

/// A subnode reference: id, type code and anchor.
pub type SubRef = (Seq<char>, Seq<char>, Option<Seq<char>>);

/// The subnode reference of a node: its anchor is the node's own, else the text after
/// the first `#` of its id.
pub open spec fn sub_ref(n: Node) -> SubRef {
    (
        n.id@,
        n.type_code@,
        match n.anchor {
            Some(a) => Some(a@),
            None => after_hash(n.id@),
        },
    )
}

/// The subnodes of `parent`: the targets of its parent-child edges that are nodes, in
/// edge order.
pub open spec fn subnodes_of(nodes: Seq<Node>, edges: Seq<Edge>, parent: Seq<char>) -> Seq<SubRef>
    decreases edges.len(),
{
    if edges.len() == 0 {
        Seq::empty()
    } else {
        let prev = subnodes_of(nodes, edges.drop_last(), parent);
        let e = edges.last();
        if e.kind == EdgeKind::ParentChild && e.from@ == parent {
            match find_node(nodes, e.to@) {
                Some(i) => prev.push(sub_ref(nodes[i])),
                None => prev,
            }
        } else {
            prev
        }
    }
}

/// The subnodes that the targets link to: the ends containing `#` of chain and custom
/// edges leaving a target, in edge order.
pub open spec fn linked_of(edges: Seq<Edge>, targets: Seq<Seq<char>>) -> Seq<Seq<char>>
    decreases edges.len(),
{
    if edges.len() == 0 {
        Seq::empty()
    } else {
        let prev = linked_of(edges.drop_last(), targets);
        let e = edges.last();
        if (e.kind == EdgeKind::Chain || e.kind == EdgeKind::Custom) && targets.contains(e.from@) && e.to@.contains(
            '#',
        ) {
            prev.push(e.to@)
        } else {
            prev
        }
    }
}

/// The ids of `subs` that `linked` contains, in order.
pub open spec fn linked_subs(subs: Seq<SubRef>, linked: Seq<Seq<char>>) -> Seq<SubRef>
    decreases subs.len(),
{
    if subs.len() == 0 {
        Seq::empty()
    } else if linked.contains(subs.last().0) {
        linked_subs(subs.drop_last(), linked).push(subs.last())
    } else {
        linked_subs(subs.drop_last(), linked)
    }
}

fn source_of(sources: &Vec<(String, String)>, path: &str) -> (r: String)
    ensures
        r@ == source_body(sources@, path@),
{
    let mut i: usize = 0;
    assert(sources@.skip(0) =~= sources@);
    while i < sources.len()
        invariant
            i <= sources@.len(),
            source_body(sources@, path@) == source_body(sources@.skip(i as int), path@),
        decreases sources@.len() - i,
    {
        let ghost rest = sources@.skip(i as int);
        assert(rest[0] == sources@[i as int]);
        if str_eq(sources[i].0.as_str(), path) {
            return sources[i].1.clone();
        }
        assert(rest.drop_first() =~= sources@.skip(i + 1));
        i = i + 1;
    }
    assert(sources@.skip(i as int) =~= Seq::<(String, String)>::empty());
    String::new()
}

fn path_node(nodes: &[Node], p: &str) -> (r: Option<usize>)
    ensures
        match node_with_path(nodes@, p@) {
            Some(i) => r == Some(i as usize) && 0 <= i < nodes@.len(),
            None => r is None,
        },
{
    let mut i: usize = 0;
    while i < nodes.len()
        invariant
            i <= nodes@.len(),
            forall|j: int| 0 <= j < i ==> nodes@[j].path@ != p@,
        decreases nodes@.len() - i,
    {
        if str_eq(nodes[i].path.as_str(), p) {
            proof {
                lemma_node_with_path(nodes@, p@, i as int);
            }
            return Some(i);
        }
        i = i + 1;
    }
    proof {
        lemma_no_node_with_path(nodes@, p@);
    }
    None
}

proof fn lemma_node_with_path(nodes: Seq<Node>, p: Seq<char>, i: int)
    requires
        0 <= i < nodes.len(),
        nodes[i].path@ == p,
        forall|j: int| 0 <= j < i ==> nodes[j].path@ != p,
    ensures
        node_with_path(nodes, p) == Some(i),
    decreases i,
{
    if i > 0 {
        let d = nodes.drop_first();
        lemma_node_with_path(d, p, i - 1);
    }
}

proof fn lemma_no_node_with_path(nodes: Seq<Node>, p: Seq<char>)
    requires
        forall|j: int| 0 <= j < nodes.len() ==> nodes[j].path@ != p,
    ensures
        node_with_path(nodes, p) is None,
    decreases nodes.len(),
{
    if nodes.len() > 0 {
        let d = nodes.drop_first();
        assert forall|j: int| 0 <= j < d.len() implies d[j].path@ != p by {
            assert(d[j] == nodes[j + 1]);
        }
        lemma_no_node_with_path(d, p);
    }
}

fn resolve_targets(nodes: &[Node], files: &Vec<String>) -> (r: Vec<ResolvedTarget>)
    ensures
        r@.map_values(|t: ResolvedTarget| target_view(t)) == string_views(files@).map_values(
            |p: Seq<char>| target_of(nodes@, p),
        ),
{
    let mut out: Vec<ResolvedTarget> = Vec::new();
    let mut i: usize = 0;
    while i < files.len()
        invariant
            i <= files@.len(),
            out@.len() == i,
            forall|j: int| 0 <= j < i ==> target_view(#[trigger] out@[j]) == target_of(nodes@, files@[j]@),
        decreases files@.len() - i,
    {
        let t = match path_node(nodes, files[i].as_str()) {
            Some(k) => ResolvedTarget {
                file_path: files[i].clone(),
                artifact_id: Some(nodes[k].id.clone()),
                type_code: Some(nodes[k].type_code.clone()),
            },
            None => ResolvedTarget { file_path: files[i].clone(), artifact_id: None, type_code: None },
        };
        let ghost prev = out@;
        out.push(t);
        assert forall|j: int| 0 <= j < i + 1 implies target_view(#[trigger] out@[j]) == target_of(
            nodes@,
            files@[j]@,
        ) by {
            if j < i {
                assert(out@[j] == prev[j]);
            }
        }
        i = i + 1;
    }
    assert(out@.map_values(|t: ResolvedTarget| target_view(t)) =~= string_views(files@).map_values(
        |p: Seq<char>| target_of(nodes@, p),
    ));
    out
}

fn unresolved_paths(ts: &Vec<ResolvedTarget>) -> (r: Vec<String>)
    ensures
        string_views(r@) == path_order(unresolved_of(ts@.map_values(|t: ResolvedTarget| target_view(t)))),
{
    let ghost tv = ts@.map_values(|t: ResolvedTarget| target_view(t));
    let mut paths: Vec<String> = Vec::new();
    let mut keys: Vec<Vec<String>> = Vec::new();
    let mut i: usize = 0;
    while i < ts.len()
        invariant
            i <= ts@.len(),
            tv == ts@.map_values(|t: ResolvedTarget| target_view(t)),
            string_views(paths@) == unresolved_of(tv.take(i as int)),
            keys@.len() == paths@.len(),
            forall|j: int| 0 <= j < keys@.len() ==> string_views(#[trigger] keys@[j]@) == split_on(paths@[j]@, '/'),
        decreases ts@.len() - i,
    {
        assert(tv.take(i + 1).drop_last() =~= tv.take(i as int));
        assert(tv.take(i + 1).last() == target_view(ts@[i as int]));
        if ts[i].artifact_id.is_none() {
            let c = chars_of(ts[i].file_path.as_str());
            let pieces = split_chars(&c, '/');
            let mut key: Vec<String> = Vec::new();
            let mut k: usize = 0;
            while k < pieces.len()
                invariant
                    k <= pieces@.len(),
                    key@.len() == k,
                    string_views(key@) == views(pieces@).take(k as int),
                decreases pieces@.len() - k,
            {
                let ghost before = key@;
                key.push(string_from_chars(pieces[k].as_slice()));
                assert(string_views(key@) =~= views(pieces@).take(k + 1));
                k = k + 1;
            }
            assert(views(pieces@).take(pieces@.len() as int) =~= views(pieces@));
            let ghost pprev = paths@;
            let ghost kprev = keys@;
            paths.push(ts[i].file_path.clone());
            keys.push(key);
            assert(string_views(paths@) =~= string_views(pprev).push(ts@[i as int].file_path@));
            assert forall|j: int| 0 <= j < keys@.len() implies string_views(#[trigger] keys@[j]@) == split_on(
                paths@[j]@,
                '/',
            ) by {
                if j < kprev.len() {
                    assert(keys@[j] == kprev[j]);
                    assert(paths@[j] == pprev[j]);
                }
            }
        }
        i = i + 1;
    }
    assert(tv.take(ts@.len() as int) =~= tv);
    let ghost ps = string_views(paths@);
    assert(key_views(keys@) =~= ps.map_values(|p: Seq<char>| split_on(p, '/')));
    let order = stable_order(&keys);
    let ghost o = order@.map_values(|x: usize| x as int);
    proof {
        crate::order::lemma_index_order(ps.map_values(|p: Seq<char>| split_on(p, '/')), ps.len() as int);
    }
    let mut out: Vec<String> = Vec::new();
    let mut j: usize = 0;
    while j < order.len()
        invariant
            j <= order@.len(),
            ps == string_views(paths@),
            o == order@.map_values(|x: usize| x as int),
            o == index_order(ps.map_values(|p: Seq<char>| split_on(p, '/')), ps.len() as int),
            crate::order::is_permutation(o, ps.len() as int),
            out@.len() == j,
            string_views(out@) == o.take(j as int).map_values(|x: int| ps[x]),
        decreases order@.len() - j,
    {
        let ghost prev = out@;
        assert(0 <= o[j as int] < ps.len());
        out.push(paths[order[j]].clone());
        proof {
            let lhs = string_views(out@);
            let rhs = o.take(j + 1).map_values(|x: int| ps[x]);
            assert forall|x: int| 0 <= x < lhs.len() implies lhs[x] == rhs[x] by {
                if x < j {
                    assert(out@[x] == prev[x]);
                    assert(string_views(prev)[x] == o.take(j as int).map_values(|y: int| ps[y])[x]);
                }
            }
            assert(lhs =~= rhs);
        }
        j = j + 1;
    }
    assert(o.take(o.len() as int) =~= o);
    out
}


/// An exec subnode reference: id, type code and anchor.
pub open spec fn ref_view(r: (String, String, Option<String>)) -> SubRef {
    (r.0@, r.1@, opt_str(r.2))
}

proof fn lemma_after_hash(s: Seq<char>, i: int)
    requires
        0 <= i < s.len(),
        s[i] == '#',
        forall|j: int| 0 <= j < i ==> s[j] != '#',
    ensures
        after_hash(s) == Some(s.skip(i + 1)),
    decreases i,
{
    if i > 0 {
        lemma_after_hash(s.drop_first(), i - 1);
        assert(s.drop_first().skip(i) =~= s.skip(i + 1));
    } else {
        assert(s.drop_first() =~= s.skip(1));
    }
}

proof fn lemma_no_hash(s: Seq<char>)
    requires
        forall|j: int| 0 <= j < s.len() ==> s[j] != '#',
    ensures
        after_hash(s) is None,
    decreases s.len(),
{
    if s.len() > 0 {
        let d = s.drop_first();
        assert forall|j: int| 0 <= j < d.len() implies d[j] != '#' by {
            assert(d[j] == s[j + 1]);
        }
        lemma_no_hash(d);
    }
}

/// The text after the first `#` of `s`, if it has one.
fn text_after_hash(s: &str) -> (r: Option<String>)
    ensures
        opt_str(r) == after_hash(s@),
{
    let c = chars_of(s);
    let mut i: usize = 0;
    while i < c.len()
        invariant
            c@ == s@,
            i <= c@.len(),
            forall|j: int| 0 <= j < i ==> c@[j] != '#',
        decreases c@.len() - i,
    {
        if c[i] == '#' {
            proof {
                lemma_after_hash(c@, i as int);
                assert(c@.subrange(i + 1, c@.len() as int) =~= c@.skip(i + 1));
            }
            return Some(chars_between(&c, i + 1, c.len()));
        }
        i = i + 1;
    }
    proof {
        lemma_no_hash(c@);
    }
    None
}


/// The subnode references of `parent` (see `subnodes_of`).
fn subnode_refs(graph: &TraceGraph, parent: &str) -> (r: Vec<(String, String, Option<String>)>)
    ensures
        r@.map_values(|x: (String, String, Option<String>)| ref_view(x)) == subnodes_of(
            graph.node_seq(),
            graph.edge_seq(),
            parent@,
        ),
{
    let es = graph.edges();
    let ghost nodes = graph.node_seq();
    let ghost edges = graph.edge_seq();
    let mut out: Vec<(String, String, Option<String>)> = Vec::new();
    let mut k: usize = 0;
    while k < es.len()
        invariant
            es@ == edges,
            edges == graph.edge_seq(),
            nodes == graph.node_seq(),
            k <= edges.len(),
            out@.map_values(|x: (String, String, Option<String>)| ref_view(x)) == subnodes_of(
                nodes,
                edges.take(k as int),
                parent@,
            ),
        decreases edges.len() - k,
    {
        assert(edges.take(k + 1).drop_last() =~= edges.take(k as int));
        assert(edges.take(k + 1).last() == edges[k as int]);
        let e = &es[k];
        if e.kind == EdgeKind::ParentChild && str_eq(e.from.as_str(), parent) {
            match graph.node(e.to.as_str()) {
                Some(n) => {
                    let anchor = match &n.anchor {
                        Some(a) => Some(a.clone()),
                        None => text_after_hash(n.id.as_str()),
                    };
                    let ghost prev = out@;
                    let x = (n.id.clone(), n.type_code.clone(), anchor);
                    assert(ref_view(x) == sub_ref(*n));
                    out.push(x);
                    assert(out@.map_values(|x: (String, String, Option<String>)| ref_view(x)) =~= prev.map_values(
                        |x: (String, String, Option<String>)| ref_view(x),
                    ).push(ref_view(x)));
                },
                None => {},
            }
        }
        k = k + 1;
    }
    assert(edges.take(edges.len() as int) =~= edges);
    out
}

/// The subnodes the targets link to (see `linked_of`).
fn linked_targets(graph: &TraceGraph, targets: &Vec<String>) -> (r: Vec<String>)
    ensures
        string_views(r@) == linked_of(graph.edge_seq(), string_views(targets@)),
{
    let es = graph.edges();
    let ghost edges = graph.edge_seq();
    let mut out: Vec<String> = Vec::new();
    let mut k: usize = 0;
    while k < es.len()
        invariant
            es@ == edges,
            edges == graph.edge_seq(),
            k <= edges.len(),
            string_views(out@) == linked_of(edges.take(k as int), string_views(targets@)),
        decreases edges.len() - k,
    {
        assert(edges.take(k + 1).drop_last() =~= edges.take(k as int));
        assert(edges.take(k + 1).last() == edges[k as int]);
        let e = &es[k];
        if (e.kind == EdgeKind::Chain || e.kind == EdgeKind::Custom) && contains_str(targets, e.from.as_str())
            && contains_char(e.to.as_str(), '#') {
            let ghost prev = out@;
            out.push(e.to.clone());
            assert(string_views(out@) =~= string_views(prev).push(e.to@));
        }
        k = k + 1;
    }
    assert(edges.take(edges.len() as int) =~= edges);
    out
}

/// A target's metadata as plain values: id, outgoing and incoming edges (other end and
/// kind), subnode count and unresolved targets.
pub type MetaView = (Seq<char>, Seq<(Seq<char>, EdgeKind)>, Seq<(Seq<char>, EdgeKind)>, int, Seq<Seq<char>>);

/// The view of a target's metadata.
pub open spec fn meta_view(m: TargetNodeMetadata) -> MetaView {
    (
        m.artifact_id@,
        m.outgoing_edges@.map_values(|e: (NodeId, EdgeKind)| (e.0@, e.1)),
        m.incoming_edges@.map_values(|e: (NodeId, EdgeKind)| (e.0@, e.1)),
        m.subnode_count as int,
        string_views(m.unresolved_targets@),
    )
}

/// The edges leaving `id`: target and kind, in edge order.
pub open spec fn outgoing_of(edges: Seq<Edge>, id: Seq<char>) -> Seq<(Seq<char>, EdgeKind)>
    decreases edges.len(),
{
    if edges.len() == 0 {
        Seq::empty()
    } else if edges.last().from@ == id {
        outgoing_of(edges.drop_last(), id).push((edges.last().to@, edges.last().kind))
    } else {
        outgoing_of(edges.drop_last(), id)
    }
}

/// The edges entering `id`: source and kind, in edge order.
pub open spec fn incoming_of(edges: Seq<Edge>, id: Seq<char>) -> Seq<(Seq<char>, EdgeKind)>
    decreases edges.len(),
{
    if edges.len() == 0 {
        Seq::empty()
    } else if edges.last().to@ == id {
        incoming_of(edges.drop_last(), id).push((edges.last().from@, edges.last().kind))
    } else {
        incoming_of(edges.drop_last(), id)
    }
}

/// The metadata of target `id` (the `i`-th resolved target): its edges, its number of
/// subnodes, and, for the first target only, the unresolved targets.
pub open spec fn meta_of(nodes: Seq<Node>, edges: Seq<Edge>, id: Seq<char>, i: int, unresolved: Seq<Seq<char>>) -> MetaView {
    (
        id,
        outgoing_of(edges, id),
        incoming_of(edges, id),
        subnodes_of(nodes, edges, id).len() as int,
        if i == 0 {
            unresolved
        } else {
            Seq::empty()
        },
    )
}

fn edges_of(graph: &TraceGraph, id: &str, outgoing: bool) -> (r: Vec<(NodeId, EdgeKind)>)
    ensures
        r@.map_values(|e: (NodeId, EdgeKind)| (e.0@, e.1)) == if outgoing {
            outgoing_of(graph.edge_seq(), id@)
        } else {
            incoming_of(graph.edge_seq(), id@)
        },
{
    let es = graph.edges();
    let ghost edges = graph.edge_seq();
    let ghost want = if outgoing {
        outgoing_of(edges, id@)
    } else {
        incoming_of(edges, id@)
    };
    let mut out: Vec<(NodeId, EdgeKind)> = Vec::new();
    let mut k: usize = 0;
    while k < es.len()
        invariant
            es@ == edges,
            edges == graph.edge_seq(),
            k <= edges.len(),
            out@.map_values(|e: (NodeId, EdgeKind)| (e.0@, e.1)) == if outgoing {
                outgoing_of(edges.take(k as int), id@)
            } else {
                incoming_of(edges.take(k as int), id@)
            },
        decreases edges.len() - k,
    {
        assert(edges.take(k + 1).drop_last() =~= edges.take(k as int));
        assert(edges.take(k + 1).last() == edges[k as int]);
        let e = &es[k];
        let ghost prev = out@;
        if outgoing {
            if str_eq(e.from.as_str(), id) {
                out.push((e.to.clone(), e.kind));
                assert(out@.map_values(|e: (NodeId, EdgeKind)| (e.0@, e.1)) =~= prev.map_values(
                    |e: (NodeId, EdgeKind)| (e.0@, e.1),
                ).push((edges[k as int].to@, edges[k as int].kind)));
            }
        } else {
            if str_eq(e.to.as_str(), id) {
                out.push((e.from.clone(), e.kind));
                assert(out@.map_values(|e: (NodeId, EdgeKind)| (e.0@, e.1)) =~= prev.map_values(
                    |e: (NodeId, EdgeKind)| (e.0@, e.1),
                ).push((edges[k as int].from@, edges[k as int].kind)));
            }
        }
        k = k + 1;
    }
    assert(edges.take(edges.len() as int) =~= edges);
    out
}

fn collect_metadata(graph: &TraceGraph, ids: &Vec<String>, unresolved: &Vec<String>) -> (r: Vec<TargetNodeMetadata>)
    ensures
        r@.len() == ids@.len(),
        forall|i: int|
            0 <= i < ids@.len() ==> meta_view(#[trigger] r@[i]) == meta_of(
                graph.node_seq(),
                graph.edge_seq(),
                ids@[i]@,
                i,
                string_views(unresolved@),
            ),
{
    let mut out: Vec<TargetNodeMetadata> = Vec::new();
    let mut i: usize = 0;
    while i < ids.len()
        invariant
            i <= ids@.len(),
            out@.len() == i,
            forall|j: int|
                0 <= j < i ==> meta_view(#[trigger] out@[j]) == meta_of(
                    graph.node_seq(),
                    graph.edge_seq(),
                    ids@[j]@,
                    j,
                    string_views(unresolved@),
                ),
        decreases ids@.len() - i,
    {
        let id = ids[i].as_str();
        let outgoing = edges_of(graph, id, true);
        let incoming = edges_of(graph, id, false);
        let subs = subnode_refs(graph, id);
        let un = if i == 0 {
            let u = crate::text::copy_strings(unresolved);
            assert(string_views(u@) =~= string_views(unresolved@));
            u
        } else {
            let u: Vec<String> = Vec::new();
            assert(string_views(u@) =~= Seq::<Seq<char>>::empty());
            u
        };
        let m = TargetNodeMetadata {
            artifact_id: ids[i].clone(),
            outgoing_edges: outgoing,
            incoming_edges: incoming,
            subnode_count: subs.len(),
            unresolved_targets: un,
        };
        let ghost prev = out@;
        out.push(m);
        assert forall|j: int|
            0 <= j < i + 1 implies meta_view(#[trigger] out@[j]) == meta_of(
                graph.node_seq(),
                graph.edge_seq(),
                ids@[j]@,
                j,
                string_views(unresolved@),
            ) by {
            if j < i {
                assert(out@[j] == prev[j]);
            }
        }
        i = i + 1;
    }
    out
}


/// An upstream artifact as plain values.
pub struct ArtView {
    pub artifact_id: Seq<char>,
    pub type_code: Seq<char>,
    pub file_path: Seq<char>,
    pub chain_distance: int,
    pub body: Seq<char>,
    pub subnode_id: Option<Seq<char>>,
    pub anchor: Option<Seq<char>>,
    pub drift_score: Option<Seq<char>>,
}

/// The view of an upstream artifact.
pub open spec fn art_view(a: UpstreamArtifact) -> ArtView {
    ArtView {
        artifact_id: a.artifact_id@,
        type_code: a.type_code@,
        file_path: a.file_path@,
        chain_distance: a.chain_distance as int,
        body: a.body@,
        subnode_id: opt_str(a.subnode_id),
        anchor: opt_str(a.anchor),
        drift_score: opt_str(a.drift_score),
    }
}

/// What upstream collection goes by: the graph, the source files, the granularity,
/// whether bodies become outlines, the subnode ids asked for, and the subnodes the
/// targets link to.
pub struct CollectCtx {
    pub nodes: Seq<Node>,
    pub edges: Seq<Edge>,
    pub sources: Seq<(String, String)>,
    pub granularity: Granularity,
    pub outline: bool,
    pub sections: Option<Seq<Seq<char>>>,
    pub linked: Seq<Seq<char>>,
}

/// Upstream collection so far: the ids taken and the artifacts.
pub struct Collected {
    pub seen: Seq<Seq<char>>,
    pub out: Seq<ArtView>,
}

/// A found artifact as a whole document: its file's content (or that content's
/// outline) as body.
pub open spec fn doc_art(x: CollectCtx, f: Found) -> ArtView {
    let src = source_body(x.sources, f.2);
    ArtView {
        artifact_id: f.0,
        type_code: f.1,
        file_path: f.2,
        chain_distance: f.3,
        body: if x.outline {
            outline(src)
        } else {
            src
        },
        subnode_id: None,
        anchor: None,
        drift_score: None,
    }
}

/// Adds a found document unless its id was taken already.
pub open spec fn add_doc(x: CollectCtx, st: Collected, f: Found) -> Collected {
    if st.seen.contains(f.0) {
        st
    } else {
        Collected { seen: st.seen.push(f.0), out: st.out.push(doc_art(x, f)) }
    }
}

/// The subnodes of `subs` that are asked for and not taken yet, in order, and the ids
/// taken after them.
pub open spec fn choose_subs(sections: Option<Seq<Seq<char>>>, subs: Seq<SubRef>, seen: Seq<Seq<char>>) -> (Seq<Seq<char>>, Seq<SubRef>)
    decreases subs.len(),
{
    if subs.len() == 0 {
        (seen, Seq::empty())
    } else {
        let prev = choose_subs(sections, subs.drop_last(), seen);
        let s = subs.last();
        let asked = match sections {
            Some(f) => f.contains(s.0),
            None => true,
        };
        if asked && !prev.0.contains(s.0) {
            (prev.0.push(s.0), prev.1.push(s))
        } else {
            prev
        }
    }
}

/// The range of the last extracted subnode with id `id`.
pub open spec fn range_by_id(ex: Seq<SubnodeView>, id: Seq<char>) -> Option<(int, int)>
    decreases ex.len(),
{
    if ex.len() == 0 {
        None
    } else if ex.last().id == id {
        Some(ex.last().range)
    } else {
        range_by_id(ex.drop_last(), id)
    }
}

/// The range of the last extracted subnode whose normalized heading is `key`.
pub open spec fn range_by_anchor(ex: Seq<SubnodeView>, key: Seq<char>) -> Option<(int, int)>
    decreases ex.len(),
{
    if ex.len() == 0 {
        None
    } else if normalized_heading(ex.last().anchor) == key {
        Some(ex.last().range)
    } else {
        range_by_anchor(ex.drop_last(), key)
    }
}

/// A heading anchor without its hashes and surrounding white space.
pub open spec fn strip_markers(a: Seq<char>) -> Seq<char> {
    let t = trim_start(trim_end(a));
    let t2 = trim_start(t.skip(hash_count(t) as int));
    let t3 = t2.take(t2.len() - trailing_hashes(t2));
    trim_start(trim_end(t3))
}

/// Where the section of a subnode lies in its document: by id, else by its anchor.
pub open spec fn range_of(ex: Seq<SubnodeView>, s: SubRef) -> Option<(int, int)> {
    match range_by_id(ex, s.0) {
        Some(r) => Some(r),
        None => match s.2 {
            Some(a) => range_by_anchor(ex, normalized_heading(strip_markers(a))),
            None => None,
        },
    }
}

/// The smallest element of `s` above `x`.
pub open spec fn min_above(s: Seq<int>, x: int) -> Option<int>
    decreases s.len(),
{
    if s.len() == 0 {
        None
    } else {
        let m = min_above(s.drop_last(), x);
        if s.last() > x {
            match m {
                Some(v) => Some(if v < s.last() {
                    v
                } else {
                    s.last()
                }),
                None => Some(s.last()),
            }
        } else {
            m
        }
    }
}

/// The starts of the ranges that are present.
pub open spec fn starts_of(rs: Seq<Option<(int, int)>>) -> Seq<int>
    decreases rs.len(),
{
    if rs.len() == 0 {
        Seq::empty()
    } else {
        match rs.last() {
            Some(r) => starts_of(rs.drop_last()).push(r.0),
            None => starts_of(rs.drop_last()),
        }
    }
}

/// The first character position from `i` on that starts at byte offset `b`.
pub open spec fn char_index_from(c: Seq<char>, b: int, i: int) -> Option<int>
    decreases c.len() + 1 - i,
{
    if i < 0 || i > c.len() {
        None
    } else if bytes_before(c, i) == b {
        Some(i)
    } else {
        char_index_from(c, b, i + 1)
    }
}

/// The text between byte offsets `b0` and `b1`; empty unless both are character
/// boundaries with `b0 <= b1`.
pub open spec fn byte_slice(c: Seq<char>, b0: int, b1: int) -> Seq<char> {
    match (char_index_from(c, b0, 0), char_index_from(c, b1, 0)) {
        (Some(i), Some(j)) => if i <= j {
            c.subrange(i, j)
        } else {
            Seq::empty()
        },
        _ => Seq::empty(),
    }
}

/// A chosen subnode as an artifact of its document: its anchor as body for outlines;
/// otherwise its section, cut where the next chosen section starts.
pub open spec fn sub_art(x: CollectCtx, f: Found, s: SubRef, r: Option<(int, int)>, content: Seq<char>, starts: Seq<int>) -> ArtView {
    ArtView {
        artifact_id: f.0,
        type_code: s.1,
        file_path: f.2,
        chain_distance: f.3,
        body: if x.outline {
            match s.2 {
                Some(a) => a,
                None => Seq::empty(),
            }
        } else {
            match r {
                Some(rg) => byte_slice(
                    content,
                    rg.0,
                    match min_above(starts, rg.0) {
                        Some(n) => if n < rg.1 {
                            n
                        } else {
                            rg.1
                        },
                        None => rg.1,
                    },
                ),
                None => Seq::empty(),
            }
        },
        subnode_id: Some(s.0),
        anchor: s.2,
        drift_score: None,
    }
}

/// Adds a found document at subnode granularity. It stays a whole document when it
/// has no subnodes, or when the targets link to subnodes but to none of its own (and
/// then it is left out when particular subnodes are asked for). Otherwise its
/// subnodes are added (only those the targets link to, when there are such), each
/// once, with their sections.
pub open spec fn add_subnodes(x: CollectCtx, st: Collected, f: Found) -> Collected {
    let all = subnodes_of(x.nodes, x.edges, f.0);
    let here = linked_subs(all, x.linked);
    if all.len() == 0 || (x.linked.len() > 0 && here.len() == 0) {
        if x.sections is Some {
            st
        } else {
            add_doc(x, st, f)
        }
    } else {
        let subs = if here.len() == 0 {
            all
        } else {
            here
        };
        let content = source_body(x.sources, f.2);
        let ex = extract_from(f.0, content, seq![2u8, 3u8], 0, None);
        let ch = choose_subs(x.sections, subs, st.seen);
        let ranges = ch.1.map_values(|s: SubRef| range_of(ex, s));
        let starts = starts_of(ranges);
        Collected {
            seen: ch.0,
            out: st.out + Seq::new(ch.1.len(), |i: int| sub_art(x, f, ch.1[i], ranges[i], content, starts)),
        }
    }
}

/// Adds a found artifact.
pub open spec fn add_found(x: CollectCtx, st: Collected, f: Found) -> Collected {
    match x.granularity {
        Granularity::Document => add_doc(x, st, f),
        Granularity::Subnode => add_subnodes(x, st, f),
    }
}

/// Collection over found artifacts, in order.
pub open spec fn collect_all(x: CollectCtx, fs: Seq<Found>) -> Collected
    decreases fs.len(),
{
    if fs.len() == 0 {
        Collected { seen: Seq::empty(), out: Seq::empty() }
    } else {
        add_found(x, collect_all(x, fs.drop_last()), fs.last())
    }
}

/// The upstream walks of the targets, one after the other.
pub open spec fn walked(nodes: Seq<Node>, edges: Seq<Edge>, ids: Seq<Seq<char>>, limit: Option<usize>) -> Seq<Found>
    decreases ids.len(),
{
    if ids.len() == 0 {
        Seq::empty()
    } else {
        walked(nodes, edges, ids.drop_last(), limit) + upstream_of(nodes, edges, ids.last(), limit)
    }
}


/// The found artifact an upstream artifact from the walk stands for.
pub open spec fn found_of(a: UpstreamArtifact) -> Found {
    (a.artifact_id@, a.type_code@, a.file_path@, a.chain_distance as int)
}

/// The collection held by the executable state.
pub open spec fn coll_of(seen: Seq<String>, out: Seq<UpstreamArtifact>) -> Collected {
    Collected { seen: string_views(seen), out: out.map_values(|a: UpstreamArtifact| art_view(a)) }
}

/// The optional list of asked-for subnode ids as plain values.
pub open spec fn sections_view(s: Option<Vec<String>>) -> Option<Seq<Seq<char>>> {
    match s {
        Some(v) => Some(string_views(v@)),
        None => None,
    }
}

proof fn lemma_coll_push(seen: Seq<String>, out: Seq<UpstreamArtifact>, id: String, a: UpstreamArtifact)
    ensures
        coll_of(seen.push(id), out.push(a)) == (Collected {
            seen: coll_of(seen, out).seen.push(id@),
            out: coll_of(seen, out).out.push(art_view(a)),
        }),
{
    assert(string_views(seen.push(id)) =~= string_views(seen).push(id@));
    assert(out.push(a).map_values(|a: UpstreamArtifact| art_view(a)) =~= out.map_values(
        |a: UpstreamArtifact| art_view(a),
    ).push(art_view(a)));
}

fn add_document(
    sources: &Vec<(String, String)>,
    outline_only: bool,
    seen: &mut Vec<String>,
    out: &mut Vec<UpstreamArtifact>,
    a: &UpstreamArtifact,
    Ghost(x): Ghost<CollectCtx>,
)
    requires
        x.sources == sources@,
        x.outline == outline_only,
    ensures
        coll_of(final(seen)@, final(out)@) == add_doc(x, coll_of(old(seen)@, old(out)@), found_of(*a)),
{
    if contains_str(seen, a.artifact_id.as_str()) {
        return;
    }
    let src = source_of(sources, a.file_path.as_str());
    let body = if outline_only {
        build_outline(src.as_str())
    } else {
        src
    };
    let art = UpstreamArtifact {
        artifact_id: a.artifact_id.clone(),
        type_code: a.type_code.clone(),
        file_path: a.file_path.clone(),
        chain_distance: a.chain_distance,
        body,
        subnode_id: None,
        anchor: None,
        drift_score: None,
    };
    proof {
        lemma_coll_push(seen@, out@, a.artifact_id, art);
    }
    seen.push(a.artifact_id.clone());
    out.push(art);
}

#[verifier::rlimit(40)]
fn strip_anchor_markers(a: &str) -> (r: String)
    ensures
        r@ == strip_markers(a@),
{
    let c = chars_of(a);
    let n: usize = c.len();
    let mut e: usize = n;
    while e > 0 && white(c[e - 1])
        invariant
            c@ == a@,
            e <= n == c@.len(),
            forall|j: int| e <= j < n ==> is_white(c@[j]),
        decreases e,
    {
        e = e - 1;
    }
    proof {
        lemma_trim_end(c@, e as int);
    }
    let mut s: usize = 0;
    while s < e && white(c[s])
        invariant
            c@ == a@,
            s <= e <= n == c@.len(),
            forall|j: int| 0 <= j < s ==> is_white(c@[j]),
        decreases e - s,
    {
        s = s + 1;
    }
    proof {
        lemma_trim_start(c@.take(e as int), s as int);
        assert(c@.take(e as int).skip(s as int) =~= c@.subrange(s as int, e as int));
    }
    let ghost t = c@.subrange(s as int, e as int);
    let mut h: usize = s;
    while h < e && c[h] == '#'
        invariant
            s <= h <= e <= c@.len(),
            t == c@.subrange(s as int, e as int),
            forall|j: int| 0 <= j < h - s ==> t[j] == '#',
        decreases e - h,
    {
        h = h + 1;
    }
    proof {
        lemma_hash_count(t, h - s);
        assert(t.skip(h - s) =~= c@.subrange(h as int, e as int));
    }
    let mut s2: usize = h;
    while s2 < e && white(c[s2])
        invariant
            h <= s2 <= e <= c@.len(),
            forall|j: int| h <= j < s2 ==> is_white(c@[j]),
        decreases e - s2,
    {
        s2 = s2 + 1;
    }
    proof {
        let u = c@.subrange(h as int, e as int);
        assert forall|j: int| 0 <= j < s2 - h implies is_white(u[j]) by {
            assert(u[j] == c@[h + j]);
        }
        lemma_trim_start(u, s2 - h);
        assert(u.skip(s2 - h) =~= c@.subrange(s2 as int, e as int));
    }
    let ghost t2 = c@.subrange(s2 as int, e as int);
    let mut z: usize = e;
    while z > s2 && c[z - 1] == '#'
        invariant
            s2 <= z <= e <= c@.len(),
            t2 == c@.subrange(s2 as int, e as int),
            forall|j: int| z - s2 <= j < t2.len() ==> t2[j] == '#',
        decreases z,
    {
        z = z - 1;
    }
    proof {
        lemma_trailing_hashes(t2, e - z);
        assert(t2.take(t2.len() - trailing_hashes(t2)) =~= c@.subrange(s2 as int, z as int));
    }
    let ghost t3 = c@.subrange(s2 as int, z as int);
    let mut w: usize = z;
    while w > s2 && white(c[w - 1])
        invariant
            s2 <= w <= z <= c@.len(),
            t3 == c@.subrange(s2 as int, z as int),
            forall|j: int| w - s2 <= j < t3.len() ==> is_white(t3[j]),
        decreases w,
    {
        w = w - 1;
    }
    proof {
        lemma_trim_end(t3, w - s2);
        assert(t3.take(w - s2) =~= c@.subrange(s2 as int, w as int));
    }
    let mut v: usize = s2;
    while v < w && white(c[v])
        invariant
            s2 <= v <= w <= c@.len(),
            forall|j: int| s2 <= j < v ==> is_white(c@[j]),
        decreases w - v,
    {
        v = v + 1;
    }
    proof {
        let u = c@.subrange(s2 as int, w as int);
        assert forall|j: int| 0 <= j < v - s2 implies is_white(u[j]) by {
            assert(u[j] == c@[s2 + j]);
        }
        lemma_trim_start(u, v - s2);
        assert(u.skip(v - s2) =~= c@.subrange(v as int, w as int));
    }
    chars_between(&c, v, w)
}

/// The range of a chosen subnode (see `range_of`).
fn range_lookup(ex: &Vec<AutoSubnode>, s: &(String, String, Option<String>)) -> (r: Option<(usize, usize)>)
    ensures
        match r {
            Some(p) => range_of(ex@.map_values(|a: AutoSubnode| a@), ref_view(*s)) == Some((p.0 as int, p.1 as int)),
            None => range_of(ex@.map_values(|a: AutoSubnode| a@), ref_view(*s)) is None,
        },
{
    let ghost ev = ex@.map_values(|a: AutoSubnode| a@);
    let mut k: usize = ex.len();
    assert(ev.take(k as int) =~= ev);
    while k > 0
        invariant
            k <= ex@.len(),
            ev == ex@.map_values(|a: AutoSubnode| a@),
            range_by_id(ev, s.0@) == range_by_id(ev.take(k as int), s.0@),
        decreases k,
    {
        assert(ev.take(k as int).drop_last() =~= ev.take(k - 1));
        assert(ev.take(k as int).last() == ex@[k - 1]@);
        if str_eq(ex[k - 1].id.as_str(), s.0.as_str()) {
            return Some(ex[k - 1].content_range);
        }
        k = k - 1;
    }
    assert(range_by_id(ev, s.0@) is None);
    match &s.2 {
        None => None,
        Some(a) => {
            let key = normalize_heading(strip_anchor_markers(a.as_str()).as_str());
            assert(ref_view(*s).2 == Some(a@));
            let mut k: usize = ex.len();
            assert(ev.take(k as int) =~= ev);
            while k > 0
                invariant
                    k <= ex@.len(),
                    ev == ex@.map_values(|a: AutoSubnode| a@),
                    range_by_id(ev, s.0@) is None,
                    ref_view(*s).2 == Some(a@),
                    key@ == normalized_heading(strip_markers(a@)),
                    range_by_anchor(ev, key@) == range_by_anchor(ev.take(k as int), key@),
                decreases k,
            {
                assert(ev.take(k as int).drop_last() =~= ev.take(k - 1));
                assert(ev.take(k as int).last() == ex@[k - 1]@);
                let h = normalize_heading(ex[k - 1].anchor.as_str());
                if str_eq(h.as_str(), key.as_str()) {
                    proof {
                        assert(ref_view(*s).2 == Some(a@));
                        assert(range_by_anchor(ev.take(k as int), key@) == Some(ev[k - 1].range));
                        assert(range_of(ev, ref_view(*s)) == range_by_anchor(ev, key@));
                    }
                    return Some(ex[k - 1].content_range);
                }
                k = k - 1;
            }
            None
        },
    }
}

/// The smallest start above `x` (see `min_above`).
fn min_start_above(starts: &Vec<usize>, x: usize) -> (r: Option<usize>)
    ensures
        match r {
            Some(v) => min_above(starts@.map_values(|u: usize| u as int), x as int) == Some(v as int),
            None => min_above(starts@.map_values(|u: usize| u as int), x as int) is None,
        },
{
    let ghost sv = starts@.map_values(|u: usize| u as int);
    let mut best: Option<usize> = None;
    let mut i: usize = 0;
    while i < starts.len()
        invariant
            i <= starts@.len(),
            sv == starts@.map_values(|u: usize| u as int),
            match best {
                Some(v) => min_above(sv.take(i as int), x as int) == Some(v as int),
                None => min_above(sv.take(i as int), x as int) is None,
            },
        decreases starts@.len() - i,
    {
        assert(sv.take(i + 1).drop_last() =~= sv.take(i as int));
        assert(sv.take(i + 1).last() == starts@[i as int] as int);
        let v = starts[i];
        if v > x {
            best = match best {
                Some(b) => Some(if b < v {
                    b
                } else {
                    v
                }),
                None => Some(v),
            };
        }
        i = i + 1;
    }
    assert(sv.take(starts@.len() as int) =~= sv);
    best
}

pub(crate) fn char_index(c: &Vec<char>, offs: &Vec<usize>, b: usize) -> (r: Option<usize>)
    requires
        offs@.len() == c@.len() + 1,
        forall|i: int| 0 <= i <= c@.len() ==> #[trigger] offs@[i] == bytes_before(c@, i),
    ensures
        match r {
            Some(i) => char_index_from(c@, b as int, 0) == Some(i as int) && i <= c@.len(),
            None => char_index_from(c@, b as int, 0) is None,
        },
{
    let mut i: usize = 0;
    while i < offs.len()
        invariant
            i <= offs@.len() == c@.len() + 1,
            forall|k: int| 0 <= k <= c@.len() ==> #[trigger] offs@[k] == bytes_before(c@, k),
            char_index_from(c@, b as int, 0) == char_index_from(c@, b as int, i as int),
        decreases offs@.len() - i,
    {
        if offs[i] == b {
            return Some(i);
        }
        i = i + 1;
    }
    None
}

pub(crate) fn slice_bytes(c: &Vec<char>, offs: &Vec<usize>, b0: usize, b1: usize) -> (r: String)
    requires
        offs@.len() == c@.len() + 1,
        forall|i: int| 0 <= i <= c@.len() ==> #[trigger] offs@[i] == bytes_before(c@, i),
    ensures
        r@ == byte_slice(c@, b0 as int, b1 as int),
{
    match (char_index(c, offs, b0), char_index(c, offs, b1)) {
        (Some(i), Some(j)) => {
            if i <= j {
                chars_between(c, i, j)
            } else {
                String::new()
            }
        },
        _ => String::new(),
    }
}

fn copy_ref(s: &(String, String, Option<String>)) -> (r: (String, String, Option<String>))
    ensures
        ref_view(r) == ref_view(*s),
{
    let a = match &s.2 {
        Some(x) => Some(x.clone()),
        None => None,
    };
    (s.0.clone(), s.1.clone(), a)
}


/// A range as plain values.
pub open spec fn opt_range(o: Option<(usize, usize)>) -> Option<(int, int)> {
    match o {
        Some(p) => Some((p.0 as int, p.1 as int)),
        None => None,
    }
}

#[verifier::rlimit(60)]
fn add_sub(
    graph: &TraceGraph,
    sources: &Vec<(String, String)>,
    sections: &Option<Vec<String>>,
    linked: &Vec<String>,
    outline_only: bool,
    seen: &mut Vec<String>,
    out: &mut Vec<UpstreamArtifact>,
    a: &UpstreamArtifact,
    Ghost(x): Ghost<CollectCtx>,
)
    requires
        x.nodes == graph.node_seq(),
        x.edges == graph.edge_seq(),
        x.sources == sources@,
        x.outline == outline_only,
        x.sections == sections_view(*sections),
        x.linked == string_views(linked@),
    ensures
        coll_of(final(seen)@, final(out)@) == add_subnodes(x, coll_of(old(seen)@, old(out)@), found_of(*a)),
{
    let ghost st = coll_of(seen@, out@);
    let ghost f = found_of(*a);
    let all = subnode_refs(graph, a.artifact_id.as_str());
    let ghost allv = all@.map_values(|r: (String, String, Option<String>)| ref_view(r));
    let mut here: Vec<(String, String, Option<String>)> = Vec::new();
    let mut i: usize = 0;
    while i < all.len()
        invariant
            i <= all@.len(),
            allv == all@.map_values(|r: (String, String, Option<String>)| ref_view(r)),
            x.linked == string_views(linked@),
            here@.map_values(|r: (String, String, Option<String>)| ref_view(r)) == linked_subs(
                allv.take(i as int),
                x.linked,
            ),
        decreases all@.len() - i,
    {
        assert(allv.take(i + 1).drop_last() =~= allv.take(i as int));
        assert(allv.take(i + 1).last() == ref_view(all@[i as int]));
        if contains_str(linked, all[i].0.as_str()) {
            let ghost prev = here@;
            here.push(copy_ref(&all[i]));
            assert(here@.map_values(|r: (String, String, Option<String>)| ref_view(r)) =~= prev.map_values(
                |r: (String, String, Option<String>)| ref_view(r),
            ).push(ref_view(all@[i as int])));
        }
        i = i + 1;
    }
    assert(allv.take(all@.len() as int) =~= allv);
    if all.len() == 0 || (linked.len() > 0 && here.len() == 0) {
        if sections.is_some() {
            return;
        }
        add_document(sources, outline_only, seen, out, a, Ghost(x));
        return;
    }
    let subs = if here.len() == 0 {
        all
    } else {
        here
    };
    let ghost subsv = subs@.map_values(|r: (String, String, Option<String>)| ref_view(r));
    let content = source_of(sources, a.file_path.as_str());
    let levels: [u8; 2] = [2, 3];
    assert(levels@ =~= seq![2u8, 3u8]);
    let ex = extract_subnodes_with_levels(a.artifact_id.as_str(), content.as_str(), &levels);
    let ghost exv = ex@.map_values(|e: AutoSubnode| e@);
    let ghost seen0 = string_views(seen@);
    let mut chosen: Vec<(String, String, Option<String>)> = Vec::new();
    let mut j: usize = 0;
    assert(subsv.take(0) =~= Seq::<SubRef>::empty());
    assert(chosen@.map_values(|r: (String, String, Option<String>)| ref_view(r)) =~= Seq::<SubRef>::empty());
    while j < subs.len()
        invariant
            j <= subs@.len(),
            subsv == subs@.map_values(|r: (String, String, Option<String>)| ref_view(r)),
            x.sections == sections_view(*sections),
            choose_subs(x.sections, subsv.take(j as int), seen0) == (
                string_views(seen@),
                chosen@.map_values(|r: (String, String, Option<String>)| ref_view(r)),
            ),
        decreases subs@.len() - j,
    {
        assert(subsv.take(j + 1).drop_last() =~= subsv.take(j as int));
        assert(subsv.take(j + 1).last() == ref_view(subs@[j as int]));
        let asked = match sections {
            Some(fl) => contains_str(fl, subs[j].0.as_str()),
            None => true,
        };
        if asked && !contains_str(seen, subs[j].0.as_str()) {
            let ghost sprev = seen@;
            let ghost cprev = chosen@;
            seen.push(subs[j].0.clone());
            chosen.push(copy_ref(&subs[j]));
            assert(string_views(seen@) =~= string_views(sprev).push(subs@[j as int].0@));
            assert(chosen@.map_values(|r: (String, String, Option<String>)| ref_view(r)) =~= cprev.map_values(
                |r: (String, String, Option<String>)| ref_view(r),
            ).push(ref_view(subs@[j as int])));
        }
        j = j + 1;
    }
    assert(subsv.take(subs@.len() as int) =~= subsv);
    let ghost chv = chosen@.map_values(|r: (String, String, Option<String>)| ref_view(r));
    let mut ranges: Vec<Option<(usize, usize)>> = Vec::new();
    let mut k: usize = 0;
    while k < chosen.len()
        invariant
            k <= chosen@.len(),
            chv == chosen@.map_values(|r: (String, String, Option<String>)| ref_view(r)),
            exv == ex@.map_values(|e: AutoSubnode| e@),
            ranges@.len() == k,
            forall|q: int| 0 <= q < k ==> opt_range(#[trigger] ranges@[q]) == range_of(exv, chv[q]),
        decreases chosen@.len() - k,
    {
        let r = range_lookup(&ex, &chosen[k]);
        let ghost prev = ranges@;
        ranges.push(r);
        assert forall|q: int| 0 <= q < k + 1 implies opt_range(#[trigger] ranges@[q]) == range_of(exv, chv[q]) by {
            if q < k {
                assert(ranges@[q] == prev[q]);
            }
        }
        k = k + 1;
    }
    let ghost rv = ranges@.map_values(|o: Option<(usize, usize)>| opt_range(o));
    assert(rv =~= chv.map_values(|s: SubRef| range_of(exv, s)));
    let mut starts: Vec<usize> = Vec::new();
    let mut k: usize = 0;
    while k < ranges.len()
        invariant
            k <= ranges@.len(),
            rv == ranges@.map_values(|o: Option<(usize, usize)>| opt_range(o)),
            starts@.map_values(|u: usize| u as int) == starts_of(rv.take(k as int)),
        decreases ranges@.len() - k,
    {
        assert(rv.take(k + 1).drop_last() =~= rv.take(k as int));
        assert(rv.take(k + 1).last() == opt_range(ranges@[k as int]));
        match ranges[k] {
            Some(r) => {
                let ghost prev = starts@;
                starts.push(r.0);
                assert(starts@.map_values(|u: usize| u as int) =~= prev.map_values(|u: usize| u as int).push(
                    r.0 as int,
                ));
            },
            None => {},
        }
        k = k + 1;
    }
    assert(rv.take(ranges@.len() as int) =~= rv);
    let ghost sv = starts@.map_values(|u: usize| u as int);
    let c = chars_of(content.as_str());
    let offs = byte_offsets(&c, content.as_str().as_bytes().len());
    let ghost out0 = out@;
    let mut m: usize = 0;
    while m < chosen.len()
        invariant
            m <= chosen@.len() == ranges@.len(),
            chv == chosen@.map_values(|r: (String, String, Option<String>)| ref_view(r)),
            rv == ranges@.map_values(|o: Option<(usize, usize)>| opt_range(o)),
            sv == starts@.map_values(|u: usize| u as int),
            c@ == content@,
            offs@.len() == c@.len() + 1,
            forall|q: int| 0 <= q <= c@.len() ==> #[trigger] offs@[q] == bytes_before(c@, q),
            x.outline == outline_only,
            f == found_of(*a),
            out@.map_values(|u: UpstreamArtifact| art_view(u)) == out0.map_values(|u: UpstreamArtifact| art_view(u))
                + Seq::new(m as nat, |q: int| sub_art(x, f, chv[q], rv[q], content@, sv)),
        decreases chosen@.len() - m,
    {
        let body = if outline_only {
            match &chosen[m].2 {
                Some(an) => an.clone(),
                None => String::new(),
            }
        } else {
            match ranges[m] {
                Some(r) => {
                    let e = match min_start_above(&starts, r.0) {
                        Some(nx) => if nx < r.1 {
                            nx
                        } else {
                            r.1
                        },
                        None => r.1,
                    };
                    slice_bytes(&c, &offs, r.0, e)
                },
                None => String::new(),
            }
        };
        let art = UpstreamArtifact {
            artifact_id: a.artifact_id.clone(),
            type_code: chosen[m].1.clone(),
            file_path: a.file_path.clone(),
            chain_distance: a.chain_distance,
            body,
            subnode_id: Some(chosen[m].0.clone()),
            anchor: match &chosen[m].2 {
                Some(an) => Some(an.clone()),
                None => None,
            },
            drift_score: None,
        };
        assert(art_view(art) == sub_art(x, f, chv[m as int], rv[m as int], content@, sv));
        let ghost prev = out@;
        let ghost av = art_view(art);
        out.push(art);
        assert(out@.map_values(|u: UpstreamArtifact| art_view(u)) =~= prev.map_values(
            |u: UpstreamArtifact| art_view(u),
        ).push(av));
        assert(Seq::new((m + 1) as nat, |q: int| sub_art(x, f, chv[q], rv[q], content@, sv)) =~= Seq::new(
            m as nat,
            |q: int| sub_art(x, f, chv[q], rv[q], content@, sv),
        ).push(av));
        assert(out@.map_values(|u: UpstreamArtifact| art_view(u)) =~= out0.map_values(
            |u: UpstreamArtifact| art_view(u),
        ) + Seq::new((m + 1) as nat, |q: int| sub_art(x, f, chv[q], rv[q], content@, sv)));
        m = m + 1;
    }
}


/// The ids the targets resolved to, in order.
pub open spec fn ids_of(ts: Seq<TargetView>) -> Seq<Seq<char>>
    decreases ts.len(),
{
    if ts.len() == 0 {
        Seq::empty()
    } else {
        match ts.last().1 {
            Some(id) => ids_of(ts.drop_last()).push(id),
            None => ids_of(ts.drop_last()),
        }
    }
}

fn target_ids(ts: &Vec<ResolvedTarget>) -> (r: Vec<String>)
    ensures
        string_views(r@) == ids_of(ts@.map_values(|t: ResolvedTarget| target_view(t))),
{
    let ghost tv = ts@.map_values(|t: ResolvedTarget| target_view(t));
    let mut out: Vec<String> = Vec::new();
    let mut i: usize = 0;
    while i < ts.len()
        invariant
            i <= ts@.len(),
            tv == ts@.map_values(|t: ResolvedTarget| target_view(t)),
            string_views(out@) == ids_of(tv.take(i as int)),
        decreases ts@.len() - i,
    {
        assert(tv.take(i + 1).drop_last() =~= tv.take(i as int));
        assert(tv.take(i + 1).last() == target_view(ts@[i as int]));
        match &ts[i].artifact_id {
            Some(id) => {
                let ghost prev = out@;
                out.push(id.clone());
                assert(string_views(out@) =~= string_views(prev).push(id@));
            },
            None => {},
        }
        i = i + 1;
    }
    assert(tv.take(ts@.len() as int) =~= tv);
    out
}

/// What upstream collection goes by for a compilation of `input` on graph `g`.
pub open spec fn collect_ctx(g: TraceGraph, sources: Seq<(String, String)>, input: CompileInput) -> CollectCtx {
    let tv = string_views(input.target_files@).map_values(|p: Seq<char>| target_of(g.node_seq(), p));
    CollectCtx {
        nodes: g.node_seq(),
        edges: g.edge_seq(),
        sources,
        granularity: input.granularity,
        outline: input.outline_only,
        sections: sections_view(input.sections),
        linked: linked_of(g.edge_seq(), ids_of(tv)),
    }
}

/// `res` is the context compiled for `input` on graph `g` with source files `sources`:
/// each target file resolved to the first node with its path; the unresolved ones in
/// path order; the upstream artifacts collected from the walks of the resolved
/// targets in turn; the metadata of each resolved target; no guideline or custom
/// documents.
pub open spec fn compiled(g: TraceGraph, sources: Seq<(String, String)>, input: CompileInput, res: ContextResult) -> bool {
    let nodes = g.node_seq();
    let edges = g.edge_seq();
    let tv = string_views(input.target_files@).map_values(|p: Seq<char>| target_of(nodes, p));
    let ids = ids_of(tv);
    let un = path_order(unresolved_of(tv));
    &&& res.targets@.map_values(|t: ResolvedTarget| target_view(t)) == tv
    &&& string_views(res.unresolved_targets@) == un
    &&& res.layer_guidelines@.len() == 0
    &&& res.additional_guidelines@.len() == 0
    &&& res.custom_documents@.len() == 0
    &&& res.upstream@.map_values(|a: UpstreamArtifact| art_view(a)) == collect_all(
        collect_ctx(g, sources, input),
        walked(nodes, edges, ids, input.depth_limit),
    ).out
    &&& res.target_metadata@.len() == ids.len()
    &&& forall|i: int| 0 <= i < ids.len() ==> meta_view(#[trigger] res.target_metadata@[i]) == meta_of(nodes, edges, ids[i], i, un)
    &&& res.granularity == input.granularity
}

/// The edges of `edges` that leave `id`, in edge order.
pub open spec fn edges_leaving(edges: Seq<Edge>, id: Seq<char>) -> Seq<Edge> {
    edges.filter(|e: Edge| e.from@ == id)
}

/// The edges of `edges` that enter `id`, in edge order.
pub open spec fn edges_entering(edges: Seq<Edge>, id: Seq<char>) -> Seq<Edge> {
    edges.filter(|e: Edge| e.to@ == id)
}

proof fn lemma_outgoing_incoming(edges: Seq<Edge>, id: Seq<char>)
    ensures
        outgoing_of(edges, id) == edges_leaving(edges, id).map_values(|e: Edge| (e.to@, e.kind)),
        incoming_of(edges, id) == edges_entering(edges, id).map_values(|e: Edge| (e.from@, e.kind)),
    decreases edges.len(),
{
    reveal(Seq::filter);
    if edges.len() > 0 {
        lemma_outgoing_incoming(edges.drop_last(), id);
        let l = edges_leaving(edges.drop_last(), id);
        let n = edges_entering(edges.drop_last(), id);
        assert(edges_leaving(edges, id) == if edges.last().from@ == id {
            l.push(edges.last())
        } else {
            l
        });
        assert(edges_entering(edges, id) == if edges.last().to@ == id {
            n.push(edges.last())
        } else {
            n
        });
        assert(l.push(edges.last()).map_values(|e: Edge| (e.to@, e.kind)) =~= l.map_values(|e: Edge| (e.to@, e.kind)).push(
            (edges.last().to@, edges.last().kind),
        ));
        assert(n.push(edges.last()).map_values(|e: Edge| (e.from@, e.kind)) =~= n.map_values(|e: Edge| (e.from@, e.kind)).push(
            (edges.last().from@, edges.last().kind),
        ));
    } else {
        assert(edges_leaving(edges, id).map_values(|e: Edge| (e.to@, e.kind)) =~= Seq::<(Seq<char>, EdgeKind)>::empty());
        assert(edges_entering(edges, id).map_values(|e: Edge| (e.from@, e.kind)) =~= Seq::<(Seq<char>, EdgeKind)>::empty());
    }
}

/// The metadata of each target lists its edges: as outgoing edges, each edge of the
/// graph whose source is the target, paired with that edge's target and kind; as
/// incoming edges, each edge whose target is the target, paired with that edge's
/// source and kind; both in edge order, so their numbers are the numbers of edges
/// leaving and entering the target.
pub proof fn law_target_metadata_edges(g: TraceGraph, sources: Seq<(String, String)>, input: CompileInput, res: ContextResult, i: int)
    requires
        compiled(g, sources, input, res),
        0 <= i < res.target_metadata@.len(),
    ensures
        res.target_metadata@[i].outgoing_edges@.map_values(|e: (NodeId, EdgeKind)| (e.0@, e.1)) == g.edge_seq().filter(
            |e: Edge| e.from@ == res.target_metadata@[i].artifact_id@,
        ).map_values(|e: Edge| (e.to@, e.kind)),
        res.target_metadata@[i].incoming_edges@.map_values(|e: (NodeId, EdgeKind)| (e.0@, e.1)) == g.edge_seq().filter(
            |e: Edge| e.to@ == res.target_metadata@[i].artifact_id@,
        ).map_values(|e: Edge| (e.from@, e.kind)),
        res.target_metadata@[i].outgoing_edges@.len() == g.edge_seq().filter(
            |e: Edge| e.from@ == res.target_metadata@[i].artifact_id@,
        ).len(),
        res.target_metadata@[i].incoming_edges@.len() == g.edge_seq().filter(
            |e: Edge| e.to@ == res.target_metadata@[i].artifact_id@,
        ).len(),
{
    let m = res.target_metadata@[i];
    assert(meta_view(m).0 == m.artifact_id@);
    lemma_outgoing_incoming(g.edge_seq(), m.artifact_id@);
    assert(m.outgoing_edges@.map_values(|e: (NodeId, EdgeKind)| (e.0@, e.1)).len() == m.outgoing_edges@.len());
    assert(m.incoming_edges@.map_values(|e: (NodeId, EdgeKind)| (e.0@, e.1)).len() == m.incoming_edges@.len());
}

#[verifier::rlimit(40)]
fn collect_upstream(
    graph: &TraceGraph,
    sources: &Vec<(String, String)>,
    ids: &Vec<String>,
    input: &CompileInput,
    linked: &Vec<String>,
    Ghost(x): Ghost<CollectCtx>,
) -> (r: Vec<UpstreamArtifact>)
    requires
        x.nodes == graph.node_seq(),
        x.edges == graph.edge_seq(),
        x.sources == sources@,
        x.granularity == input.granularity,
        x.outline == input.outline_only,
        x.sections == sections_view(input.sections),
        x.linked == string_views(linked@),
    ensures
        r@.map_values(|a: UpstreamArtifact| art_view(a)) == collect_all(
            x,
            walked(graph.node_seq(), graph.edge_seq(), string_views(ids@), input.depth_limit),
        ).out,
{
    let ghost nodes = graph.node_seq();
    let ghost edges = graph.edge_seq();
    let ghost iv = string_views(ids@);
    let walker = UpstreamWalker::new(graph);
    let mut seen: Vec<String> = Vec::new();
    let mut out: Vec<UpstreamArtifact> = Vec::new();
    let mut t: usize = 0;
    proof {
        assert(string_views(seen@) =~= Seq::<Seq<char>>::empty());
        assert(out@.map_values(|a: UpstreamArtifact| art_view(a)) =~= Seq::<ArtView>::empty());
        assert(iv.take(0) =~= Seq::<Seq<char>>::empty());
    }
    while t < ids.len()
        invariant
            t <= ids@.len(),
            iv == string_views(ids@),
            walker.graph() == *graph,
            x.nodes == nodes,
            x.edges == edges,
            nodes == graph.node_seq(),
            edges == graph.edge_seq(),
            x.sources == sources@,
            x.granularity == input.granularity,
            x.outline == input.outline_only,
            x.sections == sections_view(input.sections),
            x.linked == string_views(linked@),
            coll_of(seen@, out@) == collect_all(x, walked(nodes, edges, iv.take(t as int), input.depth_limit)),
        decreases ids@.len() - t,
    {
        let arts = match walker.walk_chain_parent_only_with_depth(ids[t].as_str(), input.depth_limit) {
            Ok(v) => v,
            Err(_) => {
                proof {
                    assert(false);
                }
                Vec::new()
            },
        };
        let ghost up = upstream_of(nodes, edges, iv[t as int], input.depth_limit);
        let ghost before = walked(nodes, edges, iv.take(t as int), input.depth_limit);
        assert(arts@.map_values(|a: UpstreamArtifact| found_of(a)) == up);
        proof {
            assert(iv.take(t + 1).drop_last() =~= iv.take(t as int));
            assert(iv.take(t + 1).last() == iv[t as int]);
            assert(before + up.take(0) =~= before);
        }
        let mut q: usize = 0;
        while q < arts.len()
            invariant
                q <= arts@.len(),
                arts@.map_values(|a: UpstreamArtifact| found_of(a)) == up,
                x.nodes == graph.node_seq(),
                x.edges == graph.edge_seq(),
                x.sources == sources@,
                x.granularity == input.granularity,
                x.outline == input.outline_only,
                x.sections == sections_view(input.sections),
                x.linked == string_views(linked@),
                coll_of(seen@, out@) == collect_all(x, before + up.take(q as int)),
            decreases arts@.len() - q,
        {
            proof {
                assert((before + up.take(q + 1)).drop_last() =~= before + up.take(q as int));
                assert((before + up.take(q + 1)).last() == found_of(arts@[q as int]));
            }
            match input.granularity {
                Granularity::Document => add_document(sources, input.outline_only, &mut seen, &mut out, &arts[q], Ghost(x)),
                Granularity::Subnode => add_sub(
                    graph,
                    sources,
                    &input.sections,
                    linked,
                    input.outline_only,
                    &mut seen,
                    &mut out,
                    &arts[q],
                    Ghost(x),
                ),
            }
            q = q + 1;
        }
        proof {
            assert(up.take(arts@.len() as int) =~= up);
            assert(walked(nodes, edges, iv.take(t + 1), input.depth_limit) == before + up);
        }
        t = t + 1;
    }
    proof {
        assert(iv.take(ids@.len() as int) =~= iv);
    }
    out
}

/// Compiles the context of the files being edited, from a graph and the content of
/// its source files.
pub struct ContextCompiler<'a> {
    graph: &'a TraceGraph,
    config: &'a Config,
    db: Option<&'a mut DbConn>,
    sources: &'a Vec<(String, String)>,
}

impl<'a> ContextCompiler<'a> {
    /// The graph compiled from.
    pub closed spec fn graph(&self) -> TraceGraph {
        *self.graph
    }

    /// The source files: path and content.
    pub closed spec fn sources(&self) -> Seq<(String, String)> {
        self.sources@
    }

    /// The database handle the compilations are logged to, if any.
    pub closed spec fn handle(&self) -> Option<DbConn> {
        match self.db {
            Some(d) => Some(*d),
            None => None,
        }
    }

    /// A compiler over `graph`, logging to `db`, with the content of the source files
    /// as `(path, content)` pairs (a missing file reads as empty).
    pub fn new(
        graph: &'a TraceGraph,
        config: &'a Config,
        db: Option<&'a mut DbConn>,
        sources: &'a Vec<(String, String)>,
    ) -> (r: Self)
        ensures
            r.graph() == *graph,
            r.sources() == sources@,
            match db {
                Some(d) => r.handle() == Some(*d),
                None => r.handle() is None,
            },
    {
        ContextCompiler { graph, config, db, sources }
    }

    /// Compiles the context for `input` (see `compiled`) and logs the compilation
    /// (see `logged`). It always succeeds: unresolved targets are recorded, missing
    /// files give empty bodies, and logging failures are ignored.
    pub fn compile(&mut self, input: &CompileInput) -> (r: Result<ContextResult, ContextError>)
        ensures
            final(self).graph() == old(self).graph(),
            final(self).sources() == old(self).sources(),
            r matches Ok(res) && compiled(old(self).graph(), old(self).sources(), *input, res) && match old(self).handle() {
                None => final(self).handle() is None,
                Some(h) => final(self).handle() matches Some(h2) && crate::ctx::audit::logged(h, h2, *input, res),
            },
    {
        let ghost g = self.graph();
        let targets = resolve_targets(self.graph.nodes(), &input.target_files);
        let unresolved = unresolved_paths(&targets);
        let ids = target_ids(&targets);
        let linked = linked_targets(self.graph, &ids);
        let ghost x = collect_ctx(g, self.sources(), *input);
        let upstream = collect_upstream(self.graph, self.sources, &ids, input, &linked, Ghost(x));
        let target_metadata = collect_metadata(self.graph, &ids, &unresolved);
        let result = ContextResult {
            targets,
            layer_guidelines: Vec::new(),
            additional_guidelines: Vec::new(),
            upstream,
            custom_documents: Vec::new(),
            target_metadata,
            granularity: input.granularity,
            unresolved_targets: unresolved,
        };
        match &mut self.db {
            Some(db) => write_entry(db, input, &result),
            None => {},
        }
        Ok(result)
    }

    /// The compiled context as text (see `SectionFormatter::render`).
    pub fn render(&self, result: &ContextResult) -> (r: Result<String, ContextError>)
        ensures
            match r {
                Ok(s) => s@ == crate::ctx::formatter::render_text(*result) && crate::ctx::formatter::render_text(
                    *result,
                ).len() <= crate::ctx::types::RESULT_SIZE_LIMIT_CHARS,
                Err(e) => crate::ctx::formatter::render_text(*result).len()
                    > crate::ctx::types::RESULT_SIZE_LIMIT_CHARS && (e matches ContextError::ResultTooLarge {
                    current,
                    limit,
                } && current == crate::ctx::formatter::overflow_at(*result) && limit
                    == crate::ctx::types::RESULT_SIZE_LIMIT_CHARS),
            },
    {
        crate::ctx::formatter::SectionFormatter::render(result)
    }
}

} // verus!
