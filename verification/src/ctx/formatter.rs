use vstd::prelude::*;

use crate::check::{normalize_rel, slashes};
use crate::common::string_views;
use crate::ctx::types::{
    marker_text, ContextError, ContextResult, CustomDocument, Granularity, LayerDocument, TargetNodeMetadata,
    UpstreamArtifact, CACHE_BREAKPOINT_MARKER, RESULT_SIZE_LIMIT_CHARS,
};
use crate::order::{index_order, is_permutation, key_views, lemma_index_order, sort_strings, sort_strs, stable_order, stable_sorted};
use crate::subnode::join;
use crate::text::{decimal, decimal_string};

verus! {

/// A `label: value` line for a value that is present; nothing otherwise.
pub open spec fn opt_line(label: Seq<char>, v: Option<String>) -> Seq<char> {
    match v {
        Some(x) => label + x@ + "\n"@,
        None => Seq::empty(),
    }
}

/// A layer or additional guideline document as rendered.
pub open spec fn layer_entry(d: LayerDocument) -> Seq<char> {
    "layer: "@ + d.layer_name@ + "\nnode_id: "@ + d.node_id@ + "\nfile_path: "@ + slashes(d.file_path@)
        + "\nspecificity: "@ + decimal(d.specificity as nat) + "\npriority: "@ + decimal(d.priority as nat)
        + "\n\n"@ + d.body@
}

/// An upstream artifact as rendered.
pub open spec fn upstream_entry(a: UpstreamArtifact) -> Seq<char> {
    "artifact_id: "@ + a.artifact_id@ + "\ntype: "@ + a.type_code@ + "\nfile_path: "@ + slashes(a.file_path@)
        + "\nchain_distance: "@ + decimal(a.chain_distance as nat) + "\n"@ + opt_line("subnode_id: "@, a.subnode_id)
        + opt_line("anchor: "@, a.anchor) + opt_line("drift_score: "@, a.drift_score) + "\n"@ + a.body@
}

/// The unresolved targets, with slashes, sorted and comma separated, on a line of their
/// own; nothing when there are none.
pub open spec fn unresolved_line(u: Seq<String>) -> Seq<char> {
    if u.len() == 0 {
        Seq::empty()
    } else {
        "\nunresolved_targets: "@ + join(
            sort_strs(string_views(u).map_values(|p: Seq<char>| slashes(p))),
            ","@,
        )
    }
}

/// The metadata of a target node as rendered.
pub open spec fn metadata_entry(m: TargetNodeMetadata) -> Seq<char> {
    "artifact_id: "@ + m.artifact_id@ + "\noutgoing_edges: "@ + decimal(m.outgoing_edges@.len())
        + "\nincoming_edges: "@ + decimal(m.incoming_edges@.len()) + "\nsubnode_count: "@ + decimal(
        m.subnode_count as nat,
    ) + unresolved_line(m.unresolved_targets@)
}

/// The text of an optional reason (empty when there is none).
pub open spec fn reason_text(r: Option<String>) -> Seq<char> {
    match r {
        Some(x) => x@,
        None => Seq::empty(),
    }
}

/// A custom document as rendered.
pub open spec fn custom_entry(c: CustomDocument) -> Seq<char> {
    "from_id: "@ + c.from_id@ + "\nto_id: "@ + c.to_id@ + "\nfile_path: "@ + slashes(c.file_path@) + "\nreason: "@
        + reason_text(c.reason) + "\n\n"@ + c.body@
}

/// A section: its title line, a blank line, the entries separated by `---` lines, and
/// a closing blank line.
pub open spec fn section(title: Seq<char>, entries: Seq<Seq<char>>) -> Seq<char> {
    "# "@ + title + "\n\n"@ + join(entries, "\n---\n"@) + (if entries.len() > 0 {
        "\n"@
    } else {
        Seq::<char>::empty()
    }) + "\n"@
}

/// Sort keys of guideline documents: the file path.
pub open spec fn layer_keys(ds: Seq<LayerDocument>) -> Seq<Seq<Seq<char>>> {
    ds.map_values(|d: LayerDocument| seq![d.file_path@])
}

/// Sort keys of upstream artifacts: the artifact id.
pub open spec fn upstream_keys(us: Seq<UpstreamArtifact>) -> Seq<Seq<Seq<char>>> {
    us.map_values(|a: UpstreamArtifact| seq![a.artifact_id@])
}

/// Sort keys of target metadata: the artifact id.
pub open spec fn metadata_keys(ms: Seq<TargetNodeMetadata>) -> Seq<Seq<Seq<char>>> {
    ms.map_values(|m: TargetNodeMetadata| seq![m.artifact_id@])
}

/// Sort keys of custom documents: source id, then target id.
pub open spec fn custom_keys(cs: Seq<CustomDocument>) -> Seq<Seq<Seq<char>>> {
    cs.map_values(|c: CustomDocument| seq![c.from_id@, c.to_id@])
}

/// Guideline documents rendered, ordered by file path (stably).
pub open spec fn layer_entries(ds: Seq<LayerDocument>) -> Seq<Seq<char>> {
    index_order(layer_keys(ds), ds.len() as int).map_values(|i: int| layer_entry(ds[i]))
}

/// Upstream artifacts rendered, ordered by artifact id (stably: with subnode
/// granularity, the subnodes of one document keep the order they were given in).
pub open spec fn upstream_entries(us: Seq<UpstreamArtifact>) -> Seq<Seq<char>> {
    index_order(upstream_keys(us), us.len() as int).map_values(|i: int| upstream_entry(us[i]))
}

/// Target metadata rendered, ordered by artifact id (stably).
pub open spec fn metadata_entries(ms: Seq<TargetNodeMetadata>) -> Seq<Seq<char>> {
    index_order(metadata_keys(ms), ms.len() as int).map_values(|i: int| metadata_entry(ms[i]))
}

/// Custom documents rendered, ordered by source id and target id (stably).
pub open spec fn custom_entries(cs: Seq<CustomDocument>) -> Seq<Seq<char>> {
    index_order(custom_keys(cs), cs.len() as int).map_values(|i: int| custom_entry(cs[i]))
}

/// The six parts of a rendered context, in order: layer guidelines, additional
/// guidelines, the cache breakpoint marker, upstream artifacts, target node metadata
/// and custom documents.
pub open spec fn render_parts(r: ContextResult) -> Seq<Seq<char>> {
    seq![
        section("Layer Guidelines"@, layer_entries(r.layer_guidelines@)),
        section("Additional Guidelines"@, layer_entries(r.additional_guidelines@)),
        marker_text() + "\n\n"@,
        section("Upstream Artifacts"@, upstream_entries(r.upstream@)),
        section("Target Node Metadata"@, metadata_entries(r.target_metadata@)),
        section("Custom Documents"@, custom_entries(r.custom_documents@)),
    ]
}

/// The rendered context.
pub open spec fn render_text(r: ContextResult) -> Seq<char> {
    let p = render_parts(r);
    p[0] + p[1] + p[2] + p[3] + p[4] + p[5]
}

/// The size checked when rendering stops: the length of the first prefix, ending
/// after a part, that is over the limit (the whole text when none is).
pub open spec fn overflow_at(r: ContextResult) -> int {
    let p = render_parts(r);
    let c1 = p[0].len() as int;
    let c2 = c1 + p[1].len();
    let c3 = c2 + p[2].len();
    let c4 = c3 + p[3].len();
    let c5 = c4 + p[4].len();
    let c6 = c5 + p[5].len();
    let l = RESULT_SIZE_LIMIT_CHARS as int;
    if c1 > l {
        c1
    } else if c2 > l {
        c2
    } else if c3 > l {
        c3
    } else if c4 > l {
        c4
    } else if c5 > l {
        c5
    } else {
        c6
    }
}

/// The name of the rule by which upstream artifacts are ordered.
pub open spec fn sort_rule_name(g: Granularity) -> Seq<char> {
    match g {
        Granularity::Document => "artifact_id-asc"@,
        Granularity::Subnode => "parent_id-asc,anchor-appearance-order"@,
    }
}

fn layer_text(d: &LayerDocument) -> (r: String)
    ensures
        r@ == layer_entry(*d),
{
    let mut s = String::from_str("layer: ");
    s.append(d.layer_name.as_str());
    s.append("\nnode_id: ");
    s.append(d.node_id.as_str());
    s.append("\nfile_path: ");
    s.append(normalize_rel(d.file_path.as_str()).as_str());
    s.append("\nspecificity: ");
    s.append(decimal_string(d.specificity as u64).as_str());
    s.append("\npriority: ");
    s.append(decimal_string(d.priority as u64).as_str());
    s.append("\n\n");
    s.append(d.body.as_str());
    s
}

fn append_opt_line(s: &mut String, label: &str, v: &Option<String>)
    ensures
        final(s)@ == old(s)@ + opt_line(label@, *v),
{
    match v {
        Some(x) => {
            s.append(label);
            s.append(x.as_str());
            s.append("\n");
        },
        None => {
            assert(old(s)@ + opt_line(label@, *v) =~= old(s)@);
        },
    }
}

fn upstream_text(a: &UpstreamArtifact) -> (r: String)
    ensures
        r@ == upstream_entry(*a),
{
    let mut s = String::from_str("artifact_id: ");
    s.append(a.artifact_id.as_str());
    s.append("\ntype: ");
    s.append(a.type_code.as_str());
    s.append("\nfile_path: ");
    s.append(normalize_rel(a.file_path.as_str()).as_str());
    s.append("\nchain_distance: ");
    s.append(decimal_string(a.chain_distance as u64).as_str());
    s.append("\n");
    append_opt_line(&mut s, "subnode_id: ", &a.subnode_id);
    append_opt_line(&mut s, "anchor: ", &a.anchor);
    append_opt_line(&mut s, "drift_score: ", &a.drift_score);
    s.append("\n");
    s.append(a.body.as_str());
    s
}

fn joined(parts: &Vec<String>, sep: &str) -> (r: String)
    ensures
        r@ == join(string_views(parts@), sep@),
{
    let ghost pv = string_views(parts@);
    let mut s = String::new();
    let mut i: usize = 0;
    while i < parts.len()
        invariant
            i <= parts@.len(),
            pv == string_views(parts@),
            s@ == join(pv.take(i as int), sep@),
        decreases parts@.len() - i,
    {
        let ghost before = s@;
        if i > 0 {
            s.append(sep);
        }
        s.append(parts[i].as_str());
        proof {
            assert(pv.take(i + 1).drop_last() =~= pv.take(i as int));
            if i == 0 {
                assert(before == Seq::<char>::empty());
                assert(s@ =~= pv[0]);
            }
        }
        i = i + 1;
    }
    assert(pv.take(parts@.len() as int) =~= pv);
    s
}

fn unresolved_text(u: &Vec<String>) -> (r: String)
    ensures
        r@ == unresolved_line(u@),
{
    if u.len() == 0 {
        return String::new();
    }
    let mut fixed: Vec<String> = Vec::new();
    let mut i: usize = 0;
    while i < u.len()
        invariant
            i <= u@.len(),
            fixed@.len() == i,
            string_views(fixed@) == string_views(u@.take(i as int)).map_values(|p: Seq<char>| slashes(p)),
        decreases u@.len() - i,
    {
        let ghost prev = fixed@;
        fixed.push(normalize_rel(u[i].as_str()));
        proof {
            let lhs = string_views(fixed@);
            let rhs = string_views(u@.take(i + 1)).map_values(|p: Seq<char>| slashes(p));
            let old_rhs = string_views(u@.take(i as int)).map_values(|p: Seq<char>| slashes(p));
            assert forall|k: int| 0 <= k < lhs.len() implies lhs[k] == rhs[k] by {
                if k < i {
                    assert(fixed@[k] == prev[k]);
                    assert(string_views(prev)[k] == old_rhs[k]);
                    assert(u@.take(i as int)[k] == u@.take(i + 1)[k]);
                }
            }
            assert(lhs =~= rhs);
        }
        i = i + 1;
    }
    assert(u@.take(u@.len() as int) =~= u@);
    let sorted = sort_strings(fixed);
    let mut s = String::from_str("\nunresolved_targets: ");
    s.append(joined(&sorted, ",").as_str());
    s
}

fn metadata_text(m: &TargetNodeMetadata) -> (r: String)
    ensures
        r@ == metadata_entry(*m),
{
    let mut s = String::from_str("artifact_id: ");
    s.append(m.artifact_id.as_str());
    s.append("\noutgoing_edges: ");
    s.append(decimal_string(m.outgoing_edges.len() as u64).as_str());
    s.append("\nincoming_edges: ");
    s.append(decimal_string(m.incoming_edges.len() as u64).as_str());
    s.append("\nsubnode_count: ");
    s.append(decimal_string(m.subnode_count as u64).as_str());
    s.append(unresolved_text(&m.unresolved_targets).as_str());
    s
}

fn custom_text(c: &CustomDocument) -> (r: String)
    ensures
        r@ == custom_entry(*c),
{
    let mut s = String::from_str("from_id: ");
    s.append(c.from_id.as_str());
    s.append("\nto_id: ");
    s.append(c.to_id.as_str());
    s.append("\nfile_path: ");
    s.append(normalize_rel(c.file_path.as_str()).as_str());
    s.append("\nreason: ");
    match &c.reason {
        Some(x) => s.append(x.as_str()),
        None => {},
    }
    s.append("\n\n");
    s.append(c.body.as_str());
    proof {
        if c.reason is None {
            assert(s@ =~= custom_entry(*c));
        }
    }
    s
}

fn ordered_layer_texts(ds: &Vec<LayerDocument>) -> (r: Vec<String>)
    ensures
        string_views(r@) == layer_entries(ds@),
{
    let mut keys: Vec<Vec<String>> = Vec::new();
    let mut i: usize = 0;
    while i < ds.len()
        invariant
            i <= ds@.len(),
            keys@.len() == i,
            key_views(keys@) == layer_keys(ds@.take(i as int)),
        decreases ds@.len() - i,
    {
        let mut k: Vec<String> = Vec::new();
        k.push(ds[i].file_path.clone());
        let ghost prev = keys@;
        keys.push(k);
        proof {
            let lhs = key_views(keys@);
            let rhs = layer_keys(ds@.take(i + 1));
            assert forall|x: int| 0 <= x < lhs.len() implies lhs[x] == rhs[x] by {
                if x < i {
                    assert(keys@[x] == prev[x]);
                    assert(key_views(prev)[x] == layer_keys(ds@.take(i as int))[x]);
                    assert(ds@.take(i as int)[x] == ds@.take(i + 1)[x]);
                } else {
                    assert(string_views(keys@[x]@) =~= rhs[x]);
                }
            }
            assert(lhs =~= rhs);
        }
        i = i + 1;
    }
    assert(ds@.take(ds@.len() as int) =~= ds@);
    let order = stable_order(&keys);
    let ghost o = order@.map_values(|x: usize| x as int);
    proof {
        crate::order::lemma_index_order(layer_keys(ds@), ds@.len() as int);
    }
    let mut out: Vec<String> = Vec::new();
    let mut j: usize = 0;
    while j < order.len()
        invariant
            j <= order@.len(),
            o == order@.map_values(|x: usize| x as int),
            o == index_order(layer_keys(ds@), ds@.len() as int),
            crate::order::is_permutation(o, ds@.len() as int),
            out@.len() == j,
            string_views(out@) == o.take(j as int).map_values(|x: int| layer_entry(ds@[x])),
        decreases order@.len() - j,
    {
        assert(0 <= o[j as int] < ds@.len());
        let ghost prev = out@;
        out.push(layer_text(&ds[order[j]]));
        proof {
            let lhs = string_views(out@);
            let rhs = o.take(j + 1).map_values(|x: int| layer_entry(ds@[x]));
            assert forall|x: int| 0 <= x < lhs.len() implies lhs[x] == rhs[x] by {
                if x < j {
                    assert(out@[x] == prev[x]);
                    assert(string_views(prev)[x] == o.take(j as int).map_values(|y: int| layer_entry(ds@[y]))[x]);
                }
            }
            assert(lhs =~= rhs);
        }
        j = j + 1;
    }
    assert(o.take(o.len() as int) =~= o);
    out
}

fn ordered_upstream_texts(us: &Vec<UpstreamArtifact>) -> (r: Vec<String>)
    ensures
        string_views(r@) == upstream_entries(us@),
{
    let mut keys: Vec<Vec<String>> = Vec::new();
    let mut i: usize = 0;
    while i < us.len()
        invariant
            i <= us@.len(),
            keys@.len() == i,
            key_views(keys@) == upstream_keys(us@.take(i as int)),
        decreases us@.len() - i,
    {
        let mut k: Vec<String> = Vec::new();
        k.push(us[i].artifact_id.clone());
        let ghost prev = keys@;
        keys.push(k);
        proof {
            let lhs = key_views(keys@);
            let rhs = upstream_keys(us@.take(i + 1));
            assert forall|x: int| 0 <= x < lhs.len() implies lhs[x] == rhs[x] by {
                if x < i {
                    assert(keys@[x] == prev[x]);
                    assert(key_views(prev)[x] == upstream_keys(us@.take(i as int))[x]);
                    assert(us@.take(i as int)[x] == us@.take(i + 1)[x]);
                } else {
                    assert(string_views(keys@[x]@) =~= rhs[x]);
                }
            }
            assert(lhs =~= rhs);
        }
        i = i + 1;
    }
    assert(us@.take(us@.len() as int) =~= us@);
    let order = stable_order(&keys);
    let ghost o = order@.map_values(|x: usize| x as int);
    proof {
        crate::order::lemma_index_order(upstream_keys(us@), us@.len() as int);
    }
    let mut out: Vec<String> = Vec::new();
    let mut j: usize = 0;
    while j < order.len()
        invariant
            j <= order@.len(),
            o == order@.map_values(|x: usize| x as int),
            o == index_order(upstream_keys(us@), us@.len() as int),
            crate::order::is_permutation(o, us@.len() as int),
            out@.len() == j,
            string_views(out@) == o.take(j as int).map_values(|x: int| upstream_entry(us@[x])),
        decreases order@.len() - j,
    {
        assert(0 <= o[j as int] < us@.len());
        let ghost prev = out@;
        out.push(upstream_text(&us[order[j]]));
        proof {
            let lhs = string_views(out@);
            let rhs = o.take(j + 1).map_values(|x: int| upstream_entry(us@[x]));
            assert forall|x: int| 0 <= x < lhs.len() implies lhs[x] == rhs[x] by {
                if x < j {
                    assert(out@[x] == prev[x]);
                    assert(string_views(prev)[x] == o.take(j as int).map_values(|y: int| upstream_entry(us@[y]))[x]);
                }
            }
            assert(lhs =~= rhs);
        }
        j = j + 1;
    }
    assert(o.take(o.len() as int) =~= o);
    out
}

fn ordered_metadata_texts(ms: &Vec<TargetNodeMetadata>) -> (r: Vec<String>)
    ensures
        string_views(r@) == metadata_entries(ms@),
{
    let mut keys: Vec<Vec<String>> = Vec::new();
    let mut i: usize = 0;
    while i < ms.len()
        invariant
            i <= ms@.len(),
            keys@.len() == i,
            key_views(keys@) == metadata_keys(ms@.take(i as int)),
        decreases ms@.len() - i,
    {
        let mut k: Vec<String> = Vec::new();
        k.push(ms[i].artifact_id.clone());
        let ghost prev = keys@;
        keys.push(k);
        proof {
            let lhs = key_views(keys@);
            let rhs = metadata_keys(ms@.take(i + 1));
            assert forall|x: int| 0 <= x < lhs.len() implies lhs[x] == rhs[x] by {
                if x < i {
                    assert(keys@[x] == prev[x]);
                    assert(key_views(prev)[x] == metadata_keys(ms@.take(i as int))[x]);
                    assert(ms@.take(i as int)[x] == ms@.take(i + 1)[x]);
                } else {
                    assert(string_views(keys@[x]@) =~= rhs[x]);
                }
            }
            assert(lhs =~= rhs);
        }
        i = i + 1;
    }
    assert(ms@.take(ms@.len() as int) =~= ms@);
    let order = stable_order(&keys);
    let ghost o = order@.map_values(|x: usize| x as int);
    proof {
        crate::order::lemma_index_order(metadata_keys(ms@), ms@.len() as int);
    }
    let mut out: Vec<String> = Vec::new();
    let mut j: usize = 0;
    while j < order.len()
        invariant
            j <= order@.len(),
            o == order@.map_values(|x: usize| x as int),
            o == index_order(metadata_keys(ms@), ms@.len() as int),
            crate::order::is_permutation(o, ms@.len() as int),
            out@.len() == j,
            string_views(out@) == o.take(j as int).map_values(|x: int| metadata_entry(ms@[x])),
        decreases order@.len() - j,
    {
        assert(0 <= o[j as int] < ms@.len());
        let ghost prev = out@;
        out.push(metadata_text(&ms[order[j]]));
        proof {
            let lhs = string_views(out@);
            let rhs = o.take(j + 1).map_values(|x: int| metadata_entry(ms@[x]));
            assert forall|x: int| 0 <= x < lhs.len() implies lhs[x] == rhs[x] by {
                if x < j {
                    assert(out@[x] == prev[x]);
                    assert(string_views(prev)[x] == o.take(j as int).map_values(|y: int| metadata_entry(ms@[y]))[x]);
                }
            }
            assert(lhs =~= rhs);
        }
        j = j + 1;
    }
    assert(o.take(o.len() as int) =~= o);
    out
}

fn ordered_custom_texts(cs: &Vec<CustomDocument>) -> (r: Vec<String>)
    ensures
        string_views(r@) == custom_entries(cs@),
{
    let mut keys: Vec<Vec<String>> = Vec::new();
    let mut i: usize = 0;
    while i < cs.len()
        invariant
            i <= cs@.len(),
            keys@.len() == i,
            key_views(keys@) == custom_keys(cs@.take(i as int)),
        decreases cs@.len() - i,
    {
        let mut k: Vec<String> = Vec::new();
        k.push(cs[i].from_id.clone());
        k.push(cs[i].to_id.clone());
        let ghost prev = keys@;
        keys.push(k);
        proof {
            let lhs = key_views(keys@);
            let rhs = custom_keys(cs@.take(i + 1));
            assert forall|x: int| 0 <= x < lhs.len() implies lhs[x] == rhs[x] by {
                if x < i {
                    assert(keys@[x] == prev[x]);
                    assert(key_views(prev)[x] == custom_keys(cs@.take(i as int))[x]);
                    assert(cs@.take(i as int)[x] == cs@.take(i + 1)[x]);
                } else {
                    assert(string_views(keys@[x]@) =~= rhs[x]);
                }
            }
            assert(lhs =~= rhs);
        }
        i = i + 1;
    }
    assert(cs@.take(cs@.len() as int) =~= cs@);
    let order = stable_order(&keys);
    let ghost o = order@.map_values(|x: usize| x as int);
    proof {
        crate::order::lemma_index_order(custom_keys(cs@), cs@.len() as int);
    }
    let mut out: Vec<String> = Vec::new();
    let mut j: usize = 0;
    while j < order.len()
        invariant
            j <= order@.len(),
            o == order@.map_values(|x: usize| x as int),
            o == index_order(custom_keys(cs@), cs@.len() as int),
            crate::order::is_permutation(o, cs@.len() as int),
            out@.len() == j,
            string_views(out@) == o.take(j as int).map_values(|x: int| custom_entry(cs@[x])),
        decreases order@.len() - j,
    {
        assert(0 <= o[j as int] < cs@.len());
        let ghost prev = out@;
        out.push(custom_text(&cs[order[j]]));
        proof {
            let lhs = string_views(out@);
            let rhs = o.take(j + 1).map_values(|x: int| custom_entry(cs@[x]));
            assert forall|x: int| 0 <= x < lhs.len() implies lhs[x] == rhs[x] by {
                if x < j {
                    assert(out@[x] == prev[x]);
                    assert(string_views(prev)[x] == o.take(j as int).map_values(|y: int| custom_entry(cs@[y]))[x]);
                }
            }
            assert(lhs =~= rhs);
        }
        j = j + 1;
    }
    assert(o.take(o.len() as int) =~= o);
    out
}

/// The title line of a section, without its line feed.
pub open spec fn heading(title: Seq<char>) -> Seq<char> {
    "# "@ + title
}

/// Where the part `k` of the rendered context begins.
pub open spec fn part_start(r: ContextResult, k: int) -> int
    decreases k,
{
    if k <= 0 {
        0
    } else {
        part_start(r, k - 1) + render_parts(r)[k - 1].len()
    }
}

/// `t` holds `w` at position `i`.
pub open spec fn holds_at(t: Seq<char>, w: Seq<char>, i: int) -> bool {
    0 <= i && i + w.len() <= t.len() && t.subrange(i, i + w.len()) == w
}

proof fn lemma_section_heading(title: Seq<char>, entries: Seq<Seq<char>>)
    ensures
        holds_at(section(title, entries), heading(title), 0),
{
    let s = section(title, entries);
    assert(s.subrange(0, heading(title).len() as int) =~= heading(title));
}

proof fn lemma_holds_in_concat(a: Seq<char>, b: Seq<char>, w: Seq<char>, i: int)
    requires
        holds_at(b, w, i),
    ensures
        holds_at(a + b, w, a.len() + i),
{
    assert((a + b).subrange(a.len() + i, a.len() + i + w.len()) =~= b.subrange(i, i + w.len()));
}

proof fn lemma_holds_prefix(a: Seq<char>, b: Seq<char>, w: Seq<char>, i: int)
    requires
        holds_at(a, w, i),
    ensures
        holds_at(a + b, w, i),
{
    assert((a + b).subrange(i, i + w.len()) =~= a.subrange(i, i + w.len()));
}

/// A rendered context is laid out in a fixed order: the layer guidelines section, the
/// additional guidelines section, the cache breakpoint marker, then the sections of
/// upstream artifacts, target node metadata and custom documents, each part starting
/// where the one before it ends.
pub proof fn law_render_layout(r: ContextResult)
    ensures
        holds_at(render_text(r), heading("Layer Guidelines"@), part_start(r, 0)),
        holds_at(render_text(r), heading("Additional Guidelines"@), part_start(r, 1)),
        holds_at(render_text(r), marker_text(), part_start(r, 2)),
        holds_at(render_text(r), heading("Upstream Artifacts"@), part_start(r, 3)),
        holds_at(render_text(r), heading("Target Node Metadata"@), part_start(r, 4)),
        holds_at(render_text(r), heading("Custom Documents"@), part_start(r, 5)),
        part_start(r, 0) < part_start(r, 1) < part_start(r, 2) < part_start(r, 3) < part_start(r, 4) < part_start(
            r,
            5,
        ) < render_text(r).len(),
{
    let p = render_parts(r);
    lemma_section_heading("Layer Guidelines"@, layer_entries(r.layer_guidelines@));
    lemma_section_heading("Additional Guidelines"@, layer_entries(r.additional_guidelines@));
    lemma_section_heading("Upstream Artifacts"@, upstream_entries(r.upstream@));
    lemma_section_heading("Target Node Metadata"@, metadata_entries(r.target_metadata@));
    lemma_section_heading("Custom Documents"@, custom_entries(r.custom_documents@));
    assert(holds_at(p[2], marker_text(), 0)) by {
        assert(p[2].subrange(0, marker_text().len() as int) =~= marker_text());
    }
    assert(p[0].len() > 0 && p[1].len() > 0 && p[2].len() > 0 && p[3].len() > 0 && p[4].len() > 0 && p[5].len() > 0) by {
        reveal_strlit("# ");
        reveal_strlit("<!-- cache-breakpoint: stable-end -->");
    }
    let q1 = p[0];
    let q2 = q1 + p[1];
    let q3 = q2 + p[2];
    let q4 = q3 + p[3];
    let q5 = q4 + p[4];
    let t = q5 + p[5];
    assert(t == render_text(r));
    reveal_with_fuel(part_start, 7);
    // each part's head holds at its start in the prefix that ends with it
    lemma_holds_in_concat(q1, p[1], heading("Additional Guidelines"@), 0);
    lemma_holds_in_concat(q2, p[2], marker_text(), 0);
    lemma_holds_in_concat(q3, p[3], heading("Upstream Artifacts"@), 0);
    lemma_holds_in_concat(q4, p[4], heading("Target Node Metadata"@), 0);
    lemma_holds_in_concat(q5, p[5], heading("Custom Documents"@), 0);
    // and stays there as the later parts follow
    lemma_holds_prefix(q1, p[1], heading("Layer Guidelines"@), 0);
    lemma_holds_prefix(q2, p[2], heading("Layer Guidelines"@), 0);
    lemma_holds_prefix(q3, p[3], heading("Layer Guidelines"@), 0);
    lemma_holds_prefix(q4, p[4], heading("Layer Guidelines"@), 0);
    lemma_holds_prefix(q5, p[5], heading("Layer Guidelines"@), 0);
    lemma_holds_prefix(q2, p[2], heading("Additional Guidelines"@), q1.len() as int);
    lemma_holds_prefix(q3, p[3], heading("Additional Guidelines"@), q1.len() as int);
    lemma_holds_prefix(q4, p[4], heading("Additional Guidelines"@), q1.len() as int);
    lemma_holds_prefix(q5, p[5], heading("Additional Guidelines"@), q1.len() as int);
    lemma_holds_prefix(q3, p[3], marker_text(), q2.len() as int);
    lemma_holds_prefix(q4, p[4], marker_text(), q2.len() as int);
    lemma_holds_prefix(q5, p[5], marker_text(), q2.len() as int);
    lemma_holds_prefix(q4, p[4], heading("Upstream Artifacts"@), q3.len() as int);
    lemma_holds_prefix(q5, p[5], heading("Upstream Artifacts"@), q3.len() as int);
    lemma_holds_prefix(q5, p[5], heading("Target Node Metadata"@), q4.len() as int);
}

/// `w` occurs somewhere in `t`.
pub open spec fn occurs(t: Seq<char>, w: Seq<char>) -> bool {
    exists|i: int| #[trigger] holds_at(t, w, i)
}

proof fn lemma_split_occurrence(a: Seq<char>, b: Seq<char>, w: Seq<char>, i: int)
    requires
        holds_at(a + b, w, i),
        a.len() > 0,
        a.last() == '\n',
        forall|j: int| 0 <= j < w.len() ==> w[j] != '\n',
    ensures
        (i + w.len() <= a.len() && holds_at(a, w, i)) || (i >= a.len() && holds_at(b, w, i - a.len())),
{
    let t = a + b;
    if i < a.len() && i + w.len() > a.len() {
        let j = a.len() - 1 - i;
        assert(t.subrange(i, i + w.len())[j] == t[a.len() - 1]);
        assert(w[j] == '\n');
    } else if i + w.len() <= a.len() {
        assert(a.subrange(i, i + w.len()) =~= t.subrange(i, i + w.len()));
    } else {
        assert(b.subrange(i - a.len(), i - a.len() + w.len()) =~= t.subrange(i, i + w.len()));
    }
}

proof fn lemma_section_ends_in_line_feed(title: Seq<char>, entries: Seq<Seq<char>>)
    ensures
        section(title, entries).len() > 0,
        section(title, entries).last() == '\n',
{
    reveal_strlit("\n");
}

/// The cache breakpoint marker occurs exactly once in a rendered context, where the
/// guideline sections end, when none of the five sections holds it itself.
pub proof fn law_render_single_marker(r: ContextResult, i: int)
    requires
        !occurs(render_parts(r)[0], marker_text()),
        !occurs(render_parts(r)[1], marker_text()),
        !occurs(render_parts(r)[3], marker_text()),
        !occurs(render_parts(r)[4], marker_text()),
        !occurs(render_parts(r)[5], marker_text()),
    ensures
        holds_at(render_text(r), marker_text(), i) <==> i == part_start(r, 2),
{
    let p = render_parts(r);
    let m = marker_text();
    law_render_layout(r);
    reveal_with_fuel(part_start, 7);
    if holds_at(render_text(r), m, i) {
        reveal_strlit("<!-- cache-breakpoint: stable-end -->");
        reveal_strlit("\n\n");
        assert(forall|j: int| 0 <= j < m.len() ==> m[j] != '\n');
        lemma_section_ends_in_line_feed("Layer Guidelines"@, layer_entries(r.layer_guidelines@));
        lemma_section_ends_in_line_feed("Additional Guidelines"@, layer_entries(r.additional_guidelines@));
        lemma_section_ends_in_line_feed("Upstream Artifacts"@, upstream_entries(r.upstream@));
        lemma_section_ends_in_line_feed("Target Node Metadata"@, metadata_entries(r.target_metadata@));
        let q1 = p[0];
        let q2 = q1 + p[1];
        let q3 = q2 + p[2];
        let q4 = q3 + p[3];
        let q5 = q4 + p[4];
        assert(q5 + p[5] == render_text(r));
        assert(p[2].last() == '\n');
        lemma_split_occurrence(q5, p[5], m, i);
        if i >= q5.len() {
            assert(occurs(p[5], m));
        } else {
            lemma_split_occurrence(q4, p[4], m, i);
            if i >= q4.len() {
                assert(occurs(p[4], m));
            } else {
                lemma_split_occurrence(q3, p[3], m, i);
                if i >= q3.len() {
                    assert(occurs(p[3], m));
                } else {
                    lemma_split_occurrence(q2, p[2], m, i);
                    if i >= q2.len() {
                        let k = i - q2.len();
                        assert(p[2].subrange(k, k + m.len()) == m);
                        if k == 1 {
                            assert(p[2][1] == m[0]);
                        }
                        if k == 2 {
                            assert(p[2][2] == m[0]);
                        }
                        assert(k == 0);
                    } else {
                        lemma_split_occurrence(q1, p[1], m, i);
                        if i >= q1.len() {
                            assert(occurs(p[1], m));
                        } else {
                            assert(occurs(p[0], m));
                        }
                    }
                }
            }
        }
    }
}

/// What `render` gives back when it succeeds (`render_text`): the six section titles
/// and the cache breakpoint marker in their fixed order, the marker exactly once when
/// no section holds it itself, and the upstream artifacts each once, ordered stably by
/// artifact id.
pub proof fn law_render_sections_in_order_marker_once(r: ContextResult, i: int)
    requires
        !occurs(render_parts(r)[0], marker_text()),
        !occurs(render_parts(r)[1], marker_text()),
        !occurs(render_parts(r)[3], marker_text()),
        !occurs(render_parts(r)[4], marker_text()),
        !occurs(render_parts(r)[5], marker_text()),
    ensures
        holds_at(render_text(r), heading("Layer Guidelines"@), part_start(r, 0)),
        holds_at(render_text(r), heading("Additional Guidelines"@), part_start(r, 1)),
        holds_at(render_text(r), marker_text(), part_start(r, 2)),
        holds_at(render_text(r), heading("Upstream Artifacts"@), part_start(r, 3)),
        holds_at(render_text(r), heading("Target Node Metadata"@), part_start(r, 4)),
        holds_at(render_text(r), heading("Custom Documents"@), part_start(r, 5)),
        part_start(r, 0) < part_start(r, 1) < part_start(r, 2) < part_start(r, 3) < part_start(r, 4) < part_start(
            r,
            5,
        ) < render_text(r).len(),
        holds_at(render_text(r), marker_text(), i) <==> i == part_start(r, 2),
        render_parts(r)[3] == section("Upstream Artifacts"@, upstream_entries(r.upstream@)),
        is_permutation(index_order(upstream_keys(r.upstream@), r.upstream@.len() as int), r.upstream@.len() as int),
        stable_sorted(upstream_keys(r.upstream@), index_order(upstream_keys(r.upstream@), r.upstream@.len() as int)),
{
    law_render_layout(r);
    law_render_single_marker(r, i);
    lemma_index_order(upstream_keys(r.upstream@), r.upstream@.len() as int);
}

fn append_section(out: &mut String, title: &str, entries: &Vec<String>)
    ensures
        final(out)@ == old(out)@ + section(title@, string_views(entries@)),
{
    let ghost before = old(out)@;
    let ghost ev = string_views(entries@);
    out.append("# ");
    out.append(title);
    out.append("\n\n");
    let ghost head = out@;
    let mut i: usize = 0;
    while i < entries.len()
        invariant
            i <= entries@.len(),
            ev == string_views(entries@),
            out@ == head + join(ev.take(i as int), "\n---\n"@),
        decreases entries@.len() - i,
    {
        if i > 0 {
            out.append("\n---\n");
        }
        out.append(entries[i].as_str());
        proof {
            assert(ev.take(i + 1).drop_last() =~= ev.take(i as int));
            if i == 0 {
                assert(join(ev.take(0), "\n---\n"@) == Seq::<char>::empty());
                assert(ev.take(1)[0] == ev[0]);
            }
        }
        assert(out@ =~= head + join(ev.take(i + 1), "\n---\n"@));
        i = i + 1;
    }
    assert(ev.take(entries@.len() as int) =~= ev);
    if entries.len() > 0 {
        out.append("\n");
    }
    out.append("\n");
    assert(out@ =~= before + section(title@, ev));
}

fn too_large(current: usize) -> (e: ContextError)
    ensures
        e == (ContextError::ResultTooLarge { current, limit: RESULT_SIZE_LIMIT_CHARS }),
{
    ContextError::ResultTooLarge { current, limit: RESULT_SIZE_LIMIT_CHARS }
}

/// Renders a compiled context as text, checking its size.
pub struct SectionFormatter;

impl SectionFormatter {
    /// Name of the strategy by which sections are ordered.
    pub const RENDER_SORT_STRATEGY: &'static str = "index-array";

    /// The context as text: the six parts of `render_parts` in order, each section's
    /// entries ordered stably by their keys. The size is checked after each part, and
    /// the first check that finds more than the limit of characters fails with that
    /// size.
    pub fn render(result: &ContextResult) -> (r: Result<String, ContextError>)
        ensures
            match r {
                Ok(s) => s@ == render_text(*result) && render_text(*result).len() <= RESULT_SIZE_LIMIT_CHARS,
                Err(e) => render_text(*result).len() > RESULT_SIZE_LIMIT_CHARS && (e matches ContextError::ResultTooLarge {
                    current,
                    limit,
                } && current == overflow_at(*result) && limit == RESULT_SIZE_LIMIT_CHARS),
            },
    {
        let ghost p = render_parts(*result);
        let mut out = String::new();
        let e1 = ordered_layer_texts(&result.layer_guidelines);
        append_section(&mut out, "Layer Guidelines", &e1);
        assert(out@ =~= p[0]);
        let n1 = out.as_str().unicode_len();
        if n1 > RESULT_SIZE_LIMIT_CHARS {
            return Err(too_large(n1));
        }
        let e2 = ordered_layer_texts(&result.additional_guidelines);
        append_section(&mut out, "Additional Guidelines", &e2);
        assert(out@ =~= p[0] + p[1]);
        let n2 = out.as_str().unicode_len();
        if n2 > RESULT_SIZE_LIMIT_CHARS {
            return Err(too_large(n2));
        }
        out.append(CACHE_BREAKPOINT_MARKER);
        out.append("\n\n");
        proof {
            reveal_strlit("<!-- cache-breakpoint: stable-end -->");
        }
        assert(out@ =~= p[0] + p[1] + p[2]);
        let n3 = out.as_str().unicode_len();
        if n3 > RESULT_SIZE_LIMIT_CHARS {
            return Err(too_large(n3));
        }
        let e3 = ordered_upstream_texts(&result.upstream);
        append_section(&mut out, "Upstream Artifacts", &e3);
        assert(out@ =~= p[0] + p[1] + p[2] + p[3]);
        let n4 = out.as_str().unicode_len();
        if n4 > RESULT_SIZE_LIMIT_CHARS {
            return Err(too_large(n4));
        }
        let e4 = ordered_metadata_texts(&result.target_metadata);
        append_section(&mut out, "Target Node Metadata", &e4);
        assert(out@ =~= p[0] + p[1] + p[2] + p[3] + p[4]);
        let n5 = out.as_str().unicode_len();
        if n5 > RESULT_SIZE_LIMIT_CHARS {
            return Err(too_large(n5));
        }
        let e5 = ordered_custom_texts(&result.custom_documents);
        append_section(&mut out, "Custom Documents", &e5);
        assert(out@ =~= render_text(*result));
        let n6 = out.as_str().unicode_len();
        if n6 > RESULT_SIZE_LIMIT_CHARS {
            return Err(too_large(n6));
        }
        match Self::enforce_size_limit(out.as_str()) {
            Ok(()) => Ok(out),
            Err(e) => Err(e),
        }
    }

    /// Fails with the number of characters of `rendered` when it is over the limit.
    pub fn enforce_size_limit(rendered: &str) -> (r: Result<(), ContextError>)
        ensures
            match r {
                Ok(()) => rendered@.len() <= RESULT_SIZE_LIMIT_CHARS,
                Err(e) => rendered@.len() > RESULT_SIZE_LIMIT_CHARS && (e matches ContextError::ResultTooLarge {
                    current,
                    limit,
                } && current == rendered@.len() && limit == RESULT_SIZE_LIMIT_CHARS),
            },
    {
        let n = rendered.unicode_len();
        if n > RESULT_SIZE_LIMIT_CHARS {
            return Err(too_large(n));
        }
        Ok(())
    }

    /// The name of the rule by which upstream artifacts are ordered at a granularity.
    pub fn upstream_sort_rule(granularity: Granularity) -> (r: &'static str)
        ensures
            r@ == sort_rule_name(granularity),
    {
        match granularity {
            Granularity::Document => {
                proof {
                    reveal_strlit("artifact_id-asc");
                }
                "artifact_id-asc"
            },
            Granularity::Subnode => {
                proof {
                    reveal_strlit("parent_id-asc,anchor-appearance-order");
                }
                "parent_id-asc,anchor-appearance-order"
            },
        }
    }
}

} // verus!
