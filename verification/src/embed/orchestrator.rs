use vstd::prelude::*;

use crate::ctx::compiler::{byte_slice, opt_str, slice_bytes};
use crate::embed::content::{normalize_content, normalized};
use crate::embed::contextual::{deterministic_context, synthesize_with_fallback, ContextualConfig};
use crate::embed::embedder::EmbedResult;
use crate::embed::error::{embed_error_text, EmbedError};
use crate::graph::{find_node, Node, TraceGraph};
use crate::store::{node_row, row_index, subnode_row, up_to_date, upserted, EmbeddingStore, RowView};
use crate::subnode::{
    auto_fragment, byte_offsets, extract_from, extract_subnodes_with_levels, is_auto_generated_fragment, SubnodeView,
};
use crate::text::{chars_between, chars_of, contains_char};

verus! {

/// Which nodes to embed: all of them (`--all`) or those named (`--node`).
#[derive(Debug, Clone, PartialEq, Eq)]
pub enum NodeFilter {
    All,
    Ids(Vec<String>),
}

/// How a stored embedding compares with the current content: up to date, stale
/// (content hash or model version differs), or missing.
#[derive(Debug, Clone, Copy, PartialEq, Eq, Structural)]
pub enum HashMatchState {
    Skip,
    Regen,
    Missing,
}

/// Options of an embedding run.
pub struct EmbedOptions {
    pub force: bool,
    pub include_subnodes: bool,
    pub contextual: Option<ContextualConfig>,
    pub project_root: Option<String>,
    pub node_filter: NodeFilter,
}

impl Default for EmbedOptions {
    fn default() -> (r: EmbedOptions)
        ensures
            !r.force,
            r.include_subnodes,
            r.contextual is None,
            r.project_root is None,
            r.node_filter == NodeFilter::All,
    {
        EmbedOptions {
            force: false,
            include_subnodes: true,
            contextual: None,
            project_root: None,
            node_filter: NodeFilter::All,
        }
    }
}

/// One failed node of an embedding run.
#[derive(Debug, Clone, PartialEq, Eq)]
pub struct EmbedErrorItem {
    pub node_id: String,
    pub message: String,
}

/// The summary of an embedding run: `failed` counts the items of `errors`.
#[derive(Debug, Clone, PartialEq, Eq)]
pub struct EmbedReport {
    pub generated: usize,
    pub skipped: usize,
    pub failed: usize,
    pub errors: Vec<EmbedErrorItem>,
}

impl Default for EmbedReport {
    fn default() -> (r: EmbedReport)
        ensures
            r.generated == 0,
            r.skipped == 0,
            r.failed == 0,
            r.errors@.len() == 0,
    {
        EmbedReport { generated: 0, skipped: 0, failed: 0, errors: Vec::new() }
    }
}

/// An automatically generated subnode id: the part after its first `#` is an
/// automatic fragment (16 lowercase hexadecimal digits).
pub open spec fn auto_generated_id(id: Seq<char>) -> bool {
    exists|k: int|
        0 <= k < id.len() && id[k] == '#' && (forall|j: int| 0 <= j < k ==> id[j] != '#') && auto_fragment(
            #[trigger] id.skip(k + 1),
        )
}

/// Whether `id` names an automatically generated subnode (`{parent}#{16 hex}`).
pub fn is_auto_generated_subnode(id: &str) -> (r: bool)
    ensures
        r == auto_generated_id(id@),
{
    let c = chars_of(id);
    let mut k: usize = 0;
    while k < c.len() && c[k] != '#'
        invariant
            k <= c@.len(),
            c@ == id@,
            forall|j: int| 0 <= j < k ==> c@[j] != '#',
        decreases c@.len() - k,
    {
        k = k + 1;
    }
    if k == c.len() {
        return false;
    }
    let frag = chars_between(&c, k + 1, c.len());
    assert(c@.subrange(k + 1, c@.len() as int) =~= c@.skip(k + 1));
    let r = is_auto_generated_fragment(frag.as_str());
    proof {
        if !r {
            assert forall|k2: int|
                0 <= k2 < id@.len() && id@[k2] == '#' && (forall|j: int| 0 <= j < k2 ==> id@[j] != '#') implies !auto_fragment(
                #[trigger] id@.skip(k2 + 1),
            ) by {
                if k2 < k {
                    assert(c@[k2] != '#');
                } else if k2 > k {
                    assert(id@[k as int] == '#');
                }
            }
        }
    }
    r
}


/// The nodes of `nodes` that are not automatically generated subnodes, in order.
pub open spec fn non_auto_nodes(nodes: Seq<Node>) -> Seq<Node>
    decreases nodes.len(),
{
    if nodes.len() == 0 {
        nodes
    } else if auto_generated_id(nodes.last().id@) {
        non_auto_nodes(nodes.drop_last())
    } else {
        non_auto_nodes(nodes.drop_last()).push(nodes.last())
    }
}

/// The first of `ids` that names no node.
pub open spec fn first_unknown_id(nodes: Seq<Node>, ids: Seq<String>) -> Option<int> {
    if exists|i: int| 0 <= i < ids.len() && find_node(nodes, (#[trigger] ids[i])@) is None {
        Some(choose|i: int| 0 <= i < ids.len() && find_node(nodes, (#[trigger] ids[i])@) is None
            && forall|j: int| 0 <= j < i ==> find_node(nodes, (#[trigger] ids[j])@) is Some)
    } else {
        None
    }
}

fn copy_node(n: &Node) -> (r: Node)
    ensures
        r == *n,
{
    Node {
        id: n.id.clone(),
        type_code: n.type_code.clone(),
        path: n.path.clone(),
        parent_id: n.parent_id.clone(),
        anchor: n.anchor.clone(),
    }
}

/// The nodes a run embeds: with `All`, every node that is not an automatically
/// generated subnode (those are embedded through their document); with `Ids`, the
/// named nodes in the order named, and `NodeNotFound` for the first name that is no
/// node.
pub fn embed_targets(graph: &TraceGraph, filter: &NodeFilter) -> (r: Result<Vec<Node>, EmbedError>)
    ensures
        match filter {
            NodeFilter::All => r matches Ok(v) && v@ == non_auto_nodes(graph.node_seq()),
            NodeFilter::Ids(ids) => match first_unknown_id(graph.node_seq(), ids@) {
                Some(k) => r matches Err(EmbedError::NodeNotFound(m)) && m@ == ids@[k]@,
                None => r matches Ok(v) && v@.len() == ids@.len() && forall|i: int|
                    0 <= i < ids@.len() ==> #[trigger] v@[i] == graph.node_seq()[find_node(
                        graph.node_seq(),
                        ids@[i]@,
                    )->0],
            },
        },
{
    match filter {
        NodeFilter::All => {
            let nodes = graph.nodes();
            let mut out: Vec<Node> = Vec::new();
            let mut i: usize = 0;
            while i < nodes.len()
                invariant
                    i <= nodes@.len(),
                    nodes@ == graph.node_seq(),
                    out@ == non_auto_nodes(nodes@.take(i as int)),
                decreases nodes@.len() - i,
            {
                proof {
                    assert(nodes@.take(i + 1).drop_last() =~= nodes@.take(i as int));
                    assert(nodes@.take(i + 1).last() == nodes@[i as int]);
                }
                if !is_auto_generated_subnode(nodes[i].id.as_str()) {
                    out.push(copy_node(&nodes[i]));
                }
                i = i + 1;
            }
            assert(nodes@.take(nodes@.len() as int) =~= nodes@);
            Ok(out)
        },
        NodeFilter::Ids(ids) => {
            let mut out: Vec<Node> = Vec::new();
            let mut i: usize = 0;
            while i < ids.len()
                invariant
                    i <= ids@.len(),
                    *filter == NodeFilter::Ids(*ids),
                    out@.len() == i,
                    forall|j: int| 0 <= j < i ==> find_node(graph.node_seq(), (#[trigger] ids@[j])@) is Some,
                    forall|j: int|
                        0 <= j < i ==> #[trigger] out@[j] == graph.node_seq()[find_node(
                            graph.node_seq(),
                            ids@[j]@,
                        )->0],
                decreases ids@.len() - i,
            {
                match graph.node(ids[i].as_str()) {
                    Some(n) => {
                        out.push(copy_node(n));
                    },
                    None => {
                        proof {
                            let k = i as int;
                            let c = choose|c: int| 0 <= c < ids@.len() && find_node(graph.node_seq(), (#[trigger] ids@[c])@)
                                is None && forall|j: int| 0 <= j < c ==> find_node(graph.node_seq(), (#[trigger] ids@[j])@) is Some;
                            assert(find_node(graph.node_seq(), ids@[k]@) is None);
                            assert(c == k) by {
                                if c < k {
                                    assert(find_node(graph.node_seq(), ids@[c]@) is Some);
                                } else if c > k {
                                    assert(find_node(graph.node_seq(), ids@[k]@) is Some);
                                }
                            }
                        }
                        return Err(EmbedError::NodeNotFound(ids[i].clone()));
                    },
                }
                i = i + 1;
            }
            Ok(out)
        },
    }
}

/// What to do with a node: skip it (empty content, not forced), or embed it with a
/// context (present when contextual retrieval is on).
#[derive(Debug, Clone, PartialEq, Eq)]
pub enum NodeStep {
    Skipped,
    Embed { context: Option<String> },
}

/// The context for `text` of node `id` under `contextual`.
pub open spec fn context_for(contextual: Option<ContextualConfig>, text: Seq<char>, id: Seq<char>) -> Option<Seq<char>> {
    match contextual {
        Some(_) => Some(deterministic_context(text, id)),
        None => None,
    }
}

/// Begins embedding `node` whose normalized content is `content`: an empty content is
/// skipped and counted unless the run is forced; otherwise the node is embedded with
/// the context of contextual retrieval, when it is on.
pub fn begin_node(report: &mut EmbedReport, node: &Node, content: &str, options: &EmbedOptions) -> (r: NodeStep)
    requires
        old(report).skipped < usize::MAX,
    ensures
        content@.len() == 0 && !options.force ==> r == NodeStep::Skipped && final(report).skipped == old(
            report,
        ).skipped + 1 && final(report).generated == old(report).generated && final(report).failed == old(
            report,
        ).failed && final(report).errors@ == old(report).errors@,
        !(content@.len() == 0 && !options.force) ==> *final(report) == *old(report) && (r matches NodeStep::Embed {
            context,
        } && opt_str(context) == context_for(options.contextual, content@, node.id@)),
{
    if content.unicode_len() == 0 && !options.force {
        report.skipped = report.skipped + 1;
        return NodeStep::Skipped;
    }
    let context = match &options.contextual {
        Some(cfg) => match synthesize_with_fallback(cfg, content, node.id.as_str()) {
            Ok(c) => c,
            Err(_) => None,
        },
        None => None,
    };
    NodeStep::Embed { context }
}

/// The report after a node failed with the message `m`.
pub open spec fn failed_once(old: EmbedReport, new: EmbedReport, id: Seq<char>, m: Seq<char>) -> bool {
    &&& new.failed == old.failed + 1
    &&& new.generated == old.generated
    &&& new.skipped == old.skipped
    &&& new.errors@.len() == old.errors@.len() + 1
    &&& new.errors@.take(old.errors@.len() as int) == old.errors@
    &&& new.errors@.last().node_id@ == id
    &&& new.errors@.last().message@ == m
}

/// The report after one more generated or skipped node.
pub open spec fn counted(old: EmbedReport, new: EmbedReport, generated: int, skipped: int) -> bool {
    &&& new.generated == old.generated + generated
    &&& new.skipped == old.skipped + skipped
    &&& new.failed == old.failed
    &&& new.errors@ == old.errors@
}

/// The stored row of node `id` has no context.
pub open spec fn stored_without_context(rows: Seq<RowView>, id: Seq<char>) -> bool {
    match row_index(rows, id) {
        Some(k) => rows[k].context is None,
        None => false,
    }
}

/// Finishes embedding document node `node` with the outcome of the model: a failure is
/// recorded and the run goes on; an embedding that is already stored (same content hash
/// and model version) is skipped unless the run is forced or it brings a context that
/// the stored row lacks; any other is upserted and counted as generated. Returns whether
/// the node's subnodes are embedded next: all but a skipped node's are.
pub fn finish_node(
    store: &mut EmbeddingStore,
    report: &mut EmbedReport,
    node: &Node,
    outcome: Result<EmbedResult, EmbedError>,
    force: bool,
) -> (subnodes_next: bool)
    requires
        old(store).wf(),
        old(report).generated < usize::MAX,
        old(report).skipped < usize::MAX,
        old(report).failed < usize::MAX,
    ensures
        final(store).wf(),
        final(store).snaps() == old(store).snaps(),
        match outcome {
            Err(e) => subnodes_next && final(store).rows() == old(store).rows() && failed_once(
                *old(report),
                *final(report),
                node.id@,
                embed_error_text(e),
            ),
            Ok(res) => if !force && up_to_date(old(store).rows(), node.id@, res.content_hash@, res.model_version@) && !(
            res.context is Some && stored_without_context(old(store).rows(), node.id@)) {
                !subnodes_next && final(store).rows() == old(store).rows() && counted(*old(report), *final(report), 0, 1)
            } else {
                subnodes_next && (exists|secs: nat| final(store).rows() == upserted(
                    old(store).rows(),
                    node_row(*node, res, crate::text::datetime_text(secs)),
                    true,
                )) && counted(*old(report), *final(report), 1, 0)
            },
        },
{
    match outcome {
        Err(e) => {
            report.failed = report.failed + 1;
            let ghost before = report.errors@;
            report.errors.push(EmbedErrorItem { node_id: node.id.clone(), message: e.message() });
            assert(report.errors@.take(before.len() as int) =~= before);
        },
        Ok(result) => {
            if !force {
                let fresh = match store.is_up_to_date(node.id.as_str(), result.content_hash.as_str(), result.model_version.as_str()) {
                    Ok(b) => b,
                    Err(_) => false,
                };
                if fresh {
                    let backfill = result.context.is_some() && match store.load_embedding(node.id.as_str()) {
                        Ok(Some(row)) => row.context.is_none(),
                        _ => false,
                    };
                    if !backfill {
                        report.skipped = report.skipped + 1;
                        return false;
                    }
                }
            }
            let _ = store.upsert_with_subnode_meta(node, &result);
            report.generated = report.generated + 1;
        },
    }
    true
}

/// A subnode to embed: its id, its anchor, its normalized text and its context.
#[derive(Debug, Clone, PartialEq, Eq)]
pub struct SubnodeJob {
    pub id: String,
    pub anchor: String,
    pub text: String,
    pub context: Option<String>,
}

/// A subnode job as plain values.
pub type JobView = (Seq<char>, Seq<char>, Seq<char>, Option<Seq<char>>);

/// The view of a job.
pub open spec fn job_view(j: SubnodeJob) -> JobView {
    (j.id@, j.anchor@, j.text@, opt_str(j.context))
}

/// The jobs for the subnodes `subs` of `raw`: each one's section, normalized, unless
/// that leaves nothing.
pub open spec fn jobs_of(subs: Seq<SubnodeView>, raw: Seq<char>, contextual: Option<ContextualConfig>) -> Seq<JobView>
    decreases subs.len(),
{
    if subs.len() == 0 {
        Seq::empty()
    } else {
        let rest = jobs_of(subs.drop_last(), raw, contextual);
        let s = subs.last();
        let text = normalized(byte_slice(raw, s.range.0, s.range.1));
        if text.len() == 0 {
            rest
        } else {
            rest.push((s.id, s.anchor, text, context_for(contextual, text, s.id)))
        }
    }
}

/// The subnodes of a document node to embed: none unless subnodes are included, the
/// node is a document (no `#` in its id) and its file could be read (`raw`); otherwise
/// one job for each level-2 and level-3 heading whose section is not empty.
pub fn subnode_jobs(node: &Node, raw: Option<&str>, options: &EmbedOptions) -> (r: Vec<SubnodeJob>)
    ensures
        r@.map_values(|j: SubnodeJob| job_view(j)) == (match raw {
            Some(t) => if options.include_subnodes && !node.id@.contains('#') {
                jobs_of(extract_from(node.id@, t@, seq![2u8, 3u8], 0, None), t@, options.contextual)
            } else {
                Seq::empty()
            },
            None => Seq::empty(),
        }),
{
    let text = match raw {
        Some(t) => t,
        None => return Vec::new(),
    };
    if !options.include_subnodes || contains_char(node.id.as_str(), '#') {
        return Vec::new();
    }
    let levels: [u8; 2] = [2, 3];
    assert(levels@ =~= seq![2u8, 3u8]);
    let subs = extract_subnodes_with_levels(node.id.as_str(), text, &levels);
    let ghost sv = subs@.map_values(|s: crate::subnode::AutoSubnode| s@);
    let c = chars_of(text);
    let offs = byte_offsets(&c, text.as_bytes().len());
    let mut out: Vec<SubnodeJob> = Vec::new();
    let mut i: usize = 0;
    while i < subs.len()
        invariant
            i <= subs@.len(),
            sv == subs@.map_values(|s: crate::subnode::AutoSubnode| s@),
            c@ == text@,
            offs@.len() == c@.len() + 1,
            forall|k: int| 0 <= k <= c@.len() ==> #[trigger] offs@[k] == crate::subnode::bytes_before(c@, k),
            out@.map_values(|j: SubnodeJob| job_view(j)) == jobs_of(sv.take(i as int), text@, options.contextual),
        decreases subs@.len() - i,
    {
        proof {
            assert(sv.take(i + 1).drop_last() =~= sv.take(i as int));
            assert(sv.take(i + 1).last() == subs@[i as int]@);
        }
        let sub = &subs[i];
        let slice = slice_bytes(&c, &offs, sub.content_range.0, sub.content_range.1);
        let t = normalize_content(slice.as_str());
        if t.unicode_len() > 0 {
            let context = match &options.contextual {
                Some(cfg) => match synthesize_with_fallback(cfg, t.as_str(), sub.id.as_str()) {
                    Ok(x) => x,
                    Err(_) => None,
                },
                None => None,
            };
            let job = SubnodeJob { id: sub.id.clone(), anchor: sub.anchor.clone(), text: t, context };
            let ghost before = out@.map_values(|j: SubnodeJob| job_view(j));
            let ghost jv = job_view(job);
            out.push(job);
            assert(out@.map_values(|j: SubnodeJob| job_view(j)) =~= before.push(jv));
        }
        i = i + 1;
    }
    assert(sv.take(sv.len() as int) =~= sv);
    out
}

/// Finishes embedding a subnode of `node` with the outcome of the model: the embedding
/// is upserted as a subnode row (parent and anchor) and counted, or the failure is
/// recorded.
pub fn finish_subnode(
    store: &mut EmbeddingStore,
    report: &mut EmbedReport,
    node: &Node,
    job: &SubnodeJob,
    outcome: Result<EmbedResult, EmbedError>,
)
    requires
        old(store).wf(),
        old(report).generated < usize::MAX,
        old(report).failed < usize::MAX,
    ensures
        final(store).wf(),
        final(store).snaps() == old(store).snaps(),
        match outcome {
            Err(e) => final(store).rows() == old(store).rows() && failed_once(
                *old(report),
                *final(report),
                job.id@,
                embed_error_text(e),
            ),
            Ok(res) => (exists|secs: nat| final(store).rows() == upserted(
                old(store).rows(),
                subnode_row(job.id@, node.id@, job.anchor@, res, crate::text::datetime_text(secs)),
                false,
            )) && counted(*old(report), *final(report), 1, 0),
        },
{
    match outcome {
        Err(e) => {
            report.failed = report.failed + 1;
            let ghost before = report.errors@;
            report.errors.push(EmbedErrorItem { node_id: job.id.clone(), message: e.message() });
            assert(report.errors@.take(before.len() as int) =~= before);
        },
        Ok(result) => {
            let _ = store.upsert_subnode(job.id.as_str(), node.id.as_str(), job.anchor.as_str(), &result);
            report.generated = report.generated + 1;
        },
    }
}

/// The text the model embeds: a non-empty context, a blank line, then the text; the
/// text alone otherwise.
pub fn embed_input(text: &str, context: Option<&str>) -> (r: String)
    ensures
        r@ == match context {
            Some(c) => if c@.len() > 0 {
                c@ + "\n\n"@ + text@
            } else {
                text@
            },
            None => text@,
        },
{
    match context {
        Some(c) => {
            if c.unicode_len() > 0 {
                let mut s = String::from_str(c);
                s.append("\n\n");
                s.append(text);
                s
            } else {
                String::from_str(text)
            }
        },
        None => String::from_str(text),
    }
}

/// Each step of an embedding run that records an outcome keeps the number of failed
/// nodes equal to the number of recorded errors.
pub proof fn lemma_failed_counts_errors(
    before: EmbedReport,
    after: EmbedReport,
    id: Seq<char>,
    m: Seq<char>,
    generated: int,
    skipped: int,
)
    requires
        before.failed == before.errors@.len(),
        failed_once(before, after, id, m) || counted(before, after, generated, skipped),
    ensures
        after.failed == after.errors@.len(),
{
}

} // verus!
