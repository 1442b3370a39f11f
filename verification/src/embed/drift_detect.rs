use vstd::prelude::*;

use crate::ctx::compiler::opt_str;
use crate::embed::content::{content_hash_for, normalized, sha256_hex_of};
use crate::embed::error::EmbedError;
use crate::graph::{unique_ids, Node, TraceGraph};
use crate::order::{insert_str, lemma_sort_strs, lex_lt, sort_strs, strs_sorted};
use crate::store::{loaded_row, row_index, without_subnode_data, EmbeddingStore, RowView};

verus! {

/// The kind of a drift finding.
#[derive(Debug, Clone, Copy, PartialEq, Eq, Structural)]
pub enum DriftKind {
    /// A stored embedding whose content hash differs from the current content.
    ContentChanged,
    /// A stored embedding whose file cannot be read.
    FileMissing,
    /// A node without a stored embedding.
    EmbeddingMissing,
}

/// One drift finding: the node, the stored and current content hashes, and the kind.
#[derive(Debug, Clone, PartialEq)]
pub struct DriftFinding {
    pub node_id: String,
    pub stored_hash: Option<String>,
    pub current_hash: Option<String>,
    pub kind: DriftKind,
}

/// A drift finding as plain values.
pub type FindingView = (Seq<char>, Option<Seq<char>>, Option<Seq<char>>, DriftKind);

/// The view of a finding.
pub open spec fn finding_view(f: DriftFinding) -> FindingView {
    (f.node_id@, opt_str(f.stored_hash), opt_str(f.current_hash), f.kind)
}

/// The stored content hash of node `id`, if it has a row.
pub open spec fn stored_hash_of(rows: Seq<RowView>, id: Seq<char>) -> Option<Seq<char>> {
    match row_index(rows, id) {
        Some(k) => Some(rows[k].content_hash),
        None => None,
    }
}

/// The finding for node `id` given its stored hash and its current text (none when
/// the file cannot be read): a node without a row is missing its embedding (with the
/// hash of its text when it can be read); a node with a row whose file cannot be read
/// has a missing file; one whose text hashes otherwise than stored has changed.
pub open spec fn drift_of(id: Seq<char>, stored: Option<Seq<char>>, content: Option<Seq<char>>) -> Option<FindingView> {
    match stored {
        None => Some(
            (
                id,
                None,
                match content {
                    Some(c) => Some(sha256_hex_of(normalized(c))),
                    None => None,
                },
                DriftKind::EmbeddingMissing,
            ),
        ),
        Some(h) => match content {
            None => Some((id, Some(h), None, DriftKind::FileMissing)),
            Some(c) => if sha256_hex_of(normalized(c)) != h {
                Some((id, Some(h), Some(sha256_hex_of(normalized(c))), DriftKind::ContentChanged))
            } else {
                None
            },
        },
    }
}

/// The findings for the first `n` nodes, in node order.
pub open spec fn drift_findings(nodes: Seq<Node>, rows: Seq<RowView>, contents: Seq<Option<String>>, n: int) -> Seq<
    FindingView,
>
    decreases n,
{
    if n <= 0 {
        Seq::empty()
    } else {
        let rest = drift_findings(nodes, rows, contents, n - 1);
        match drift_of(nodes[n - 1].id@, stored_hash_of(rows, nodes[n - 1].id@), opt_str(contents[n - 1])) {
            Some(f) => rest.push(f),
            None => rest,
        }
    }
}

/// Inserts a finding after every one whose node id does not come after its own.
pub open spec fn insert_finding(s: Seq<FindingView>, x: FindingView) -> Seq<FindingView>
    decreases s.len(),
{
    if s.len() == 0 {
        seq![x]
    } else if lex_lt(x.0, s.last().0) {
        insert_finding(s.drop_last(), x).push(s.last())
    } else {
        s.push(x)
    }
}

/// Findings ordered by node id.
pub open spec fn by_node_id(s: Seq<FindingView>) -> Seq<FindingView>
    decreases s.len(),
{
    if s.len() == 0 {
        s
    } else {
        insert_finding(by_node_id(s.drop_last()), s.last())
    }
}

proof fn lemma_insert_finding_split(s: Seq<FindingView>, x: FindingView, j: int)
    requires
        0 < j <= s.len(),
        lex_lt(x.0, s[j - 1].0),
    ensures
        insert_finding(s.take(j), x) + s.skip(j) == insert_finding(s.take(j - 1), x) + s.skip(j - 1),
{
    let t = s.take(j);
    assert(t.drop_last() =~= s.take(j - 1));
    assert(t.last() == s[j - 1]);
    assert(s.skip(j - 1) =~= seq![s[j - 1]] + s.skip(j));
    assert(insert_finding(s.take(j - 1), x).push(s[j - 1]) + s.skip(j) =~= insert_finding(s.take(j - 1), x) + s.skip(
        j - 1,
    ));
}

/// Inserts `f` into `out`, which holds `by_node_id(s)`, so that it holds
/// `insert_finding(by_node_id(s), f)`.
fn insert_by_id(out: &mut Vec<DriftFinding>, f: DriftFinding, Ghost(fo): Ghost<Seq<FindingView>>)
    requires
        old(out)@.map_values(|x: DriftFinding| finding_view(x)) == fo,
    ensures
        final(out)@.map_values(|x: DriftFinding| finding_view(x)) == insert_finding(fo, finding_view(f)),
{
    let ghost fv = finding_view(f);
    let mut j: usize = out.len();
    let ghost ov = out@.map_values(|x: DriftFinding| finding_view(x));
    proof {
        assert(fo.len() == out@.len());
        assert(fo.take(j as int) =~= fo);
        assert(insert_finding(fo, fv) + fo.skip(j as int) =~= insert_finding(fo, fv));
    }
    while j > 0 && crate::order::str_less(f.node_id.as_str(), out[j - 1].node_id.as_str())
        invariant
            j <= out@.len(),
            out@.len() == fo.len(),
            ov == out@.map_values(|x: DriftFinding| finding_view(x)),
            ov == fo,
            fv == finding_view(f),
            insert_finding(fo, fv) == insert_finding(fo.take(j as int), fv) + fo.skip(j as int),
        decreases j,
    {
        proof {
            assert(ov[j - 1] == fo[j - 1]);
            lemma_insert_finding_split(fo, fv, j as int);
        }
        j = j - 1;
    }
    proof {
        let t = fo.take(j as int);
        if j > 0 {
            assert(t.last() == fo[j - 1]);
            assert(insert_finding(t, fv) == t.push(fv));
        } else {
            assert(insert_finding(t, fv) == seq![fv]);
        }
    }
    let ghost prev = out@;
    out.insert(j, f);
    proof {
        let lhs = out@.map_values(|x: DriftFinding| finding_view(x));
        let full = fo.take(j as int).push(fv) + fo.skip(j as int);
        assert forall|q: int| 0 <= q < lhs.len() implies lhs[q] == full[q] by {
            if q < j {
                assert(out@[q] == prev[q]);
            } else if q > j {
                assert(out@[q] == prev[q - 1]);
            }
        }
        assert(lhs =~= full);
    }
}

/// The drift of every node of `graph` against the stored embeddings, ordered by node
/// id: `contents[i]` is the current text of the i-th node, none when its file cannot
/// be read (see `drift_of`).
pub fn detect_drift(graph: &TraceGraph, store: &EmbeddingStore, contents: &Vec<Option<String>>) -> (r: Result<
    Vec<DriftFinding>,
    EmbedError,
>)
    requires
        contents@.len() == graph.node_seq().len(),
    ensures
        r matches Ok(v) && v@.map_values(|x: DriftFinding| finding_view(x)) == by_node_id(
            drift_findings(graph.node_seq(), store.rows(), contents@, graph.node_seq().len() as int),
        ),
{
    let nodes = graph.nodes();
    let ghost rows = store.rows();
    let ghost all = drift_findings(nodes@, rows, contents@, nodes@.len() as int);
    let mut out: Vec<DriftFinding> = Vec::new();
    let mut i: usize = 0;
    while i < nodes.len()
        invariant
            i <= nodes@.len(),
            nodes@ == graph.node_seq(),
            contents@.len() == nodes@.len(),
            rows == store.rows(),
            out@.map_values(|x: DriftFinding| finding_view(x)) == by_node_id(
                drift_findings(nodes@, rows, contents@, i as int),
            ),
        decreases nodes@.len() - i,
    {
        let n = &nodes[i];
        let stored = store.load_embedding(n.id.as_str());
        let ghost sh = stored_hash_of(rows, n.id@);
        let ghost prev = drift_findings(nodes@, rows, contents@, i as int);
        let stored_hash: Option<String> = match stored {
            Ok(Some(e)) => {
                proof {
                    assert(loaded_row(e).content_hash == e.content_hash@);
                }
                Some(e.content_hash)
            },
            _ => None,
        };
        assert(opt_str(stored_hash) == sh);
        let current: Option<String> = match &contents[i] {
            Some(c) => Some(content_hash_for(c.as_str())),
            None => None,
        };
        let found: Option<DriftFinding> = match stored_hash {
            None => Some(
                DriftFinding {
                    node_id: n.id.clone(),
                    stored_hash: None,
                    current_hash: current,
                    kind: DriftKind::EmbeddingMissing,
                },
            ),
            Some(h) => match current {
                None => Some(
                    DriftFinding {
                        node_id: n.id.clone(),
                        stored_hash: Some(h),
                        current_hash: None,
                        kind: DriftKind::FileMissing,
                    },
                ),
                Some(c) => {
                    if crate::text::str_eq(c.as_str(), h.as_str()) {
                        None
                    } else {
                        Some(
                            DriftFinding {
                                node_id: n.id.clone(),
                                stored_hash: Some(h),
                                current_hash: Some(c),
                                kind: DriftKind::ContentChanged,
                            },
                        )
                    }
                },
            },
        };
        proof {
            let want = drift_of(n.id@, sh, opt_str(contents@[i as int]));
            if found is Some {
                assert(want == Some(finding_view(found->0)));
            } else {
                assert(want is None);
            }
        }
        match found {
            Some(f) => {
                let ghost fo = by_node_id(prev);
                let ghost fv = finding_view(f);
                insert_by_id(&mut out, f, Ghost(fo));
                proof {
                    assert(drift_findings(nodes@, rows, contents@, i + 1) == prev.push(fv));
                    assert(prev.push(fv).drop_last() =~= prev);
                    assert(by_node_id(prev.push(fv)) == insert_finding(fo, fv));
                }
            },
            None => {
                assert(drift_findings(nodes@, rows, contents@, i + 1) == prev);
            },
        }
        i = i + 1;
    }
    Ok(out)
}


/// The node ids of findings.
pub open spec fn finding_ids(s: Seq<FindingView>) -> Seq<Seq<char>> {
    s.map_values(|f: FindingView| f.0)
}

proof fn lemma_insert_finding_ids(s: Seq<FindingView>, x: FindingView)
    ensures
        finding_ids(insert_finding(s, x)) == insert_str(finding_ids(s), x.0),
    decreases s.len(),
{
    let k = finding_ids(s);
    if s.len() > 0 {
        assert(k.last() == s.last().0);
        assert(k.drop_last() =~= finding_ids(s.drop_last()));
        if lex_lt(x.0, s.last().0) {
            lemma_insert_finding_ids(s.drop_last(), x);
            assert(finding_ids(insert_finding(s, x)) =~= finding_ids(insert_finding(s.drop_last(), x)).push(
                s.last().0,
            ));
        } else {
            assert(finding_ids(s.push(x)) =~= k.push(x.0));
        }
    } else {
        assert(finding_ids(seq![x]) =~= seq![x.0]);
    }
}

proof fn lemma_by_node_id_ids(s: Seq<FindingView>)
    ensures
        finding_ids(by_node_id(s)) == sort_strs(finding_ids(s)),
    decreases s.len(),
{
    if s.len() > 0 {
        lemma_by_node_id_ids(s.drop_last());
        lemma_insert_finding_ids(by_node_id(s.drop_last()), s.last());
        assert(finding_ids(s).drop_last() =~= finding_ids(s.drop_last()));
        assert(finding_ids(s).last() == s.last().0);
    }
}

/// Drift findings come out in ascending node-id order, one for each finding made,
/// whatever order the nodes were visited in.
pub proof fn lemma_drift_order(s: Seq<FindingView>)
    ensures
        strs_sorted(finding_ids(by_node_id(s))),
        finding_ids(by_node_id(s)).to_multiset() == finding_ids(s).to_multiset(),
{
    lemma_by_node_id_ids(s);
    lemma_sort_strs(finding_ids(s));
}

} // verus!
