use legixy::graph::{Node, TraceGraph};
use legixy::refresh::{apply_renames, detect_changes, levenshtein, render, OrphanKind, RefreshReport, SubnodeRename};
use legixy::store::{EmbeddingRecord, EmbeddingStore, SubnodeRef};
use legixy::subnode::generate_subnode_id;

#[test]
fn levenshtein_basic() {
    assert_eq!(levenshtein("", ""), 0);
    assert_eq!(levenshtein("abc", "abc"), 0);
    assert_eq!(levenshtein("abc", "abd"), 1);
    assert_eq!(levenshtein("kitten", "sitting"), 3);
    assert_eq!(levenshtein("", "xyz"), 3);
}

#[test]
fn levenshtein_counts_characters_not_bytes() {
    assert_eq!(levenshtein("概要", "概略"), 1);
    assert_eq!(levenshtein("flaw", "lawn"), 2);
}

fn doc(id: &str, path: &str) -> Node {
    Node { id: id.to_string(), type_code: "DD".to_string(), path: path.to_string(), parent_id: None, anchor: None }
}

fn stored(id: &str, parent: &str, anchor: &str) -> SubnodeRef {
    SubnodeRef { node_id: id.to_string(), parent_id: Some(parent.to_string()), anchor: Some(anchor.to_string()) }
}

#[test]
fn detect_changes_pairs_renames_and_orphans() {
    let graph = TraceGraph::from_parts(vec![doc("DD-A", "dd.md"), doc("DD-B", "other.txt")], vec![]);
    let content = "# Doc\n## Overview\nx\n## Details\ny\n".to_string();
    let overview = generate_subnode_id("DD-A", &["Overview".to_string()]);
    let details = generate_subnode_id("DD-A", &["Details".to_string()]);
    let persisted = vec![
        stored(&overview, "DD-A", "## Overview"),
        stored("DD-A#old-detail", "DD-A", "Detail"),
        stored("DD-A#gone", "DD-A", "Something else entirely"),
    ];
    let sources = vec![("dd.md".to_string(), content)];
    let report = detect_changes(&graph, &persisted, &sources);
    assert_eq!(report.parents_scanned, 1);
    assert_eq!(report.renames.len(), 1);
    assert_eq!(report.renames[0].old_id, "DD-A#old-detail");
    assert_eq!(report.renames[0].new_id, details);
    assert_eq!(report.renames[0].new_anchor, "Details");
    assert_eq!(report.orphans.len(), 1);
    assert_eq!(report.orphans[0].id, "DD-A#gone");
    assert_eq!(report.orphans[0].kind, OrphanKind::Removed);
}

#[test]
fn detect_changes_skips_unreadable_documents() {
    let graph = TraceGraph::from_parts(vec![doc("DD-A", "dd.md")], vec![]);
    let report = detect_changes(&graph, &vec![], &vec![]);
    assert_eq!(report.parents_scanned, 1);
    assert!(report.renames.is_empty() && report.orphans.is_empty());
}

#[test]
fn render_dry_run_report() {
    let report = RefreshReport {
        renames: vec![SubnodeRename {
            old_id: "D#a".into(),
            new_id: "D#b".into(),
            parent_id: "D".into(),
            old_anchor: Some("A \"x\"".into()),
            new_anchor: "B".into(),
        }],
        orphans: vec![],
        parents_scanned: 2,
    };
    let text = render(&report, false);
    assert_eq!(
        text,
        "=== refresh-subnodes (dry-run) ===\nparents_scanned: 2\nrenames: 1\n  D#a → D#b  (parent=D, anchor: Some(\"A \\\"x\\\"\") → \"B\")\norphans: 0\n\n--apply で embeddings の subnode ID を更新します（事前に engine.db をバックアップ）。\n"
    );
    let empty = RefreshReport::default();
    assert_eq!(render(&empty, true), "=== refresh-subnodes (apply) ===\nparents_scanned: 0\nrenames: 0\norphans: 0\n");
}

fn record(id: &str) -> EmbeddingRecord {
    EmbeddingRecord {
        node_id: id.to_string(),
        embedding: vec![0; 8],
        dim: 2,
        model_version: "V".into(),
        content_hash: "H".into(),
        context: None,
        context_hash: None,
        parent_id: Some("D".into()),
        anchor: Some("a".into()),
        is_subnode: true,
        created_at: "t".into(),
    }
}

#[test]
fn apply_renames_updates_ids_and_stops_on_conflict() {
    let mut store = EmbeddingStore::restore(vec![record("D#a"), record("D#c")], vec![]).unwrap();
    let ren = |o: &str, n: &str| SubnodeRename { old_id: o.into(), new_id: n.into(), parent_id: "D".into(), old_anchor: None, new_anchor: "x".into() };
    let report = RefreshReport { renames: vec![ren("D#a", "D#b")], orphans: vec![], parents_scanned: 1 };
    assert_eq!(apply_renames(&mut store, &report), Ok(1));
    let ids: Vec<String> = store.list_subnodes().unwrap().into_iter().map(|r| r.node_id).collect();
    assert_eq!(ids, vec!["D#b".to_string(), "D#c".to_string()]);
    let clash = RefreshReport { renames: vec![ren("D#b", "D#c"), ren("D#c", "D#d")], orphans: vec![], parents_scanned: 1 };
    assert_eq!(
        apply_renames(&mut store, &clash),
        Err("rename D#b → D#c failed: db query error: UNIQUE constraint failed: embeddings.node_id".to_string())
    );
}
