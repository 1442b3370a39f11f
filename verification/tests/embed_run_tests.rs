use legixy::check::{semantic_drift_findings, CheckCategory, CheckReport, CheckResult, SeverityCounts};
use legixy::embed::similarity::{candidate_pairs, comparable_pairs, edge_pairs};
use legixy::cli::{build_context_json, render_check_report};
use legixy::common::{Id, Severity};
use legixy::embed::contextual::{ContextualConfig, CrOptions};
use legixy::embed::drift::{check_baseline, resolve_baseline, AgainstSpec, BaselineLookup, BaselineSource};
use legixy::embed::embedder::{EmbedResult, Embedder};
use legixy::embed::error::{DriftError, EmbedError};
use legixy::embed::orchestrator::{
    begin_node, embed_input, embed_targets, finish_node, finish_subnode, subnode_jobs, EmbedErrorItem, EmbedOptions,
    EmbedReport, NodeFilter, NodeStep,
};
use legixy::graph::{Edge, EdgeKind, Node, TraceGraph};
use legixy::store::{EmbeddingRow, EmbeddingStore, SnapshotRow};

fn node(id: &str) -> Node {
    Node { id: id.to_string(), type_code: "SPEC".to_string(), path: format!("{id}.md"), parent_id: None, anchor: None }
}

fn row(node_id: &str, dim: usize, model_version: &str, content_hash: &str) -> EmbeddingRow {
    EmbeddingRow {
        node_id: node_id.to_string(),
        embedding: vec![0u8; dim * 4],
        dim,
        model_version: model_version.to_string(),
        content_hash: content_hash.to_string(),
        context: None,
        context_hash: None,
        created_at: "2026-06-14 00:00:00".to_string(),
    }
}

#[test]
fn targets_leave_out_generated_subnodes() {
    let g = TraceGraph::from_parts(vec![node("B"), node("B#0123456789abcdef"), node("A#s:x"), node("A")], vec![]);
    let all = embed_targets(&g, &NodeFilter::All).unwrap();
    let ids: Vec<&str> = all.iter().map(|n| n.id.as_str()).collect();
    assert_eq!(ids, vec!["B", "A#s:x", "A"]);
    let some = embed_targets(&g, &NodeFilter::Ids(vec!["A".to_string(), "B".to_string()])).unwrap();
    assert_eq!(some, vec![node("A"), node("B")]);
    match embed_targets(&g, &NodeFilter::Ids(vec!["A".to_string(), "SPEC-LGX-999".to_string(), "Z".to_string()])) {
        Err(EmbedError::NodeNotFound(id)) => assert_eq!(id, "SPEC-LGX-999"),
        _ => panic!("expected NodeNotFound"),
    }
}

#[test]
fn empty_content_is_skipped_unless_forced() {
    let mut report = EmbedReport::default();
    let opts = EmbedOptions::default();
    assert_eq!(begin_node(&mut report, &node("A"), "", &opts), NodeStep::Skipped);
    assert_eq!(report.skipped, 1);
    let forced = EmbedOptions { force: true, ..EmbedOptions::default() };
    assert_eq!(begin_node(&mut report, &node("A"), "", &forced), NodeStep::Embed { context: None });
    assert_eq!(report.skipped, 1);
    let cr = EmbedOptions { contextual: Some(ContextualConfig { opts: CrOptions::default() }), ..EmbedOptions::default() };
    assert_eq!(
        begin_node(&mut report, &node("A"), "# T\nbody", &cr),
        NodeStep::Embed { context: Some("出典: A — 「T」".to_string()) }
    );
}

fn result(hash: &str, context: Option<&str>) -> EmbedResult {
    Embedder::stub("V", 4).embed_node("x", context, "A", vec![0u8; 16]).map(|mut r| {
        r.content_hash = hash.to_string();
        r
    })
    .unwrap()
}

#[test]
fn finish_node_skips_fresh_and_backfills_context() {
    let mut store = EmbeddingStore::stub(vec![row("A", 4, "V", "H")], vec![]);
    let mut report = EmbedReport::default();
    assert!(!finish_node(&mut store, &mut report, &node("A"), Ok(result("H", None)), false));
    assert_eq!((report.generated, report.skipped), (0, 1));
    assert!(finish_node(&mut store, &mut report, &node("A"), Ok(result("H", None)), true));
    assert_eq!((report.generated, report.skipped), (1, 1));
    finish_node(&mut store, &mut report, &node("A"), Ok(result("H", Some("ctx"))), false);
    assert_eq!((report.generated, report.skipped), (2, 1));
    assert_eq!(store.load_embedding("A").unwrap().unwrap().context.as_deref(), Some("ctx"));
    finish_node(&mut store, &mut report, &node("A"), Ok(result("H", Some("ctx"))), false);
    assert_eq!((report.generated, report.skipped), (2, 2));
    finish_node(&mut store, &mut report, &node("A"), Ok(result("H2", None)), false);
    assert_eq!((report.generated, report.skipped), (3, 2));
    assert!(store.is_up_to_date("A", "H2", "V").unwrap());
}

#[test]
fn finish_node_records_failures() {
    let mut store = EmbeddingStore::empty();
    let mut report = EmbedReport::default();
    assert!(finish_node(&mut store, &mut report, &node("B"), Err(EmbedError::NodeNotFound("B".to_string())), false));
    assert_eq!(report.failed, 1);
    assert_eq!(report.errors, vec![EmbedErrorItem { node_id: "B".to_string(), message: "node not found: B".to_string() }]);
    assert_eq!(report.failed, report.errors.len());
    assert!(store.load_all().unwrap().is_empty());
}

#[test]
fn subnode_jobs_cover_sections() {
    let doc = "# Title\n\n## First\nalpha\n\n### Deep\nbeta\n\n## Empty\n\n";
    let opts = EmbedOptions::default();
    let jobs = subnode_jobs(&node("DOC"), Some(doc), &opts);
    assert_eq!(jobs.len(), 2);
    assert!(jobs[0].id.starts_with("DOC#"));
    assert_eq!(jobs[0].anchor, "First");
    assert_eq!(jobs[0].text, "alpha\n\n### Deep\nbeta");
    assert_eq!(jobs[1].anchor, "Deep");
    assert_eq!(jobs[1].text, "beta");
    assert!(jobs.iter().all(|j| j.context.is_none()));
    assert!(subnode_jobs(&node("DOC#s:x"), Some(doc), &opts).is_empty());
    assert!(subnode_jobs(&node("DOC"), None, &opts).is_empty());
    let no_subs = EmbedOptions { include_subnodes: false, ..EmbedOptions::default() };
    assert!(subnode_jobs(&node("DOC"), Some(doc), &no_subs).is_empty());
}

#[test]
fn finish_subnode_stores_subnode_rows() {
    let mut store = EmbeddingStore::empty();
    let mut report = EmbedReport::default();
    let jobs = subnode_jobs(&node("DOC"), Some("## A\ntext\n"), &EmbedOptions::default());
    finish_subnode(&mut store, &mut report, &node("DOC"), &jobs[0], Ok(result("S", None)));
    assert_eq!(report.generated, 1);
    let subs = store.list_subnodes().unwrap();
    assert_eq!(subs.len(), 1);
    assert_eq!(subs[0].parent_id.as_deref(), Some("DOC"));
    assert_eq!(subs[0].anchor.as_deref(), Some("A"));
    finish_subnode(&mut store, &mut report, &node("DOC"), &jobs[0], Err(EmbedError::Io("gone".to_string())));
    assert_eq!(report.errors[0].message, "io error: gone");
    assert_eq!(report.errors[0].node_id, jobs[0].id);
}

#[test]
fn model_input_puts_context_first() {
    assert_eq!(embed_input("body", Some("ctx")), "ctx\n\nbody");
    assert_eq!(embed_input("body", Some("")), "body");
    assert_eq!(embed_input("body", None), "body");
}

fn snap(sid: &str, label: Option<&str>, node_id: &str, taken_at: &str) -> SnapshotRow {
    SnapshotRow {
        snapshot_id: sid.to_string(),
        label: label.map(|l| l.to_string()),
        node_id: node_id.to_string(),
        model_version: "V".to_string(),
        content_hash: "H".to_string(),
        taken_at: taken_at.to_string(),
    }
}

#[test]
fn baseline_resolution() {
    let g = TraceGraph::from_parts(vec![node("A")], vec![]);
    let store = EmbeddingStore::stub(vec![row("A", 4, "V", "H")], vec![snap("s1", Some("rel"), "B", "2026-01-01 00:00:00")]);
    match resolve_baseline(&g, &store, &Id::new("A"), &AgainstSpec::Embeddings).unwrap() {
        BaselineLookup::Found { row: r, source } => {
            assert_eq!(r, row("A", 4, "V", "H"));
            assert_eq!(source, BaselineSource::Embeddings);
        },
        other => panic!("unexpected {other:?}"),
    }
    assert!(matches!(
        resolve_baseline(&g, &store, &Id::new("Z"), &AgainstSpec::Embeddings),
        Err(DriftError::ArtifactNotFound { .. })
    ));
    let empty = TraceGraph::empty();
    assert_eq!(
        resolve_baseline(&empty, &store, &Id::new("Z"), &AgainstSpec::Embeddings).unwrap(),
        BaselineLookup::Absent(Some(BaselineSource::Embeddings))
    );
    assert_eq!(
        resolve_baseline(&g, &store, &Id::new("A"), &AgainstSpec::SnapshotToken("nope".to_string())).unwrap(),
        BaselineLookup::Absent(None)
    );
    match resolve_baseline(&g, &store, &Id::new("A"), &AgainstSpec::SnapshotLabelExplicit("nope".to_string())) {
        Err(DriftError::LabelNotFound { label }) => assert_eq!(label, "nope"),
        _ => panic!("expected LabelNotFound"),
    }
    assert_eq!(
        resolve_baseline(&g, &store, &Id::new("A"), &AgainstSpec::SnapshotToken("rel".to_string())).unwrap(),
        BaselineLookup::Absent(Some(BaselineSource::Snapshot("s1".to_string())))
    );
    let mut store2 = EmbeddingStore::stub(vec![row("A", 4, "V", "H")], vec![]);
    store2.create_snapshot("s9", Some("base")).unwrap();
    match resolve_baseline(&g, &store2, &Id::new("A"), &AgainstSpec::SnapshotLabelExplicit("base".to_string())).unwrap() {
        BaselineLookup::Found { row: r, source } => {
            assert_eq!((r.dim, r.model_version.as_str()), (4, "V"));
            assert_eq!(source, BaselineSource::Snapshot("s9".to_string()));
        },
        other => panic!("unexpected {other:?}"),
    }
}

#[test]
fn baseline_integrity_checks_dimension_then_version() {
    let r = row("A", 384, "V", "H");
    assert!(matches!(check_baseline(384, "V", &r), Ok(())));
    assert!(matches!(
        check_baseline(768, "W", &r),
        Err(DriftError::DimMismatch { current_dim: 768, baseline_dim: 384 })
    ));
    match check_baseline(384, "W", &r) {
        Err(DriftError::ModelVersionMismatch { current, baseline }) => assert_eq!((current.as_str(), baseline.as_str()), ("W", "V")),
        _ => panic!("expected a version mismatch"),
    }
}

#[test]
fn check_report_text_form() {
    let report = CheckReport {
        findings: vec![
            CheckResult {
                severity: Severity::Error,
                category: CheckCategory::ChainIntegrity,
                message: "missing parent".to_string(),
                related_ids: vec![Id::new("DD-LGX-001"), Id::new("TS-LGX-001")],
                location: None,
            },
            CheckResult {
                severity: Severity::Info,
                category: CheckCategory::GraphDag,
                message: "note".to_string(),
                related_ids: vec![],
                location: None,
            },
        ],
        counts: SeverityCounts { error: 1, warning: 0, info: 1, ok: 0 },
    };
    assert_eq!(
        render_check_report(&report),
        "[ERROR] ChainIntegrity: missing parent [DD-LGX-001, TS-LGX-001]\n[INFO] GraphDag: note\n\nSummary: 1 error, 0 warning, 1 info\n"
    );
}

#[test]
fn observation_context_json() {
    assert_eq!(build_context_json(&[], None, None), None);
    assert_eq!(
        build_context_json(&["a.rs".to_string(), "b\"c".to_string()], Some("doc.md"), None).as_deref(),
        Some("{\"missing_doc\":\"doc.md\",\"target_files\":[\"a.rs\",\"b\\\"c\"]}")
    );
    assert_eq!(build_context_json(&[], None, Some("src/**")).as_deref(), Some("{\"source_glob\":\"src/**\"}"));
}

#[test]
fn score_pairs_follow_edges_and_rows() {
    let e = |f: &str, t: &str| Edge { from: f.to_string(), to: t.to_string(), kind: EdgeKind::Chain };
    let g = TraceGraph::from_parts(
        vec![node("A"), node("B"), node("C"), node("D")],
        vec![e("A", "B"), e("A", "Z"), e("C", "A"), e("A", "D")],
    );
    let rows = vec![row("A", 4, "V", "h"), row("B", 4, "V", "h"), row("C", 4, "V", "h"), row("D", 3, "V", "h")];
    assert_eq!(edge_pairs(&g, &rows), vec![(0, 0, 1), (2, 2, 0)]);
    assert_eq!(comparable_pairs(&rows), vec![(0, 1), (0, 2), (1, 2)]);
    assert_eq!(candidate_pairs(&g, &rows), vec![(1, 2)]);
    let zero = vec![row("A", 0, "V", "h"), row("B", 0, "V", "h")];
    assert!(comparable_pairs(&zero).is_empty());
}

#[test]
fn semantic_drift_warnings() {
    let g = TraceGraph::from_parts(vec![node("A"), node("A#s:x"), node("B"), node("C")], vec![]);
    let hello = "2cf24dba5fb0a30e26e83b2ac5b9e29e1b161e5c1fa7425e73043362938b9824";
    let store = EmbeddingStore::stub(vec![row("A", 4, "V", hello), row("B", 4, "V", "old"), row("C", 4, "V", "h")], vec![]);
    let contents = vec![Some("hello\n".to_string()), Some("new".to_string()), None];
    let f = semantic_drift_findings(&g, &store, &contents);
    assert_eq!(f.len(), 2);
    assert_eq!(f[0].message, "content drift: B の現内容が保存済 embedding と不一致（再 embed 推奨）");
    assert_eq!(f[0].severity, Severity::Warning);
    assert_eq!(f[0].related_ids, vec![Id::new("B")]);
    assert_eq!(f[1].message, "content drift: C のファイルを読めません（embedding 済だが現物不在）");
}

#[test]
fn test_create_snapshot_returns_row_count() {
    let mut store = EmbeddingStore::stub(vec![row("A", 384, "V", "h"), row("B", 384, "V", "h")], vec![]);
    let n = store.create_snapshot("snap-001", Some("baseline")).expect("Ok");
    assert_eq!(n, 2);
}

#[test]
fn test_run_explicit_label_not_found() {
    let graph = TraceGraph::empty();
    let store = EmbeddingStore::empty();
    let r = resolve_baseline(&graph, &store, &Id::new("UC-LGX-001"), &AgainstSpec::SnapshotLabelExplicit("missing".to_string()));
    assert!(r.is_ok() || r.is_err());
    assert!(matches!(r, Err(DriftError::LabelNotFound { .. })));
}

#[test]
fn test_run_ambiguous_token_absent() {
    let graph = TraceGraph::empty();
    let store = EmbeddingStore::empty();
    let r = resolve_baseline(&graph, &store, &Id::new("UC-LGX-001"), &AgainstSpec::SnapshotToken("ghost".to_string()));
    assert!(r.is_ok() || r.is_err());
    assert_eq!(r.unwrap(), BaselineLookup::Absent(None));
}
