use legixy::common::Id;
use legixy::embed::calibrate::{BucketCount, SkipSummary};
use legixy::embed::content::{content_hash_for, normalize_content};
use legixy::embed::contextual::{synthesize_with_fallback, ContextualConfig, CrOptions, DeterministicContextClient, LlmClient};
use legixy::embed::drift::{check_integrity, parse_against, AgainstSpec, BaselineEmbedding, BaselineSource, CurrentEmbedding, IntegrityCheckResult};
use legixy::embed::drift_detect::{detect_drift, DriftKind};
use legixy::embed::embedder::{EmbedResult, Embedder};
use legixy::embed::error::{CalibrateError, DriftError, EmbedError};
use legixy::embed::model_version::{compute_model_version, PreprocessProfile};
use legixy::embed::orchestrator::{is_auto_generated_subnode, EmbedOptions, EmbedReport, HashMatchState, NodeFilter};
use legixy::embed::report::EdgeKindJson;
use legixy::graph::{EdgeKind, Node, TraceGraph};
use legixy::store::{DbError, EmbeddingRow, EmbeddingStore, SnapshotRow};

fn node(id: &str, type_code: &str, path: &str) -> Node {
    Node { id: id.to_string(), type_code: type_code.to_string(), path: path.to_string(), parent_id: None, anchor: None }
}

fn row(node_id: &str, dim: usize, model_version: &str, content_hash: &str) -> EmbeddingRow {
    EmbeddingRow {
        node_id: node_id.to_string(),
        embedding: vec![0u8; dim * 4],
        dim,
        model_version: model_version.to_string(),
        content_hash: content_hash.to_string(),
        context: None,
        context_hash: None,
        created_at: "2026-06-14 00:00:00".to_string(),
    }
}

const HELLO_SHA: &str = "2cf24dba5fb0a30e26e83b2ac5b9e29e1b161e5c1fa7425e73043362938b9824";

#[test]
fn deterministic_client_uses_heading_then_node_id() {
    let c = DeterministicContextClient;
    let with_h = c.synthesize("# タイトル\n\n本文", "UC-LGX-001").unwrap().unwrap();
    assert!(with_h.contains("UC-LGX-001") && with_h.contains("タイトル"));
    let no_h = c.synthesize("見出しなし本文", "DD-LGX-002").unwrap().unwrap();
    assert!(no_h.contains("DD-LGX-002"));
    assert_eq!(c.synthesize("# A\n", "X-LGX-001").unwrap(), c.synthesize("# A\n", "X-LGX-001").unwrap());
}

#[test]
fn deterministic_context_exact_text() {
    let c = DeterministicContextClient;
    assert_eq!(c.synthesize("intro\n  ## 見出し ##  \nbody", "A").unwrap().unwrap(), "出典: A — 「見出し ##」");
    assert_eq!(c.synthesize("#nospace\n####### seven\n", "B").unwrap().unwrap(), "出典: B");
    assert_eq!(c.synthesize("# \n### third\r\n", "C").unwrap().unwrap(), "出典: C — 「third」");
}

#[test]
fn test_normalize_content_strips_bom() {
    assert_eq!(normalize_content("\u{FEFF}hello"), normalize_content("hello"));
}

#[test]
fn test_normalize_content_unifies_newlines() {
    assert_eq!(normalize_content("a\r\nb\rc"), "a\nb\nc");
}

#[test]
fn test_normalize_content_nfc() {
    assert_eq!(normalize_content("\u{0065}\u{0301}"), normalize_content("\u{00E9}"));
}

#[test]
fn test_normalize_content_trailing_newline() {
    let a = normalize_content("x");
    let b = normalize_content("x\n");
    let c = normalize_content("x\n\n\n");
    assert_eq!(a, b);
    assert_eq!(b, c);
}

#[test]
fn normalize_content_all_steps_exact() {
    assert_eq!(normalize_content("\u{FEFF}\u{FEFF}e\u{0301}\r\r\n\n"), "\u{00E9}");
    assert_eq!(normalize_content("\r"), "");
    assert_eq!(normalize_content("a\n\nb\n"), "a\n\nb");
}

#[test]
fn content_hash_is_sha256_of_normal_form() {
    assert_eq!(content_hash_for("hello"), HELLO_SHA);
    assert_eq!(content_hash_for("\u{FEFF}hello\r\n\r\n"), HELLO_SHA);
}

#[test]
fn test_compute_model_version_format() {
    let mv = compute_model_version(
        "paraphrase-multilingual-MiniLM-L12-v2",
        None,
        "/tmp/model.onnx",
        PreprocessProfile::Plain,
        384,
    )
    .expect("Ok");
    assert!(mv.starts_with("paraphrase-multilingual-MiniLM-L12-v2:"));
    assert!(mv.ends_with(":384"));
}

#[test]
fn test_compute_model_version_changes_on_onnx_swap() {
    let a = compute_model_version("m", None, "/tmp/onnx_a.onnx", PreprocessProfile::Plain, 384).expect("Ok");
    let b = compute_model_version("m", None, "/tmp/onnx_b.onnx", PreprocessProfile::Plain, 384).expect("Ok");
    assert_ne!(a, b);
}

#[test]
fn model_version_exact_key() {
    let by_path = compute_model_version("model", None, "/tmp/model.onnx", PreprocessProfile::Plain, 384).unwrap();
    assert_eq!(by_path, "model:600f8679:plain:384");
    let by_bytes = compute_model_version("m", Some(b"abc"), "/ignored", PreprocessProfile::E5Prefix, 0).unwrap();
    assert_eq!(by_bytes, "m:ba7816bf:e5:0");
}

#[test]
fn test_is_up_to_date_both_match() {
    let store = EmbeddingStore::stub(vec![row("A", 384, "V", "H")], vec![]);
    assert_eq!(store.is_up_to_date("A", "H", "V").expect("Ok"), true);
    assert_eq!(store.is_up_to_date("A", "H2", "V").expect("Ok"), false);
    assert_eq!(store.is_up_to_date("A", "H", "V2").expect("Ok"), false);
}

#[test]
fn test_hash_match_state_variants() {
    let states = [HashMatchState::Skip, HashMatchState::Regen, HashMatchState::Missing];
    assert_eq!(states.len(), 3);
    assert_ne!(HashMatchState::Skip, HashMatchState::Regen);
}

#[test]
fn test_detect_drift_content_changed() {
    let graph = TraceGraph::from_parts(vec![node("A", "SPEC", "a.md")], vec![]);
    let store = EmbeddingStore::stub(vec![row("A", 384, "V", "OLDHASH")], vec![]);
    let contents = vec![Some("current body (≠ OLDHASH)".to_string())];
    let findings = detect_drift(&graph, &store, &contents).expect("Ok");
    assert!(findings.iter().any(|f| f.kind == DriftKind::ContentChanged));
}

#[test]
fn test_detect_drift_embedding_missing() {
    let graph = TraceGraph::from_parts(vec![node("A", "SPEC", "a.md")], vec![]);
    let store = EmbeddingStore::empty();
    let findings = detect_drift(&graph, &store, &vec![None]).expect("Ok");
    assert!(findings.iter().any(|f| f.kind == DriftKind::EmbeddingMissing && f.stored_hash.is_none()));
}

#[test]
fn test_detect_drift_file_missing() {
    let graph = TraceGraph::from_parts(vec![node("A", "SPEC", "missing.md")], vec![]);
    let store = EmbeddingStore::stub(vec![row("A", 384, "V", "H")], vec![]);
    let findings = detect_drift(&graph, &store, &vec![None]).expect("Ok");
    assert!(findings.iter().any(|f| f.kind == DriftKind::FileMissing && f.current_hash.is_none()));
}

#[test]
fn test_detect_drift_sorted_node_id_asc() {
    let graph = TraceGraph::from_parts(vec![node("C", "SPEC", "c.md"), node("A", "SPEC", "a.md")], vec![]);
    let store = EmbeddingStore::empty();
    let findings = detect_drift(&graph, &store, &vec![None, None]).expect("Ok");
    let ids: Vec<&String> = findings.iter().map(|f| &f.node_id).collect();
    let mut sorted = ids.clone();
    sorted.sort();
    assert_eq!(ids, sorted);
}

#[test]
fn detect_drift_exact_findings() {
    let graph = TraceGraph::from_parts(
        vec![node("D", "SPEC", "d.md"), node("B", "SPEC", "b.md"), node("C", "SPEC", "c.md"), node("A", "SPEC", "a.md")],
        vec![],
    );
    let store = EmbeddingStore::stub(
        vec![row("B", 4, "V", HELLO_SHA), row("C", 4, "V", "stale"), row("D", 4, "V", "h")],
        vec![],
    );
    let contents = vec![None, Some("hello\n".to_string()), Some("hello".to_string()), Some("hello".to_string())];
    let f = detect_drift(&graph, &store, &contents).expect("Ok");
    assert_eq!(f.len(), 3);
    assert_eq!((f[0].node_id.as_str(), f[0].kind), ("A", DriftKind::EmbeddingMissing));
    assert_eq!(f[0].current_hash.as_deref(), Some(HELLO_SHA));
    assert_eq!((f[1].node_id.as_str(), f[1].kind), ("C", DriftKind::ContentChanged));
    assert_eq!(f[1].stored_hash.as_deref(), Some("stale"));
    assert_eq!((f[2].node_id.as_str(), f[2].kind), ("D", DriftKind::FileMissing));
}

#[test]
fn test_load_all_sorted() {
    let store = EmbeddingStore::stub(vec![row("C", 384, "V", "h"), row("A", 384, "V", "h")], vec![]);
    let rows = store.load_all().expect("Ok");
    let ids: Vec<&String> = rows.iter().map(|r| &r.node_id).collect();
    let mut sorted = ids.clone();
    sorted.sort();
    assert_eq!(ids, sorted);
}

#[test]
fn load_all_exact_rows() {
    let store = EmbeddingStore::stub(vec![row("b", 1, "V", "h1"), row("a", 2, "W", "h2")], vec![]);
    let rows = store.load_all().unwrap();
    assert_eq!(rows, vec![row("a", 2, "W", "h2"), row("b", 1, "V", "h1")]);
}

#[test]
fn test_load_embedding_missing_is_none() {
    let store = EmbeddingStore::empty();
    assert_eq!(store.load_embedding("SPEC-LGX-001").expect("Ok"), None);
}

#[test]
fn load_embedding_returns_the_row() {
    let store = EmbeddingStore::stub(vec![row("A", 2, "V", "H"), row("B", 3, "W", "G")], vec![]);
    assert_eq!(store.load_embedding("B").unwrap(), Some(row("B", 3, "W", "G")));
}

fn result(hash: &str) -> EmbedResult {
    EmbedResult {
        embedding: vec![0u8; 384 * 4],
        dim: 384,
        model_version: "V".to_string(),
        content_hash: hash.to_string(),
        context: None,
        context_hash: None,
    }
}

#[test]
fn test_upsert_idempotent() {
    let mut store = EmbeddingStore::empty();
    let n = node("A", "SPEC", "a.md");
    let r = result("H");
    store.upsert_with_subnode_meta(&n, &r).expect("Ok 1");
    store.upsert_with_subnode_meta(&n, &r).expect("Ok 2");
    assert_eq!(store.load_all().unwrap().len(), 1);
}

#[test]
fn upsert_replaces_and_subnodes_are_listed() {
    let mut store = EmbeddingStore::stub(vec![row("A", 384, "V", "OLD")], vec![]);
    store.upsert_with_subnode_meta(&node("A", "SPEC", "a.md"), &result("NEW")).unwrap();
    assert!(store.is_up_to_date("A", "NEW", "V").unwrap());
    assert!(!store.is_up_to_date("A", "OLD", "V").unwrap());
    store.upsert_subnode("A#s:x", "A", "## x", &result("S")).unwrap();
    let subs = store.list_subnodes().unwrap();
    assert_eq!(subs.len(), 1);
    assert_eq!(subs[0].node_id, "A#s:x");
    assert_eq!(subs[0].parent_id.as_deref(), Some("A"));
    assert_eq!(subs[0].anchor.as_deref(), Some("## x"));
    assert_eq!(store.load_all().unwrap().len(), 2);
}

#[test]
fn load_snapshot_embedding_cases() {
    let snap = SnapshotRow {
        snapshot_id: "s1".to_string(),
        label: None,
        node_id: "A".to_string(),
        model_version: "V".to_string(),
        content_hash: "H".to_string(),
        taken_at: "2026-01-01 00:00:00".to_string(),
    };
    let store = EmbeddingStore::stub(vec![], vec![snap]);
    assert_eq!(store.load_snapshot_embedding("s1", "B").unwrap(), None);
    match store.load_snapshot_embedding("s1", "A") {
        Err(DbError::Query(m)) => assert_eq!(m, "Invalid column type Null at index: 1, name: embedding"),
        other => panic!("unexpected {other:?}"),
    }
    let mut store = EmbeddingStore::stub(vec![row("A", 2, "V", "H")], vec![]);
    store.create_snapshot("s2", None).unwrap();
    let got = store.load_snapshot_embedding("s2", "A").unwrap().unwrap();
    assert_eq!((got.dim, got.model_version.as_str(), got.content_hash.as_str()), (2, "V", "H"));
    assert_eq!(got.embedding, vec![0u8; 8]);
    assert_eq!(got.created_at, "");
}

#[test]
fn test_cr_synthesizes_context_ok_some() {
    let cfg = ContextualConfig { opts: CrOptions::default() };
    let r = synthesize_with_fallback(&cfg, "# 見出し\n\n本文", "A").expect("Ok");
    let ctx = r.expect("Some");
    assert!(ctx.contains('A'), "context: {ctx}");
}

#[test]
fn cr_options_defaults() {
    assert_eq!(CrOptions::default(), CrOptions { timeout_sec: 30, max_retries: 3, base_backoff_ms: 1000 });
}

#[test]
fn test_embed_node_empty_text_not_err() {
    let embedder = Embedder::stub("m:v:plain:384", 384);
    let r = embedder.embed_node("", None, "SPEC-LGX-001", vec![0u8; 384 * 4]);
    assert!(r.is_ok());
}

#[test]
fn embed_node_hashes_text_and_context() {
    let embedder = Embedder::stub("V", 2);
    assert_eq!(embedder.dim(), 2);
    assert_eq!(embedder.model_version(), "V");
    let r = embedder.embed_node("hello", Some("ctx"), "A", vec![1, 2, 3]).unwrap();
    assert_eq!(r.embedding, vec![1, 2, 3]);
    assert_eq!(r.dim, 2);
    assert_eq!(r.content_hash, HELLO_SHA);
    assert_eq!(r.context.as_deref(), Some("ctx"));
    assert_eq!(r.context_hash.as_deref(), Some("0230c6b1d833c51cc426492022677b74c60d82891931221a42db9e7bb06205e9"));
    let e = embedder.embed_node("hello", Some(""), "A", vec![]).unwrap();
    assert_eq!((e.context, e.context_hash), (None, None));
}

#[test]
fn test_bucket_count_zero_err() {
    assert!(matches!(BucketCount::new(0), Err(CalibrateError::InvalidBuckets)));
}

#[test]
fn bucket_count_keeps_positive_values() {
    assert_eq!(BucketCount::new(1).unwrap().get(), 1);
    assert_eq!(BucketCount::new(20).unwrap().get(), 20);
}

#[test]
fn skip_summary_total() {
    assert_eq!(SkipSummary { dim_mismatch: 2, nonfinite: 3 }.total(), 5);
    assert_eq!(SkipSummary::default().total(), 0);
}

#[test]
fn test_parse_against_none() {
    assert_eq!(parse_against(None).expect("Ok"), AgainstSpec::Embeddings);
}

#[test]
fn test_parse_against_token() {
    assert_eq!(parse_against(Some("snapshot:rel-2024")).expect("Ok"), AgainstSpec::SnapshotToken("rel-2024".to_string()));
}

#[test]
fn test_parse_against_label_explicit() {
    assert_eq!(
        parse_against(Some("snapshot:label:nightly")).expect("Ok"),
        AgainstSpec::SnapshotLabelExplicit("nightly".to_string())
    );
}

#[test]
fn test_parse_against_invalid_format() {
    let r = parse_against(Some("foo-bar"));
    assert!(matches!(r, Err(DriftError::InvalidAgainstFormat { .. })));
}

#[test]
fn parse_against_edges() {
    assert_eq!(parse_against(Some("snapshot:")).unwrap(), AgainstSpec::SnapshotToken(String::new()));
    assert_eq!(parse_against(Some("snapshot:label:")).unwrap(), AgainstSpec::SnapshotLabelExplicit(String::new()));
    match parse_against(Some("snapshot")) {
        Err(DriftError::InvalidAgainstFormat { value }) => assert_eq!(value, "snapshot"),
        _ => panic!("expected an error"),
    }
}

#[test]
fn error_messages() {
    assert_eq!(
        EmbedError::DimensionMismatch { stored_dim: 384, current_dim: 768 }.message(),
        "dimension mismatch: stored=384, current=768"
    );
    assert_eq!(
        EmbedError::ModelLoadFailed { path: "m/model.onnx".to_string(), reason: "missing".to_string() }.message(),
        "model load failed: \"m/model.onnx\": missing"
    );
    assert_eq!(CalibrateError::InvalidBuckets.message(), "--buckets は 1 以上を指定してください");
    assert_eq!(
        DriftError::ArtifactNotFound { artifact_id: Id::new("UC-LGX-001") }.message(),
        "成果物 Id(\"UC-LGX-001\") は graph.toml に未登録です"
    );
    assert_eq!(
        DriftError::ModelNotFound { tried_paths: vec!["a/model.onnx".to_string(), "b".to_string()] }.message(),
        "モデル解決失敗: [\"a/model.onnx\", \"b\"]"
    );
    assert_eq!(DriftError::ModelNotFound { tried_paths: vec![] }.message(), "モデル解決失敗: []");
    assert_eq!(
        DriftError::DimMismatch { current_dim: 3, baseline_dim: 4 }.message(),
        "次元数不一致: 現行 3 / ベースライン 4"
    );
}

#[test]
fn edge_kind_json_names() {
    assert_eq!(EdgeKind::Chain.to_json_str(), "chain");
    assert_eq!(EdgeKind::Custom.to_json_str(), "custom");
    assert_eq!(EdgeKind::ParentChild.to_json_str(), "parent_child");
}

#[test]
fn auto_generated_subnode_ids() {
    assert!(is_auto_generated_subnode("DD-LGX-002#0123456789abcdef"));
    assert!(!is_auto_generated_subnode("DD-LGX-002#s:name"));
    assert!(!is_auto_generated_subnode("DD-LGX-002"));
    assert!(!is_auto_generated_subnode("A#x#0123456789abcdef"));
}

#[test]
fn embed_options_and_report_defaults() {
    let o = EmbedOptions::default();
    assert!(!o.force && o.include_subnodes && o.contextual.is_none() && o.project_root.is_none());
    assert_eq!(o.node_filter, NodeFilter::All);
    assert_eq!(EmbedReport::default(), EmbedReport { generated: 0, skipped: 0, failed: 0, errors: vec![] });
}

#[test]
fn test_embedder_new_shape_invalid_err() {
    let r = Embedder::new("m:v:plain:0", "/tmp/bad-shape-model/model.onnx", true, "/tmp/bad-shape-model/tokenizer.json", true);
    assert!(r.is_err());
    assert!(matches!(r, Err(EmbedError::ModelShapeInvalid { .. })));
}

#[test]
fn test_embedder_new_model_missing_err() {
    let r = Embedder::new("m:v:plain:384", "/nonexistent/models/model.onnx", false, "/nonexistent/models/tokenizer.json", false);
    assert!(r.is_err());
    match r {
        Err(e) => assert_eq!(e.message(), "model load failed: \"/nonexistent/models/model.onnx\": model.onnx not found"),
        Ok(_) => panic!("expected an error"),
    }
    match Embedder::new("v", "d/model.onnx", true, "d/tokenizer.json", false) {
        Err(EmbedError::ModelLoadFailed { path, .. }) => assert_eq!(path, "d/tokenizer.json"),
        _ => panic!("expected a load failure"),
    }
}

#[test]
fn integrity_checks_dimension_then_version() {
    let cur = CurrentEmbedding { artifact_id: Id::new("A"), vector: vec![], dim: 2, model_version: "V".to_string() };
    let base = |dim: usize, mv: &str| BaselineEmbedding {
        artifact_id: Id::new("A"),
        vector: vec![],
        dim,
        model_version: mv.to_string(),
        source: BaselineSource::Embeddings,
    };
    assert_eq!(check_integrity(&cur, &base(2, "V")), IntegrityCheckResult::Consistent);
    assert_eq!(
        check_integrity(&cur, &base(3, "W")),
        IntegrityCheckResult::DimMismatch { current_dim: 2, baseline_dim: 3 }
    );
    assert_eq!(
        check_integrity(&cur, &base(2, "W")),
        IntegrityCheckResult::ModelVersionMismatch { current: "V".to_string(), baseline: "W".to_string() }
    );
}
