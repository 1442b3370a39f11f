use legixy::common::Config;
use legixy::ctx::audit::AuditLogger;
use legixy::ctx::compiler::ContextCompiler;
use legixy::ctx::formatter::SectionFormatter;
use legixy::ctx::outline::build_outline;
use legixy::ctx::types::{
    CompileInput, ContextError, ContextResult, DbConn, DbConnError, Granularity, TargetNodeMetadata, UpstreamArtifact,
    CACHE_BREAKPOINT_MARKER, RESULT_SIZE_LIMIT_CHARS,
};
use legixy::ctx::walker::UpstreamWalker;
use legixy::graph::{Edge, EdgeKind, Node, NodeId, TraceGraph};
use legixy::feedback::db::Connection;

fn node(id: &str, type_code: &str, path: &str) -> Node {
    Node {
        id: id.to_string(),
        type_code: type_code.to_string(),
        path: path.to_string(),
        parent_id: None,
        anchor: None,
    }
}

fn chain_edge(from: &str, to: &str) -> Edge {
    Edge { from: from.to_string(), to: to.to_string(), kind: EdgeKind::Chain }
}

fn parent_child(from: &str, to: &str) -> Edge {
    Edge { from: from.to_string(), to: to.to_string(), kind: EdgeKind::ParentChild }
}

fn layer_graph(ids: &[&str]) -> (TraceGraph, NodeId) {
    let nodes: Vec<Node> = ids
        .iter()
        .map(|id| node(id, id.split('-').next().unwrap(), &format!("{id}.md")))
        .collect();
    let edges: Vec<Edge> = ids.windows(2).map(|w| chain_edge(w[0], w[1])).collect();
    (TraceGraph::from_parts(nodes, edges), ids[ids.len() - 1].to_string())
}

fn seven_layer_graph_002() -> (TraceGraph, NodeId) {
    layer_graph(&[
        "SPEC-LGX-003",
        "UC-LGX-002",
        "RBA-LGX-002",
        "SEQA-LGX-002",
        "DD-LGX-002",
        "TS-LGX-002",
        "TC-LGX-002",
        "SRC-LGX-002",
    ])
}

fn seven_layer_graph_004() -> (TraceGraph, NodeId) {
    layer_graph(&[
        "SPEC-LGX-003",
        "UC-LGX-004",
        "RBA-LGX-004",
        "SEQA-LGX-004",
        "DD-LGX-004",
        "TS-LGX-004",
        "TC-LGX-004",
        "SRC-LGX-004",
    ])
}

fn empty_config() -> Config {
    Config::default()
}

fn empty_result(id: &str, granularity: Granularity) -> ContextResult {
    ContextResult {
        targets: Vec::new(),
        layer_guidelines: Vec::new(),
        additional_guidelines: Vec::new(),
        upstream: Vec::new(),
        custom_documents: Vec::new(),
        target_metadata: vec![TargetNodeMetadata {
            artifact_id: id.into(),
            outgoing_edges: Vec::new(),
            incoming_edges: Vec::new(),
            subnode_count: 0,
            unresolved_targets: Vec::new(),
        }],
        granularity,
        unresolved_targets: Vec::new(),
    }
}

fn sample_upstream() -> Vec<UpstreamArtifact> {
    let mk = |id: &str, has_sub: bool, dist: usize| UpstreamArtifact {
        artifact_id: id.to_string(),
        type_code: id.split('-').next().unwrap().to_string(),
        file_path: format!("{id}.md"),
        chain_distance: dist,
        body: String::new(),
        subnode_id: if has_sub { Some(format!("{id}#a")) } else { None },
        anchor: if has_sub { Some("a".into()) } else { None },
        drift_score: None,
    };
    vec![mk("UC-LGX-003", true, 2), mk("AB-LGX-001", false, 1), mk("UC-LGX-003", false, 3), mk("DD-LGX-009", true, 4)]
}

fn subnode_graph(prefix: &str, subs: &[&str]) -> TraceGraph {
    let src = format!("SRC-LGX-{prefix}");
    let dd = format!("DD-LGX-{prefix}");
    let mut nodes = vec![node(&src, "SRC", "src.md"), node(&dd, "DD", "dd.md")];
    let mut edges = vec![chain_edge(&dd, &src)];
    for s in subs {
        let id = format!("{dd}#{s}");
        nodes.push(node(&id, "DD", "dd.md"));
        edges.push(parent_child(&dd, &id));
    }
    TraceGraph::from_parts(nodes, edges)
}

fn positions(rendered: &str, markers: &[&str]) -> Vec<Option<usize>> {
    markers.iter().map(|m| rendered.find(m)).collect()
}

// ---------------------------------------------------------------------------
// compile / render

#[test]
fn test_compile_render_topmost_keeps_six_sections() {
    let graph = TraceGraph::from_parts(vec![node("SPEC-LGX-003", "SPEC", "docs/top/top.md")], vec![]);
    let config = empty_config();
    let sources = Vec::new();
    let mut compiler = ContextCompiler::new(&graph, &config, None, &sources);
    let input = CompileInput {
        target_files: vec!["docs/top/top.md".to_string()],
        granularity: Granularity::Document,
        ..Default::default()
    };
    let result = compiler.compile(&input).expect("最上流でも Ok");
    assert!(result.upstream.is_empty());
    let rendered = compiler.render(&result).expect("render Ok");
    for marker in ["Layer Guidelines", "Additional Guidelines", "Upstream Artifacts", "Target Node Metadata", "Custom Documents"] {
        assert!(rendered.contains(marker), "{marker}");
    }
}

#[test]
fn test_enforce_size_limit_exactly_500000_is_ok() {
    let rendered = "a".repeat(RESULT_SIZE_LIMIT_CHARS);
    assert_eq!(rendered.chars().count(), 500_000);
    assert!(SectionFormatter::enforce_size_limit(&rendered).is_ok());
}

#[test]
fn test_enforce_size_limit_500001_is_result_too_large() {
    let rendered = "a".repeat(RESULT_SIZE_LIMIT_CHARS + 1);
    match SectionFormatter::enforce_size_limit(&rendered) {
        Err(ContextError::ResultTooLarge { current, limit }) => {
            assert_eq!(current, 500_001);
            assert_eq!(limit, 500_000);
        }
        other => panic!("{other:?}"),
    }
}

#[test]
fn test_result_too_large_display_message_fixed() {
    let err = ContextError::ResultTooLarge { current: 500_001, limit: 500_000 };
    let msg = err.message();
    assert!(msg.contains("compile_context result exceeds"));
    assert!(msg.contains("characters"));
    assert!(msg.contains("Current size"));
    assert!(msg.contains("--granularity subnode"));
    assert!(msg.contains("Narrow the target scope"));
}

#[test]
fn test_enforce_size_limit_counts_unicode_codepoints() {
    let rendered = "😀".repeat(RESULT_SIZE_LIMIT_CHARS + 1);
    assert_eq!(rendered.chars().count(), 500_001);
    assert!(rendered.len() > 500_001);
    match SectionFormatter::enforce_size_limit(&rendered) {
        Err(ContextError::ResultTooLarge { current, .. }) => assert_eq!(current, 500_001),
        other => panic!("{other:?}"),
    }
}

#[test]
fn test_walk_depth_1_direct_parent_only() {
    let (graph, start) = seven_layer_graph_002();
    let walker = UpstreamWalker::new(&graph);
    let upstream = walker.walk_chain_parent_only_with_depth(&start, Some(1)).expect("walk Ok");
    assert!(upstream.iter().all(|a| a.chain_distance == 1));
}

#[test]
fn tc_lgx_002_test_walk_depth_0_empty() {
    let (graph, start) = seven_layer_graph_002();
    let walker = UpstreamWalker::new(&graph);
    let upstream = walker.walk_chain_parent_only_with_depth(&start, Some(0)).expect("walk Ok");
    assert!(upstream.is_empty());
}

#[test]
fn test_walk_depth_none_returns_all_ancestors() {
    let (graph, start) = seven_layer_graph_002();
    let walker = UpstreamWalker::new(&graph);
    let upstream = walker.walk_chain_parent_only_with_depth(&start, None).expect("walk Ok");
    assert_eq!(upstream.len(), 7);
}

#[test]
fn test_sections_filter_subnode_exact_match_only() {
    let graph = subnode_graph("002", &["abc", "def"]);
    let config = empty_config();
    let sources = Vec::new();
    let mut compiler = ContextCompiler::new(&graph, &config, None, &sources);
    let input = CompileInput {
        target_files: vec!["src.md".to_string()],
        granularity: Granularity::Subnode,
        sections: Some(vec!["DD-LGX-002#abc".into(), "DD-LGX-002#def".into()]),
        ..Default::default()
    };
    let result = compiler.compile(&input).expect("Ok");
    let ids: Vec<&str> = result.upstream.iter().filter_map(|a| a.subnode_id.as_deref()).collect();
    assert!(ids.iter().all(|id| *id == "DD-LGX-002#abc" || *id == "DD-LGX-002#def"));
}

#[test]
fn test_sections_all_invalid_empty_upstream() {
    let graph = subnode_graph("002", &[]);
    let config = empty_config();
    let sources = Vec::new();
    let mut compiler = ContextCompiler::new(&graph, &config, None, &sources);
    let input = CompileInput {
        target_files: vec!["src.md".to_string()],
        granularity: Granularity::Subnode,
        sections: Some(vec!["DD-LGX-002#nope".into()]),
        ..Default::default()
    };
    let result = compiler.compile(&input).expect("Ok");
    assert!(result.upstream.is_empty());
}

#[test]
fn test_sections_document_level_id_excluded() {
    let graph = subnode_graph("002", &["abc"]);
    let config = empty_config();
    let sources = Vec::new();
    let mut compiler = ContextCompiler::new(&graph, &config, None, &sources);
    let input = CompileInput {
        target_files: vec!["src.md".to_string()],
        granularity: Granularity::Subnode,
        sections: Some(vec!["DD-LGX-002".into()]),
        ..Default::default()
    };
    let result = compiler.compile(&input).expect("Ok");
    assert!(result.upstream.iter().all(|a| a.subnode_id.as_deref() != Some("DD-LGX-002")));
}

#[test]
fn test_outline_only_extracts_headings() {
    let outline = build_outline("# H1\n本文a\n## H2\n本文b\n### H3\n");
    assert!(outline.contains("H1"));
    assert!(outline.contains("H2"));
    assert!(outline.contains("H3"));
    assert!(!outline.contains("本文a"));
    assert!(!outline.contains("本文b"));
}

#[test]
fn test_section_order_independent_of_granularity() {
    let (graph, _start) = seven_layer_graph_002();
    let config = empty_config();
    let sources = Vec::new();
    let mut compiler = ContextCompiler::new(&graph, &config, None, &sources);
    let mk = |g| CompileInput { target_files: vec!["SRC-LGX-002.md".to_string()], granularity: g, ..Default::default() };
    let doc_result = compiler.compile(&mk(Granularity::Document)).expect("Ok");
    let doc = compiler.render(&doc_result).expect("render Ok");
    let sub_result = compiler.compile(&mk(Granularity::Subnode)).expect("Ok");
    let sub = compiler.render(&sub_result).expect("render Ok");
    let markers = ["Layer Guidelines", "Additional Guidelines", "Upstream Artifacts", "Target Node Metadata", "Custom Documents"];
    assert_eq!(positions(&doc, &markers), positions(&sub, &markers));
}

#[test]
fn test_cache_breakpoint_marker_appears_once() {
    let (graph, _start) = seven_layer_graph_002();
    let config = empty_config();
    let sources = Vec::new();
    let mut compiler = ContextCompiler::new(&graph, &config, None, &sources);
    let input = CompileInput { target_files: vec!["SRC-LGX-002.md".to_string()], ..Default::default() };
    let result = compiler.compile(&input).expect("Ok");
    let rendered = compiler.render(&result).expect("render Ok");
    assert_eq!(rendered.matches(CACHE_BREAKPOINT_MARKER).count(), 1);
}

#[test]
fn test_partial_unregistered_target_resolves_rest() {
    let graph = TraceGraph::from_parts(vec![node("SRC-LGX-002", "SRC", "known.md")], vec![]);
    let config = empty_config();
    let sources = Vec::new();
    let mut compiler = ContextCompiler::new(&graph, &config, None, &sources);
    let unknown = "unknown.md".to_string();
    let input = CompileInput { target_files: vec!["known.md".to_string(), unknown.clone()], ..Default::default() };
    let result = compiler.compile(&input).expect("Ok");
    assert!(result.unresolved_targets.contains(&unknown));
    assert!(result.targets.iter().any(|t| t.file_path == unknown && t.artifact_id.is_none()));
}

#[test]
fn test_all_unregistered_targets_empty_upstream() {
    let graph = TraceGraph::empty();
    let config = empty_config();
    let sources = Vec::new();
    let mut compiler = ContextCompiler::new(&graph, &config, None, &sources);
    let input = CompileInput { target_files: vec!["a.md".to_string(), "b.md".to_string()], ..Default::default() };
    let result = compiler.compile(&input).expect("Ok");
    assert!(result.upstream.is_empty());
    assert!(result.targets.iter().all(|t| t.artifact_id.is_none()));
}

#[test]
fn test_upstream_missing_file_partial_success_empty_body() {
    let graph = TraceGraph::from_parts(
        vec![node("SRC-LGX-002", "SRC", "src.md"), node("DD-LGX-002", "DD", "does-not-exist.md")],
        vec![chain_edge("DD-LGX-002", "SRC-LGX-002")],
    );
    let config = empty_config();
    let sources = Vec::new();
    let mut compiler = ContextCompiler::new(&graph, &config, None, &sources);
    let input = CompileInput { target_files: vec!["src.md".to_string()], ..Default::default() };
    let result = compiler.compile(&input).expect("Ok");
    if let Some(missing) = result.upstream.iter().find(|a| a.artifact_id == "DD-LGX-002") {
        assert!(missing.body.is_empty());
    }
}

#[test]
fn test_audit_log_failure_keeps_compile_ok() {
    let mut db = DbConn::new();
    let mut logger = AuditLogger::new(Some(&mut db));
    let input = CompileInput { target_files: vec!["src.md".to_string()], ..Default::default() };
    let result = empty_result("SRC-LGX-002", Granularity::Document);
    assert!(logger.log(&input, &result).is_ok());
}

#[test]
fn test_db_none_audit_noop_and_resolves() {
    let mut logger = AuditLogger::new(None);
    let input = CompileInput { target_files: vec!["src.md".to_string()], ..Default::default() };
    let result = empty_result("SRC-LGX-002", Granularity::Document);
    assert!(logger.log(&input, &result).is_ok());
    let graph = TraceGraph::empty();
    let config = empty_config();
    let sources = Vec::new();
    let mut compiler = ContextCompiler::new(&graph, &config, None, &sources);
    assert!(compiler.compile(&input).is_ok());
}

#[test]
fn test_invalid_input_variant_is_exit1_concept() {
    let err = ContextError::InvalidInput("granularity 'auto' is not document|subnode".into());
    assert!(matches!(err, ContextError::InvalidInput(_)));
}

#[test]
fn test_exit_code_contract_error_variants() {
    let exit1: Vec<ContextError> = vec![
        ContextError::ResultTooLarge { current: 500_001, limit: 500_000 },
        ContextError::Graph("graph.toml parse failed".into()),
        ContextError::InvalidInput("bad granularity".into()),
    ];
    for e in &exit1 {
        assert!(!e.message().is_empty());
    }
}

#[test]
fn test_subnode_ordering_deterministic() {
    let mut result = empty_result("SRC-LGX-002", Granularity::Subnode);
    result.upstream = sample_upstream();
    let a = SectionFormatter::render(&result);
    let b = SectionFormatter::render(&result);
    assert_eq!(a.is_ok(), b.is_ok());
    if let (Ok(sa), Ok(sb)) = (a, b) {
        assert_eq!(sa, sb);
    }
}

#[test]
fn test_render_byte_determinism() {
    for sub in [false, true] {
        let g = if sub { Granularity::Subnode } else { Granularity::Document };
        let mut result = empty_result("SRC-LGX-002", g);
        result.upstream = sample_upstream();
        let mut prev: Option<String> = None;
        for _ in 0..10 {
            let s = SectionFormatter::render(&result).expect("render Ok");
            if let Some(p) = &prev {
                assert_eq!(p, &s);
            }
            prev = Some(s);
        }
    }
}

#[test]
fn test_compile_is_read_only() {
    for n in 0usize..4 {
        let nodes: Vec<Node> =
            (0..n).map(|i| node(&format!("SRC-LGX-00{}", i + 1), "SRC", &format!("s{i}.md"))).collect();
        let graph = TraceGraph::from_parts(nodes, vec![]);
        let before = graph.node_count();
        let config = empty_config();
        let sources = Vec::new();
        let mut compiler = ContextCompiler::new(&graph, &config, None, &sources);
        let input = CompileInput { target_files: vec!["s0.md".to_string()], ..Default::default() };
        let _ = compiler.compile(&input);
        assert_eq!(graph.node_count(), before);
    }
}

#[test]
fn test_compile_idempotent() {
    for sub in [false, true] {
        let (graph, _start) = seven_layer_graph_002();
        let config = empty_config();
        let sources = Vec::new();
        let mut compiler = ContextCompiler::new(&graph, &config, None, &sources);
        let g = if sub { Granularity::Subnode } else { Granularity::Document };
        let input = CompileInput { target_files: vec!["SRC-LGX-002.md".to_string()], granularity: g, ..Default::default() };
        let r1 = compiler.compile(&input).expect("Ok");
        let r2 = compiler.compile(&input).expect("Ok");
        assert_eq!(r1, r2);
    }
}

// ---------------------------------------------------------------------------
// granularity

#[test]
fn test_granularity_default_and_as_str() {
    assert_eq!(Granularity::default(), Granularity::Document);
    assert_eq!(Granularity::Document.as_str(), "document");
    assert_eq!(Granularity::Subnode.as_str(), "subnode");
    assert_eq!(CompileInput::default().granularity, Granularity::Document);
}

#[test]
fn test_compile_input_default_fields() {
    let d = CompileInput::default();
    assert!(!d.outline_only);
    assert_eq!(d.sections, None);
    assert_eq!(d.depth_limit, None);
    assert_eq!(d.granularity, Granularity::Document);
    assert_eq!(d.command, None);
    assert!(d.target_files.is_empty());
}

#[test]
fn test_upstream_sort_rule_a1_appearance_order() {
    assert_eq!(SectionFormatter::upstream_sort_rule(Granularity::Document), "artifact_id-asc");
    assert_eq!(SectionFormatter::upstream_sort_rule(Granularity::Subnode), "parent_id-asc,anchor-appearance-order");
    assert_ne!(SectionFormatter::upstream_sort_rule(Granularity::Subnode), "parent_id-asc,anchor-bytes-asc");
    assert_eq!(SectionFormatter::RENDER_SORT_STRATEGY, "index-array");
}

#[test]
fn test_build_outline_h1_h3_indent() {
    assert_eq!(build_outline("# H1\n本文a\n## H2\n本文b\n### H3\n"), "- H1\n  - H2\n    - H3\n");
}

#[test]
fn test_build_outline_excludes_h4_nospace_empty() {
    assert_eq!(build_outline("#### H4\n#abc\n#\n#   \n## valid\n"), "  - valid\n");
}

#[test]
fn test_build_outline_no_heading_empty() {
    assert_eq!(build_outline("本文のみ。見出しなし。\n#### only h4\n#nospace\n"), "");
}

#[test]
fn test_enforce_size_limit_boundaries() {
    assert!(SectionFormatter::enforce_size_limit(&"a".repeat(499_999)).is_ok());
    assert!(SectionFormatter::enforce_size_limit(&"a".repeat(RESULT_SIZE_LIMIT_CHARS)).is_ok());
    match SectionFormatter::enforce_size_limit(&"a".repeat(RESULT_SIZE_LIMIT_CHARS + 1)) {
        Err(ContextError::ResultTooLarge { current, limit }) => {
            assert_eq!(current, 500_001);
            assert_eq!(limit, 500_000);
        }
        other => panic!("{other:?}"),
    }
}

#[test]
fn test_enforce_size_limit_codepoint_unit() {
    let s = "😀".repeat(RESULT_SIZE_LIMIT_CHARS + 1);
    assert_eq!(s.chars().count(), 500_001);
    match SectionFormatter::enforce_size_limit(&s) {
        Err(ContextError::ResultTooLarge { current, .. }) => assert_eq!(current, 500_001),
        other => panic!("{other:?}"),
    }
}

#[test]
fn test_walk_depth_1() {
    let (graph, start) = seven_layer_graph_004();
    let walker = UpstreamWalker::new(&graph);
    let up = walker.walk_chain_parent_only_with_depth(&start, Some(1)).expect("Ok");
    assert!(up.iter().all(|a| a.chain_distance == 1));
}

#[test]
fn test_walk_depth_2_and_none() {
    let (graph, start) = seven_layer_graph_004();
    let walker = UpstreamWalker::new(&graph);
    let d2 = walker.walk_chain_parent_only_with_depth(&start, Some(2)).expect("Ok");
    assert!(d2.iter().all(|a| a.chain_distance <= 2));
    let dn = walker.walk_chain_parent_only_with_depth(&start, None).expect("Ok");
    assert_eq!(dn.len(), 7);
}

#[test]
fn tc_lgx_004_test_walk_depth_0_empty() {
    let (graph, start) = seven_layer_graph_004();
    let walker = UpstreamWalker::new(&graph);
    let up = walker.walk_chain_parent_only_with_depth(&start, Some(0)).expect("Ok");
    assert!(up.is_empty());
}

#[test]
fn test_subnode_six_sections_and_marker() {
    let graph = subnode_graph("004", &["abc"]);
    let config = empty_config();
    let sources = Vec::new();
    let mut compiler = ContextCompiler::new(&graph, &config, None, &sources);
    let input = CompileInput { target_files: vec!["src.md".to_string()], granularity: Granularity::Subnode, ..Default::default() };
    let result = compiler.compile(&input).expect("Ok");
    let rendered = compiler.render(&result).expect("render Ok");
    let found: Vec<usize> = [
        "Layer Guidelines",
        "Additional Guidelines",
        CACHE_BREAKPOINT_MARKER,
        "Upstream Artifacts",
        "Target Node Metadata",
        "Custom Documents",
    ]
    .iter()
    .map(|m| rendered.find(m).unwrap_or_else(|| panic!("{m}")))
    .collect();
    let mut sorted = found.clone();
    sorted.sort_unstable();
    assert_eq!(found, sorted);
    assert_eq!(rendered.matches(CACHE_BREAKPOINT_MARKER).count(), 1);
}

#[test]
fn test_outline_subnode_anchor_only() {
    let graph = subnode_graph("004", &["abc"]);
    let config = empty_config();
    let sources = Vec::new();
    let mut compiler = ContextCompiler::new(&graph, &config, None, &sources);
    let input = CompileInput {
        target_files: vec!["src.md".to_string()],
        granularity: Granularity::Subnode,
        outline_only: true,
        ..Default::default()
    };
    let result = compiler.compile(&input).expect("Ok");
    for art in result.upstream.iter().filter(|a| a.subnode_id.is_some()) {
        match &art.anchor {
            Some(anchor) => assert_eq!(&art.body, anchor),
            None => assert!(art.body.is_empty()),
        }
    }
}

#[test]
fn test_sections_existing_only() {
    let graph = subnode_graph("004", &["abc"]);
    let config = empty_config();
    let sources = Vec::new();
    let mut compiler = ContextCompiler::new(&graph, &config, None, &sources);
    let input = CompileInput {
        target_files: vec!["src.md".to_string()],
        granularity: Granularity::Subnode,
        sections: Some(vec!["DD-LGX-004#abc".into(), "DD-LGX-004#zzz".into()]),
        ..Default::default()
    };
    let result = compiler.compile(&input).expect("Ok");
    let ids: Vec<&str> = result.upstream.iter().filter_map(|a| a.subnode_id.as_deref()).collect();
    assert!(ids.contains(&"DD-LGX-004#abc"));
    assert!(!ids.contains(&"DD-LGX-004#zzz"));
}

#[test]
fn test_sections_all_absent_empty() {
    let graph = subnode_graph("004", &[]);
    let config = empty_config();
    let sources = Vec::new();
    let mut compiler = ContextCompiler::new(&graph, &config, None, &sources);
    let input = CompileInput {
        target_files: vec!["src.md".to_string()],
        granularity: Granularity::Subnode,
        sections: Some(vec!["#nope1".into(), "#nope2".into()]),
        ..Default::default()
    };
    let result = compiler.compile(&input).expect("Ok");
    assert!(result.upstream.is_empty());
}

#[test]
fn test_sections_parent_id_excluded() {
    let graph = subnode_graph("004", &["abc"]);
    let config = empty_config();
    let sources = Vec::new();
    let mut compiler = ContextCompiler::new(&graph, &config, None, &sources);
    let input = CompileInput {
        target_files: vec!["src.md".to_string()],
        granularity: Granularity::Subnode,
        sections: Some(vec!["DD-LGX-004".into()]),
        ..Default::default()
    };
    let result = compiler.compile(&input).expect("Ok");
    assert!(result.upstream.iter().all(|a| a.subnode_id.as_deref() != Some("DD-LGX-004")));
}

#[test]
fn test_sections_ignored_in_document_granularity() {
    let (graph, _start) = seven_layer_graph_004();
    let config = empty_config();
    let sources = Vec::new();
    let mut compiler = ContextCompiler::new(&graph, &config, None, &sources);
    let with_sections = CompileInput {
        target_files: vec!["SRC-LGX-004.md".to_string()],
        granularity: Granularity::Document,
        sections: Some(vec!["DD-LGX-004#abc".into()]),
        ..Default::default()
    };
    let without = CompileInput { sections: None, ..with_sections.clone() };
    let ra = compiler.compile(&with_sections).expect("Ok");
    let a = compiler.render(&ra).expect("render Ok");
    let rb = compiler.compile(&without).expect("Ok");
    let b = compiler.render(&rb).expect("render Ok");
    assert_eq!(a, b);
}

#[test]
fn test_flag_combination_sections_then_outline() {
    let graph = subnode_graph("004", &["abc", "def"]);
    let config = empty_config();
    let sources = Vec::new();
    let mut compiler = ContextCompiler::new(&graph, &config, None, &sources);
    let input = CompileInput {
        target_files: vec!["src.md".to_string()],
        granularity: Granularity::Subnode,
        sections: Some(vec!["DD-LGX-004#abc".into()]),
        outline_only: true,
        depth_limit: Some(1),
        ..Default::default()
    };
    let result = compiler.compile(&input).expect("Ok");
    let ids: Vec<&str> = result.upstream.iter().filter_map(|a| a.subnode_id.as_deref()).collect();
    assert!(!ids.contains(&"DD-LGX-004#def"));
}

#[test]
fn test_subnode_fallback_to_document() {
    let graph = TraceGraph::from_parts(
        vec![
            node("SRC-LGX-004", "SRC", "src.md"),
            node("DD-LGX-004", "DD", "dd.md"),
            node("DD-LGX-004#abc", "DD", "dd.md"),
            node("UC-LGX-004", "UC", "uc.md"),
        ],
        vec![
            chain_edge("UC-LGX-004", "DD-LGX-004"),
            chain_edge("DD-LGX-004", "SRC-LGX-004"),
            parent_child("DD-LGX-004", "DD-LGX-004#abc"),
        ],
    );
    let config = empty_config();
    let sources = Vec::new();
    let mut compiler = ContextCompiler::new(&graph, &config, None, &sources);
    let input = CompileInput { target_files: vec!["src.md".to_string()], granularity: Granularity::Subnode, ..Default::default() };
    let result = compiler.compile(&input).expect("Ok");
    let uc_arts: Vec<&UpstreamArtifact> = result.upstream.iter().filter(|a| a.artifact_id == "UC-LGX-004").collect();
    if !uc_arts.is_empty() {
        assert!(uc_arts.iter().all(|a| a.subnode_id.is_none()));
    }
}

#[test]
fn test_result_too_large_message_with_suggestion() {
    let msg = ContextError::ResultTooLarge { current: 500_001, limit: 500_000 }.message();
    assert!(msg.contains("compile_context result exceeds"));
    assert!(msg.contains("Current size"));
    assert!(msg.contains("--granularity subnode"));
    assert!(msg.contains("Narrow the target scope"));
}

#[test]
fn test_audit_failure_keeps_ok() {
    let mut db = DbConn::new();
    let mut logger = AuditLogger::new(Some(&mut db));
    let input = CompileInput { target_files: vec!["src.md".to_string()], ..Default::default() };
    let result = empty_result("SRC-LGX-004", Granularity::Subnode);
    assert!(logger.log(&input, &result).is_ok());
}

#[test]
fn test_partial_success_deterministic_record() {
    let graph = TraceGraph::from_parts(vec![node("SRC-LGX-004", "SRC", "known.md")], vec![]);
    let config = empty_config();
    let sources = Vec::new();
    let mut compiler = ContextCompiler::new(&graph, &config, None, &sources);
    let unknown = "unknown.md".to_string();
    let input = CompileInput {
        target_files: vec!["known.md".to_string(), unknown.clone()],
        granularity: Granularity::Subnode,
        ..Default::default()
    };
    let result = compiler.compile(&input).expect("Ok");
    assert!(result.unresolved_targets.contains(&unknown));
}

#[test]
fn test_same_input_same_bytes() {
    for sub in [false, true] {
        let g = if sub { Granularity::Subnode } else { Granularity::Document };
        let mut result = empty_result("SRC-LGX-004", g);
        result.upstream = sample_upstream();
        let a = SectionFormatter::render(&result).expect("render Ok");
        let b = SectionFormatter::render(&result).expect("render Ok");
        assert_eq!(a, b);
    }
}

#[test]
fn test_read_only_invariant() {
    for sub in [false, true] {
        let (graph, _start) = seven_layer_graph_004();
        let before = graph.node_count();
        let config = empty_config();
        let sources = Vec::new();
        let mut compiler = ContextCompiler::new(&graph, &config, None, &sources);
        let g = if sub { Granularity::Subnode } else { Granularity::Document };
        let input = CompileInput { target_files: vec!["SRC-LGX-004.md".to_string()], granularity: g, ..Default::default() };
        let _ = compiler.compile(&input);
        assert_eq!(graph.node_count(), before);
    }
}

// ---------------------------------------------------------------------------
// own tests: exact results

#[test]
fn render_of_one_upstream_document_is_exact() {
    let mut result = empty_result("SRC-A", Granularity::Document);
    result.upstream = vec![UpstreamArtifact {
        artifact_id: "DD-A".into(),
        type_code: "DD".into(),
        file_path: "docs\\dd.md".into(),
        chain_distance: 1,
        body: "body".into(),
        subnode_id: None,
        anchor: None,
        drift_score: None,
    }];
    let s = SectionFormatter::render(&result).unwrap();
    let expected = "# Layer Guidelines\n\n\n# Additional Guidelines\n\n\n<!-- cache-breakpoint: stable-end -->\n\n# Upstream Artifacts\n\nartifact_id: DD-A\ntype: DD\nfile_path: docs/dd.md\nchain_distance: 1\n\nbody\n\n# Target Node Metadata\n\nartifact_id: SRC-A\noutgoing_edges: 0\nincoming_edges: 0\nsubnode_count: 0\n\n# Custom Documents\n\n\n";
    assert_eq!(s, expected);
}

#[test]
fn render_orders_upstream_by_id_stably() {
    let mut result = empty_result("SRC-A", Granularity::Subnode);
    result.upstream = sample_upstream();
    let s = SectionFormatter::render(&result).unwrap();
    let ab = s.find("artifact_id: AB-LGX-001").unwrap();
    let dd = s.find("artifact_id: DD-LGX-009").unwrap();
    let uc_first = s.find("chain_distance: 2").unwrap();
    let uc_second = s.find("chain_distance: 3").unwrap();
    assert!(ab < dd && dd < uc_first && uc_first < uc_second);
}

#[test]
fn render_lists_unresolved_targets_sorted() {
    let mut result = empty_result("SRC-A", Granularity::Document);
    result.target_metadata[0].unresolved_targets = vec!["b\\x.md".into(), "a.md".into()];
    let s = SectionFormatter::render(&result).unwrap();
    assert!(s.contains("subnode_count: 0\nunresolved_targets: a.md,b/x.md\n"));
}

#[test]
fn render_too_large_reports_first_overflowing_part() {
    let mut result = empty_result("SRC-A", Granularity::Document);
    result.upstream = vec![UpstreamArtifact {
        artifact_id: "DD-A".into(),
        type_code: "DD".into(),
        file_path: "dd.md".into(),
        chain_distance: 1,
        body: "x".repeat(RESULT_SIZE_LIMIT_CHARS),
        subnode_id: None,
        anchor: None,
        drift_score: None,
    }];
    match SectionFormatter::render(&result) {
        Err(ContextError::ResultTooLarge { current, limit }) => {
            assert_eq!(limit, RESULT_SIZE_LIMIT_CHARS);
            let upstream_part = "# Upstream Artifacts\n\nartifact_id: DD-A\ntype: DD\nfile_path: dd.md\nchain_distance: 1\n\n".chars().count()
                + RESULT_SIZE_LIMIT_CHARS
                + 2;
            let before = "# Layer Guidelines\n\n\n# Additional Guidelines\n\n\n<!-- cache-breakpoint: stable-end -->\n\n".chars().count();
            assert_eq!(current, before + upstream_part);
        }
        other => panic!("{other:?}"),
    }
}

#[test]
fn compile_document_reads_bodies_and_outlines() {
    let (graph, start) = layer_graph(&["UC-A", "DD-A", "SRC-A"]);
    let config = empty_config();
    let sources = vec![("DD-A.md".to_string(), "# Title\ntext\n## Part\n".to_string())];
    let mut compiler = ContextCompiler::new(&graph, &config, None, &sources);
    let input = CompileInput { target_files: vec!["SRC-A.md".to_string()], ..Default::default() };
    let result = compiler.compile(&input).unwrap();
    assert_eq!(start, "SRC-A");
    assert_eq!(result.upstream.len(), 2);
    assert_eq!(result.upstream[0].artifact_id, "DD-A");
    assert_eq!(result.upstream[0].body, "# Title\ntext\n## Part\n");
    assert_eq!(result.upstream[1].artifact_id, "UC-A");
    assert_eq!(result.upstream[1].body, "");
    let outlined = CompileInput { outline_only: true, ..input };
    let result = compiler.compile(&outlined).unwrap();
    assert_eq!(result.upstream[0].body, "- Title\n  - Part\n");
    assert_eq!(result.target_metadata[0].incoming_edges.len(), 1);
}

#[test]
fn compile_subnode_cuts_sections_at_next_chosen_start() {
    let content = "# Doc\n## First\none\n### Inner\ntwo\n## Second\nthree\n";
    let first = legixy::subnode::generate_subnode_id("DD-A", &["First".to_string()]);
    let inner = legixy::subnode::generate_subnode_id("DD-A", &["First".to_string(), "Inner".to_string()]);
    let graph = TraceGraph::from_parts(
        vec![node("SRC-A", "SRC", "src.md"), node("DD-A", "DD", "dd.md"), node(&first, "DD", "dd.md"), node(&inner, "DD", "dd.md")],
        vec![chain_edge("DD-A", "SRC-A"), parent_child("DD-A", &first), parent_child("DD-A", &inner)],
    );
    let config = empty_config();
    let sources = vec![("dd.md".to_string(), content.to_string())];
    let mut compiler = ContextCompiler::new(&graph, &config, None, &sources);
    let input = CompileInput { target_files: vec!["src.md".to_string()], granularity: Granularity::Subnode, ..Default::default() };
    let result = compiler.compile(&input).unwrap();
    assert_eq!(result.upstream.len(), 2);
    assert_eq!(result.upstream[0].subnode_id.as_deref(), Some(first.as_str()));
    assert_eq!(result.upstream[0].body, "one\n### Inner\n");
    assert_eq!(result.upstream[1].subnode_id.as_deref(), Some(inner.as_str()));
    assert_eq!(result.upstream[1].body, "two\n");
}

#[test]
fn compile_logs_through_an_open_handle() {
    let graph = TraceGraph::from_parts(vec![node("SRC-A", "SRC", "src.md")], vec![]);
    let config = empty_config();
    let sources = Vec::new();
    let mut db = DbConn::open("engine.db", Ok(Connection::open_in_memory().unwrap())).unwrap();
    {
        let mut compiler = ContextCompiler::new(&graph, &config, Some(&mut db), &sources);
        let input = CompileInput {
            target_files: vec!["src.md".to_string(), "x\"y.md".to_string()],
            command: Some("context".to_string()),
            ..Default::default()
        };
        compiler.compile(&input).unwrap();
    }
    let rows = db.conn().unwrap().log_rows();
    assert_eq!(rows.len(), 1);
    assert_eq!(rows[0].target_id, "SRC-A");
    assert_eq!(rows[0].granularity.as_deref(), Some("document"));
    assert_eq!(
        rows[0].payload,
        "{\"command\":\"context\",\"resolved_targets\":[\"SRC-A\"],\"target_files\":[\"src.md\",\"x\\\"y.md\"],\"unresolved\":[\"x\\\"y.md\"],\"upstream_count\":0}"
    );
}

#[test]
fn unresolved_targets_follow_path_component_order() {
    let graph = TraceGraph::empty();
    let config = empty_config();
    let sources = Vec::new();
    let mut compiler = ContextCompiler::new(&graph, &config, None, &sources);
    let input = CompileInput { target_files: vec!["a-b".to_string(), "a/b".to_string(), "a".to_string()], ..Default::default() };
    let result = compiler.compile(&input).unwrap();
    assert_eq!(result.unresolved_targets, vec!["a".to_string(), "a/b".to_string(), "a-b".to_string()]);
}

#[test]
fn upstream_walk_finds_each_node_at_its_shortest_distance() {
    let graph = TraceGraph::from_parts(
        vec![node("T", "T", "t.md"), node("A", "A", "a.md"), node("B", "B", "b.md"), node("C", "C", "c.md")],
        vec![chain_edge("B", "A"), chain_edge("A", "T"), chain_edge("B", "T"), chain_edge("C", "B")],
    );
    let walker = UpstreamWalker::new(&graph);
    let found: Vec<(String, usize)> = walker
        .walk_chain_parent_only_with_depth("T", None)
        .expect("walk Ok")
        .into_iter()
        .map(|a| (a.artifact_id, a.chain_distance))
        .collect();
    assert_eq!(found, vec![("A".to_string(), 1), ("B".to_string(), 1), ("C".to_string(), 2)]);
    let limited = walker.walk_chain_parent_only_with_depth("T", Some(1)).expect("walk Ok");
    assert_eq!(limited.len(), 2);
}

#[test]
fn db_handle_open_fails_as_the_database_did_and_appends_to_its_log() {
    let failed = DbConn::open("engine.db", Err(DbConnError("unable to open database file".to_string())));
    assert_eq!(failed.err(), Some(DbConnError("unable to open database file".to_string())));
    let graph = TraceGraph::from_parts(vec![node("SRC-A", "SRC", "src.md")], vec![]);
    let config = empty_config();
    let sources = Vec::new();
    let mut db = DbConn::open("engine.db", Ok(Connection::open_in_memory().unwrap())).unwrap();
    for _ in 0..2 {
        let mut compiler = ContextCompiler::new(&graph, &config, Some(&mut db), &sources);
        let input = CompileInput { target_files: vec!["src.md".to_string()], ..Default::default() };
        compiler.compile(&input).unwrap();
    }
    let rows = db.conn().unwrap().log_rows();
    assert_eq!(rows.len(), 2);
    assert_eq!((rows[0].id, rows[1].id), (1, 2));
}
