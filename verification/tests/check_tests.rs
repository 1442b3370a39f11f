use legixy::check::{exit_code, run, CheckCategory, CheckMode, CheckReport, CheckResult, SeverityCounts};
use legixy::common::{Config, Id, Severity};
use legixy::graph::{Edge, EdgeKind, Node, TraceGraph};

fn node(id: &str, type_code: &str, path: &str) -> Node {
    Node { id: id.to_string(), type_code: type_code.to_string(), path: path.to_string(), parent_id: None, anchor: None }
}

fn finding(severity: Severity, category: CheckCategory, ids: &[&str]) -> CheckResult {
    CheckResult {
        severity,
        category,
        message: String::new(),
        related_ids: ids.iter().map(|s| Id::new(s)).collect(),
        location: None,
    }
}

#[test]
fn test_run_empty_graph_returns_exit_0() {
    let graph = TraceGraph::empty();
    let config = Config::default();
    let report = run(&graph, &config, CheckMode::Formal, None).expect("Ok");
    assert_eq!(report.counts, SeverityCounts { error: 0, warning: 0, info: 0, ok: report.counts.ok });
    assert_eq!(exit_code(&report), 0);
}

#[test]
fn test_run_single_isolated_node_no_orphanfile() {
    let graph = TraceGraph::from_parts(vec![node("UC-LGX-001", "UC", "docs/usecases/uc.md")], vec![]);
    let report = run(&graph, &Config::default(), CheckMode::Formal, None).expect("Ok");
    assert!(report.findings.iter().all(|f| f.category != CheckCategory::OrphanFile));
    assert_eq!(report.counts.error, 0);
    assert_eq!(exit_code(&report), 0);
}

#[test]
fn test_run_broken_chain_emits_chain_integrity() {
    let graph = TraceGraph::from_parts(vec![node("UC-LGX-001", "UC", "a.md"), node("DD-LGX-001", "DD", "b.md")], vec![]);
    let report = run(&graph, &Config::default(), CheckMode::Formal, None).expect("Ok");
    assert!(report.findings.iter().any(|f| f.category == CheckCategory::ChainIntegrity));
}

#[test]
fn test_exit_code_with_error_is_1() {
    let report = CheckReport {
        findings: vec![finding(Severity::Error, CheckCategory::ChainIntegrity, &["DD-LGX-001"])],
        counts: SeverityCounts { error: 1, warning: 0, info: 0, ok: 0 },
    };
    assert_eq!(exit_code(&report), 1);
}

#[test]
fn test_exit_code_warning_info_only_is_0() {
    let report = CheckReport {
        findings: vec![
            finding(Severity::Warning, CheckCategory::UnresolvedEdge, &["x"]),
            finding(Severity::Warning, CheckCategory::UnresolvedEdge, &["y"]),
            finding(Severity::Info, CheckCategory::SemanticSimilarity, &["z"]),
        ],
        counts: SeverityCounts { error: 0, warning: 2, info: 1, ok: 0 },
    };
    assert_eq!(exit_code(&report), 0);
}

#[test]
fn test_run_full_mode_no_store_info_nonfatal() {
    let graph = TraceGraph::from_parts(vec![node("UC-LGX-001", "UC", "a.md")], vec![]);
    let report = run(&graph, &Config::default(), CheckMode::Full, None).expect("Ok");
    assert_eq!(report.findings.iter().filter(|f| f.severity == Severity::Info).count(), 1);
    assert_eq!(exit_code(&report), 0);
}

#[test]
fn test_run_subnode_collision_is_warning() {
    let graph = TraceGraph::from_parts(vec![node("SPEC-LGX-001#abc", "SPEC", "s.md")], vec![]);
    let report = run(&graph, &Config::default(), CheckMode::Formal, None).expect("Ok");
    if let Some(f) = report.findings.iter().find(|f| f.category == CheckCategory::SubnodeIdCollision) {
        assert_eq!(f.severity, Severity::Warning);
    }
    assert_eq!(exit_code(&report), 0);
}

#[test]
fn test_run_id_optin_checks_default_off() {
    let graph = TraceGraph::from_parts(vec![node("UC-LGX-001", "UC", "a.md")], vec![]);
    let config = Config::default();
    let report = run(&graph, &config, CheckMode::Formal, None).expect("Ok");
    assert!(report.findings.iter().all(|f| !matches!(
        f.category,
        CheckCategory::IdRedefined | CheckCategory::IdSemanticMismatch | CheckCategory::IdSemanticDrift
    )));
}

#[test]
fn test_run_findings_order_deterministic() {
    let graph = TraceGraph::from_parts(
        vec![node("UC-LGX-001", "UC", "a.md"), node("DD-LGX-001", "DD", "b.md")],
        vec![Edge { from: "UC-LGX-001".into(), to: "DD-LGX-001".into(), kind: EdgeKind::Chain }],
    );
    let r1 = run(&graph, &Config::default(), CheckMode::Formal, None).expect("Ok");
    let r2 = run(&graph, &Config::default(), CheckMode::Formal, None).expect("Ok");
    let key = |r: &CheckReport| r.findings.iter().map(|f| (f.severity, f.category, f.related_ids.clone())).collect::<Vec<_>>();
    assert_eq!(key(&r1), key(&r2));
}

#[test]
fn test_exit_code_contract_0_and_1() {
    let ok = CheckReport { findings: vec![], counts: SeverityCounts::default() };
    assert_eq!(exit_code(&ok), 0);
    let err = CheckReport {
        findings: vec![finding(Severity::Error, CheckCategory::GraphDag, &["x"])],
        counts: SeverityCounts { error: 1, ..Default::default() },
    };
    assert_eq!(exit_code(&err), 1);
}

#[test]
fn test_run_graph_cycle_emits_graphdag_error() {
    let graph = TraceGraph::from_parts(
        vec![node("A-LGX-001", "A", "a.md"), node("B-LGX-001", "B", "b.md")],
        vec![
            Edge { from: "A-LGX-001".into(), to: "B-LGX-001".into(), kind: EdgeKind::Custom },
            Edge { from: "B-LGX-001".into(), to: "A-LGX-001".into(), kind: EdgeKind::Custom },
        ],
    );
    let report = run(&graph, &Config::default(), CheckMode::Formal, None).expect("Ok");
    let dag = report.findings.iter().find(|f| f.category == CheckCategory::GraphDag).expect("GraphDag finding");
    assert_eq!(dag.severity, Severity::Error);
    assert!(report.findings.iter().all(|f| f.category != CheckCategory::SubnodeDag));
    assert_eq!(exit_code(&report), 1);
}

#[test]
fn test_run_document_id_mismatch_is_error() {
    let graph = TraceGraph::from_parts(vec![node("UC-LGX-001", "UC", "uc.md")], vec![]);
    let report = run(&graph, &Config::default(), CheckMode::Formal, None).expect("Ok");
    if let Some(f) = report.findings.iter().find(|f| f.category == CheckCategory::DocumentId) {
        assert_eq!(f.severity, Severity::Error);
    }
}

#[test]
fn test_to_json_serializes() {
    let report = CheckReport {
        findings: vec![finding(Severity::Error, CheckCategory::ChainIntegrity, &["DD-LGX-001"])],
        counts: SeverityCounts { error: 1, ..Default::default() },
    };
    let json = report.to_json();
    assert!(json.contains("ChainIntegrity") || json.contains("chain"));
}

#[test]
fn run_counts_match_findings() {
    let graph = TraceGraph::from_parts(
        vec![node("A-LGX-001", "A", "a.md"), node("B-LGX-001", "B", "b.md")],
        vec![
            Edge { from: "A-LGX-001".into(), to: "B-LGX-001".into(), kind: EdgeKind::Custom },
            Edge { from: "B-LGX-001".into(), to: "A-LGX-001".into(), kind: EdgeKind::Custom },
        ],
    );
    let report = run(&graph, &Config::default(), CheckMode::Formal, None).expect("Ok");
    let errors = report.findings.iter().filter(|f| f.severity == Severity::Error).count();
    assert_eq!(report.counts.error, errors);
    for w in report.findings.windows(2) {
        assert!(w[0].severity >= w[1].severity);
    }
}

#[test]
fn graph_cycle_names_the_first_back_edge_target_and_only_reachable_cycles() {
    let e = |a: &str, b: &str| Edge { from: a.into(), to: b.into(), kind: EdgeKind::Custom };
    let graph = TraceGraph::from_parts(
        vec![node("A-LGX-001", "A", "a.md"), node("B-LGX-001", "B", "b.md"), node("C-LGX-001", "C", "c.md")],
        vec![e("A-LGX-001", "B-LGX-001"), e("B-LGX-001", "C-LGX-001"), e("C-LGX-001", "B-LGX-001")],
    );
    for _ in 0..2 {
        let report = run(&graph, &Config::default(), CheckMode::Formal, None).expect("Ok");
        let dag: Vec<_> = report.findings.iter().filter(|f| f.category == CheckCategory::GraphDag).collect();
        assert_eq!(dag.len(), 1);
        assert_eq!(dag[0].related_ids, vec![Id::new("B-LGX-001")]);
    }
    let detached = TraceGraph::from_parts(
        vec![node("A-LGX-001", "A", "a.md")],
        vec![e("X-LGX-001", "Y-LGX-001"), e("Y-LGX-001", "X-LGX-001")],
    );
    let report = run(&detached, &Config::default(), CheckMode::Formal, None).expect("Ok");
    assert!(report.findings.iter().all(|f| f.category != CheckCategory::GraphDag));
}

#[test]
fn run_is_deterministic_ordered_and_counted() {
    let e = |a: &str, b: &str| Edge { from: a.into(), to: b.into(), kind: EdgeKind::Custom };
    let graph = TraceGraph::from_parts(
        vec![node("UC-LGX-001", "UC", "a.md"), node("DD-LGX-001", "DD", "b.md"), node("bad id", "X", "c.md")],
        vec![e("UC-LGX-001", "DD-LGX-001"), e("DD-LGX-001", "UC-LGX-001")],
    );
    let r1 = run(&graph, &Config::default(), CheckMode::Formal, None).expect("Ok");
    let r2 = run(&graph, &Config::default(), CheckMode::Formal, None).expect("Ok");
    assert_eq!(r1, r2);
    let rank = |s: Severity| match s {
        Severity::Error => 3,
        Severity::Warning => 2,
        Severity::Info => 1,
        Severity::Clear => 0,
    };
    assert!(r1.findings.windows(2).all(|w| rank(w[0].severity) >= rank(w[1].severity)));
    let count = |s: Severity| r1.findings.iter().filter(|f| f.severity == s).count();
    assert_eq!(r1.counts.error, count(Severity::Error));
    assert_eq!(r1.counts.warning, count(Severity::Warning));
    assert!(r1.findings.iter().all(|f| f.category != CheckCategory::FileExistence && f.category != CheckCategory::OrphanFile));
}
