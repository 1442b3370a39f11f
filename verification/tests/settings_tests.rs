use legixy::common::{Config, ConfigError};
use legixy::graph::{graph_from_rows, EdgeKind, EdgeRow, GraphError, NodeRow};

const DOC: &str = r#"
[id.chain]
order = ["UC", "DD", 3, "SRC"]
independent = ["ADR"]

[[id.chains]]
area = "LGX"
order = ["UC", "TS"]

[[id.chains]]
order = ["X"]

[[id.chains]]
area = "CORE"
order = ["DD"]
independent = ["NOTE"]

[id.types]
UC = { dir = "docs/use-cases" }
DD = { dir = "docs/dd", ext = ".txt" }
ZZ = { ext = ".md" }

[semantic]
enabled = true
model_dir = "models/x"
similarity_threshold = 0.5

[contextual_retrieval]
enabled = true

[unknown]
key = 1
"#;

#[test]
fn settings_from_document() {
    let c = Config::from_toml_text(".legixy.toml", DOC).expect("parsed");
    assert_eq!(c.chain_order, vec!["UC", "DD", "SRC"]);
    assert_eq!(c.independent, vec!["ADR"]);
    assert_eq!(c.chains.len(), 2);
    assert_eq!(c.chains[0].area, "LGX");
    assert_eq!(c.chains[0].order, vec!["UC", "TS"]);
    assert!(c.chains[0].independent.is_empty());
    assert_eq!(c.chains[1].area, "CORE");
    assert_eq!(c.chains[1].independent, vec!["NOTE"]);
    assert_eq!(c.types.len(), 2);
    assert_eq!((c.types[0].typecode.as_str(), c.types[0].dir.as_str(), c.types[0].ext.as_str()), ("DD", "docs/dd", ".txt"));
    assert_eq!((c.types[1].typecode.as_str(), c.types[1].dir.as_str(), c.types[1].ext.as_str()), ("UC", "docs/use-cases", ".md"));
    assert!(c.semantic.enabled);
    assert_eq!(c.semantic.model, None);
    assert_eq!(c.semantic.model_dir.as_deref(), Some("models/x"));
    assert!(c.contextual_retrieval_enabled);
    assert!(!c.id_redefined_enabled && !c.id_semantic_mismatch_enabled && !c.id_semantic_drift_enabled);
}

#[test]
fn settings_from_empty_document_are_defaults() {
    let c = Config::from_toml_text("x.toml", "").expect("parsed");
    assert_eq!(c.chain_order, vec!["UC", "RBA", "SEQA", "RBD", "SEQD", "DD", "TS", "TC", "SRC"]);
    assert!(c.chains.is_empty() && c.types.is_empty() && c.independent.is_empty());
    assert!(!c.semantic.enabled && !c.contextual_retrieval_enabled);
}

#[test]
fn settings_refuse_malformed_toml() {
    match Config::from_toml_text("dir/.legixy.toml", "this is not toml = = =") {
        Err(ConfigError::Load(m)) => assert!(m.starts_with("dir/.legixy.toml の TOML 解析に失敗: "), "{m}"),
        Ok(_) => panic!("expected an error"),
    }
}

fn node_row(id: &str, type_code: &str, path: &str, parent: Option<&str>) -> NodeRow {
    NodeRow { id: id.to_string(), type_code: type_code.to_string(), path: path.to_string(), parent_id: parent.map(|p| p.to_string()) }
}

fn edge_row(from: &str, to: &str, kind: &str) -> EdgeRow {
    EdgeRow { from: from.to_string(), to: to.to_string(), kind: kind.to_string() }
}

#[test]
fn graph_rows_with_kind_mapping() {
    let g = graph_from_rows(
        vec![
            node_row("UC-LGX-001", "UC", "docs/use-cases/UC-LGX-001.md", None),
            node_row("RBA-LGX-001", "RBA", "docs/robustness-abstract/RBA-LGX-001.md", None),
        ],
        vec![edge_row("UC-LGX-001", "RBA-LGX-001", "chain"), edge_row("A", "B", "parent_child"), edge_row("A", "C", "custom")],
    )
    .expect("ok");
    assert_eq!(g.node_count(), 2);
    assert_eq!(g.edges().len(), 3);
    assert_eq!(g.edges()[0].kind, EdgeKind::Chain);
    assert_eq!(g.edges()[1].kind, EdgeKind::ParentChild);
    assert_eq!(g.edges()[2].kind, EdgeKind::Custom);
    assert_eq!(g.node("UC-LGX-001").unwrap().type_code, "UC");
}

#[test]
fn graph_rows_parent_optional_and_empty() {
    let g = graph_from_rows(vec![], vec![]).expect("empty ok");
    assert_eq!(g.node_count(), 0);
    let g = graph_from_rows(vec![node_row("DD-LGX-002#abc", "DD", "docs/dd.md", Some("DD-LGX-002"))], vec![]).unwrap();
    assert_eq!(g.node("DD-LGX-002#abc").unwrap().parent_id.as_deref(), Some("DD-LGX-002"));
    assert_eq!(g.node("DD-LGX-002#abc").unwrap().anchor, None);
}

#[test]
fn graph_rows_unknown_kind_names_first_bad_edge() {
    match graph_from_rows(vec![], vec![edge_row("A", "B", "chain"), edge_row("A", "B", "bogus"), edge_row("C", "D", "worse")]) {
        Err(GraphError::Parse(m)) => assert_eq!(m, "unknown edge kind 'bogus' (from A to B)"),
        _ => panic!("expected a parse error"),
    }
}
