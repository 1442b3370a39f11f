use legixy::subnode::{
    extract_subnodes, extract_subnodes_with_levels, generate_subnode_id, is_auto_generated_fragment,
    normalize_heading, validate_explicit_name, AutoSubnode,
};

const ID_SPEC002_OVERVIEW: &str = "SPEC-LGX-002#021205cd684b883a";
const ID_DD003_API_FROZEN: &str = "DD-LGX-003#78a50fa46f44eb3e";

#[test]
fn test_generate_subnode_id_matches_v3_h2() {
    let id = generate_subnode_id("SPEC-LGX-002", &["概要".to_string()]);
    assert_eq!(id, ID_SPEC002_OVERVIEW);
}

#[test]
fn test_generate_subnode_id_matches_v3_h3() {
    let id = generate_subnode_id(
        "DD-LGX-003",
        &["公開 API surface".to_string(), "凍結".to_string()],
    );
    assert_eq!(id, ID_DD003_API_FROZEN);
}

#[test]
fn test_generate_subnode_id_format_is_parent_hash_hex16() {
    let id = generate_subnode_id("SPEC-LGX-002", &["概要".to_string()]);
    let (prefix, fragment) = id.split_once('#').expect("ID は '#' を含む");
    assert_eq!(prefix, "SPEC-LGX-002");
    assert_eq!(fragment.len(), 16);
    assert!(fragment.chars().all(|c| c.is_ascii_digit() || ('a'..='f').contains(&c)));
}

#[test]
fn test_extract_h2_heading_path_self_only() {
    let subs = extract_subnodes("UC-LGX-003", "## 概要\n本文\n");
    assert_eq!(subs.len(), 1);
    assert_eq!(subs[0].heading_path, vec!["概要".to_string()]);
    assert_eq!(subs[0].parent_id, "UC-LGX-003");
    assert_eq!(subs[0].id, "UC-LGX-003#61802a64976fbf12");
}

#[test]
fn test_extract_h3_heading_path_includes_h2_context() {
    let subs = extract_subnodes("UC-LGX-003", "## 基本フロー\n## 概要\n### 詳細\n");
    let h3 = subs
        .iter()
        .find(|s| s.heading_path.len() == 2)
        .expect("h3 ノードが 1 件存在する");
    assert_eq!(h3.heading_path, vec!["概要".to_string(), "詳細".to_string()]);
    assert_eq!(h3.id, "UC-LGX-003#657454e9b82c3851");
}

#[test]
fn test_extract_h1_resets_h2_context() {
    let subs = extract_subnodes("DOC", "## A\n# H1\n### B\n");
    assert_eq!(subs.len(), 2, "A(h2) と B(h3) の 2 件、H1 由来なし");
    let b = subs
        .iter()
        .find(|s| s.heading_path.last().map(|x| x.as_str()) == Some("B"))
        .expect("B ノード");
    assert_eq!(b.heading_path, vec!["B".to_string()], "h2 コンテキスト None → 1 要素");
    assert!(subs.iter().all(|s| !s.heading_path.contains(&"H1".to_string())));
}

#[test]
fn test_extract_h4_and_deeper_ignored() {
    let subs = extract_subnodes("DOC", "#### H4\n##### H5\n###### H6\n");
    assert_eq!(subs.len(), 0);
}

#[test]
fn test_extract_atx_requires_space_after_hash_no_space() {
    let subs = extract_subnodes("DOC", "##no space\n");
    assert_eq!(subs.len(), 0, "'##no space' は見出しでない");
}

#[test]
fn test_extract_atx_requires_space_after_hash_ok() {
    let subs = extract_subnodes("DOC", "## ok\n");
    assert_eq!(subs.len(), 1);
    assert_eq!(subs[0].heading_path, vec!["ok".to_string()]);
}

#[test]
fn test_extract_atx_bare_hashes_empty_anchor_skipped() {
    let subs = extract_subnodes("DOC", "##\n");
    assert_eq!(subs.len(), 0, "'##' のみは正規化後 anchor 空 → スキップ");
}

#[test]
fn test_extract_closing_hashes_stripped() {
    let subs = extract_subnodes("DOC", "## 概要 ##\n");
    assert_eq!(subs.len(), 1);
    assert_eq!(subs[0].heading_path, vec!["概要".to_string()]);
    assert_eq!(subs[0].anchor, "概要", "anchor も closing # 除去済");
    assert_eq!(subs[0].id, "DOC#52567a07b126507c");
}

#[test]
fn test_extract_content_range_byte_halfopen() {
    let content = "## A\nbodyA\n## B\nbodyB\n";
    let subs = extract_subnodes("DOC", content);
    assert_eq!(subs.len(), 2);
    let line_start_b = content.find("## B").expect("'## B' 位置");
    assert_eq!(subs[0].content_range, (5, line_start_b));
    let body_start_b = content.find("bodyB").expect("'bodyB' 位置");
    assert_eq!(subs[1].content_range, (body_start_b, content.len()));
    for s in &subs {
        assert!(s.content_range.0 <= s.content_range.1);
        assert!(s.content_range.1 <= content.len());
    }
}

#[test]
fn test_extract_blank_heading_skipped() {
    let subs = extract_subnodes("DOC", "## \n");
    assert_eq!(subs.len(), 0);
}

#[test]
fn test_extract_decoration_only_h2_skipped_and_resets_context() {
    let subs = extract_subnodes("DOC", "## **__**\n### C\n");
    assert_eq!(subs.len(), 1, "装飾のみ h2 はスキップ、C(h3) のみ");
    assert_eq!(subs[0].heading_path, vec!["C".to_string()], "空 h2 → current_h2=None");
}

#[test]
fn test_normalize_decoration_and_collapse() {
    assert_eq!(normalize_heading("  **太字**  リンク  "), "太字 リンク");
}

#[test]
fn test_normalize_fullwidth_space() {
    assert_eq!(normalize_heading("A\u{3000}B"), "A B");
}

#[test]
fn test_normalize_tab_and_consecutive_whitespace() {
    assert_eq!(normalize_heading("a\tb  c"), "a b c");
}

#[test]
fn test_normalize_nfc_decomposed_equals_composed() {
    let decomposed = "e\u{0301}";
    let composed = "\u{00e9}";
    assert_eq!(normalize_heading(decomposed), normalize_heading(composed));
    assert_eq!(normalize_heading(decomposed), composed.to_string());
}

#[test]
fn test_is_auto_generated_fragment_boundaries() {
    assert!(is_auto_generated_fragment("0123456789abcdef"));
    assert!(!is_auto_generated_fragment("0123456789ABCDEF"));
    assert!(!is_auto_generated_fragment("0123456789abcde"));
    assert!(!is_auto_generated_fragment("0123456789abcdef0"));
    assert!(!is_auto_generated_fragment("s:overview"));
    assert!(!is_auto_generated_fragment("0123456789abcdeg"));
}

#[test]
fn test_validate_explicit_name_cases() {
    assert!(validate_explicit_name("overview").is_ok());
    assert!(validate_explicit_name("").is_err());
    let len64: String = std::iter::repeat('a').take(64).collect();
    assert!(validate_explicit_name(&len64).is_err());
    assert!(validate_explicit_name("-abc").is_err());
    assert!(validate_explicit_name("abc-").is_err());
    assert!(validate_explicit_name("ab.c").is_err());
    assert!(validate_explicit_name("a_b-c1").is_ok());
}

#[test]
fn test_extract_code_fence_hash_still_extracted() {
    let subs = extract_subnodes("DOC", "```\n## InCodeFence\n```\n");
    assert_eq!(subs.len(), 1, "フェンスを理由に除外しない");
    assert_eq!(subs[0].heading_path, vec!["InCodeFence".to_string()]);
    assert_eq!(subs[0].id, "DOC#eaa12937ce3ecf99");
}

#[test]
fn test_extract_subnodes_is_sugar_for_levels_2_3() {
    let content = "## H2\n### H3\n#### H4\n";
    let sugar = extract_subnodes("P", content);
    let explicit: Vec<AutoSubnode> = extract_subnodes_with_levels("P", content, &[2, 3]);
    assert_eq!(sugar, explicit);
}

#[test]
fn test_extract_with_levels_only_h2() {
    let subs = extract_subnodes_with_levels("DOC", "## A\n### B\n", &[2]);
    assert_eq!(subs.len(), 1);
    assert_eq!(subs[0].heading_path, vec!["A".to_string()]);
}

#[test]
fn test_extract_with_levels_only_h3() {
    let subs = extract_subnodes_with_levels("DOC", "## A\n### B\n", &[3]);
    assert_eq!(subs.len(), 1);
    assert_eq!(subs[0].heading_path, vec!["B".to_string()]);
}

#[test]
fn test_extract_with_levels_both() {
    let subs = extract_subnodes_with_levels("DOC", "## A\n### B\n", &[2, 3]);
    assert_eq!(subs.len(), 2);
}

#[test]
fn test_extract_with_empty_levels_returns_empty() {
    let subs = extract_subnodes_with_levels("DOC", "## A\n### B\n", &[]);
    assert_eq!(subs.len(), 0);
}
