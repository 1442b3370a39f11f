use legixy::check::{CheckCategory, CheckReport, CheckResult, SeverityCounts};
use legixy::common::{Id, Severity};
use legixy::feedback::analyzer::{ProposalAnalyzer, ProposalStatus};
use legixy::feedback::audit::ContextAuditReader;
use legixy::feedback::cli::FeedbackCli;
use legixy::feedback::db::Connection;
use legixy::feedback::embed::{mask_api_key, EmbedError};
use legixy::feedback::error::FeedbackError;
use legixy::feedback::manager::ProposalManager;
use legixy::feedback::observer::{
    drift_from_embed_error, AutoObserver, NewObservation, ObservationStatus, ObserveCategoryInput,
};
use legixy::feedback::recorder::ObservationRecorder;

fn db() -> Connection {
    Connection::open_in_memory().expect("in-memory engine.db")
}

fn new_obs(category: &str, message: &str, related_ids: &[&str]) -> NewObservation {
    NewObservation {
        source: "manual".to_string(),
        category: category.to_string(),
        severity: "info".to_string(),
        message: message.to_string(),
        related_ids: related_ids.iter().map(|s| s.to_string()).collect(),
        context_json: None,
    }
}

fn finding(severity: Severity, category: CheckCategory, ids: &[&str]) -> CheckResult {
    CheckResult {
        severity,
        category,
        message: String::new(),
        related_ids: ids.iter().map(|s| Id::new(s)).collect(),
        location: None,
    }
}

fn report(findings: Vec<CheckResult>) -> CheckReport {
    CheckReport { findings, counts: SeverityCounts::default() }
}

fn semantic(severity: Severity, message: &str, ids: &[&str]) -> CheckResult {
    CheckResult {
        severity,
        category: CheckCategory::SemanticSimilarity,
        message: message.to_string(),
        related_ids: ids.iter().map(|s| Id::new(s)).collect(),
        location: None,
    }
}

#[test]
fn test_record_empty_message_is_rejected() {
    let mut db = db();
    for blank in ["", "   ", "\t\n"] {
        let obs = new_obs("manual_note", blank, &[]);
        let r = ObservationRecorder::record(&obs, &mut db);
        assert!(matches!(r, Err(FeedbackError::EmptyObservationMessage)), "{blank:?}");
    }
}

#[test]
fn test_record_min_message_is_accepted() {
    let mut db = db();
    let obs = new_obs("manual_note", " a ", &[]);
    let r = ObservationRecorder::record(&obs, &mut db).expect("accepted");
    assert!(r.id > 0);
    assert!(!r.skipped);
}

#[test]
fn test_record_dedup_second_is_skipped() {
    let mut db = db();
    let obs1 = new_obs("manual_note", "first", &["DD-LGX-001", "UC-LGX-001"]);
    let obs2 = new_obs("manual_note", "second-different-message", &["UC-LGX-001", "DD-LGX-001"]);
    let r1 = ObservationRecorder::record(&obs1, &mut db).expect("first");
    assert!(!r1.skipped);
    let r2 = ObservationRecorder::record(&obs2, &mut db).expect("second");
    assert!(r2.skipped);
}

#[test]
fn canonicalize_related_ids_is_order_and_dup_invariant() {
    for ids in [
        vec![],
        vec!["b".to_string(), "a".to_string()],
        vec!["DD-LGX-001#x".to_string(), "UC-LGX-001".to_string(), "AB:1".to_string()],
    ] {
        let mut shuffled = ids.clone();
        shuffled.reverse();
        let mut with_dups = ids.clone();
        with_dups.extend(ids.iter().cloned());
        let a = ObservationRecorder::canonicalize_related_ids(&ids).unwrap();
        let b = ObservationRecorder::canonicalize_related_ids(&shuffled).unwrap();
        let c = ObservationRecorder::canonicalize_related_ids(&with_dups).unwrap();
        assert_eq!(a, b);
        assert_eq!(a, c);
    }
    let canon = ObservationRecorder::canonicalize_related_ids(&["b".to_string(), "a\"".to_string(), "b".to_string()]).unwrap();
    assert_eq!(canon, "[\"a\\\"\",\"b\"]");
}

#[test]
fn record_same_id_set_in_any_order_returns_first_id() {
    let mut db = db();
    let first = ObservationRecorder::record(&new_obs("drift", "a", &["B", "A"]), &mut db).expect("first");
    assert!(!first.skipped);
    for ids in [&["A", "B"][..], &["B", "A", "A"][..], &["A", "B", "B", "A"][..]] {
        let r = ObservationRecorder::record(&new_obs("drift", "other message", ids), &mut db).expect("again");
        assert_eq!((r.id, r.skipped), (first.id, true));
    }
    assert_eq!(db.observation_rows().len(), 1);
}

#[test]
fn record_dedup_is_idempotent() {
    for n in [1usize, 2, 7] {
        let mut db = db();
        let obs = new_obs("manual_note", "same", &["DD-LGX-008"]);
        let mut inserted = 0usize;
        for _ in 0..n {
            if !ObservationRecorder::record(&obs, &mut db).expect("record").skipped {
                inserted += 1;
            }
        }
        assert_eq!(inserted, 1);
    }
}

#[test]
fn test_observe_category_invalid_value_rejected() {
    assert!(ObserveCategoryInput::from_str("foobar").is_none());
    assert_eq!(ObserveCategoryInput::from_str("compile_miss"), Some(ObserveCategoryInput::CompileMiss));
    assert_eq!(ObserveCategoryInput::from_str("review_correction"), Some(ObserveCategoryInput::ReviewCorrection));
    assert_eq!(ObserveCategoryInput::from_str("manual_note"), Some(ObserveCategoryInput::ManualNote));
}

#[test]
fn test_auto_observer_filters_check_report() {
    let rep = report(vec![
        finding(Severity::Clear, CheckCategory::ChainIntegrity, &["a"]),
        finding(Severity::Error, CheckCategory::FileExistence, &["b"]),
        finding(Severity::Warning, CheckCategory::DocumentId, &["c"]),
        finding(Severity::Error, CheckCategory::ChainIntegrity, &["d"]),
        finding(Severity::Warning, CheckCategory::OrphanFile, &["e"]),
        finding(Severity::Info, CheckCategory::SemanticSimilarity, &["f"]),
    ]);
    let obs = AutoObserver::from_check_results(&rep);
    assert!(!obs.is_empty());
    assert!(obs.iter().all(|o| o.category != "file_existence"));
    assert!(obs.iter().all(|o| o.category != "document_id"));
}

#[test]
fn test_drift_from_embed_error_only_contextual_retrieval() {
    let drift_err = EmbedError::ContextualRetrievalFailed {
        node_id: "SPEC-LGX-007".to_string(),
        detail: "timeout sk-secret123".to_string(),
    };
    let nv = drift_from_embed_error(&drift_err, "SPEC-LGX-007").expect("Some");
    assert_eq!(nv.category, "drift");
    assert!(!nv.message.contains("sk-secret123"));
    let other = EmbedError::Other("model load failed".to_string());
    assert!(drift_from_embed_error(&other, "SPEC-LGX-007").is_none());
}

#[test]
fn test_analyze_then_approve_resolves_observation() {
    let mut db = db();
    let obs = new_obs("chain_integrity", "missing chain edge", &["DD-LGX-008"]);
    let _ = ObservationRecorder::record(&obs, &mut db).expect("record");
    let proposals = ProposalAnalyzer::analyze(&mut db).expect("analyze");
    let p = proposals.first().expect("proposal");
    assert_eq!(p.kind, "add_chain_entry");
    assert_eq!(p.status, ProposalStatus::Pending);
    ProposalManager::approve(p.id, &mut db).expect("approve");
    let obs_rows = db.observation_rows();
    assert_eq!(obs_rows[0].observation.status, ObservationStatus::Resolved);
}

#[test]
fn test_analyze_unconvertible_category_skips() {
    let mut db = db();
    let obs = new_obs("orphan_file", "orphan doc", &["docs/foo.md"]);
    let _ = ObservationRecorder::record(&obs, &mut db).expect("record");
    let first = ProposalAnalyzer::analyze(&mut db).expect("first");
    assert!(first.is_empty());
    let second = ProposalAnalyzer::analyze(&mut db).expect("second");
    assert!(second.is_empty());
}

#[test]
fn test_analyze_failure_releases_claim_to_pending() {
    let mut db = db();
    let obs = new_obs("chain_integrity", "will fail", &["DD-LGX-008"]);
    let _ = ObservationRecorder::record(&obs, &mut db).expect("record");
    match ProposalAnalyzer::analyze(&mut db) {
        Ok(_) => {}
        Err(FeedbackError::AnalyzeFailed { observation_id, .. }) => assert!(observation_id > 0),
        Err(other) => panic!("{other:?}"),
    }
}

#[test]
fn test_analyze_duplicate_semantic_key_suppressed() {
    let mut db = db();
    let obs = new_obs("chain_integrity", "dup key", &["DD-LGX-008"]);
    let _ = ObservationRecorder::record(&obs, &mut db).expect("record");
    let _first = ProposalAnalyzer::analyze(&mut db).expect("first");
    let obs2 = new_obs("chain_integrity", "dup key again", &["DD-LGX-008"]);
    let _ = ObservationRecorder::record(&obs2, &mut db).expect("record");
    let second = ProposalAnalyzer::analyze(&mut db).expect("second");
    assert!(second.is_empty());
}

#[test]
fn analyze_does_not_reclaim_rows_left_by_dedup() {
    let mut db = db();
    let o1 = new_obs("chain_integrity", "first", &["DD-LGX-008"]);
    let _ = ObservationRecorder::record(&o1, &mut db).expect("record");
    let first = ProposalAnalyzer::analyze(&mut db).expect("first");
    assert_eq!(first.len(), 1);
    let o2 = new_obs("chain_integrity", "second", &["DD-LGX-008", "X-LGX-001"]);
    let r2 = ObservationRecorder::record(&o2, &mut db).expect("record");
    assert!(!r2.skipped);
    let second = ProposalAnalyzer::analyze(&mut db).expect("second");
    assert!(second.is_empty());
    ProposalManager::approve(first[0].id, &mut db).expect("approve");
    let third = ProposalAnalyzer::analyze(&mut db).expect("third");
    assert!(third.is_empty());
    let rows = db.observation_rows();
    assert_eq!(rows[1].observation.status, ObservationStatus::Analyzing);
}

#[test]
fn test_approve_terminal_reapprove_is_invalid_status() {
    let mut db = db();
    let obs = new_obs("chain_integrity", "approve target", &["DD-LGX-008"]);
    let _ = ObservationRecorder::record(&obs, &mut db).expect("record");
    let proposals = ProposalAnalyzer::analyze(&mut db).expect("analyze");
    let p = proposals.first().expect("proposal");
    ProposalManager::approve(p.id, &mut db).expect("approve");
    let re = ProposalManager::approve(p.id, &mut db);
    assert!(matches!(re, Err(FeedbackError::InvalidProposalStatus { expected: "pending", .. })));
}

#[test]
fn test_status_roundtrip_and_terminal_invariants() {
    for s in [ObservationStatus::Pending, ObservationStatus::Analyzing, ObservationStatus::Resolved, ObservationStatus::Skipped] {
        assert_eq!(ObservationStatus::from_str(s.as_str()), Some(s));
    }
    for s in [ProposalStatus::Pending, ProposalStatus::Approved, ProposalStatus::Rejected] {
        assert_eq!(ProposalStatus::from_str(s.as_str()), Some(s));
    }
    assert_eq!(ObservationStatus::from_str("proposed"), None);
    assert_eq!(ProposalStatus::from_str("skipped"), None);
    let mut db = db();
    let obs = new_obs("chain_integrity", "fsm", &["DD-LGX-008"]);
    let _ = ObservationRecorder::record(&obs, &mut db).expect("record");
    let proposals = ProposalAnalyzer::analyze(&mut db).expect("analyze");
    let p = proposals.first().expect("proposal");
    ProposalManager::reject(p.id, "禁止遷移検証", &mut db).expect("reject");
    let bad = ProposalManager::approve(p.id, &mut db);
    assert!(matches!(bad, Err(FeedbackError::InvalidProposalStatus { .. })));
}

#[test]
fn test_reject_empty_reason_is_rejected() {
    let mut db = db();
    let obs = new_obs("chain_integrity", "reject empty reason", &["DD-LGX-008"]);
    let _ = ObservationRecorder::record(&obs, &mut db).expect("record");
    let proposals = ProposalAnalyzer::analyze(&mut db).expect("analyze");
    let p = proposals.first().expect("proposal");
    for blank in ["", "  ", "\n"] {
        let r = ProposalManager::reject(p.id, blank, &mut db);
        assert!(matches!(r, Err(FeedbackError::EmptyRejectReason)), "{blank:?}");
    }
}

#[test]
fn test_reject_success_records_reason() {
    let mut db = db();
    let obs = new_obs("chain_integrity", "reject ok", &["DD-LGX-008"]);
    let _ = ObservationRecorder::record(&obs, &mut db).expect("record");
    let proposals = ProposalAnalyzer::analyze(&mut db).expect("analyze");
    let p = proposals.first().expect("proposal");
    ProposalManager::reject(p.id, "重複提案", &mut db).expect("reject");
    let summaries = FeedbackCli::list_proposals(&db, Some(ProposalStatus::Rejected)).expect("list");
    assert!(summaries.iter().any(|s| s.id == p.id && s.status == ProposalStatus::Rejected));
    let stored = &db.proposal_rows()[0];
    assert_eq!(stored.decided_reason.as_deref(), Some("重複提案"));
    assert_eq!(db.observation_rows()[0].observation.status, ObservationStatus::Pending);
}

#[test]
fn test_approve_reject_unknown_id_not_found() {
    let mut db = db();
    for id in [0i64, -1, i64::MAX, 99999] {
        let a = ProposalManager::approve(id, &mut db);
        assert!(matches!(a, Err(FeedbackError::ProposalNotFound { id: got }) if got == id));
        let r = ProposalManager::reject(id, "reason", &mut db);
        assert!(matches!(r, Err(FeedbackError::ProposalNotFound { id: got }) if got == id));
    }
}

#[test]
fn test_concurrent_same_key_single_insert_logic() {
    let mut db = db();
    let obs = new_obs("manual_note", "concurrent", &["DD-LGX-008"]);
    let mut inserted = 0;
    for _ in 0..4 {
        if !ObservationRecorder::record(&obs, &mut db).expect("record").skipped {
            inserted += 1;
        }
    }
    assert_eq!(inserted, 1);
}

#[test]
fn test_cas_loser_is_invalid_status() {
    let mut db = db();
    let obs = new_obs("chain_integrity", "cas race", &["DD-LGX-008"]);
    let _ = ObservationRecorder::record(&obs, &mut db).expect("record");
    let proposals = ProposalAnalyzer::analyze(&mut db).expect("analyze");
    let p = proposals.first().expect("proposal");
    ProposalManager::approve(p.id, &mut db).expect("approve");
    let loser = ProposalManager::reject(p.id, "loser", &mut db);
    assert!(matches!(loser, Err(FeedbackError::InvalidProposalStatus { expected: "pending", .. })));
}

#[test]
fn test_run_feedback_e2e_counts() {
    let mut db = db();
    let rep = report(vec![
        finding(Severity::Error, CheckCategory::ChainIntegrity, &["DD-LGX-008"]),
        finding(Severity::Warning, CheckCategory::OrphanFile, &["docs/x.md"]),
    ]);
    let r = FeedbackCli::run_feedback(&mut db, &rep).expect("run_feedback");
    assert!(r.observations_created >= 1);
    let empty = report(vec![]);
    let r0 = FeedbackCli::run_feedback(&mut db, &empty).expect("empty");
    assert_eq!(r0.observations_created, 0);
    assert_eq!(r0.observations_skipped, 0);
}

#[test]
fn test_run_analyze_empty_is_ok_empty() {
    let mut db = db();
    let proposals = FeedbackCli::run_analyze(&mut db).expect("analyze");
    assert!(proposals.is_empty());
}

#[test]
fn test_list_proposals_status_filter() {
    let db = db();
    let none_all = FeedbackCli::list_proposals(&db, None).expect("all");
    assert!(none_all.is_empty());
    let only_pending = FeedbackCli::list_proposals(&db, Some(ProposalStatus::Pending)).expect("pending");
    assert!(only_pending.iter().all(|s| s.status == ProposalStatus::Pending));
}

#[test]
fn test_audit_limit_boundaries() {
    let db = db();
    for limit in [1usize, 10, 50] {
        let entries = ContextAuditReader::recent(&db, limit).expect("recent");
        assert!(entries.len() <= limit);
    }
    let by_t = ContextAuditReader::by_target(&db, "SPEC-LGX-007", 10).expect("by_target");
    assert!(by_t.iter().all(|e| e.target_id == "SPEC-LGX-007"));
    assert!(by_t.len() <= 10);
}

#[test]
fn test_audit_read_and_analyze_tolerate_gaps() {
    let mut db = db();
    let entries = ContextAuditReader::recent(&db, 10).expect("recent");
    let _ = entries;
    let _ = FeedbackCli::run_analyze(&mut db).expect("analyze");
}

#[test]
fn test_read_only_operations_are_idempotent() {
    let db = db();
    let a1 = FeedbackCli::list_proposals(&db, None).expect("list 1");
    let a2 = FeedbackCli::list_proposals(&db, None).expect("list 2");
    assert_eq!(a1, a2);
    let r1 = ContextAuditReader::recent(&db, 10).expect("recent 1");
    let r2 = ContextAuditReader::recent(&db, 10).expect("recent 2");
    assert_eq!(r1, r2);
    let t1 = ContextAuditReader::by_target(&db, "SPEC-LGX-007", 10).expect("by_target 1");
    let t2 = ContextAuditReader::by_target(&db, "SPEC-LGX-007", 10).expect("by_target 2");
    assert_eq!(t1, t2);
}

#[test]
fn semantic_findings_route_to_distinct_observation_categories() {
    let rep = report(vec![
        semantic(Severity::Info, "リンク候補（未接続）: UC-LGX-001 ↔ UC-LGX-002 = 0.9000（≥ 閾値 0.70）", &["UC-LGX-001", "UC-LGX-002"]),
        semantic(Severity::Warning, "content drift: SPEC-LGX-001 の現内容が保存済 embedding と不一致（再 embed 推奨）", &["SPEC-LGX-001"]),
        semantic(Severity::Warning, "低類似度エッジ: UC-LGX-001 → RBA-LGX-001 = 0.1000（< 閾値 0.40）", &["UC-LGX-001", "RBA-LGX-001"]),
        semantic(Severity::Info, "embeddings 未生成: `legixy embed --all` を実行してください（意味層は省略）", &[]),
    ]);
    let obs = AutoObserver::from_check_results(&rep);
    let cats: Vec<&str> = obs.iter().map(|o| o.category.as_str()).collect();
    assert!(cats.contains(&"link_candidate"), "{cats:?}");
    assert!(cats.contains(&"drift"), "{cats:?}");
    assert_eq!(cats.iter().filter(|c| **c == "semantic_similarity").count(), 2, "{cats:?}");
    let link = obs.iter().find(|o| o.category == "link_candidate").unwrap();
    assert_eq!(link.related_ids.len(), 2);
}

#[test]
fn link_candidate_and_drift_observations_convert_to_proposals() {
    let mut db = db();
    let rep = report(vec![
        semantic(Severity::Info, "リンク候補（未接続）: UC-LGX-001 ↔ UC-LGX-002 = 0.9000（≥ 閾値 0.70）", &["UC-LGX-001", "UC-LGX-002"]),
        semantic(Severity::Warning, "content drift: SPEC-LGX-001 の現内容が保存済 embedding と不一致（再 embed 推奨）", &["SPEC-LGX-001"]),
        semantic(Severity::Warning, "低類似度エッジ: UC-LGX-001 → RBA-LGX-001 = 0.1000（< 閾値 0.40）", &["UC-LGX-001", "RBA-LGX-001"]),
    ]);
    for o in AutoObserver::from_check_results(&rep) {
        ObservationRecorder::record(&o, &mut db).expect("record");
    }
    let proposals = ProposalAnalyzer::analyze(&mut db).expect("analyze");
    let kinds: Vec<&str> = proposals.iter().map(|p| p.kind.as_str()).collect();
    assert!(kinds.contains(&"add_link"), "{kinds:?}");
    assert!(kinds.contains(&"update_doc"), "{kinds:?}");
    assert_eq!(proposals.len(), 2, "{kinds:?}");
}

#[test]
fn mask_api_key_replaces_credentials() {
    let masked = mask_api_key("token sk-abcdef123456 end");
    assert!(!masked.contains("sk-abcdef123456"));
    assert!(masked.contains("***REDACTED***"));
    assert_eq!(mask_api_key("plain text"), "plain text");
}

#[test]
fn restore_round_trips_a_database() {
    let mut conn = db();
    ObservationRecorder::record(&new_obs("chain_integrity", "missing", &["DD-LGX-001"]), &mut conn).unwrap();
    FeedbackCli::run_analyze(&mut conn).unwrap();
    let copy = Connection::restore(
        conn.observation_rows().clone(),
        conn.proposal_rows().clone(),
        conn.custom_edge_rows().clone(),
        conn.log_rows().clone(),
        2,
        2,
        conn.next_edge_id(),
        1,
    )
    .expect("consistent tables");
    assert_eq!(copy.proposal_rows(), conn.proposal_rows());
    assert_eq!(copy.observation_rows(), conn.observation_rows());
    // An id at or above the next id breaks the invariant.
    assert!(Connection::restore(conn.observation_rows().clone(), vec![], vec![], vec![], 1, 1, 1, 1).is_none());
    // A pending proposal without the observation behind it breaks it too.
    assert!(Connection::restore(vec![], conn.proposal_rows().clone(), vec![], vec![], 1, 2, 1, 1).is_none());
}
