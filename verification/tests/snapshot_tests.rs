use legixy::snapshot::{
    create, delete, generate_snapshot_id, list, resolve_label, snapshot_id_from, LabelResolveResult, SnapshotCreateResult,
    SnapshotDeleteResult,
};
use legixy::store::{EmbeddingRow, EmbeddingStore, SnapshotRow};

fn row(node_id: &str) -> EmbeddingRow {
    EmbeddingRow {
        node_id: node_id.to_string(),
        embedding: vec![0u8; 16],
        dim: 4,
        model_version: "V".to_string(),
        content_hash: "H".to_string(),
        context: None,
        context_hash: None,
        created_at: "2026-06-14 00:00:00".to_string(),
    }
}

fn snap_row(snapshot_id: &str, label: Option<&str>, node_id: &str, taken_at: &str) -> SnapshotRow {
    SnapshotRow {
        snapshot_id: snapshot_id.to_string(),
        label: label.map(|s| s.to_string()),
        node_id: node_id.to_string(),
        model_version: "V".to_string(),
        content_hash: "H".to_string(),
        taken_at: taken_at.to_string(),
    }
}

#[test]
fn test_create_empty_store() {
    let mut store = EmbeddingStore::empty();
    let r = create(&mut store, "snap-018f-deadbeef", None).expect("Ok");
    assert_eq!(r, SnapshotCreateResult { snapshot_id: "snap-018f-deadbeef".to_string(), label: None, node_count: 0 });
}

#[test]
fn test_create_with_rows() {
    let mut store = EmbeddingStore::stub(vec![row("A"), row("B"), row("C")], vec![]);
    let r = create(&mut store, "snap-018f-a1b2c3d4", Some("v0.3.0")).expect("Ok");
    assert_eq!(r.node_count, 3);
    assert_eq!(r.label, Some("v0.3.0".to_string()));
}

#[test]
fn test_list_empty() {
    let store = EmbeddingStore::empty();
    assert_eq!(list(&store).expect("Ok").len(), 0);
}

#[test]
fn test_list_tiebreak_order() {
    let store = EmbeddingStore::stub(
        vec![],
        vec![
            snap_row("snap-aaaa", None, "A", "2026-06-13 10:00:00"),
            snap_row("snap-bbbb", None, "A", "2026-06-13 10:00:00"),
            snap_row("snap-cccc", None, "A", "2026-06-13 09:00:00"),
        ],
    );
    let v = list(&store).expect("Ok");
    let ids: Vec<&str> = v.iter().map(|m| m.snapshot_id.as_str()).collect();
    assert_eq!(ids, vec!["snap-bbbb", "snap-aaaa", "snap-cccc"]);
}

#[test]
fn test_list_label_representation() {
    let store = EmbeddingStore::stub(
        vec![],
        vec![snap_row("snap-x", Some("rc1"), "A", "2026-06-13 10:00:00"), snap_row("snap-y", None, "A", "2026-06-13 09:00:00")],
    );
    let v = list(&store).expect("Ok");
    assert!(v.iter().any(|m| m.label == Some("rc1".to_string())));
    assert!(v.iter().any(|m| m.label.is_none()));
}

#[test]
fn test_delete_success() {
    let mut store = EmbeddingStore::stub(
        vec![],
        vec![
            snap_row("snap-018f-a1b2c3d4", None, "A", "t"),
            snap_row("snap-018f-a1b2c3d4", None, "B", "t"),
            snap_row("snap-018f-a1b2c3d4", None, "C", "t"),
        ],
    );
    assert_eq!(delete(&mut store, "snap-018f-a1b2c3d4").expect("Ok").deleted_rows, 3);
}

#[test]
fn test_delete_no_match() {
    let mut store = EmbeddingStore::empty();
    let r = delete(&mut store, "snap-does-not-exist").expect("Ok");
    assert_eq!(r, SnapshotDeleteResult { snapshot_id: "snap-does-not-exist".to_string(), deleted_rows: 0 });
}

#[test]
fn test_resolve_label_tiebreak() {
    let store = EmbeddingStore::stub(
        vec![],
        vec![
            snap_row("snap-zz", Some("release"), "A", "2026-06-13 12:00:00"),
            snap_row("snap-yy", Some("release"), "A", "2026-06-13 12:00:00"),
            snap_row("snap-old", Some("release"), "A", "2026-06-13 08:00:00"),
        ],
    );
    assert_eq!(resolve_label(&store, "release").expect("Ok"), LabelResolveResult::Resolved("snap-zz".to_string()));
}

#[test]
fn test_resolve_label_not_found() {
    let store = EmbeddingStore::empty();
    assert_eq!(resolve_label(&store, "nonexistent").expect("Ok"), LabelResolveResult::NotFound);
}

#[test]
fn test_generate_snapshot_id_format() {
    for _ in 0..50 {
        let id = generate_snapshot_id();
        let body = id.strip_prefix("snap-").expect("snap-");
        let parts: Vec<&str> = body.split('-').collect();
        assert_eq!(parts.len(), 2);
        assert_eq!(parts[0].len(), 13);
        assert_eq!(parts[1].len(), 8);
        assert!(parts[0].chars().all(|c| c.is_ascii_hexdigit()));
        assert!(parts[1].chars().all(|c| c.is_ascii_hexdigit()));
    }
}

#[test]
fn test_create_list_delete_lifecycle() {
    let mut store = EmbeddingStore::stub(vec![row("A"), row("B")], vec![]);
    let id = generate_snapshot_id();
    let c = create(&mut store, &id, Some("e2e")).expect("create Ok");
    assert_eq!(c.node_count, 2);
    let l1 = list(&store).expect("list Ok");
    assert!(l1.iter().any(|m| m.snapshot_id == id));
    let d = delete(&mut store, &id).expect("delete Ok");
    assert_eq!(d.deleted_rows, 2);
    let l2 = list(&store).expect("list Ok");
    assert!(!l2.iter().any(|m| m.snapshot_id == id));
}

#[test]
fn test_create_transaction_failure_rollback() {
    let mut store = EmbeddingStore::stub(vec![row("A"), row("B"), row("C")], vec![snap_row("snap-collide-existing", None, "A", "t")]);
    let r = create(&mut store, "snap-collide-existing", None);
    assert!(r.is_err());
    assert_eq!(list(&store).unwrap()[0].node_count, 1);
}

#[test]
fn test_delete_by_label_main_path() {
    let mut store = EmbeddingStore::stub(
        vec![],
        vec![
            snap_row("snap-018f-rel-newer", Some("release"), "A", "2026-06-13 12:00:00"),
            snap_row("snap-018f-rel-newer", Some("release"), "B", "2026-06-13 12:00:00"),
            snap_row("snap-018f-rel-newer", Some("release"), "C", "2026-06-13 12:00:00"),
            snap_row("snap-018f-rel-older", Some("release"), "A", "2026-06-13 08:00:00"),
            snap_row("snap-018f-rel-older", Some("release"), "B", "2026-06-13 08:00:00"),
            snap_row("snap-018f-other", Some("rc1"), "A", "2026-06-13 11:00:00"),
        ],
    );
    let target = match resolve_label(&store, "release").expect("resolve Ok") {
        LabelResolveResult::Resolved(id) => id,
        LabelResolveResult::NotFound => panic!("expected a snapshot"),
    };
    assert_eq!(target, "snap-018f-rel-newer");
    assert_eq!(delete(&mut store, &target).expect("delete Ok").deleted_rows, 3);
}

#[test]
fn list_is_sorted_latest_first() {
    let mut rows = Vec::new();
    let specs = [("0a1b", Some("x"), 2u8), ("ffff", None, 0), ("1234", Some("y"), 2), ("abcd", None, 1), ("0000", Some("x"), 0)];
    for (i, (suffix, label, sec)) in specs.iter().enumerate() {
        let sid = format!("snap-{:04x}-{}", i, suffix);
        let taken_at = format!("2026-06-13 10:00:0{}", sec);
        rows.push(snap_row(&sid, *label, "A", &taken_at));
    }
    let store = EmbeddingStore::stub(vec![], rows);
    let metas = list(&store).expect("Ok");
    assert_eq!(metas.len(), 5);
    for w in metas.windows(2) {
        let (a, b) = (&w[0], &w[1]);
        assert!(a.taken_at > b.taken_at || (a.taken_at == b.taken_at && a.snapshot_id >= b.snapshot_id));
    }
}

#[test]
fn snapshot_id_from_formats_time() {
    assert_eq!(snapshot_id_from(0, 0), "snap-0000000000000-00000000");
    assert_eq!(snapshot_id_from(0x18f, 0x10), "snap-000000000018f-0031e010");
}
