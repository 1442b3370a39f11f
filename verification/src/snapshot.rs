use vstd::prelude::*;

use crate::ctx::compiler::opt_str;
use crate::feedback::db::{since_unix_epoch, sub_second_nanos, system_now, whole_millis};
use crate::json::hex_digit;
use crate::store::{
    copies, db_error_text, latest_with_label, listing, meta_views, snapshot_conflict, without_snapshot, DbError,
    EmbeddingStore, SnapshotMeta,
};

verus! {

/// The result of taking a snapshot.
#[derive(Debug, Clone, PartialEq)]
pub struct SnapshotCreateResult {
    pub snapshot_id: String,
    pub label: Option<String>,
    pub node_count: usize,
}

/// The result of deleting a snapshot.
#[derive(Debug, Clone, PartialEq)]
pub struct SnapshotDeleteResult {
    pub snapshot_id: String,
    pub deleted_rows: usize,
}

/// How a label resolved.
#[derive(Debug, Clone, PartialEq)]
pub enum LabelResolveResult {
    /// To this snapshot id.
    Resolved(String),
    /// No snapshot has the label.
    NotFound,
}

/// Failure of a snapshot operation.
#[derive(Debug, Clone, PartialEq, Eq)]
pub enum SnapshotError {
    Db(DbError),
    LabelNotFound { label: String },
    TransactionFailed(DbError),
}

/// The message of a snapshot error.
pub open spec fn snapshot_error_text(e: SnapshotError) -> Seq<char> {
    match e {
        SnapshotError::Db(d) => "DB エラー: "@ + db_error_text(d),
        SnapshotError::LabelNotFound { label } => "label '"@ + label@ + "' に該当するスナップショットがありません"@,
        SnapshotError::TransactionFailed(d) => "create トランザクション失敗: "@ + db_error_text(d),
    }
}

impl SnapshotError {
    /// The message of the error.
    pub fn message(&self) -> (r: String)
        ensures
            r@ == snapshot_error_text(*self),
    {
        match self {
            SnapshotError::Db(d) => {
                let mut s = String::from_str("DB エラー: ");
                s.append(d.message().as_str());
                s
            },
            SnapshotError::LabelNotFound { label } => {
                let mut s = String::from_str("label '");
                s.append(label.as_str());
                s.append("' に該当するスナップショットがありません");
                s
            },
            SnapshotError::TransactionFailed(d) => {
                let mut s = String::from_str("create トランザクション失敗: ");
                s.append(d.message().as_str());
                s
            },
        }
    }
}

/// The `w` lowest hexadecimal digits of `n`, lowercase, most significant first.
pub open spec fn hex_digits(n: nat, w: nat) -> Seq<char>
    decreases w,
{
    if w == 0 {
        Seq::empty()
    } else {
        hex_digits(n / 16, (w - 1) as nat).push(hex_digit((n % 16) as int))
    }
}

/// The random part of a snapshot id: the sub-second nanoseconds mixed with the low
/// 32 bits of the millisecond time rotated left by 13.
pub open spec fn id_noise(epoch_ms: u64, nanos: u32) -> u32 {
    let low = epoch_ms as u32;
    nanos ^ ((low << 13u32) | (low >> 19u32))
}

/// The snapshot id for a time: `snap-`, the low 52 bits of the milliseconds since the
/// epoch as 13 hexadecimal digits, `-`, and `id_noise` as 8 hexadecimal digits.
pub open spec fn snapshot_id_text(epoch_ms: u64, nanos: u32) -> Seq<char> {
    "snap-"@ + hex_digits((epoch_ms % 0x10000000000000) as nat, 13) + "-"@ + hex_digits(
        id_noise(epoch_ms, nanos) as nat,
        8,
    )
}

fn push_hex(n: u64, w: usize, out: &mut Vec<char>)
    ensures
        final(out)@ == old(out)@ + hex_digits(n as nat, w as nat),
    decreases w,
{
    if w == 0 {
        assert(old(out)@ + hex_digits(n as nat, 0) =~= old(out)@);
        return;
    }
    push_hex(n / 16, w - 1, out);
    let d = (n % 16) as u8;
    let c = if d < 10 {
        (48u8 + d) as char
    } else {
        (87u8 + d) as char
    };
    assert(c == hex_digit((n % 16) as int));
    out.push(c);
    assert(out@ =~= old(out)@ + hex_digits(n as nat, w as nat));
}

/// The snapshot id for a time (see `snapshot_id_text`).
pub fn snapshot_id_from(epoch_ms: u64, nanos: u32) -> (r: String)
    ensures
        r@ == snapshot_id_text(epoch_ms, nanos),
{
    let mut out: Vec<char> = Vec::new();
    out.push('s');
    out.push('n');
    out.push('a');
    out.push('p');
    out.push('-');
    proof {
        reveal_strlit("snap-");
        assert(out@ =~= "snap-"@);
    }
    push_hex(epoch_ms % 0x10000000000000, 13, &mut out);
    out.push('-');
    let low = epoch_ms as u32;
    let noise: u32 = nanos ^ ((low << 13u32) | (low >> 19u32));
    push_hex(noise as u64, 8, &mut out);
    proof {
        reveal_strlit("-");
        assert(out@ =~= snapshot_id_text(epoch_ms, nanos));
    }
    crate::text::string_from_chars(out.as_slice())
}

/// A new snapshot id from the system clock (see `snapshot_id_from`; the zero time when
/// the clock reads a time before the epoch). Ids are not guaranteed unique.
pub fn generate_snapshot_id() -> (r: String)
    ensures
        exists|ms: u64, nanos: u32| r@ == snapshot_id_text(ms, nanos),
{
    let now = system_now();
    let (ms, nanos) = match since_unix_epoch(&now) {
        Ok(d) => (whole_millis(&d) as u64, sub_second_nanos(&d)),
        Err(_) => (0u64, 0u32),
    };
    snapshot_id_from(ms, nanos)
}

/// The label given to a snapshot as plain values.
pub open spec fn label_view(l: Option<&str>) -> Option<Seq<char>> {
    match l {
        Some(x) => Some(x@),
        None => None,
    }
}

/// Takes snapshot `snapshot_id` of every embeddings row (see
/// `EmbeddingStore::create_snapshot`); a failure is a failed transaction.
pub fn create(store: &mut EmbeddingStore, snapshot_id: &str, label: Option<&str>) -> (r: Result<SnapshotCreateResult, SnapshotError>)
    requires
        old(store).wf(),
    ensures
        final(store).wf(),
        final(store).rows() == old(store).rows(),
        match r {
            Ok(c) => c.snapshot_id@ == snapshot_id@ && opt_str(c.label) == label_view(label) && c.node_count
                == old(store).rows().len() && !snapshot_conflict(old(store).rows(), old(store).snaps(), snapshot_id@)
                && exists|secs: nat|
                final(store).snaps() == old(store).snaps() + copies(
                    old(store).rows(),
                    snapshot_id@,
                    label_view(label),
                    crate::text::datetime_text(secs),
                ),
            Err(e) => snapshot_conflict(old(store).rows(), old(store).snaps(), snapshot_id@) && (e matches SnapshotError::TransactionFailed(
                d,
            ) && d matches DbError::Query(m) && m@ == crate::store::snapshot_conflict_text()) && final(store).snaps()
                == old(store).snaps(),
        },
{
    match store.create_snapshot(snapshot_id, label) {
        Ok(n) => Ok(
            SnapshotCreateResult {
                snapshot_id: String::from_str(snapshot_id),
                label: match label {
                    Some(l) => Some(String::from_str(l)),
                    None => None,
                },
                node_count: n,
            },
        ),
        Err(e) => Err(SnapshotError::TransactionFailed(e)),
    }
}

/// The snapshots, latest first (see `listing`).
pub fn list(store: &EmbeddingStore) -> (r: Result<Vec<SnapshotMeta>, SnapshotError>)
    ensures
        r matches Ok(v) && meta_views(v@) == listing(store.snaps()),
{
    match store.list_snapshots() {
        Ok(v) => Ok(v),
        Err(e) => Err(SnapshotError::Db(e)),
    }
}

/// Deletes snapshot `snapshot_id`; deleting none is no error.
pub fn delete(store: &mut EmbeddingStore, snapshot_id: &str) -> (r: Result<SnapshotDeleteResult, SnapshotError>)
    requires
        old(store).wf(),
    ensures
        final(store).wf(),
        final(store).rows() == old(store).rows(),
        final(store).snaps() == without_snapshot(old(store).snaps(), snapshot_id@),
        r matches Ok(d) && d.snapshot_id@ == snapshot_id@ && d.deleted_rows + without_snapshot(
            old(store).snaps(),
            snapshot_id@,
        ).len() == old(store).snaps().len(),
{
    match store.delete_snapshot(snapshot_id) {
        Ok(n) => Ok(SnapshotDeleteResult { snapshot_id: String::from_str(snapshot_id), deleted_rows: n }),
        Err(e) => Err(SnapshotError::Db(e)),
    }
}

/// The snapshot a label names: the latest with it (ties: the greatest id); an absent
/// label is no error.
pub fn resolve_label(store: &EmbeddingStore, label: &str) -> (r: Result<LabelResolveResult, SnapshotError>)
    ensures
        r matches Ok(x) && match latest_with_label(store.snaps(), label@) {
            Some(b) => x matches LabelResolveResult::Resolved(id) && id@ == b.1,
            None => x is NotFound,
        },
{
    match store.resolve_snapshot_id_by_label(label) {
        Ok(Some(id)) => Ok(LabelResolveResult::Resolved(id)),
        Ok(None) => Ok(LabelResolveResult::NotFound),
        Err(e) => Err(SnapshotError::Db(e)),
    }
}

} // verus!
