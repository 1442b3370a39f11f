use vstd::prelude::*;

use crate::ctx::compiler::opt_str;
use crate::feedback::db::now_text;
use crate::order::{insert_str, lemma_sort_strs, lex_lt, sort_strs, strs_sorted};
use crate::text::str_eq;

verus! {

/// Failure of the engine database.
#[derive(Debug, Clone, PartialEq, Eq)]
pub enum DbError {
    Open(String),
    Query(String),
}

/// The message of a database error.
pub open spec fn db_error_text(e: DbError) -> Seq<char> {
    match e {
        DbError::Open(m) => "db open error: "@ + m@,
        DbError::Query(m) => "db query error: "@ + m@,
    }
}

impl DbError {
    /// The message of the error.
    pub fn message(&self) -> (r: String)
        ensures
            r@ == db_error_text(*self),
    {
        let (p, m) = match self {
            DbError::Open(m) => ("db open error: ", m),
            DbError::Query(m) => ("db query error: ", m),
        };
        let mut s = String::from_str(p);
        s.append(m.as_str());
        s
    }
}

/// The message SQLite gives when a snapshot row would repeat (snapshot, node).
pub open spec fn snapshot_conflict_text() -> Seq<char> {
    "UNIQUE constraint failed: embedding_snapshots.snapshot_id, embedding_snapshots.node_id"@
}

/// The message SQLite gives when an embedding row would repeat a node id.
pub open spec fn node_conflict_text() -> Seq<char> {
    "UNIQUE constraint failed: embeddings.node_id"@
}

/// A row of the embeddings table. `embedding` holds the vector as stored: its `f32`
/// components as little-endian bytes.
#[derive(Debug, Clone, PartialEq)]
pub struct EmbeddingRow {
    pub node_id: String,
    pub embedding: Vec<u8>,
    pub dim: usize,
    pub model_version: String,
    pub content_hash: String,
    pub context: Option<String>,
    pub context_hash: Option<String>,
    pub created_at: String,
}

/// A row of the snapshot table as given to `stub` (without its vector).
#[derive(Debug, Clone, PartialEq)]
pub struct SnapshotRow {
    pub snapshot_id: String,
    pub label: Option<String>,
    pub node_id: String,
    pub model_version: String,
    pub content_hash: String,
    pub taken_at: String,
}

/// A snapshot: id, label, number of rows and when it was taken (the latest row).
#[derive(Debug, Clone, PartialEq)]
pub struct SnapshotMeta {
    pub snapshot_id: String,
    pub label: Option<String>,
    pub node_count: usize,
    pub taken_at: String,
}

/// A stored subnode: its id, its document and its anchor.
#[derive(Debug, Clone, PartialEq, Eq)]
pub struct SubnodeRef {
    pub node_id: String,
    pub parent_id: Option<String>,
    pub anchor: Option<String>,
}

/// A full row of the embeddings table.
#[derive(Debug)]
pub struct EmbeddingRecord {
    pub node_id: String,
    pub embedding: Vec<u8>,
    pub dim: usize,
    pub model_version: String,
    pub content_hash: String,
    pub context: Option<String>,
    pub context_hash: Option<String>,
    pub parent_id: Option<String>,
    pub anchor: Option<String>,
    pub is_subnode: bool,
    pub created_at: String,
}

/// A full row of the snapshot table (vector and dimension are absent for rows given
/// without them).
#[derive(Debug)]
pub struct SnapshotRecord {
    pub snapshot_id: String,
    pub label: Option<String>,
    pub node_id: String,
    pub embedding: Option<Vec<u8>>,
    pub dim: Option<usize>,
    pub model_version: String,
    pub content_hash: String,
    pub taken_at: String,
}

/// An embeddings row as plain values.
pub struct RowView {
    pub node_id: Seq<char>,
    pub embedding: Seq<u8>,
    pub dim: usize,
    pub model_version: Seq<char>,
    pub content_hash: Seq<char>,
    pub context: Option<Seq<char>>,
    pub context_hash: Option<Seq<char>>,
    pub parent_id: Option<Seq<char>>,
    pub anchor: Option<Seq<char>>,
    pub is_subnode: bool,
    pub created_at: Seq<char>,
}

impl View for EmbeddingRecord {
    type V = RowView;

    open spec fn view(&self) -> RowView {
        RowView {
            node_id: self.node_id@,
            embedding: self.embedding@,
            dim: self.dim,
            model_version: self.model_version@,
            content_hash: self.content_hash@,
            context: opt_str(self.context),
            context_hash: opt_str(self.context_hash),
            parent_id: opt_str(self.parent_id),
            anchor: opt_str(self.anchor),
            is_subnode: self.is_subnode,
            created_at: self.created_at@,
        }
    }
}

/// A snapshot row as plain values.
pub struct SnapView {
    pub snapshot_id: Seq<char>,
    pub label: Option<Seq<char>>,
    pub node_id: Seq<char>,
    pub embedding: Option<Seq<u8>>,
    pub dim: Option<usize>,
    pub model_version: Seq<char>,
    pub content_hash: Seq<char>,
    pub taken_at: Seq<char>,
}

/// A plain view of an optional byte vector.
pub open spec fn opt_bytes(o: Option<Vec<u8>>) -> Option<Seq<u8>> {
    match o {
        Some(v) => Some(v@),
        None => None,
    }
}

impl View for SnapshotRecord {
    type V = SnapView;

    open spec fn view(&self) -> SnapView {
        SnapView {
            snapshot_id: self.snapshot_id@,
            label: opt_str(self.label),
            node_id: self.node_id@,
            embedding: opt_bytes(self.embedding),
            dim: self.dim,
            model_version: self.model_version@,
            content_hash: self.content_hash@,
            taken_at: self.taken_at@,
        }
    }
}

/// The views of embeddings rows.
pub open spec fn row_views(s: Seq<EmbeddingRecord>) -> Seq<RowView> {
    s.map_values(|r: EmbeddingRecord| r@)
}

/// The views of snapshot rows.
pub open spec fn snap_views(s: Seq<SnapshotRecord>) -> Seq<SnapView> {
    s.map_values(|r: SnapshotRecord| r@)
}

/// No two embeddings rows share a node id.
pub open spec fn unique_nodes(rows: Seq<RowView>) -> bool {
    forall|i: int, j: int| 0 <= i < j < rows.len() ==> (#[trigger] rows[i]).node_id != (#[trigger] rows[j]).node_id
}

/// No two snapshot rows share snapshot id and node id.
pub open spec fn unique_snaps(snaps: Seq<SnapView>) -> bool {
    forall|i: int, j: int|
        0 <= i < j < snaps.len() ==> !((#[trigger] snaps[i]).snapshot_id == (#[trigger] snaps[j]).snapshot_id
            && snaps[i].node_id == snaps[j].node_id)
}

/// The embeddings and snapshot tables of the engine database.
pub struct EmbeddingStore {
    embeddings: Vec<EmbeddingRecord>,
    snapshots: Vec<SnapshotRecord>,
}

impl EmbeddingStore {
    /// The embeddings rows.
    pub closed spec fn rows(&self) -> Seq<RowView> {
        row_views(self.embeddings@)
    }

    /// The snapshot rows.
    pub closed spec fn snaps(&self) -> Seq<SnapView> {
        snap_views(self.snapshots@)
    }

    /// The primary keys hold: node ids, and (snapshot, node) pairs, are unique.
    pub open spec fn wf(&self) -> bool {
        unique_nodes(self.rows()) && unique_snaps(self.snaps())
    }

    /// An empty store.
    pub fn empty() -> (r: EmbeddingStore)
        ensures
            r.rows().len() == 0,
            r.snaps().len() == 0,
            r.wf(),
    {
        let r = EmbeddingStore { embeddings: Vec::new(), snapshots: Vec::new() };
        assert(r.rows() =~= Seq::<RowView>::empty());
        assert(r.snaps() =~= Seq::<SnapView>::empty());
        r
    }

    /// The stored rows of both tables, in order.
    pub fn records(&self) -> (r: (&Vec<EmbeddingRecord>, &Vec<SnapshotRecord>))
        ensures
            row_views(r.0@) == self.rows(),
            snap_views(r.1@) == self.snaps(),
    {
        (&self.embeddings, &self.snapshots)
    }

    /// A store holding the given rows; refused (`Query`) when they break a primary key.
    pub fn restore(embeddings: Vec<EmbeddingRecord>, snapshots: Vec<SnapshotRecord>) -> (r: Result<EmbeddingStore, DbError>)
        ensures
            match r {
                Ok(s) => s.rows() == row_views(embeddings@) && s.snaps() == snap_views(snapshots@) && s.wf(),
                Err(e) => !(unique_nodes(row_views(embeddings@)) && unique_snaps(snap_views(snapshots@))),
            },
    {
        let ghost rv = row_views(embeddings@);
        let ghost sv = snap_views(snapshots@);
        let mut i: usize = 0;
        while i < embeddings.len()
            invariant
                i <= embeddings@.len(),
                rv == row_views(embeddings@),
                forall|a: int, b: int| 0 <= a < b < rv.len() && a < i ==> (#[trigger] rv[a]).node_id != (#[trigger] rv[b]).node_id,
            decreases embeddings@.len() - i,
        {
            let mut j: usize = i + 1;
            while j < embeddings.len()
                invariant
                    i < j <= embeddings@.len(),
                    rv == row_views(embeddings@),
                    forall|b: int| i < b < j ==> rv[i as int].node_id != (#[trigger] rv[b]).node_id,
                decreases embeddings@.len() - j,
            {
                if str_eq(embeddings[i].node_id.as_str(), embeddings[j].node_id.as_str()) {
                    assert(rv[i as int].node_id == rv[j as int].node_id);
                    assert(!unique_nodes(rv));
                    return Err(DbError::Query(String::from_str("UNIQUE constraint failed: embeddings.node_id")));
                }
                j = j + 1;
            }
            i = i + 1;
        }
        let mut i: usize = 0;
        while i < snapshots.len()
            invariant
                i <= snapshots@.len(),
                sv == snap_views(snapshots@),
                unique_nodes(rv),
                forall|a: int, b: int|
                    0 <= a < b < sv.len() && a < i ==> !((#[trigger] sv[a]).snapshot_id == (#[trigger] sv[b]).snapshot_id
                        && sv[a].node_id == sv[b].node_id),
            decreases snapshots@.len() - i,
        {
            let mut j: usize = i + 1;
            while j < snapshots.len()
                invariant
                    i < j <= snapshots@.len(),
                    sv == snap_views(snapshots@),
                    forall|b: int|
                        i < b < j ==> !(sv[i as int].snapshot_id == (#[trigger] sv[b]).snapshot_id && sv[i as int].node_id
                            == sv[b].node_id),
                decreases snapshots@.len() - j,
            {
                if str_eq(snapshots[i].snapshot_id.as_str(), snapshots[j].snapshot_id.as_str()) && str_eq(
                    snapshots[i].node_id.as_str(),
                    snapshots[j].node_id.as_str(),
                ) {
                    assert(sv[i as int].snapshot_id == sv[j as int].snapshot_id && sv[i as int].node_id == sv[j as int].node_id);
                    assert(!unique_snaps(sv));
                    return Err(
                        DbError::Query(
                            String::from_str(
                                "UNIQUE constraint failed: embedding_snapshots.snapshot_id, embedding_snapshots.node_id",
                            ),
                        ),
                    );
                }
                j = j + 1;
            }
            i = i + 1;
        }
        Ok(EmbeddingStore { embeddings, snapshots })
    }
}


/// The embeddings rows given to `stub`: no subnode data.
pub open spec fn stub_rows(rows: Seq<EmbeddingRow>) -> Seq<RowView> {
    rows.map_values(
        |r: EmbeddingRow|
            RowView {
                node_id: r.node_id@,
                embedding: r.embedding@,
                dim: r.dim,
                model_version: r.model_version@,
                content_hash: r.content_hash@,
                context: opt_str(r.context),
                context_hash: opt_str(r.context_hash),
                parent_id: None,
                anchor: None,
                is_subnode: false,
                created_at: r.created_at@,
            },
    )
}

/// The snapshot rows given to `stub`: no vector.
pub open spec fn stub_snaps(rows: Seq<SnapshotRow>) -> Seq<SnapView> {
    rows.map_values(
        |r: SnapshotRow|
            SnapView {
                snapshot_id: r.snapshot_id@,
                label: opt_str(r.label),
                node_id: r.node_id@,
                embedding: None,
                dim: None,
                model_version: r.model_version@,
                content_hash: r.content_hash@,
                taken_at: r.taken_at@,
            },
    )
}

/// Some row of node `id` has this content hash and model version.
pub open spec fn up_to_date(rows: Seq<RowView>, id: Seq<char>, hash: Seq<char>, version: Seq<char>) -> bool {
    exists|i: int|
        0 <= i < rows.len() && (#[trigger] rows[i]).node_id == id && rows[i].content_hash == hash
            && rows[i].model_version == version
}

/// Copying the embeddings rows into snapshot `sid` would repeat a (snapshot, node) pair.
pub open spec fn snapshot_conflict(rows: Seq<RowView>, snaps: Seq<SnapView>, sid: Seq<char>) -> bool {
    exists|i: int, j: int|
        0 <= i < snaps.len() && 0 <= j < rows.len() && (#[trigger] snaps[i]).snapshot_id == sid && snaps[i].node_id
            == (#[trigger] rows[j]).node_id
}

/// The snapshot rows copied from the embeddings rows, taken at `t`.
pub open spec fn copies(rows: Seq<RowView>, sid: Seq<char>, label: Option<Seq<char>>, t: Seq<char>) -> Seq<SnapView> {
    rows.map_values(
        |r: RowView|
            SnapView {
                snapshot_id: sid,
                label,
                node_id: r.node_id,
                embedding: Some(r.embedding),
                dim: Some(r.dim),
                model_version: r.model_version,
                content_hash: r.content_hash,
                taken_at: t,
            },
    )
}

/// The snapshot rows not of snapshot `sid`, in order.
pub open spec fn without_snapshot(snaps: Seq<SnapView>, sid: Seq<char>) -> Seq<SnapView>
    decreases snaps.len(),
{
    if snaps.len() == 0 {
        snaps
    } else if snaps.last().snapshot_id == sid {
        without_snapshot(snaps.drop_last(), sid)
    } else {
        without_snapshot(snaps.drop_last(), sid).push(snaps.last())
    }
}

/// A snapshot's key in listings: id and label.
pub type GroupKey = (Seq<char>, Option<Seq<char>>);

/// The (snapshot, label) pairs of the snapshot rows, each once, in order of first appearance.
pub open spec fn groups_of(snaps: Seq<SnapView>) -> Seq<GroupKey>
    decreases snaps.len(),
{
    if snaps.len() == 0 {
        Seq::empty()
    } else {
        let prev = groups_of(snaps.drop_last());
        let g = (snaps.last().snapshot_id, snaps.last().label);
        if prev.contains(g) {
            prev
        } else {
            prev.push(g)
        }
    }
}

/// The number of rows of a group.
pub open spec fn group_count(snaps: Seq<SnapView>, g: GroupKey) -> nat
    decreases snaps.len(),
{
    if snaps.len() == 0 {
        0
    } else {
        group_count(snaps.drop_last(), g) + if (snaps.last().snapshot_id, snaps.last().label) == g {
            1nat
        } else {
            0nat
        }
    }
}

/// The latest time a row of a group was taken (the greatest text).
pub open spec fn group_latest(snaps: Seq<SnapView>, g: GroupKey) -> Option<Seq<char>>
    decreases snaps.len(),
{
    if snaps.len() == 0 {
        None
    } else {
        let prev = group_latest(snaps.drop_last(), g);
        let t = snaps.last().taken_at;
        if (snaps.last().snapshot_id, snaps.last().label) == g {
            match prev {
                Some(p) => if lex_lt(p, t) {
                    Some(t)
                } else {
                    Some(p)
                },
                None => Some(t),
            }
        } else {
            prev
        }
    }
}

/// A snapshot listing entry as plain values: id, label, row count, time taken.
pub type MetaView = (Seq<char>, Option<Seq<char>>, nat, Seq<char>);

/// The listing entry of a group.
pub open spec fn meta_of(snaps: Seq<SnapView>, g: GroupKey) -> MetaView {
    (
        g.0,
        g.1,
        group_count(snaps, g),
        match group_latest(snaps, g) {
            Some(t) => t,
            None => Seq::empty(),
        },
    )
}

/// Listing order: later time first, then greater id first.
pub open spec fn meta_before(a: MetaView, b: MetaView) -> bool {
    lex_lt(b.3, a.3) || (a.3 == b.3 && lex_lt(b.0, a.0))
}

/// Inserts `x` after every entry that does not go after it.
pub open spec fn insert_meta(s: Seq<MetaView>, x: MetaView) -> Seq<MetaView>
    decreases s.len(),
{
    if s.len() == 0 {
        seq![x]
    } else if meta_before(x, s.last()) {
        insert_meta(s.drop_last(), x).push(s.last())
    } else {
        s.push(x)
    }
}

/// Entries in listing order (stably).
pub open spec fn sort_metas(s: Seq<MetaView>) -> Seq<MetaView>
    decreases s.len(),
{
    if s.len() == 0 {
        s
    } else {
        insert_meta(sort_metas(s.drop_last()), s.last())
    }
}

/// The snapshot listing: one entry per (snapshot, label), latest first, ties by
/// greater id first.
pub open spec fn listing(snaps: Seq<SnapView>) -> Seq<MetaView> {
    sort_metas(groups_of(snaps).map_values(|g: GroupKey| meta_of(snaps, g)))
}

/// The view of a listing entry.
pub open spec fn meta_view(m: SnapshotMeta) -> MetaView {
    (m.snapshot_id@, opt_str(m.label), m.node_count as nat, m.taken_at@)
}

/// `(t, id)` comes after `(bt, bid)`: later, or as late with a greater id.
pub open spec fn later(t: Seq<char>, id: Seq<char>, bt: Seq<char>, bid: Seq<char>) -> bool {
    lex_lt(bt, t) || (bt == t && lex_lt(bid, id))
}

/// The latest row with label `l` (ties: greatest id), as (time, id), scanning in order.
pub open spec fn latest_with_label(snaps: Seq<SnapView>, l: Seq<char>) -> Option<(Seq<char>, Seq<char>)>
    decreases snaps.len(),
{
    if snaps.len() == 0 {
        None
    } else {
        let prev = latest_with_label(snaps.drop_last(), l);
        let r = snaps.last();
        if r.label == Some(l) {
            match prev {
                Some(b) => if later(r.taken_at, r.snapshot_id, b.0, b.1) {
                    Some((r.taken_at, r.snapshot_id))
                } else {
                    prev
                },
                None => Some((r.taken_at, r.snapshot_id)),
            }
        } else {
            prev
        }
    }
}

/// Inserts a subnode reference after every one whose id does not come after its id.
pub open spec fn insert_ref(s: Seq<RowView>, x: RowView) -> Seq<RowView>
    decreases s.len(),
{
    if s.len() == 0 {
        seq![x]
    } else if lex_lt(x.node_id, s.last().node_id) {
        insert_ref(s.drop_last(), x).push(s.last())
    } else {
        s.push(x)
    }
}

/// The subnode rows ordered by node id.
pub open spec fn subnode_rows(rows: Seq<RowView>) -> Seq<RowView>
    decreases rows.len(),
{
    if rows.len() == 0 {
        rows
    } else if rows.last().is_subnode {
        insert_ref(subnode_rows(rows.drop_last()), rows.last())
    } else {
        subnode_rows(rows.drop_last())
    }
}

/// The view of a subnode reference.
pub open spec fn ref_view(r: SubnodeRef) -> (Seq<char>, Option<Seq<char>>, Option<Seq<char>>) {
    (r.node_id@, opt_str(r.parent_id), opt_str(r.anchor))
}

/// A row renamed.
pub open spec fn renamed(r: RowView, id: Seq<char>) -> RowView {
    RowView { node_id: id, ..r }
}


fn copy_opt_string(o: &Option<String>) -> (r: Option<String>)
    ensures
        opt_str(r) == opt_str(*o),
{
    match o {
        Some(x) => Some(x.clone()),
        None => None,
    }
}

fn copy_bytes(v: &Vec<u8>) -> (r: Vec<u8>)
    ensures
        r@ == v@,
{
    let mut out: Vec<u8> = Vec::new();
    let mut i: usize = 0;
    while i < v.len()
        invariant
            i <= v@.len(),
            out@ == v@.take(i as int),
        decreases v@.len() - i,
    {
        out.push(v[i]);
        assert(out@ =~= v@.take(i + 1));
        i = i + 1;
    }
    assert(v@.take(v@.len() as int) =~= v@);
    out
}

impl EmbeddingStore {
    /// A store holding the given rows (none of them a subnode; snapshot rows without
    /// vectors).
    pub fn stub(rows: Vec<EmbeddingRow>, snapshot_rows: Vec<SnapshotRow>) -> (r: EmbeddingStore)
        requires
            unique_nodes(stub_rows(rows@)),
            unique_snaps(stub_snaps(snapshot_rows@)),
        ensures
            r.rows() == stub_rows(rows@),
            r.snaps() == stub_snaps(snapshot_rows@),
            r.wf(),
    {
        let ghost rv = stub_rows(rows@);
        let ghost sv = stub_snaps(snapshot_rows@);
        let mut embeddings: Vec<EmbeddingRecord> = Vec::new();
        let mut i: usize = 0;
        while i < rows.len()
            invariant
                i <= rows@.len(),
                rv == stub_rows(rows@),
                embeddings@.len() == i,
                row_views(embeddings@) == rv.take(i as int),
            decreases rows@.len() - i,
        {
            let r = &rows[i];
            let rec = EmbeddingRecord {
                node_id: r.node_id.clone(),
                embedding: copy_bytes(&r.embedding),
                dim: r.dim,
                model_version: r.model_version.clone(),
                content_hash: r.content_hash.clone(),
                context: copy_opt_string(&r.context),
                context_hash: copy_opt_string(&r.context_hash),
                parent_id: None,
                anchor: None,
                is_subnode: false,
                created_at: r.created_at.clone(),
            };
            let ghost prev = row_views(embeddings@);
            assert(rec@ == rv[i as int]);
            embeddings.push(rec);
            assert(row_views(embeddings@) =~= prev.push(rv[i as int]));
            assert(rv.take(i + 1) =~= rv.take(i as int).push(rv[i as int]));
            assert(row_views(embeddings@) =~= rv.take(i + 1));
            i = i + 1;
        }
        let mut snapshots: Vec<SnapshotRecord> = Vec::new();
        let mut i: usize = 0;
        while i < snapshot_rows.len()
            invariant
                i <= snapshot_rows@.len(),
                sv == stub_snaps(snapshot_rows@),
                snapshots@.len() == i,
                snap_views(snapshots@) == sv.take(i as int),
            decreases snapshot_rows@.len() - i,
        {
            let r = &snapshot_rows[i];
            let rec = SnapshotRecord {
                snapshot_id: r.snapshot_id.clone(),
                label: copy_opt_string(&r.label),
                node_id: r.node_id.clone(),
                embedding: None,
                dim: None,
                model_version: r.model_version.clone(),
                content_hash: r.content_hash.clone(),
                taken_at: r.taken_at.clone(),
            };
            assert(rec@ == sv[i as int]);
            let ghost prev = snap_views(snapshots@);
            snapshots.push(rec);
            assert(snap_views(snapshots@) =~= prev.push(sv[i as int]));
            assert(sv.take(i + 1) =~= sv.take(i as int).push(sv[i as int]));
            assert(snap_views(snapshots@) =~= sv.take(i + 1));
            i = i + 1;
        }
        assert(rv.take(rows@.len() as int) =~= rv);
        assert(sv.take(snapshot_rows@.len() as int) =~= sv);
        EmbeddingStore { embeddings, snapshots }
    }

    /// Whether node `node_id` is stored with this content hash and model version.
    pub fn is_up_to_date(&self, node_id: &str, content_hash: &str, model_version: &str) -> (r: Result<bool, DbError>)
        ensures
            r == Ok::<bool, DbError>(up_to_date(self.rows(), node_id@, content_hash@, model_version@)),
    {
        let ghost rv = self.rows();
        let mut i: usize = 0;
        while i < self.embeddings.len()
            invariant
                i <= self.embeddings@.len(),
                rv == self.rows(),
                forall|k: int|
                    0 <= k < i ==> !((#[trigger] rv[k]).node_id == node_id@ && rv[k].content_hash == content_hash@
                        && rv[k].model_version == model_version@),
            decreases self.embeddings@.len() - i,
        {
            let e = &self.embeddings[i];
            if str_eq(e.node_id.as_str(), node_id) && str_eq(e.content_hash.as_str(), content_hash) && str_eq(
                e.model_version.as_str(),
                model_version,
            ) {
                assert(rv[i as int] == e@);
                return Ok(true);
            }
            i = i + 1;
        }
        Ok(false)
    }

    /// Copies every embeddings row into snapshot `snapshot_id` (with `label`), all
    /// taken now; the number of rows copied. Fails, changing nothing, when the
    /// snapshot already holds a row of one of the nodes.
    pub fn create_snapshot(&mut self, snapshot_id: &str, label: Option<&str>) -> (r: Result<usize, DbError>)
        requires
            old(self).wf(),
        ensures
            final(self).wf(),
            final(self).rows() == old(self).rows(),
            match r {
                Ok(n) => n == old(self).rows().len() && !snapshot_conflict(old(self).rows(), old(self).snaps(), snapshot_id@)
                    && exists|secs: nat|
                    final(self).snaps() == old(self).snaps() + copies(
                        old(self).rows(),
                        snapshot_id@,
                        match label {
                            Some(l) => Some(l@),
                            None => None,
                        },
                        crate::text::datetime_text(secs),
                    ),
                Err(e) => snapshot_conflict(old(self).rows(), old(self).snaps(), snapshot_id@) && e == DbError::Query(
                    e->Query_0,
                ) && e->Query_0@ == snapshot_conflict_text() && final(self).snaps() == old(self).snaps(),
            },
    {
        let ghost rv = self.rows();
        let ghost sv = self.snaps();
        let mut i: usize = 0;
        while i < self.snapshots.len()
            invariant
                i <= self.snapshots@.len(),
                rv == self.rows(),
                sv == self.snaps(),
                unique_nodes(rv),
                unique_snaps(sv),
                forall|a: int, b: int|
                    0 <= a < i && 0 <= b < rv.len() ==> !((#[trigger] sv[a]).snapshot_id == snapshot_id@ && sv[a].node_id
                        == (#[trigger] rv[b]).node_id),
            decreases self.snapshots@.len() - i,
        {
            if str_eq(self.snapshots[i].snapshot_id.as_str(), snapshot_id) {
                let mut j: usize = 0;
                while j < self.embeddings.len()
                    invariant
                        i < self.snapshots@.len(),
                        j <= self.embeddings@.len(),
                        rv == self.rows(),
                        sv == self.snaps(),
                        unique_nodes(rv),
                        unique_snaps(sv),
                        sv[i as int].snapshot_id == snapshot_id@,
                        forall|b: int| 0 <= b < j ==> sv[i as int].node_id != (#[trigger] rv[b]).node_id,
                    decreases self.embeddings@.len() - j,
                {
                    if str_eq(self.snapshots[i].node_id.as_str(), self.embeddings[j].node_id.as_str()) {
                        assert(sv[i as int].node_id == rv[j as int].node_id);
                        proof {
                            reveal_strlit(
                                "UNIQUE constraint failed: embedding_snapshots.snapshot_id, embedding_snapshots.node_id",
                            );
                        }
                        return Err(
                            DbError::Query(
                                String::from_str(
                                    "UNIQUE constraint failed: embedding_snapshots.snapshot_id, embedding_snapshots.node_id",
                                ),
                            ),
                        );
                    }
                    j = j + 1;
                }
            }
            i = i + 1;
        }
        let taken = now_text();
        let ghost t = taken@;
        let ghost lv = match label {
            Some(l) => Some(l@),
            None => None::<Seq<char>>,
        };
        let n = self.embeddings.len();
        let mut k: usize = 0;
        while k < n
            invariant
                k <= n == rv.len(),
                rv == self.rows(),
                t == taken@,
                lv == match label {
                    Some(l) => Some(l@),
                    None => None::<Seq<char>>,
                },
                self.snaps() == sv + copies(rv, snapshot_id@, lv, t).take(k as int),
                unique_nodes(rv),
                unique_snaps(sv),
                !snapshot_conflict(rv, sv, snapshot_id@),
                unique_snaps(self.snaps()),
            decreases n - k,
        {
            let e = &self.embeddings[k];
            let rec = SnapshotRecord {
                snapshot_id: String::from_str(snapshot_id),
                label: match label {
                    Some(l) => Some(String::from_str(l)),
                    None => None,
                },
                node_id: e.node_id.clone(),
                embedding: Some(copy_bytes(&e.embedding)),
                dim: Some(e.dim),
                model_version: e.model_version.clone(),
                content_hash: e.content_hash.clone(),
                taken_at: taken.clone(),
            };
            let ghost before = self.snaps();
            assert(rec@ == copies(rv, snapshot_id@, lv, t)[k as int]);
            self.snapshots.push(rec);
            proof {
                let c = copies(rv, snapshot_id@, lv, t);
                assert(self.snaps() =~= before.push(rec@));
                assert(self.snaps() =~= sv + c.take(k + 1));
                let now = self.snaps();
                assert forall|a: int, b: int|
                    0 <= a < b < now.len() implies !((#[trigger] now[a]).snapshot_id == (#[trigger] now[b]).snapshot_id
                        && now[a].node_id == now[b].node_id) by {
                    if b < now.len() - 1 {
                        assert(now[a] == before[a] && now[b] == before[b]);
                    } else if a < sv.len() {
                        assert(now[a] == sv[a]);
                        assert(now[b] == c[k as int]);
                        assert(c[k as int].node_id == rv[k as int].node_id);
                    } else {
                        assert(now[a] == c[a - sv.len()]);
                        assert(now[b] == c[k as int]);
                        assert(c[a - sv.len()].node_id == rv[a - sv.len()].node_id);
                        assert(c[k as int].node_id == rv[k as int].node_id);
                    }
                }
            }
            k = k + 1;
        }
        proof {
            assert(copies(rv, snapshot_id@, lv, t).take(n as int) =~= copies(rv, snapshot_id@, lv, t));
            let secs = choose|secs: nat| taken@ == crate::text::datetime_text(secs);
            assert(self.snaps() == sv + copies(rv, snapshot_id@, lv, crate::text::datetime_text(secs)));
        }
        Ok(n)
    }
}


/// The views of listing entries.
pub open spec fn meta_views(s: Seq<SnapshotMeta>) -> Seq<MetaView> {
    s.map_values(|m: SnapshotMeta| meta_view(m))
}

fn meta_goes_before(a: &SnapshotMeta, b: &SnapshotMeta) -> (r: bool)
    ensures
        r == meta_before(meta_view(*a), meta_view(*b)),
{
    if crate::order::str_less(b.taken_at.as_str(), a.taken_at.as_str()) {
        return true;
    }
    str_eq(a.taken_at.as_str(), b.taken_at.as_str()) && crate::order::str_less(b.snapshot_id.as_str(), a.snapshot_id.as_str())
}

proof fn lemma_insert_meta_split(s: Seq<MetaView>, x: MetaView, j: int)
    requires
        0 < j <= s.len(),
        meta_before(x, s[j - 1]),
    ensures
        insert_meta(s.take(j), x) + s.skip(j) == insert_meta(s.take(j - 1), x) + s.skip(j - 1),
{
    let t = s.take(j);
    assert(t.drop_last() =~= s.take(j - 1));
    assert(t.last() == s[j - 1]);
    assert(s.skip(j - 1) =~= seq![s[j - 1]] + s.skip(j));
    assert(insert_meta(s.take(j - 1), x).push(s[j - 1]) + s.skip(j) =~= insert_meta(s.take(j - 1), x) + s.skip(
        j - 1,
    ));
}

fn sort_meta_vec(v: Vec<SnapshotMeta>) -> (r: Vec<SnapshotMeta>)
    ensures
        meta_views(r@) == sort_metas(meta_views(v@)),
{
    let ghost input = meta_views(v@);
    let mut out: Vec<SnapshotMeta> = Vec::new();
    for x in it: v
        invariant
            input == meta_views(it.seq()),
            meta_views(out@) == sort_metas(input.take(it.index() as int)),
    {
        let ghost k = it.index() as int;
        let ghost fo = meta_views(out@);
        let ghost xv = meta_view(x);
        proof {
            assert(input.take(k + 1).drop_last() =~= input.take(k));
            assert(input.take(k + 1).last() == xv);
        }
        let mut j: usize = out.len();
        proof {
            assert(fo.take(j as int) =~= fo);
            assert(insert_meta(fo, xv) + fo.skip(j as int) =~= insert_meta(fo, xv));
        }
        while j > 0 && meta_goes_before(&x, &out[j - 1])
            invariant
                j <= out@.len(),
                fo == meta_views(out@),
                xv == meta_view(x),
                insert_meta(fo, xv) == insert_meta(fo.take(j as int), xv) + fo.skip(j as int),
            decreases j,
        {
            proof {
                lemma_insert_meta_split(fo, xv, j as int);
            }
            j = j - 1;
        }
        proof {
            let t = fo.take(j as int);
            if j > 0 {
                assert(t.last() == fo[j - 1]);
                assert(insert_meta(t, xv) == t.push(xv));
            } else {
                assert(insert_meta(t, xv) == seq![xv]);
            }
        }
        out.insert(j, x);
        assert(meta_views(out@) =~= fo.take(j as int).push(xv) + fo.skip(j as int));
    }
    assert(input.take(input.len() as int) =~= input);
    out
}

fn same_label(a: &Option<String>, b: &Option<String>) -> (r: bool)
    ensures
        r == (opt_str(*a) == opt_str(*b)),
{
    match (a, b) {
        (Some(x), Some(y)) => str_eq(x.as_str(), y.as_str()),
        (None, None) => true,
        _ => false,
    }
}

proof fn lemma_groups_distinct(s: Seq<SnapView>)
    ensures
        forall|i: int, j: int| 0 <= i < j < groups_of(s).len() ==> groups_of(s)[i] != groups_of(s)[j],
    decreases s.len(),
{
    if s.len() > 0 {
        lemma_groups_distinct(s.drop_last());
        let prev = groups_of(s.drop_last());
        let last = (s.last().snapshot_id, s.last().label);
        if !prev.contains(last) {
            assert forall|i: int, j: int| 0 <= i < j < groups_of(s).len() implies groups_of(s)[i] != groups_of(s)[j] by {
                if j == prev.len() {
                    assert(groups_of(s)[i] == prev[i]);
                }
            }
        }
    }
}

proof fn lemma_group_count_bound(s: Seq<SnapView>, g: GroupKey)
    ensures
        group_count(s, g) <= s.len(),
    decreases s.len(),
{
    if s.len() > 0 {
        lemma_group_count_bound(s.drop_last(), g);
    }
}

proof fn lemma_group_present(s: Seq<SnapView>, g: GroupKey)
    requires
        groups_of(s).contains(g),
    ensures
        group_latest(s, g) is Some,
    decreases s.len(),
{
    if s.len() > 0 {
        let prev = groups_of(s.drop_last());
        if prev.contains(g) {
            lemma_group_present(s.drop_last(), g);
        } else {
            let k = choose|k: int| 0 <= k < groups_of(s).len() && groups_of(s)[k] == g;
            assert(groups_of(s) == prev.push((s.last().snapshot_id, s.last().label)));
            if k < prev.len() {
                assert(prev[k] == g);
            }
        }
    }
}

proof fn lemma_group_absent(s: Seq<SnapView>, g: GroupKey)
    requires
        !groups_of(s).contains(g),
    ensures
        group_count(s, g) == 0,
        group_latest(s, g) is None,
    decreases s.len(),
{
    if s.len() > 0 {
        let prev = groups_of(s.drop_last());
        let last = (s.last().snapshot_id, s.last().label);
        if prev.contains(last) {
            assert(groups_of(s) == prev);
        } else {
            assert(groups_of(s) == prev.push(last));
            assert(groups_of(s)[prev.len() as int] == last);
        }
        assert(last != g);
        assert forall|k: int| 0 <= k < prev.len() implies prev[k] != g by {
            assert(groups_of(s).contains(prev[k])) by {
                if prev.contains(last) {
                } else {
                    assert(groups_of(s)[k] == prev[k]);
                }
            }
        }
        lemma_group_absent(s.drop_last(), g);
    }
}

fn find_group(metas: &Vec<SnapshotMeta>, sid: &String, label: &Option<String>) -> (r: Option<usize>)
    ensures
        match r {
            Some(g) => g < metas@.len() && meta_view(metas@[g as int]).0 == sid@ && meta_view(metas@[g as int]).1
                == opt_str(*label),
            None => forall|q: int|
                0 <= q < metas@.len() ==> !(meta_view(#[trigger] metas@[q]).0 == sid@ && meta_view(metas@[q]).1
                    == opt_str(*label)),
        },
{
    let mut g: usize = 0;
    while g < metas.len()
        invariant
            g <= metas@.len(),
            forall|q: int|
                0 <= q < g ==> !(meta_view(#[trigger] metas@[q]).0 == sid@ && meta_view(metas@[q]).1 == opt_str(*label)),
        decreases metas@.len() - g,
    {
        if str_eq(metas[g].snapshot_id.as_str(), sid.as_str()) && same_label(&metas[g].label, label) {
            return Some(g);
        }
        g = g + 1;
    }
    None
}

impl EmbeddingStore {
    /// The snapshot listing (see `listing`).
    pub fn list_snapshots(&self) -> (r: Result<Vec<SnapshotMeta>, DbError>)
        ensures
            r matches Ok(v) && meta_views(v@) == listing(self.snaps()),
    {
        let ghost sv = self.snaps();
        let mut metas: Vec<SnapshotMeta> = Vec::new();
        let mut i: usize = 0;
        while i < self.snapshots.len()
            invariant
                i <= self.snapshots@.len(),
                sv == self.snaps(),
                metas@.len() == groups_of(sv.take(i as int)).len(),
                forall|g: int|
                    0 <= g < metas@.len() ==> meta_view(#[trigger] metas@[g]) == meta_of(
                        sv.take(i as int),
                        groups_of(sv.take(i as int))[g],
                    ),
            decreases self.snapshots@.len() - i,
        {
            let ghost pre = sv.take(i as int);
            let ghost cur = sv.take(i + 1);
            let ghost gs = groups_of(pre);
            assert(cur.drop_last() =~= pre);
            assert(cur.last() == sv[i as int]);
            let r = &self.snapshots[i];
            assert(r@ == sv[i as int]);
            let ghost key = (r.snapshot_id@, opt_str(r.label));
            let fg = find_group(&metas, &r.snapshot_id, &r.label);
            proof {
                assert forall|q: int| 0 <= q < metas@.len() implies (meta_view(#[trigger] metas@[q]).0 == key.0
                    && meta_view(metas@[q]).1 == key.1) == (gs[q] == key) by {
                    assert(meta_view(metas@[q]) == meta_of(pre, gs[q]));
                }
            }
            let found = fg.is_some();
            let g: usize = match fg {
                Some(x) => x,
                None => 0,
            };
            if found {
                assert(gs[g as int] == key);
                assert(gs.contains(key));
                assert(groups_of(cur) == gs);
                proof {
                    lemma_groups_distinct(pre);
                    lemma_group_count_bound(pre, key);
                    lemma_group_present(pre, key);
                    assert(meta_view(metas@[g as int]) == meta_of(pre, gs[g as int]));
                }
                let old_meta = &metas[g];
                let later_t = crate::order::str_less(old_meta.taken_at.as_str(), r.taken_at.as_str());
                let new_meta = SnapshotMeta {
                    snapshot_id: old_meta.snapshot_id.clone(),
                    label: copy_opt_string(&old_meta.label),
                    node_count: old_meta.node_count + 1,
                    taken_at: if later_t { r.taken_at.clone() } else { old_meta.taken_at.clone() },
                };
                let ghost before = metas@;
                metas.set(g, new_meta);
                proof {
                    assert forall|q: int| 0 <= q < metas@.len() implies meta_view(#[trigger] metas@[q]) == meta_of(
                        cur,
                        groups_of(cur)[q],
                    ) by {
                        if q != g {
                            assert(metas@[q] == before[q]);
                            assert(gs[q] != key);
                        }
                    }
                }
            } else {
                assert forall|q: int| 0 <= q < gs.len() implies gs[q] != key by {
                    assert(!(meta_view(metas@[q]).0 == key.0 && meta_view(metas@[q]).1 == key.1));
                }
                assert(!gs.contains(key));
                assert(groups_of(cur) == gs.push(key));
                let new_meta = SnapshotMeta {
                    snapshot_id: r.snapshot_id.clone(),
                    label: copy_opt_string(&r.label),
                    node_count: 1,
                    taken_at: r.taken_at.clone(),
                };
                proof {
                    lemma_group_absent(pre, key);
                }
                let ghost before = metas@;
                metas.push(new_meta);
                proof {
                    assert forall|q: int| 0 <= q < metas@.len() implies meta_view(#[trigger] metas@[q]) == meta_of(
                        cur,
                        groups_of(cur)[q],
                    ) by {
                        if q < before.len() {
                            assert(metas@[q] == before[q]);
                            assert(groups_of(cur)[q] == gs[q]);
                        }
                    }
                }
            }
            i = i + 1;
        }
        assert(sv.take(sv.len() as int) =~= sv);
        let ghost unsorted = meta_views(metas@);
        assert(unsorted =~= groups_of(sv).map_values(|g: GroupKey| meta_of(sv, g)));
        Ok(sort_meta_vec(metas))
    }
}


proof fn lemma_without_snapshot_unique(s: Seq<SnapView>, sid: Seq<char>)
    requires
        unique_snaps(s),
    ensures
        unique_snaps(without_snapshot(s, sid)),
        forall|i: int| 0 <= i < without_snapshot(s, sid).len() ==> s.contains(#[trigger] without_snapshot(s, sid)[i]),
    decreases s.len(),
{
    if s.len() > 0 {
        let d = s.drop_last();
        assert(unique_snaps(d)) by {
            assert forall|i: int, j: int| 0 <= i < j < d.len() implies !((#[trigger] d[i]).snapshot_id
                == (#[trigger] d[j]).snapshot_id && d[i].node_id == d[j].node_id) by {
                assert(d[i] == s[i] && d[j] == s[j]);
            }
        }
        lemma_without_snapshot_unique(d, sid);
        let w = without_snapshot(d, sid);
        assert forall|i: int| 0 <= i < w.len() implies s.contains(#[trigger] w[i]) by {
            let k = choose|k: int| 0 <= k < d.len() && d[k] == w[i];
            assert(s[k] == w[i]);
        }
        if s.last().snapshot_id != sid {
            let r = w.push(s.last());
            assert forall|i: int| 0 <= i < r.len() implies s.contains(#[trigger] r[i]) by {
                if i < w.len() {
                    assert(r[i] == w[i]);
                } else {
                    assert(s[s.len() - 1] == r[i]);
                }
            }
            assert forall|i: int, j: int| 0 <= i < j < r.len() implies !((#[trigger] r[i]).snapshot_id
                == (#[trigger] r[j]).snapshot_id && r[i].node_id == r[j].node_id) by {
                if j == w.len() {
                    assert(r[i] == w[i]);
                    let k = choose|k: int| 0 <= k < d.len() && d[k] == w[i];
                    assert(s[k] == d[k]);
                    assert(!(s[k].snapshot_id == s[s.len() - 1].snapshot_id && s[k].node_id == s[s.len() - 1].node_id));
                } else {
                    assert(r[i] == w[i] && r[j] == w[j]);
                }
            }
        }
    }
}

fn opt_str_matches(a: &Option<String>, b: &str) -> (r: bool)
    ensures
        r == (opt_str(*a) == Some(b@)),
{
    match a {
        Some(x) => str_eq(x.as_str(), b),
        None => false,
    }
}

proof fn lemma_insert_ref_split(s: Seq<RowView>, x: RowView, j: int)
    requires
        0 < j <= s.len(),
        lex_lt(x.node_id, s[j - 1].node_id),
    ensures
        insert_ref(s.take(j), x) + s.skip(j) == insert_ref(s.take(j - 1), x) + s.skip(j - 1),
{
    let t = s.take(j);
    assert(t.drop_last() =~= s.take(j - 1));
    assert(t.last() == s[j - 1]);
    assert(s.skip(j - 1) =~= seq![s[j - 1]] + s.skip(j));
    assert(insert_ref(s.take(j - 1), x).push(s[j - 1]) + s.skip(j) =~= insert_ref(s.take(j - 1), x) + s.skip(j - 1));
}

/// The subnode reference of a row.
pub open spec fn row_ref(r: RowView) -> (Seq<char>, Option<Seq<char>>, Option<Seq<char>>) {
    (r.node_id, r.parent_id, r.anchor)
}

impl EmbeddingStore {
    /// Deletes the rows of snapshot `snapshot_id`; the number deleted.
    pub fn delete_snapshot(&mut self, snapshot_id: &str) -> (r: Result<usize, DbError>)
        requires
            old(self).wf(),
        ensures
            final(self).wf(),
            final(self).rows() == old(self).rows(),
            final(self).snaps() == without_snapshot(old(self).snaps(), snapshot_id@),
            r matches Ok(n) && n + without_snapshot(old(self).snaps(), snapshot_id@).len() == old(self).snaps().len(),
    {
        let ghost sv = self.snaps();
        let mut kept: Vec<SnapshotRecord> = Vec::new();
        let mut removed: usize = 0;
        let mut old_rows: Vec<SnapshotRecord> = Vec::new();
        std::mem::swap(&mut old_rows, &mut self.snapshots);
        let n: usize = old_rows.len();
        proof {
            assert(snap_views(old_rows@) == sv);
        }
        for rec in it: old_rows
            invariant
                sv == snap_views(it.seq()),
                sv.len() == n,
                snap_views(kept@) == without_snapshot(sv.take(it.index() as int), snapshot_id@),
                removed + kept@.len() == it.index(),
        {
            let ghost k = it.index() as int;
            proof {
                assert(sv.take(k + 1).drop_last() =~= sv.take(k));
                assert(sv.take(k + 1).last() == rec@);
            }
            if str_eq(rec.snapshot_id.as_str(), snapshot_id) {
                removed = removed + 1;
            } else {
                let ghost before = snap_views(kept@);
                let ghost rv = rec@;
                kept.push(rec);
                assert(snap_views(kept@) =~= before.push(rv));
            }
        }
        assert(sv.take(sv.len() as int) =~= sv);
        self.snapshots = kept;
        proof {
            lemma_without_snapshot_unique(sv, snapshot_id@);
        }
        Ok(removed)
    }

    /// The snapshot with label `label` taken last (ties: the greatest id).
    pub fn resolve_snapshot_id_by_label(&self, label: &str) -> (r: Result<Option<String>, DbError>)
        ensures
            r matches Ok(o) && match latest_with_label(self.snaps(), label@) {
                Some(b) => o matches Some(id) && id@ == b.1,
                None => o is None,
            },
    {
        let ghost sv = self.snaps();
        let mut best: Option<(String, String)> = None;
        let mut i: usize = 0;
        while i < self.snapshots.len()
            invariant
                i <= self.snapshots@.len(),
                sv == self.snaps(),
                match latest_with_label(sv.take(i as int), label@) {
                    Some(b) => best matches Some(x) && x.0@ == b.0 && x.1@ == b.1,
                    None => best is None,
                },
            decreases self.snapshots@.len() - i,
        {
            let r = &self.snapshots[i];
            proof {
                assert(sv.take(i + 1).drop_last() =~= sv.take(i as int));
                assert(sv.take(i + 1).last() == r@);
            }
            if opt_str_matches(&r.label, label) {
                let replace = match &best {
                    Some(b) => crate::order::str_less(b.0.as_str(), r.taken_at.as_str()) || (str_eq(
                        b.0.as_str(),
                        r.taken_at.as_str(),
                    ) && crate::order::str_less(b.1.as_str(), r.snapshot_id.as_str())),
                    None => true,
                };
                if replace {
                    best = Some((r.taken_at.clone(), r.snapshot_id.clone()));
                }
            }
            i = i + 1;
        }
        assert(sv.take(sv.len() as int) =~= sv);
        match best {
            Some(b) => Ok(Some(b.1)),
            None => Ok(None),
        }
    }

    /// The stored subnodes (id, document, anchor), ordered by id.
    pub fn list_subnodes(&self) -> (r: Result<Vec<SubnodeRef>, DbError>)
        ensures
            r matches Ok(v) && v@.map_values(|x: SubnodeRef| ref_view(x)) == subnode_rows(self.rows()).map_values(
                |x: RowView| row_ref(x),
            ),
    {
        let ghost rv = self.rows();
        let mut out: Vec<SubnodeRef> = Vec::new();
        let mut i: usize = 0;
        while i < self.embeddings.len()
            invariant
                i <= self.embeddings@.len(),
                rv == self.rows(),
                out@.map_values(|x: SubnodeRef| ref_view(x)) == subnode_rows(rv.take(i as int)).map_values(
                    |x: RowView| row_ref(x),
                ),
            decreases self.embeddings@.len() - i,
        {
            let e = &self.embeddings[i];
            let ghost fo = subnode_rows(rv.take(i as int));
            proof {
                assert(rv.take(i + 1).drop_last() =~= rv.take(i as int));
                assert(rv.take(i + 1).last() == e@);
            }
            if e.is_subnode {
                let x = SubnodeRef {
                    node_id: e.node_id.clone(),
                    parent_id: copy_opt_string(&e.parent_id),
                    anchor: copy_opt_string(&e.anchor),
                };
                let mut j: usize = out.len();
                let ghost ov = out@.map_values(|x: SubnodeRef| ref_view(x));
                proof {
                    assert(ov.len() == out@.len());
                    assert(fo.map_values(|x: RowView| row_ref(x)).len() == fo.len());
                    assert(j == fo.len());
                    assert(fo.take(j as int) =~= fo);
                    assert(insert_ref(fo, e@) + fo.skip(j as int) =~= insert_ref(fo, e@));
                }
                while j > 0 && crate::order::str_less(e.node_id.as_str(), out[j - 1].node_id.as_str())
                    invariant
                        j <= out@.len(),
                        out@.len() == fo.len(),
                        ov == out@.map_values(|x: SubnodeRef| ref_view(x)),
                        ov == fo.map_values(|x: RowView| row_ref(x)),
                        insert_ref(fo, e@) == insert_ref(fo.take(j as int), e@) + fo.skip(j as int),
                    decreases j,
                {
                    proof {
                        assert(ov[j - 1] == row_ref(fo[j - 1]));
                        lemma_insert_ref_split(fo, e@, j as int);
                    }
                    j = j - 1;
                }
                proof {
                    let t = fo.take(j as int);
                    if j > 0 {
                        assert(ov[j - 1] == row_ref(fo[j - 1]));
                        assert(t.last() == fo[j - 1]);
                        assert(insert_ref(t, e@) == t.push(e@));
                    } else {
                        assert(insert_ref(t, e@) == seq![e@]);
                    }
                }
                let ghost xv = ref_view(x);
                assert(xv == row_ref(e@));
                let ghost prev = out@;
                out.insert(j, x);
                proof {
                    let lhs = out@.map_values(|x: SubnodeRef| ref_view(x));
                    let full = fo.take(j as int).push(e@) + fo.skip(j as int);
                    let rhs = full.map_values(|x: RowView| row_ref(x));
                    assert(lhs.len() == rhs.len());
                    assert forall|q: int| 0 <= q < lhs.len() implies lhs[q] == rhs[q] by {
                        if q < j {
                            assert(out@[q] == prev[q]);
                            assert(ov[q] == row_ref(fo[q]));
                            assert(full[q] == fo[q]);
                        } else if q == j {
                            assert(full[q] == e@);
                        } else {
                            assert(out@[q] == prev[q - 1]);
                            assert(ov[q - 1] == row_ref(fo[q - 1]));
                            assert(full[q] == fo[q - 1]);
                        }
                    }
                    assert(lhs =~= rhs);
                }
            }
            i = i + 1;
        }
        assert(rv.take(rv.len() as int) =~= rv);
        Ok(out)
    }

    /// Renames node `old_id` to `new_id` (see `rename_result`); the number of rows
    /// renamed. Fails, changing nothing, when another row already has `new_id`.
    pub fn rename_subnode(&mut self, old_id: &str, new_id: &str) -> (r: Result<usize, DbError>)
        requires
            old(self).wf(),
        ensures
            final(self).wf(),
            final(self).snaps() == old(self).snaps(),
            match rename_result(old(self).rows(), old_id@, new_id@) {
                Some(rows) => final(self).rows() == rows && r == Ok::<usize, DbError>(
                    if row_index(old(self).rows(), old_id@) is Some {
                        1usize
                    } else {
                        0usize
                    },
                ),
                None => final(self).rows() == old(self).rows() && (r matches Err(e) && (e matches DbError::Query(m) && m@
                    == node_conflict_text())),
            },
    {
        let ghost rv = self.rows();
        let mut found: Option<usize> = None;
        let mut clash: bool = false;
        let mut i: usize = 0;
        while i < self.embeddings.len()
            invariant
                i <= self.embeddings@.len(),
                rv == self.rows(),
                match row_index(rv.take(i as int), old_id@) {
                    Some(k) => found == Some(k as usize) && k < i,
                    None => found is None,
                },
                clash == row_index(rv.take(i as int), new_id@) is Some,
            decreases self.embeddings@.len() - i,
        {
            let e = &self.embeddings[i];
            proof {
                assert(rv.take(i + 1).drop_last() =~= rv.take(i as int));
                assert(rv.take(i + 1).last() == e@);
                lemma_row_index_bound(rv.take(i as int), old_id@);
            }
            if str_eq(e.node_id.as_str(), old_id) {
                found = Some(i);
            }
            if str_eq(e.node_id.as_str(), new_id) {
                clash = true;
            }
            i = i + 1;
        }
        assert(rv.take(rv.len() as int) =~= rv);
        match found {
            None => Ok(0),
            Some(k) => {
                proof {
                    lemma_row_index_bound(rv, old_id@);
                }
                if clash && !str_eq(old_id, new_id) {
                    proof {
                        reveal_strlit("UNIQUE constraint failed: embeddings.node_id");
                    }
                    return Err(DbError::Query(String::from_str("UNIQUE constraint failed: embeddings.node_id")));
                }
                let ghost before = self.embeddings@;
                let mut rec = self.embeddings.remove(k);
                rec.node_id = String::from_str(new_id);
                self.embeddings.insert(k, rec);
                proof {
                    assert(self.embeddings@ =~= before.update(k as int, self.embeddings@[k as int]));
                    assert(self.rows() =~= rv.update(k as int, renamed(rv[k as int], new_id@)));
                    let now = self.rows();
                    if old_id@ != new_id@ {
                        lemma_row_index_none(rv, new_id@);
                    }
                    assert forall|a: int, b: int| 0 <= a < b < now.len() implies (#[trigger] now[a]).node_id
                        != (#[trigger] now[b]).node_id by {
                        if a == k {
                            assert(now[b] == rv[b]);
                            if old_id@ == new_id@ {
                                assert(rv[k as int].node_id == old_id@);
                            }
                        } else if b == k {
                            assert(now[a] == rv[a]);
                            if old_id@ == new_id@ {
                                assert(rv[k as int].node_id == old_id@);
                            }
                        } else {
                            assert(now[a] == rv[a] && now[b] == rv[b]);
                        }
                    }
                }
                Ok(1)
            },
        }
    }
}

/// The last row of node `id`.
pub open spec fn row_index(rows: Seq<RowView>, id: Seq<char>) -> Option<int>
    decreases rows.len(),
{
    if rows.len() == 0 {
        None
    } else if rows.last().node_id == id {
        Some(rows.len() - 1)
    } else {
        row_index(rows.drop_last(), id)
    }
}

proof fn lemma_row_index_bound(rows: Seq<RowView>, id: Seq<char>)
    ensures
        match row_index(rows, id) {
            Some(k) => 0 <= k < rows.len() && rows[k].node_id == id,
            None => true,
        },
    decreases rows.len(),
{
    if rows.len() > 0 && rows.last().node_id != id {
        lemma_row_index_bound(rows.drop_last(), id);
    }
}

proof fn lemma_row_index_none(rows: Seq<RowView>, id: Seq<char>)
    requires
        row_index(rows, id) is None,
    ensures
        forall|i: int| 0 <= i < rows.len() ==> (#[trigger] rows[i]).node_id != id,
    decreases rows.len(),
{
    if rows.len() > 0 {
        lemma_row_index_none(rows.drop_last(), id);
        assert forall|i: int| 0 <= i < rows.len() implies (#[trigger] rows[i]).node_id != id by {
            if i < rows.len() - 1 {
                assert(rows[i] == rows.drop_last()[i]);
            }
        }
    }
}

/// The rows after renaming node `old` to `new`: unchanged when there is no such node;
/// none (a failure) when another node already has `new`.
pub open spec fn rename_result(rows: Seq<RowView>, old: Seq<char>, new: Seq<char>) -> Option<Seq<RowView>> {
    match row_index(rows, old) {
        None => Some(rows),
        Some(i) => if old != new && row_index(rows, new) is Some {
            None
        } else {
            Some(rows.update(i, renamed(rows[i], new)))
        },
    }
}


/// A row as the loading queries give it: without its subnode data.
pub open spec fn loaded_row(e: EmbeddingRow) -> RowView {
    RowView {
        node_id: e.node_id@,
        embedding: e.embedding@,
        dim: e.dim,
        model_version: e.model_version@,
        content_hash: e.content_hash@,
        context: opt_str(e.context),
        context_hash: opt_str(e.context_hash),
        parent_id: None,
        anchor: None,
        is_subnode: false,
        created_at: e.created_at@,
    }
}

/// A stored row without its subnode data.
pub open spec fn without_subnode_data(r: RowView) -> RowView {
    RowView { parent_id: None, anchor: None, is_subnode: false, ..r }
}

/// The rows ordered by node id.
pub open spec fn rows_by_id(rows: Seq<RowView>) -> Seq<RowView>
    decreases rows.len(),
{
    if rows.len() == 0 {
        rows
    } else {
        insert_ref(rows_by_id(rows.drop_last()), rows.last())
    }
}

/// The rows after upserting `x`: the row of its node replaced by `x` (keeping the
/// anchor and subnode flag of the stored row when `keep_subnode_data`), or `x` added.
pub open spec fn upserted(rows: Seq<RowView>, x: RowView, keep_subnode_data: bool) -> Seq<RowView> {
    match row_index(rows, x.node_id) {
        Some(i) => rows.update(
            i,
            if keep_subnode_data {
                RowView { anchor: rows[i].anchor, is_subnode: rows[i].is_subnode, ..x }
            } else {
                x
            },
        ),
        None => rows.push(x),
    }
}

/// The row that embedding `result` for document node `node` writes at time `t`.
pub open spec fn node_row(node: crate::graph::Node, result: crate::embed::embedder::EmbedResult, t: Seq<char>) -> RowView {
    RowView {
        node_id: node.id@,
        embedding: result.embedding@,
        dim: result.dim,
        model_version: result.model_version@,
        content_hash: result.content_hash@,
        context: opt_str(result.context),
        context_hash: opt_str(result.context_hash),
        parent_id: opt_str(node.parent_id),
        anchor: None,
        is_subnode: false,
        created_at: t,
    }
}

/// The row that embedding `result` for subnode `id` of `parent` at `anchor` writes at
/// time `t`.
pub open spec fn subnode_row(
    id: Seq<char>,
    parent: Seq<char>,
    anchor: Seq<char>,
    result: crate::embed::embedder::EmbedResult,
    t: Seq<char>,
) -> RowView {
    RowView {
        node_id: id,
        embedding: result.embedding@,
        dim: result.dim,
        model_version: result.model_version@,
        content_hash: result.content_hash@,
        context: opt_str(result.context),
        context_hash: opt_str(result.context_hash),
        parent_id: Some(parent),
        anchor: Some(anchor),
        is_subnode: true,
        created_at: t,
    }
}

/// The last snapshot row of node `node_id` in snapshot `snapshot_id`.
pub open spec fn snap_index(snaps: Seq<SnapView>, snapshot_id: Seq<char>, node_id: Seq<char>) -> Option<int>
    decreases snaps.len(),
{
    if snaps.len() == 0 {
        None
    } else if snaps.last().snapshot_id == snapshot_id && snaps.last().node_id == node_id {
        Some(snaps.len() - 1)
    } else {
        snap_index(snaps.drop_last(), snapshot_id, node_id)
    }
}

proof fn lemma_snap_index_bound(snaps: Seq<SnapView>, snapshot_id: Seq<char>, node_id: Seq<char>)
    ensures
        match snap_index(snaps, snapshot_id, node_id) {
            Some(k) => 0 <= k < snaps.len() && snaps[k].snapshot_id == snapshot_id && snaps[k].node_id == node_id,
            None => true,
        },
    decreases snaps.len(),
{
    if snaps.len() > 0 && !(snaps.last().snapshot_id == snapshot_id && snaps.last().node_id == node_id) {
        lemma_snap_index_bound(snaps.drop_last(), snapshot_id, node_id);
    }
}

/// What loading the snapshot row of a node gives: the row (its vector, dimension,
/// version and hash; no context, an empty time), or the error the database gives when
/// the row stores no vector or no dimension.
pub open spec fn snapshot_load(s: SnapView) -> Result<RowView, Seq<char>> {
    match s.embedding {
        None => Err("Invalid column type Null at index: 1, name: embedding"@),
        Some(b) => match s.dim {
            None => Err("Invalid column type Null at index: 2, name: embedding_dim"@),
            Some(d) => Ok(
                RowView {
                    node_id: s.node_id,
                    embedding: b,
                    dim: d,
                    model_version: s.model_version,
                    content_hash: s.content_hash,
                    context: None,
                    context_hash: None,
                    parent_id: None,
                    anchor: None,
                    is_subnode: false,
                    created_at: Seq::empty(),
                },
            ),
        },
    }
}

fn loaded_of(e: &EmbeddingRecord) -> (r: EmbeddingRow)
    ensures
        loaded_row(r) == without_subnode_data(e@),
{
    EmbeddingRow {
        node_id: e.node_id.clone(),
        embedding: copy_bytes(&e.embedding),
        dim: e.dim,
        model_version: e.model_version.clone(),
        content_hash: e.content_hash.clone(),
        context: copy_opt_string(&e.context),
        context_hash: copy_opt_string(&e.context_hash),
        created_at: e.created_at.clone(),
    }
}

impl EmbeddingStore {
    /// The position of the row of node `id`, if any.
    fn find_row(&self, id: &str) -> (r: Option<usize>)
        ensures
            match r {
                Some(k) => row_index(self.rows(), id@) == Some(k as int),
                None => row_index(self.rows(), id@) is None,
            },
    {
        let ghost rv = self.rows();
        let mut found: Option<usize> = None;
        let mut i: usize = 0;
        while i < self.embeddings.len()
            invariant
                i <= self.embeddings@.len(),
                rv == self.rows(),
                match found {
                    Some(k) => row_index(rv.take(i as int), id@) == Some(k as int),
                    None => row_index(rv.take(i as int), id@) is None,
                },
            decreases self.embeddings@.len() - i,
        {
            proof {
                assert(rv.take(i + 1).drop_last() =~= rv.take(i as int));
                assert(rv.take(i + 1).last() == self.embeddings@[i as int]@);
            }
            if str_eq(self.embeddings[i].node_id.as_str(), id) {
                found = Some(i);
            }
            i = i + 1;
        }
        assert(rv.take(rv.len() as int) =~= rv);
        found
    }

    /// All rows, ordered by node id (without their subnode data).
    pub fn load_all(&self) -> (r: Result<Vec<EmbeddingRow>, DbError>)
        ensures
            r matches Ok(v) && v@.map_values(|e: EmbeddingRow| loaded_row(e)) == rows_by_id(self.rows()).map_values(
                |x: RowView| without_subnode_data(x),
            ),
    {
        let ghost rv = self.rows();
        let mut out: Vec<EmbeddingRow> = Vec::new();
        let mut i: usize = 0;
        while i < self.embeddings.len()
            invariant
                i <= self.embeddings@.len(),
                rv == self.rows(),
                out@.map_values(|e: EmbeddingRow| loaded_row(e)) == rows_by_id(rv.take(i as int)).map_values(
                    |x: RowView| without_subnode_data(x),
                ),
                out@.len() == rows_by_id(rv.take(i as int)).len(),
            decreases self.embeddings@.len() - i,
        {
            let e = &self.embeddings[i];
            let ghost fo = rows_by_id(rv.take(i as int));
            proof {
                assert(rv.take(i + 1).drop_last() =~= rv.take(i as int));
                assert(rv.take(i + 1).last() == e@);
            }
            let x = loaded_of(e);
            let mut j: usize = out.len();
            let ghost ov = out@.map_values(|e: EmbeddingRow| loaded_row(e));
            proof {
                assert(fo.take(j as int) =~= fo);
                assert(insert_ref(fo, e@) + fo.skip(j as int) =~= insert_ref(fo, e@));
            }
            while j > 0 && crate::order::str_less(x.node_id.as_str(), out[j - 1].node_id.as_str())
                invariant
                    j <= out@.len(),
                    out@.len() == fo.len(),
                    ov == out@.map_values(|e: EmbeddingRow| loaded_row(e)),
                    ov == fo.map_values(|x: RowView| without_subnode_data(x)),
                    x.node_id@ == e@.node_id,
                    insert_ref(fo, e@) == insert_ref(fo.take(j as int), e@) + fo.skip(j as int),
                decreases j,
            {
                proof {
                    assert(ov[j - 1] == without_subnode_data(fo[j - 1]));
                    lemma_insert_ref_split(fo, e@, j as int);
                }
                j = j - 1;
            }
            proof {
                let t = fo.take(j as int);
                if j > 0 {
                    assert(ov[j - 1] == without_subnode_data(fo[j - 1]));
                    assert(t.last() == fo[j - 1]);
                    assert(insert_ref(t, e@) == t.push(e@));
                } else {
                    assert(insert_ref(t, e@) == seq![e@]);
                }
            }
            let ghost prev = out@;
            out.insert(j, x);
            proof {
                let lhs = out@.map_values(|e: EmbeddingRow| loaded_row(e));
                let full = fo.take(j as int).push(e@) + fo.skip(j as int);
                let rhs = full.map_values(|x: RowView| without_subnode_data(x));
                assert(lhs.len() == rhs.len());
                assert forall|q: int| 0 <= q < lhs.len() implies lhs[q] == rhs[q] by {
                    if q < j {
                        assert(out@[q] == prev[q]);
                        assert(ov[q] == without_subnode_data(fo[q]));
                        assert(full[q] == fo[q]);
                    } else if q == j {
                        assert(full[q] == e@);
                    } else {
                        assert(out@[q] == prev[q - 1]);
                        assert(ov[q - 1] == without_subnode_data(fo[q - 1]));
                        assert(full[q] == fo[q - 1]);
                    }
                }
                assert(lhs =~= rhs);
                assert(rows_by_id(rv.take(i + 1)) == insert_ref(fo, e@));
            }
            i = i + 1;
        }
        assert(rv.take(rv.len() as int) =~= rv);
        Ok(out)
    }

    /// The row of node `node_id` (without its subnode data); none when it has none.
    pub fn load_embedding(&self, node_id: &str) -> (r: Result<Option<EmbeddingRow>, DbError>)
        ensures
            match r {
                Ok(Some(e)) => match row_index(self.rows(), node_id@) {
                    Some(k) => loaded_row(e) == without_subnode_data(self.rows()[k]),
                    None => false,
                },
                Ok(None) => row_index(self.rows(), node_id@) is None,
                Err(_) => false,
            },
    {
        proof {
            lemma_row_index_bound(self.rows(), node_id@);
        }
        match self.find_row(node_id) {
            Some(k) => {
                assert(self.rows().len() == self.embeddings@.len());
                assert(row_index(self.rows(), node_id@) == Some(k as int));
                assert(self.rows()[k as int] == self.embeddings@[k as int]@);
                let e = loaded_of(&self.embeddings[k]);
                Ok(Some(e))
            },
            None => Ok(None),
        }
    }

    /// The row of node `node_id` in snapshot `snapshot_id` (see `snapshot_load`);
    /// none when the snapshot has no row of the node.
    pub fn load_snapshot_embedding(&self, snapshot_id: &str, node_id: &str) -> (r: Result<Option<EmbeddingRow>, DbError>)
        ensures
            match snap_index(self.snaps(), snapshot_id@, node_id@) {
                None => r matches Ok(None),
                Some(k) => match snapshot_load(self.snaps()[k]) {
                    Ok(row) => r matches Ok(Some(e)) && loaded_row(e) == row,
                    Err(m) => r matches Err(DbError::Query(t)) && t@ == m,
                },
            },
    {
        let ghost sv = self.snaps();
        let mut found: Option<usize> = None;
        let mut i: usize = 0;
        while i < self.snapshots.len()
            invariant
                i <= self.snapshots@.len(),
                sv == self.snaps(),
                match snap_index(sv.take(i as int), snapshot_id@, node_id@) {
                    Some(k) => found == Some(k as usize),
                    None => found is None,
                },
            decreases self.snapshots@.len() - i,
        {
            proof {
                assert(sv.take(i + 1).drop_last() =~= sv.take(i as int));
                assert(sv.take(i + 1).last() == self.snapshots@[i as int]@);
            }
            let s = &self.snapshots[i];
            if str_eq(s.snapshot_id.as_str(), snapshot_id) && str_eq(s.node_id.as_str(), node_id) {
                found = Some(i);
            }
            i = i + 1;
        }
        assert(sv.take(sv.len() as int) =~= sv);
        proof {
            lemma_snap_index_bound(sv, snapshot_id@, node_id@);
        }
        match found {
            None => Ok(None),
            Some(k) => {
                let s = &self.snapshots[k];
                match &s.embedding {
                    None => {
                        proof {
                            reveal_strlit("Invalid column type Null at index: 1, name: embedding");
                        }
                        Err(DbError::Query(String::from_str("Invalid column type Null at index: 1, name: embedding")))
                    },
                    Some(b) => match s.dim {
                        None => {
                            proof {
                                reveal_strlit("Invalid column type Null at index: 2, name: embedding_dim");
                            }
                            Err(
                                DbError::Query(
                                    String::from_str("Invalid column type Null at index: 2, name: embedding_dim"),
                                ),
                            )
                        },
                        Some(d) => {
                            let e = EmbeddingRow {
                                node_id: s.node_id.clone(),
                                embedding: copy_bytes(b),
                                dim: d,
                                model_version: s.model_version.clone(),
                                content_hash: s.content_hash.clone(),
                                context: None,
                                context_hash: None,
                                created_at: String::new(),
                            };
                            Ok(Some(e))
                        },
                    },
                }
            },
        }
    }

    /// Writes `rec` as the row of its node: in place of the stored row (keeping its
    /// anchor and subnode flag when `keep_subnode_data`), or as a new row.
    fn put_row(&mut self, rec: EmbeddingRecord, keep_subnode_data: bool)
        requires
            old(self).wf(),
        ensures
            final(self).wf(),
            final(self).snaps() == old(self).snaps(),
            final(self).rows() == upserted(old(self).rows(), rec@, keep_subnode_data),
    {
        let ghost rv = self.rows();
        proof {
            lemma_row_index_bound(rv, rec@.node_id);
        }
        match self.find_row(rec.node_id.as_str()) {
            Some(k) => {
                let ghost before = self.embeddings@;
                let old_rec = self.embeddings.remove(k);
                let mut rec = rec;
                if keep_subnode_data {
                    rec.anchor = old_rec.anchor;
                    rec.is_subnode = old_rec.is_subnode;
                }
                self.embeddings.insert(k, rec);
                proof {
                    assert(self.embeddings@ =~= before.update(k as int, self.embeddings@[k as int]));
                    assert(self.rows() =~= upserted(rv, rec@, keep_subnode_data)) by {
                        assert(self.rows() =~= rv.update(k as int, self.embeddings@[k as int]@));
                    }
                    let now = self.rows();
                    assert forall|a: int, b: int| 0 <= a < b < now.len() implies (#[trigger] now[a]).node_id
                        != (#[trigger] now[b]).node_id by {
                        if a == k {
                            assert(now[b] == rv[b]);
                        } else if b == k {
                            assert(now[a] == rv[a]);
                        } else {
                            assert(now[a] == rv[a] && now[b] == rv[b]);
                        }
                    }
                }
            },
            None => {
                proof {
                    lemma_row_index_none(rv, rec@.node_id);
                }
                let ghost x = rec@;
                self.embeddings.push(rec);
                proof {
                    assert(self.rows() =~= rv.push(x));
                }
            },
        }
    }

    /// Upserts the embedding of document node `node`: its vector, dimension, version,
    /// hashes, context and parent, stamped with the current time; a stored row of the
    /// node keeps its anchor and subnode flag.
    pub fn upsert_with_subnode_meta(&mut self, node: &crate::graph::Node, result: &crate::embed::embedder::EmbedResult) -> (r: Result<(), DbError>)
        requires
            old(self).wf(),
        ensures
            final(self).wf(),
            final(self).snaps() == old(self).snaps(),
            exists|secs: nat| final(self).rows() == upserted(
                old(self).rows(),
                node_row(*node, *result, crate::text::datetime_text(secs)),
                true,
            ),
            r matches Ok(()),
    {
        let t = now_text();
        let rec = EmbeddingRecord {
            node_id: node.id.clone(),
            embedding: copy_bytes(&result.embedding),
            dim: result.dim,
            model_version: result.model_version.clone(),
            content_hash: result.content_hash.clone(),
            context: copy_opt_string(&result.context),
            context_hash: copy_opt_string(&result.context_hash),
            parent_id: copy_opt_string(&node.parent_id),
            anchor: None,
            is_subnode: false,
            created_at: t,
        };
        let ghost secs = choose|secs: nat| rec.created_at@ == crate::text::datetime_text(secs);
        assert(rec@ == node_row(*node, *result, crate::text::datetime_text(secs)));
        self.put_row(rec, true);
        Ok(())
    }

    /// Upserts the embedding of subnode `subnode_id` of `parent_id` at `anchor`,
    /// stamped with the current time: the whole row is replaced.
    pub fn upsert_subnode(&mut self, subnode_id: &str, parent_id: &str, anchor: &str, result: &crate::embed::embedder::EmbedResult) -> (r: Result<(), DbError>)
        requires
            old(self).wf(),
        ensures
            final(self).wf(),
            final(self).snaps() == old(self).snaps(),
            exists|secs: nat| final(self).rows() == upserted(
                old(self).rows(),
                subnode_row(subnode_id@, parent_id@, anchor@, *result, crate::text::datetime_text(secs)),
                false,
            ),
            r matches Ok(()),
    {
        let t = now_text();
        let rec = EmbeddingRecord {
            node_id: String::from_str(subnode_id),
            embedding: copy_bytes(&result.embedding),
            dim: result.dim,
            model_version: result.model_version.clone(),
            content_hash: result.content_hash.clone(),
            context: copy_opt_string(&result.context),
            context_hash: copy_opt_string(&result.context_hash),
            parent_id: Some(String::from_str(parent_id)),
            anchor: Some(String::from_str(anchor)),
            is_subnode: true,
            created_at: t,
        };
        let ghost secs = choose|secs: nat| rec.created_at@ == crate::text::datetime_text(secs);
        assert(rec@ == subnode_row(subnode_id@, parent_id@, anchor@, *result, crate::text::datetime_text(secs)));
        self.put_row(rec, false);
        Ok(())
    }
}


/// The node ids of rows.
pub open spec fn row_ids(s: Seq<RowView>) -> Seq<Seq<char>> {
    s.map_values(|r: RowView| r.node_id)
}

proof fn lemma_insert_ref_ids(s: Seq<RowView>, x: RowView)
    ensures
        row_ids(insert_ref(s, x)) == insert_str(row_ids(s), x.node_id),
    decreases s.len(),
{
    let k = row_ids(s);
    if s.len() > 0 {
        assert(k.last() == s.last().node_id);
        assert(k.drop_last() =~= row_ids(s.drop_last()));
        if lex_lt(x.node_id, s.last().node_id) {
            lemma_insert_ref_ids(s.drop_last(), x);
            assert(row_ids(insert_ref(s, x)) =~= row_ids(insert_ref(s.drop_last(), x)).push(s.last().node_id));
        } else {
            assert(row_ids(s.push(x)) =~= k.push(x.node_id));
        }
    } else {
        assert(row_ids(seq![x]) =~= seq![x.node_id]);
    }
}

proof fn lemma_rows_by_id_ids(s: Seq<RowView>)
    ensures
        row_ids(rows_by_id(s)) == sort_strs(row_ids(s)),
    decreases s.len(),
{
    if s.len() > 0 {
        lemma_rows_by_id_ids(s.drop_last());
        lemma_insert_ref_ids(rows_by_id(s.drop_last()), s.last());
        assert(row_ids(s).drop_last() =~= row_ids(s.drop_last()));
        assert(row_ids(s).last() == s.last().node_id);
    }
}

/// Loading all rows gives them in ascending node-id order, each stored node once.
pub proof fn lemma_load_order(rows: Seq<RowView>)
    ensures
        strs_sorted(row_ids(rows_by_id(rows))),
        row_ids(rows_by_id(rows)).to_multiset() == row_ids(rows).to_multiset(),
{
    lemma_rows_by_id_ids(rows);
    lemma_sort_strs(row_ids(rows));
}


proof fn lemma_row_index_unique(rows: Seq<RowView>, id: Seq<char>, i: int)
    requires
        unique_nodes(rows),
        0 <= i < rows.len(),
        rows[i].node_id == id,
    ensures
        row_index(rows, id) == Some(i),
    decreases rows.len(),
{
    if i < rows.len() - 1 {
        assert(rows.last().node_id != id) by {
            assert(rows[i].node_id != rows[rows.len() - 1].node_id);
        }
        let d = rows.drop_last();
        assert forall|a: int, b: int| 0 <= a < b < d.len() implies (#[trigger] d[a]).node_id != (#[trigger] d[b]).node_id by {
            assert(d[a] == rows[a] && d[b] == rows[b]);
        }
        lemma_row_index_unique(d, id, i);
    }
}

/// Upserting the same row twice leaves what upserting it once leaves.
pub proof fn lemma_upsert_idempotent(rows: Seq<RowView>, x: RowView, keep_subnode_data: bool)
    requires
        unique_nodes(rows),
    ensures
        upserted(upserted(rows, x, keep_subnode_data), x, keep_subnode_data) == upserted(rows, x, keep_subnode_data),
{
    lemma_row_index_bound(rows, x.node_id);
    let once = upserted(rows, x, keep_subnode_data);
    match row_index(rows, x.node_id) {
        Some(i) => {
            assert forall|a: int, b: int| 0 <= a < b < once.len() implies (#[trigger] once[a]).node_id
                != (#[trigger] once[b]).node_id by {
                if a != i && b != i {
                    assert(once[a] == rows[a] && once[b] == rows[b]);
                } else if a == i {
                    assert(once[b] == rows[b]);
                } else {
                    assert(once[a] == rows[a]);
                }
            }
            lemma_row_index_unique(once, x.node_id, i);
            assert(upserted(once, x, keep_subnode_data) =~= once);
        },
        None => {
            lemma_row_index_none(rows, x.node_id);
            let n = rows.len() as int;
            assert forall|a: int, b: int| 0 <= a < b < once.len() implies (#[trigger] once[a]).node_id
                != (#[trigger] once[b]).node_id by {
                if b == n {
                    assert(once[a] == rows[a]);
                } else {
                    assert(once[a] == rows[a] && once[b] == rows[b]);
                }
            }
            lemma_row_index_unique(once, x.node_id, n);
            assert(upserted(once, x, keep_subnode_data) =~= once);
        },
    }
}

proof fn lemma_without_snapshot_append(a: Seq<SnapView>, b: Seq<SnapView>, sid: Seq<char>)
    ensures
        without_snapshot(a + b, sid) == without_snapshot(a, sid) + without_snapshot(b, sid),
    decreases b.len(),
{
    if b.len() == 0 {
        assert(a + b =~= a);
        assert(without_snapshot(a, sid) + without_snapshot(b, sid) =~= without_snapshot(a, sid));
    } else {
        lemma_without_snapshot_append(a, b.drop_last(), sid);
        assert((a + b).drop_last() =~= a + b.drop_last());
        assert((a + b).last() == b.last());
        if b.last().snapshot_id != sid {
            assert(without_snapshot(a, sid) + without_snapshot(b.drop_last(), sid).push(b.last()) =~= (without_snapshot(
                a,
                sid,
            ) + without_snapshot(b.drop_last(), sid)).push(b.last()));
        }
    }
}

proof fn lemma_without_absent(snaps: Seq<SnapView>, sid: Seq<char>)
    requires
        forall|i: int| 0 <= i < snaps.len() ==> (#[trigger] snaps[i]).snapshot_id != sid,
    ensures
        without_snapshot(snaps, sid) == snaps,
    decreases snaps.len(),
{
    if snaps.len() > 0 {
        lemma_without_absent(snaps.drop_last(), sid);
        assert(snaps.last().snapshot_id != sid) by {
            assert(snaps[snaps.len() - 1].snapshot_id != sid);
        }
        assert(snaps.drop_last().push(snaps.last()) =~= snaps);
    }
}

proof fn lemma_without_copies(rows: Seq<RowView>, sid: Seq<char>, label: Option<Seq<char>>, t: Seq<char>)
    ensures
        without_snapshot(copies(rows, sid, label, t), sid) == Seq::<SnapView>::empty(),
    decreases rows.len(),
{
    if rows.len() > 0 {
        lemma_without_copies(rows.drop_last(), sid, label, t);
        assert(copies(rows, sid, label, t).drop_last() =~= copies(rows.drop_last(), sid, label, t));
    }
}

/// Deleting a snapshot undoes taking it: when no snapshot row had the id, the snapshot
/// rows after taking snapshot `sid` and deleting it are the rows before.
pub proof fn lemma_snapshot_round_trip(snaps: Seq<SnapView>, rows: Seq<RowView>, sid: Seq<char>, label: Option<Seq<char>>, t: Seq<char>)
    requires
        forall|i: int| 0 <= i < snaps.len() ==> (#[trigger] snaps[i]).snapshot_id != sid,
    ensures
        without_snapshot(snaps + copies(rows, sid, label, t), sid) == snaps,
{
    lemma_without_snapshot_append(snaps, copies(rows, sid, label, t), sid);
    lemma_without_absent(snaps, sid);
    lemma_without_copies(rows, sid, label, t);
    assert(snaps + Seq::<SnapView>::empty() =~= snaps);
}

} // verus!
