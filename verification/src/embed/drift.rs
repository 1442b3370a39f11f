use vstd::prelude::*;

use crate::common::Id;
use crate::embed::error::DriftError;
use crate::graph::{find_node, TraceGraph};
use crate::store::{
    latest_with_label, loaded_row, row_index, snap_index, snapshot_load, without_subnode_data, DbError, EmbeddingRow,
    EmbeddingStore, RowView,
};
use crate::text::{chars_between, chars_of};

verus! {

/// Where the ONNX model was found.
#[derive(Debug, Clone, Copy, PartialEq, Eq)]
pub enum ModelSource {
    Flag,
    EnvLgx,
    EnvTe,
    ConfigFile,
}

/// A resolved ONNX model: its version key, dimension, source and directory.
pub struct ResolvedModel {
    pub model_version: String,
    pub dim: usize,
    pub source: ModelSource,
    pub model_dir: String,
}

/// A resolved artifact: its id and file.
#[derive(Debug, Clone, PartialEq)]
pub struct ArtifactRef {
    pub artifact_id: Id,
    pub file_path: String,
}

/// Where the baseline embedding comes from.
#[derive(Debug, Clone, PartialEq, Eq)]
pub enum BaselineSource {
    /// The current row of the embeddings store.
    Embeddings,
    /// The snapshot with this id.
    Snapshot(String),
}

/// The parsed `--against` argument.
#[derive(Debug, Clone, PartialEq, Eq)]
pub enum AgainstSpec {
    /// No `--against`: the current embeddings store.
    Embeddings,
    /// `snapshot:<token>`: a label first, else a snapshot id.
    SnapshotToken(String),
    /// `snapshot:label:<LABEL>`: a label, and nothing else.
    SnapshotLabelExplicit(String),
}

/// The current embedding of an artifact. `vector` holds its `f32` components as
/// little-endian bytes.
#[derive(Debug, Clone, PartialEq)]
pub struct CurrentEmbedding {
    pub artifact_id: Id,
    pub vector: Vec<u8>,
    pub dim: usize,
    pub model_version: String,
}

/// The baseline embedding of an artifact and where it came from. `vector` holds its
/// `f32` components as little-endian bytes.
#[derive(Debug, Clone, PartialEq)]
pub struct BaselineEmbedding {
    pub artifact_id: Id,
    pub vector: Vec<u8>,
    pub dim: usize,
    pub model_version: String,
    pub source: BaselineSource,
}

/// A model version key, compared for exact equality.
#[derive(Debug, Clone, PartialEq, Eq)]
pub struct ModelVersion(pub String);

/// The outcome of checking that a current embedding and its baseline can be compared:
/// dimensions first, model versions second.
#[derive(Debug, Clone, PartialEq, Eq)]
pub enum IntegrityCheckResult {
    Consistent,
    DimMismatch { current_dim: usize, baseline_dim: usize },
    ModelVersionMismatch { current: String, baseline: String },
}

/// Whether `s` begins with `p`.
pub open spec fn begins_with(s: Seq<char>, p: Seq<char>) -> bool {
    s.len() >= p.len() && s.take(p.len() as int) == p
}

/// What `--against` asks for: nothing means the embeddings store; `snapshot:label:L`
/// the label `L`; `snapshot:T` the token `T`; anything else is refused.
pub open spec fn against_of(raw: Option<Seq<char>>) -> Option<(u8, Seq<char>)> {
    match raw {
        None => Some((0u8, Seq::empty())),
        Some(v) => if begins_with(v, "snapshot:"@) {
            let rest = v.skip(9);
            if begins_with(rest, "label:"@) {
                Some((2u8, rest.skip(6)))
            } else {
                Some((1u8, rest))
            }
        } else {
            None
        },
    }
}

/// The kind and text of an `AgainstSpec`, as `against_of` gives them.
pub open spec fn against_view(a: AgainstSpec) -> (u8, Seq<char>) {
    match a {
        AgainstSpec::Embeddings => (0u8, Seq::empty()),
        AgainstSpec::SnapshotToken(t) => (1u8, t@),
        AgainstSpec::SnapshotLabelExplicit(l) => (2u8, l@),
    }
}

/// Whether `c` begins with `p` at position `at`.
fn has_at(c: &Vec<char>, at: usize, p: &str) -> (r: bool)
    requires
        at <= c@.len(),
    ensures
        r == begins_with(c@.skip(at as int), p@),
{
    let pc = chars_of(p);
    if c.len() - at < pc.len() {
        return false;
    }
    let mut i: usize = 0;
    while i < pc.len()
        invariant
            i <= pc@.len(),
            at + pc@.len() <= c@.len(),
            c@.len() == c.len(),
            pc@ == p@,
            forall|j: int| 0 <= j < i ==> c@[at + j] == pc@[j],
        decreases pc@.len() - i,
    {
        if c[at + i] != pc[i] {
            assert(c@.skip(at as int).take(pc@.len() as int)[i as int] != p@[i as int]);
            return false;
        }
        i = i + 1;
    }
    assert(c@.skip(at as int).take(pc@.len() as int) =~= p@);
    true
}

/// Parses `--against`: none gives the embeddings store, `snapshot:label:<L>` the
/// explicit label `L`, `snapshot:<T>` the token `T`; any other value is an
/// `InvalidAgainstFormat` error that carries it.
pub fn parse_against(raw: Option<&str>) -> (r: Result<AgainstSpec, DriftError>)
    ensures
        match (r, against_of(
            match raw {
                Some(v) => Some(v@),
                None => None,
            },
        )) {
            (Ok(a), Some(want)) => against_view(a) == want,
            (Err(DriftError::InvalidAgainstFormat { value }), None) => raw matches Some(v) && value@ == v@,
            _ => false,
        },
{
    proof {
        reveal_strlit("snapshot:");
        reveal_strlit("label:");
    }
    match raw {
        None => Ok(AgainstSpec::Embeddings),
        Some(value) => {
            let c = chars_of(value);
            if has_at(&c, 0, "snapshot:") {
                assert(c@.skip(0) =~= c@);
                if has_at(&c, 9, "label:") {
                    assert(c@.skip(9).skip(6) =~= c@.subrange(15, c@.len() as int));
                    Ok(AgainstSpec::SnapshotLabelExplicit(chars_between(&c, 15, c.len())))
                } else {
                    assert(c@.skip(9) =~= c@.subrange(9, c@.len() as int));
                    Ok(AgainstSpec::SnapshotToken(chars_between(&c, 9, c.len())))
                }
            } else {
                assert(c@.skip(0) =~= c@);
                Err(DriftError::InvalidAgainstFormat { value: String::from_str(value) })
            }
        },
    }
}


/// The baseline a drift comparison found: none (with where it was looked for, when a
/// source was settled), or a stored row and its source.
#[derive(Debug, Clone, PartialEq)]
pub enum BaselineLookup {
    Absent(Option<BaselineSource>),
    Found { row: EmbeddingRow, source: BaselineSource },
}

/// A baseline source as plain values: none for the embeddings store, else the snapshot.
pub open spec fn source_view(s: BaselineSource) -> Option<Seq<char>> {
    match s {
        BaselineSource::Embeddings => None,
        BaselineSource::Snapshot(id) => Some(id@),
    }
}

/// What looking in snapshot `sid` for node `id` gives.
pub open spec fn snapshot_lookup(r: Result<BaselineLookup, DriftError>, snaps: Seq<crate::store::SnapView>, sid: Seq<char>, id: Seq<char>) -> bool {
    match snap_index(snaps, sid, id) {
        None => r matches Ok(BaselineLookup::Absent(Some(s))) && source_view(s) == Some(sid),
        Some(k) => match snapshot_load(snaps[k]) {
            Ok(row) => r matches Ok(BaselineLookup::Found { row: e, source: s }) && loaded_row(e) == row && source_view(s)
                == Some(sid),
            Err(m) => r matches Err(DriftError::Db(DbError::Query(t))) && t@ == m,
        },
    }
}

/// The baseline of a drift comparison of artifact `artifact_id`. An artifact that a
/// non-empty graph does not hold is refused. Without `--against`, the baseline is the
/// stored row of the artifact. With a snapshot token or an explicit label, the label is
/// resolved to its latest snapshot and the artifact's row there is the baseline; an
/// explicit label that names no snapshot is an error, a token that names none means no
/// baseline. A missing row means no baseline.
pub fn resolve_baseline(graph: &TraceGraph, store: &EmbeddingStore, artifact_id: &Id, against: &AgainstSpec) -> (r: Result<
    BaselineLookup,
    DriftError,
>)
    ensures
        graph.node_seq().len() > 0 && find_node(graph.node_seq(), artifact_id.0@) is None ==> (r matches Err(
            DriftError::ArtifactNotFound { artifact_id: a },
        ) && a.0@ == artifact_id.0@),
        !(graph.node_seq().len() > 0 && find_node(graph.node_seq(), artifact_id.0@) is None) ==> match *against {
            AgainstSpec::Embeddings => match row_index(store.rows(), artifact_id.0@) {
                Some(k) => r matches Ok(BaselineLookup::Found { row: e, source: BaselineSource::Embeddings })
                    && loaded_row(e) == without_subnode_data(store.rows()[k]),
                None => r matches Ok(BaselineLookup::Absent(Some(BaselineSource::Embeddings))),
            },
            AgainstSpec::SnapshotLabelExplicit(label) => match latest_with_label(store.snaps(), label@) {
                None => r matches Err(DriftError::LabelNotFound { label: l }) && l@ == label@,
                Some(b) => snapshot_lookup(r, store.snaps(), b.1, artifact_id.0@),
            },
            AgainstSpec::SnapshotToken(token) => match latest_with_label(store.snaps(), token@) {
                None => r matches Ok(BaselineLookup::Absent(None)),
                Some(b) => snapshot_lookup(r, store.snaps(), b.1, artifact_id.0@),
            },
        },
{
    if graph.node_count() > 0 && graph.node(artifact_id.0.as_str()).is_none() {
        return Err(DriftError::ArtifactNotFound { artifact_id: Id(artifact_id.0.clone()) });
    }
    let id = artifact_id.0.as_str();
    let (label, explicit) = match against {
        AgainstSpec::Embeddings => {
            return match store.load_embedding(id) {
                Ok(Some(row)) => Ok(BaselineLookup::Found { row, source: BaselineSource::Embeddings }),
                Ok(None) => Ok(BaselineLookup::Absent(Some(BaselineSource::Embeddings))),
                Err(e) => Err(DriftError::Db(e)),
            };
        },
        AgainstSpec::SnapshotLabelExplicit(l) => (l, true),
        AgainstSpec::SnapshotToken(t) => (t, false),
    };
    let sid = match store.resolve_snapshot_id_by_label(label.as_str()) {
        Ok(Some(s)) => s,
        Ok(None) => {
            if explicit {
                return Err(DriftError::LabelNotFound { label: label.clone() });
            } else {
                return Ok(BaselineLookup::Absent(None));
            }
        },
        Err(e) => return Err(DriftError::Db(e)),
    };
    match store.load_snapshot_embedding(sid.as_str(), id) {
        Ok(Some(row)) => Ok(BaselineLookup::Found { row, source: BaselineSource::Snapshot(sid) }),
        Ok(None) => Ok(BaselineLookup::Absent(Some(BaselineSource::Snapshot(sid)))),
        Err(e) => Err(DriftError::Db(e)),
    }
}

/// Whether a baseline row can be compared with the current model: the dimensions
/// first, then the model versions, must be equal.
pub fn check_baseline(current_dim: usize, current_version: &str, baseline: &EmbeddingRow) -> (r: Result<(), DriftError>)
    ensures
        current_dim != baseline.dim ==> (r matches Err(DriftError::DimMismatch { current_dim: c, baseline_dim: b })
            && c == current_dim && b == baseline.dim),
        current_dim == baseline.dim && current_version@ != baseline.model_version@ ==> (r matches Err(
            DriftError::ModelVersionMismatch { current: c, baseline: b },
        ) && c@ == current_version@ && b@ == baseline.model_version@),
        current_dim == baseline.dim && current_version@ == baseline.model_version@ ==> r matches Ok(()),
{
    if current_dim != baseline.dim {
        return Err(DriftError::DimMismatch { current_dim, baseline_dim: baseline.dim });
    }
    if !crate::text::str_eq(current_version, baseline.model_version.as_str()) {
        return Err(
            DriftError::ModelVersionMismatch {
                current: String::from_str(current_version),
                baseline: baseline.model_version.clone(),
            },
        );
    }
    Ok(())
}

/// Whether a current embedding can be compared with its baseline: the dimensions are
/// checked first, then the model versions must be equal.
pub fn check_integrity(current: &CurrentEmbedding, baseline: &BaselineEmbedding) -> (r: IntegrityCheckResult)
    ensures
        current.dim != baseline.dim ==> r == (IntegrityCheckResult::DimMismatch {
            current_dim: current.dim,
            baseline_dim: baseline.dim,
        }),
        current.dim == baseline.dim && current.model_version@ != baseline.model_version@ ==> (r matches IntegrityCheckResult::ModelVersionMismatch {
            current: c,
            baseline: b,
        } && c@ == current.model_version@ && b@ == baseline.model_version@),
        current.dim == baseline.dim && current.model_version@ == baseline.model_version@ ==> r
            == IntegrityCheckResult::Consistent,
{
    if current.dim != baseline.dim {
        return IntegrityCheckResult::DimMismatch { current_dim: current.dim, baseline_dim: baseline.dim };
    }
    if !crate::text::str_eq(current.model_version.as_str(), baseline.model_version.as_str()) {
        return IntegrityCheckResult::ModelVersionMismatch {
            current: current.model_version.clone(),
            baseline: baseline.model_version.clone(),
        };
    }
    IntegrityCheckResult::Consistent
}

} // verus!
