use vstd::prelude::*;

use crate::common::{ConfigError, Id};
use crate::graph::{graph_error_text, GraphError};
use crate::refresh::{debug_quoted, debug_str};
use crate::store::{db_error_text, DbError};
use crate::subnode::join;
use crate::text::{decimal, decimal_string};

verus! {

/// Failure while generating embeddings. Paths are held as text.
#[derive(Debug, Clone, PartialEq, Eq)]
pub enum EmbedError {
    ModelLoadFailed { path: String, reason: String },
    ModelShapeInvalid { reason: String },
    TokenizerError { reason: String },
    OnnxInferenceError { reason: String },
    Db(DbError),
    Io(String),
    DimensionMismatch { stored_dim: usize, current_dim: usize },
    NodeNotFound(String),
    InvalidContentRange { node_id: String, reason: String },
    ContextualRetrievalFailed { node_id: String, reason: String },
}

/// The message of an embedding error.
pub open spec fn embed_error_text(e: EmbedError) -> Seq<char> {
    match e {
        EmbedError::ModelLoadFailed { path, reason } => "model load failed: "@ + debug_str(path@) + ": "@ + reason@,
        EmbedError::ModelShapeInvalid { reason } => "model shape invalid: "@ + reason@,
        EmbedError::TokenizerError { reason } => "tokenizer error: "@ + reason@,
        EmbedError::OnnxInferenceError { reason } => "onnx inference error: "@ + reason@,
        EmbedError::Db(d) => "db error: "@ + db_error_text(d),
        EmbedError::Io(m) => "io error: "@ + m@,
        EmbedError::DimensionMismatch { stored_dim, current_dim } => "dimension mismatch: stored="@ + decimal(
            stored_dim as nat,
        ) + ", current="@ + decimal(current_dim as nat),
        EmbedError::NodeNotFound(id) => "node not found: "@ + id@,
        EmbedError::InvalidContentRange { node_id, reason } => "invalid content range for "@ + node_id@ + ": "@
            + reason@,
        EmbedError::ContextualRetrievalFailed { node_id, reason } => "contextual retrieval failed for "@ + node_id@
            + ": "@ + reason@,
    }
}

fn concat3(a: &str, b: &str, c: &str) -> (r: String)
    ensures
        r@ == a@ + b@ + c@,
{
    let mut s = String::from_str(a);
    s.append(b);
    s.append(c);
    s
}

fn concat2(a: &str, b: &str) -> (r: String)
    ensures
        r@ == a@ + b@,
{
    let mut s = String::from_str(a);
    s.append(b);
    s
}

fn usize_text(n: usize) -> (r: String)
    ensures
        r@ == decimal(n as nat),
{
    decimal_string(n as u64)
}

impl EmbedError {
    /// The message of the error.
    pub fn message(&self) -> (r: String)
        ensures
            r@ == embed_error_text(*self),
    {
        match self {
            EmbedError::ModelLoadFailed { path, reason } => {
                let mut s = concat3("model load failed: ", debug_quoted(path.as_str()).as_str(), ": ");
                s.append(reason.as_str());
                s
            },
            EmbedError::ModelShapeInvalid { reason } => concat2("model shape invalid: ", reason.as_str()),
            EmbedError::TokenizerError { reason } => concat2("tokenizer error: ", reason.as_str()),
            EmbedError::OnnxInferenceError { reason } => concat2("onnx inference error: ", reason.as_str()),
            EmbedError::Db(d) => concat2("db error: ", d.message().as_str()),
            EmbedError::Io(m) => concat2("io error: ", m.as_str()),
            EmbedError::DimensionMismatch { stored_dim, current_dim } => {
                let mut s = concat3("dimension mismatch: stored=", usize_text(*stored_dim).as_str(), ", current=");
                s.append(usize_text(*current_dim).as_str());
                s
            },
            EmbedError::NodeNotFound(id) => concat2("node not found: ", id.as_str()),
            EmbedError::InvalidContentRange { node_id, reason } => {
                let mut s = concat3("invalid content range for ", node_id.as_str(), ": ");
                s.append(reason.as_str());
                s
            },
            EmbedError::ContextualRetrievalFailed { node_id, reason } => {
                let mut s = concat3("contextual retrieval failed for ", node_id.as_str(), ": ");
                s.append(reason.as_str());
                s
            },
        }
    }
}

/// Failure of the report command.
#[derive(Debug)]
pub enum ReportError {
    GraphLoad(GraphError),
    ConfigLoad(ConfigError),
    Db(DbError),
}

/// The message of a configuration error.
pub open spec fn config_error_text(e: ConfigError) -> Seq<char> {
    match e {
        ConfigError::Load(m) => "config load error: "@ + m@,
    }
}

/// The message of a report error.
pub open spec fn report_error_text(e: ReportError) -> Seq<char> {
    match e {
        ReportError::GraphLoad(g) => "graph load failed: "@ + graph_error_text(g),
        ReportError::ConfigLoad(c) => "config load failed: "@ + config_error_text(c),
        ReportError::Db(d) => "db error: "@ + db_error_text(d),
    }
}

impl ReportError {
    /// The message of the error.
    pub fn message(&self) -> (r: String)
        ensures
            r@ == report_error_text(*self),
    {
        match self {
            ReportError::GraphLoad(g) => concat2("graph load failed: ", g.message().as_str()),
            ReportError::ConfigLoad(c) => concat2("config load failed: ", c.message().as_str()),
            ReportError::Db(d) => concat2("db error: ", d.message().as_str()),
        }
    }
}

/// Failure of the calibrate command.
#[derive(Debug)]
pub enum CalibrateError {
    InvalidBuckets,
    PairScoreFailure(String),
    Db(DbError),
    Config(ConfigError),
}

/// The message of a calibrate error.
pub open spec fn calibrate_error_text(e: CalibrateError) -> Seq<char> {
    match e {
        CalibrateError::InvalidBuckets => "--buckets は 1 以上を指定してください"@,
        CalibrateError::PairScoreFailure(m) => "pair score computation failed: "@ + m@,
        CalibrateError::Db(d) => "db error: "@ + db_error_text(d),
        CalibrateError::Config(c) => "config load failed: "@ + config_error_text(c),
    }
}

impl CalibrateError {
    /// The message of the error.
    pub fn message(&self) -> (r: String)
        ensures
            r@ == calibrate_error_text(*self),
    {
        match self {
            CalibrateError::InvalidBuckets => String::from_str("--buckets は 1 以上を指定してください"),
            CalibrateError::PairScoreFailure(m) => concat2("pair score computation failed: ", m.as_str()),
            CalibrateError::Db(d) => concat2("db error: ", d.message().as_str()),
            CalibrateError::Config(c) => concat2("config load failed: ", c.message().as_str()),
        }
    }
}

/// Failure of the drift command. Paths are held as text.
#[derive(Debug)]
pub enum DriftError {
    ModelNotFound { tried_paths: Vec<String> },
    ModelLoad(String),
    ArtifactNotFound { artifact_id: Id },
    FileNotFound { artifact_id: Id, path: String },
    InvalidAgainstFormat { value: String },
    LabelNotFound { label: String },
    DimMismatch { current_dim: usize, baseline_dim: usize },
    ModelVersionMismatch { current: String, baseline: String },
    NonFiniteScore,
    Db(DbError),
    Graph(GraphError),
    Io(String),
}

/// How `{:?}` writes an identifier: `Id("...")`.
pub open spec fn debug_id(id: Id) -> Seq<char> {
    "Id("@ + debug_str(id.0@) + ")"@
}

/// How `{:?}` writes a list of strings: `["a", "b"]`.
pub open spec fn debug_strings(v: Seq<String>) -> Seq<char> {
    "["@ + join(v.map_values(|s: String| debug_str(s@)), ", "@) + "]"@
}

/// The message of a drift error.
pub open spec fn drift_error_text(e: DriftError) -> Seq<char> {
    match e {
        DriftError::ModelNotFound { tried_paths } => "モデル解決失敗: "@ + debug_strings(tried_paths@),
        DriftError::ModelLoad(m) => "モデル読み込みエラー: "@ + m@,
        DriftError::ArtifactNotFound { artifact_id } => "成果物 "@ + debug_id(artifact_id) + " は graph.toml に未登録です"@,
        DriftError::FileNotFound { artifact_id, path } => "成果物 "@ + debug_id(artifact_id) + " のファイルが見つかりません: "@
            + debug_str(path@),
        DriftError::InvalidAgainstFormat { value } => "--against 値の形式が不正です（'snapshot:' プレフィクスが必要です）: "@
            + value@,
        DriftError::LabelNotFound { label } => "ラベル '"@ + label@ + "' に対応するスナップショットが見つかりません"@,
        DriftError::DimMismatch { current_dim, baseline_dim } => "次元数不一致: 現行 "@ + decimal(current_dim as nat)
            + " / ベースライン "@ + decimal(baseline_dim as nat),
        DriftError::ModelVersionMismatch { current, baseline } => "モデルバージョン不一致: 現行 "@ + current@ + " / ベースライン "@
            + baseline@,
        DriftError::NonFiniteScore => "非有限スコアが発生しました（NaN/Inf）"@,
        DriftError::Db(d) => "DB エラー: "@ + db_error_text(d),
        DriftError::Graph(g) => "グラフ読み込みエラー: "@ + graph_error_text(g),
        DriftError::Io(m) => "I/O エラー: "@ + m@,
    }
}

fn debug_id_text(id: &Id) -> (r: String)
    ensures
        r@ == debug_id(*id),
{
    concat3("Id(", debug_quoted(id.0.as_str()).as_str(), ")")
}

fn debug_strings_text(v: &Vec<String>) -> (r: String)
    ensures
        r@ == debug_strings(v@),
{
    let ghost parts = v@.map_values(|s: String| debug_str(s@));
    let mut body = String::new();
    let mut i: usize = 0;
    while i < v.len()
        invariant
            i <= v@.len(),
            parts == v@.map_values(|s: String| debug_str(s@)),
            body@ == join(parts.take(i as int), ", "@),
        decreases v@.len() - i,
    {
        proof {
            assert(parts.take(i + 1).drop_last() =~= parts.take(i as int));
            assert(parts.take(i + 1).last() == debug_str(v@[i as int]@));
            reveal_strlit(", ");
        }
        if i > 0 {
            body.append(", ");
        }
        body.append(debug_quoted(v[i].as_str()).as_str());
        proof {
            if i == 0 {
                assert(join(parts.take(0), ", "@) =~= Seq::<char>::empty());
                assert(body@ =~= join(parts.take(1), ", "@));
            } else {
                assert(body@ =~= join(parts.take(i + 1), ", "@));
            }
        }
        i = i + 1;
    }
    assert(parts.take(v@.len() as int) =~= parts);
    concat3("[", body.as_str(), "]")
}

impl DriftError {
    /// The message of the error.
    pub fn message(&self) -> (r: String)
        ensures
            r@ == drift_error_text(*self),
    {
        match self {
            DriftError::ModelNotFound { tried_paths } => concat2("モデル解決失敗: ", debug_strings_text(tried_paths).as_str()),
            DriftError::ModelLoad(m) => concat2("モデル読み込みエラー: ", m.as_str()),
            DriftError::ArtifactNotFound { artifact_id } => concat3(
                "成果物 ",
                debug_id_text(artifact_id).as_str(),
                " は graph.toml に未登録です",
            ),
            DriftError::FileNotFound { artifact_id, path } => {
                let mut s = concat3("成果物 ", debug_id_text(artifact_id).as_str(), " のファイルが見つかりません: ");
                s.append(debug_quoted(path.as_str()).as_str());
                s
            },
            DriftError::InvalidAgainstFormat { value } => concat2("--against 値の形式が不正です（'snapshot:' プレフィクスが必要です）: ", value.as_str()),
            DriftError::LabelNotFound { label } => concat3(
                "ラベル '",
                label.as_str(),
                "' に対応するスナップショットが見つかりません",
            ),
            DriftError::DimMismatch { current_dim, baseline_dim } => {
                let mut s = concat3("次元数不一致: 現行 ", usize_text(*current_dim).as_str(), " / ベースライン ");
                s.append(usize_text(*baseline_dim).as_str());
                s
            },
            DriftError::ModelVersionMismatch { current, baseline } => {
                let mut s = concat3("モデルバージョン不一致: 現行 ", current.as_str(), " / ベースライン ");
                s.append(baseline.as_str());
                s
            },
            DriftError::NonFiniteScore => String::from_str("非有限スコアが発生しました（NaN/Inf）"),
            DriftError::Db(d) => concat2("DB エラー: ", d.message().as_str()),
            DriftError::Graph(g) => concat2("グラフ読み込みエラー: ", g.message().as_str()),
            DriftError::Io(m) => concat2("I/O エラー: ", m.as_str()),
        }
    }
}

} // verus!
