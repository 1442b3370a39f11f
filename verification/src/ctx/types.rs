use vstd::prelude::*;

use crate::feedback::db::Connection;
use crate::graph::{EdgeKind, NodeId};
use crate::text::decimal;

verus! {

/// The largest number of characters (Unicode scalar values) a rendered context may have.
pub const RESULT_SIZE_LIMIT_CHARS: usize = 500000;

/// The marker between the stable sections of a rendered context and its upstream part.
pub const CACHE_BREAKPOINT_MARKER: &'static str = "<!-- cache-breakpoint: stable-end -->";

/// Busy timeout of the context log, in milliseconds.
pub const CONTEXT_LOG_BUSY_TIMEOUT_MS: u64 = 5000;

/// The text of the cache breakpoint marker.
pub open spec fn marker_text() -> Seq<char> {
    "<!-- cache-breakpoint: stable-end -->"@
}

/// How finely upstream artifacts are returned.
#[derive(Debug, Clone, Copy, PartialEq, Eq, Structural)]
pub enum Granularity {
    /// Whole documents.
    Document,
    /// Sections (subnodes) of documents.
    Subnode,
}

/// The name of a granularity, as written in the context log and on the command line.
pub open spec fn granularity_name(g: Granularity) -> Seq<char> {
    match g {
        Granularity::Document => "document"@,
        Granularity::Subnode => "subnode"@,
    }
}

impl Granularity {
    /// The name of the granularity (`document` or `subnode`).
    pub fn as_str(&self) -> (r: &'static str)
        ensures
            r@ == granularity_name(*self),
    {
        match self {
            Granularity::Document => {
                proof {
                    reveal_strlit("document");
                }
                "document"
            },
            Granularity::Subnode => {
                proof {
                    reveal_strlit("subnode");
                }
                "subnode"
            },
        }
    }
}

impl Default for Granularity {
    fn default() -> (r: Granularity)
        ensures
            r == Granularity::Document,
    {
        Granularity::Document
    }
}

/// What a context compilation is asked for.
#[derive(Debug, Clone, PartialEq)]
pub struct CompileInput {
    /// Paths of the files being edited.
    pub target_files: Vec<String>,
    pub granularity: Granularity,
    /// Recorded in the context log only.
    pub command: Option<String>,
    /// Replace upstream bodies by their heading outline.
    pub outline_only: bool,
    /// With subnode granularity, only these subnode ids.
    pub sections: Option<Vec<String>>,
    /// Follow the upstream chain at most this many steps.
    pub depth_limit: Option<usize>,
}

impl Default for CompileInput {
    fn default() -> (r: CompileInput)
        ensures
            r.target_files@.len() == 0,
            r.granularity == Granularity::Document,
            r.command is None,
            !r.outline_only,
            r.sections is None,
            r.depth_limit is None,
    {
        CompileInput {
            target_files: Vec::new(),
            granularity: Granularity::Document,
            command: None,
            outline_only: false,
            sections: None,
            depth_limit: None,
        }
    }
}

/// A target file and the node it resolved to (none when no node has that path).
#[derive(Debug, Clone, PartialEq)]
pub struct ResolvedTarget {
    pub file_path: String,
    pub artifact_id: Option<NodeId>,
    pub type_code: Option<String>,
}

/// One artifact of the upstream chain.
///
/// `drift_score` holds the score as the decimal text it is shown with.
#[derive(Debug, Clone, PartialEq)]
pub struct UpstreamArtifact {
    pub artifact_id: NodeId,
    pub type_code: String,
    pub file_path: String,
    pub chain_distance: usize,
    pub body: String,
    pub subnode_id: Option<NodeId>,
    pub anchor: Option<String>,
    pub drift_score: Option<String>,
}

/// A document of the layer or additional guidelines.
#[derive(Debug, Clone, PartialEq)]
pub struct LayerDocument {
    pub layer_name: String,
    pub node_id: NodeId,
    pub file_path: String,
    pub body: String,
    pub specificity: u32,
    pub priority: u32,
}

/// A document attached by a custom edge.
#[derive(Debug, Clone, PartialEq)]
pub struct CustomDocument {
    pub from_id: NodeId,
    pub to_id: NodeId,
    pub file_path: String,
    pub body: String,
    pub reason: Option<String>,
}

/// Edges and subnode count of a target node, and the target files that did not resolve.
#[derive(Debug, Clone, PartialEq)]
pub struct TargetNodeMetadata {
    pub artifact_id: NodeId,
    pub outgoing_edges: Vec<(NodeId, EdgeKind)>,
    pub incoming_edges: Vec<(NodeId, EdgeKind)>,
    pub subnode_count: usize,
    pub unresolved_targets: Vec<String>,
}

/// The compiled context: its six sections and the unresolved targets.
#[derive(Debug, Clone, PartialEq)]
pub struct ContextResult {
    pub targets: Vec<ResolvedTarget>,
    pub layer_guidelines: Vec<LayerDocument>,
    pub additional_guidelines: Vec<LayerDocument>,
    pub upstream: Vec<UpstreamArtifact>,
    pub custom_documents: Vec<CustomDocument>,
    pub target_metadata: Vec<TargetNodeMetadata>,
    pub granularity: Granularity,
    pub unresolved_targets: Vec<String>,
}

/// Failure of a database operation.
#[derive(Debug, Clone, PartialEq, Eq)]
pub struct DbConnError(pub String);

/// Failure of context compilation.
#[derive(Debug, Clone, PartialEq, Eq)]
pub enum ContextError {
    /// The rendered context has more characters than the limit.
    ResultTooLarge { current: usize, limit: usize },
    Io(String),
    Db(DbConnError),
    Graph(String),
    InvalidInput(String),
    Serde(String),
}

/// The message of an error.
pub open spec fn context_error_text(e: ContextError) -> Seq<char> {
    match e {
        ContextError::ResultTooLarge { current, limit } => "compile_context result exceeds "@ + decimal(
            limit as nat,
        ) + " characters.\nCurrent size: "@ + decimal(current as nat)
            + " characters.\nSuggested action:\n  - Try --granularity subnode for finer-grained retrieval.\n  - Narrow the target scope."@,
        ContextError::Io(m) => "io error: "@ + m@,
        ContextError::Db(d) => "db error: db conn error: "@ + d.0@,
        ContextError::Graph(m) => "graph error: "@ + m@,
        ContextError::InvalidInput(m) => "invalid input: "@ + m@,
        ContextError::Serde(m) => "serialization error: "@ + m@,
    }
}

impl ContextError {
    /// The message of the error.
    pub fn message(&self) -> (r: String)
        ensures
            r@ == context_error_text(*self),
    {
        match self {
            ContextError::ResultTooLarge { current, limit } => {
                let mut s = String::from_str("compile_context result exceeds ");
                s.append(crate::text::decimal_string(*limit as u64).as_str());
                s.append(" characters.\nCurrent size: ");
                s.append(crate::text::decimal_string(*current as u64).as_str());
                s.append(
                    " characters.\nSuggested action:\n  - Try --granularity subnode for finer-grained retrieval.\n  - Narrow the target scope.",
                );
                proof {
                    reveal_strlit("compile_context result exceeds ");
                    reveal_strlit(" characters.\nCurrent size: ");
                    reveal_strlit(
                        " characters.\nSuggested action:\n  - Try --granularity subnode for finer-grained retrieval.\n  - Narrow the target scope.",
                    );
                }
                s
            },
            ContextError::Io(m) => prefixed("io error: ", m),
            ContextError::Db(d) => prefixed("db error: db conn error: ", &d.0),
            ContextError::Graph(m) => prefixed("graph error: ", m),
            ContextError::InvalidInput(m) => prefixed("invalid input: ", m),
            ContextError::Serde(m) => prefixed("serialization error: ", m),
        }
    }
}

fn prefixed(p: &str, m: &String) -> (r: String)
    ensures
        r@ == p@ + m@,
{
    let mut s = String::from_str(p);
    s.append(m.as_str());
    s
}

/// A handle on the engine database's context log. Without a connection, nothing can
/// be written through it.
pub struct DbConn {
    conn: Option<Connection>,
    path: Option<String>,
}

impl DbConn {
    /// The connection, if the handle has one.
    pub closed spec fn connection(&self) -> Option<Connection> {
        self.conn
    }

    /// The database path the handle was opened on.
    pub closed spec fn path_view(&self) -> Option<Seq<char>> {
        match self.path {
            Some(p) => Some(p@),
            None => None,
        }
    }

    /// A handle without a connection (as when there is no engine database).
    pub fn new() -> (r: DbConn)
        ensures
            r.connection() is None,
            r.path_view() is None,
    {
        DbConn { conn: None, path: None }
    }

    /// A handle on the engine database at `path`, given what opening it gave: the
    /// database's contents (its context log among them), which entries are then
    /// written to, or the error with which it could not be opened.
    pub fn open(path: &str, opened: Result<Connection, DbConnError>) -> (r: Result<DbConn, DbConnError>)
        ensures
            match opened {
                Ok(c) => r matches Ok(d) && d.path_view() == Some(path@) && d.connection() == Some(c),
                Err(e) => r == Err::<DbConn, DbConnError>(e),
            },
    {
        match opened {
            Ok(c) => Ok(DbConn { conn: Some(c), path: Some(String::from_str(path)) }),
            Err(e) => Err(e),
        }
    }

    /// The connection, if the handle has one.
    pub fn conn(&self) -> (r: Option<&Connection>)
        ensures
            match self.connection() {
                Some(c) => r == Some(&c),
                None => r is None,
            },
    {
        match &self.conn {
            Some(c) => Some(c),
            None => None,
        }
    }

    /// The database path the handle was opened on.
    pub fn path(&self) -> (r: Option<&String>)
        ensures
            match r {
                Some(p) => self.path_view() == Some(p@),
                None => self.path_view() is None,
            },
    {
        match &self.path {
            Some(p) => Some(p),
            None => None,
        }
    }

    /// Appends a context-log entry through the connection (when there is one); the
    /// id it was stored under.
    pub fn push_log(&mut self, e: crate::feedback::audit::ContextLogEntry) -> (r: Option<i64>)
        ensures
            final(self).path_view() == old(self).path_view(),
            match old(self).connection() {
                None => r is None && final(self).connection() is None,
                Some(c) => final(self).connection() matches Some(c2) && match r {
                    None => c@.next_log == i64::MAX && c2@ == c@,
                    Some(id) => {
                        &&& id == c@.next_log && id < i64::MAX
                        &&& c2@ == crate::feedback::db::DbView {
                            log: c@.log.push(crate::feedback::audit::LogView { id, ..e@ }),
                            next_log: (id + 1) as i64,
                            ..c@
                        }
                        &&& (c.wf() ==> c2.wf())
                    },
                },
            },
    {
        match &mut self.conn {
            Some(c) => c.push_log(e),
            None => None,
        }
    }
}

impl Default for DbConn {
    fn default() -> (r: DbConn)
        ensures
            r.connection() is None,
            r.path_view() is None,
    {
        DbConn::new()
    }
}

} // verus!
