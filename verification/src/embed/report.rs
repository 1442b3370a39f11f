use vstd::prelude::*;

use crate::graph::EdgeKind;

verus! {

/// The output format of the report command.
#[derive(Debug, Clone, Copy, PartialEq, Eq, Structural)]
pub enum ReportFormat {
    Text,
    Json,
}

/// A summarized warning about skipped edges.
#[derive(Debug, Clone, PartialEq, Eq)]
pub struct SkipWarning {
    pub skip_count: usize,
    pub reasons: SkipReasonSummary,
}

/// The number of skipped edges by reason.
#[derive(Debug, Clone, PartialEq, Eq)]
pub struct SkipReasonSummary {
    pub missing_embedding: usize,
    pub dim_mismatch: usize,
    pub non_finite_score: usize,
}

impl Default for SkipReasonSummary {
    fn default() -> (r: SkipReasonSummary)
        ensures
            r.missing_embedding == 0,
            r.dim_mismatch == 0,
            r.non_finite_score == 0,
    {
        SkipReasonSummary { missing_embedding: 0, dim_mismatch: 0, non_finite_score: 0 }
    }
}

/// The JSON name of an edge kind.
pub open spec fn edge_kind_json(k: EdgeKind) -> Seq<char> {
    match k {
        EdgeKind::Chain => "chain"@,
        EdgeKind::Custom => "custom"@,
        EdgeKind::ParentChild => "parent_child"@,
    }
}

/// How an edge kind is written in JSON output.
pub trait EdgeKindJson {
    fn to_json_str(&self) -> &'static str;
}

impl EdgeKindJson for EdgeKind {
    fn to_json_str(&self) -> (r: &'static str)
        ensures
            r@ == edge_kind_json(*self),
    {
        match self {
            EdgeKind::Chain => "chain",
            EdgeKind::Custom => "custom",
            EdgeKind::ParentChild => "parent_child",
        }
    }
}

} // verus!
