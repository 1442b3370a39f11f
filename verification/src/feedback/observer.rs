use vstd::prelude::*;

use crate::check::{CheckCategory, CheckReport, CheckResult, FindingView, finding_views};
use crate::common::{string_views, Severity};
use crate::feedback::embed::{credential_patterns, mask_api_key, masked_with, EmbedError};
use crate::order::{sort_strings, sort_strs};
use crate::text::{blank, is_blank, str_eq};

verus! {

/// Status of an observation. `Resolved` and `Skipped` are terminal.
#[derive(Debug, Clone, Copy, PartialEq, Eq, Structural)]
pub enum ObservationStatus {
    Pending,
    Analyzing,
    Resolved,
    Skipped,
}

/// The stored name of an observation status.
pub open spec fn observation_status_name(s: ObservationStatus) -> Seq<char> {
    match s {
        ObservationStatus::Pending => "pending"@,
        ObservationStatus::Analyzing => "analyzing"@,
        ObservationStatus::Resolved => "resolved"@,
        ObservationStatus::Skipped => "skipped"@,
    }
}

/// The observation status stored under `s`.
pub open spec fn parse_observation_status(s: Seq<char>) -> Option<ObservationStatus> {
    if s == "pending"@ {
        Some(ObservationStatus::Pending)
    } else if s == "analyzing"@ {
        Some(ObservationStatus::Analyzing)
    } else if s == "resolved"@ {
        Some(ObservationStatus::Resolved)
    } else if s == "skipped"@ {
        Some(ObservationStatus::Skipped)
    } else {
        None
    }
}

impl ObservationStatus {
    pub fn as_str(&self) -> (r: &'static str)
        ensures
            r@ == observation_status_name(*self),
    {
        match self {
            ObservationStatus::Pending => "pending",
            ObservationStatus::Analyzing => "analyzing",
            ObservationStatus::Resolved => "resolved",
            ObservationStatus::Skipped => "skipped",
        }
    }

    pub fn from_str(s: &str) -> (r: Option<ObservationStatus>)
        ensures
            r == parse_observation_status(s@),
    {
        if str_eq(s, "pending") {
            Some(ObservationStatus::Pending)
        } else if str_eq(s, "analyzing") {
            Some(ObservationStatus::Analyzing)
        } else if str_eq(s, "resolved") {
            Some(ObservationStatus::Resolved)
        } else if str_eq(s, "skipped") {
            Some(ObservationStatus::Skipped)
        } else {
            None
        }
    }
}

/// Parsing the stored name of an observation status gives the status back.
pub proof fn law_observation_status_round_trip(s: ObservationStatus)
    ensures
        parse_observation_status(observation_status_name(s)) == Some(s),
{
    reveal_strlit("pending");
    reveal_strlit("analyzing");
    reveal_strlit("resolved");
    reveal_strlit("skipped");
    assert("pending"@.len() == 7 && "analyzing"@.len() == 9 && "resolved"@.len() == 8 && "skipped"@.len() == 7);
    assert("pending"@[0] != "skipped"@[0]);
}

/// Category given to `observe`: one of three fixed values.
#[derive(Debug, Clone, Copy, PartialEq, Eq, Structural)]
pub enum ObserveCategoryInput {
    CompileMiss,
    ReviewCorrection,
    ManualNote,
}

/// The stored name of an observe category.
pub open spec fn observe_category_name(c: ObserveCategoryInput) -> Seq<char> {
    match c {
        ObserveCategoryInput::CompileMiss => "compile_miss"@,
        ObserveCategoryInput::ReviewCorrection => "review_correction"@,
        ObserveCategoryInput::ManualNote => "manual_note"@,
    }
}

/// The observe category named `s`, if it is one of the three.
pub open spec fn parse_observe_category(s: Seq<char>) -> Option<ObserveCategoryInput> {
    if s == "compile_miss"@ {
        Some(ObserveCategoryInput::CompileMiss)
    } else if s == "review_correction"@ {
        Some(ObserveCategoryInput::ReviewCorrection)
    } else if s == "manual_note"@ {
        Some(ObserveCategoryInput::ManualNote)
    } else {
        None
    }
}

impl ObserveCategoryInput {
    pub fn as_str(&self) -> (r: &'static str)
        ensures
            r@ == observe_category_name(*self),
    {
        match self {
            ObserveCategoryInput::CompileMiss => "compile_miss",
            ObserveCategoryInput::ReviewCorrection => "review_correction",
            ObserveCategoryInput::ManualNote => "manual_note",
        }
    }

    pub fn from_str(s: &str) -> (r: Option<ObserveCategoryInput>)
        ensures
            r == parse_observe_category(s@),
    {
        if str_eq(s, "compile_miss") {
            Some(ObserveCategoryInput::CompileMiss)
        } else if str_eq(s, "review_correction") {
            Some(ObserveCategoryInput::ReviewCorrection)
        } else if str_eq(s, "manual_note") {
            Some(ObserveCategoryInput::ManualNote)
        } else {
            None
        }
    }
}

/// Parsing the name of an observe category gives the category back.
pub proof fn law_observe_category_round_trip(c: ObserveCategoryInput)
    ensures
        parse_observe_category(observe_category_name(c)) == Some(c),
{
    reveal_strlit("compile_miss");
    reveal_strlit("review_correction");
    reveal_strlit("manual_note");
    assert("compile_miss"@.len() == 12 && "review_correction"@.len() == 17 && "manual_note"@.len() == 11);
}

/// Categories that `feedback` derives from check findings.
#[derive(Debug, Clone, Copy, PartialEq, Eq, Structural)]
pub enum FeedbackCategory {
    ChainIntegrity,
    LinkCandidate,
    Drift,
    OrphanFile,
    SemanticSimilarity,
}

/// The stored name of a feedback category.
pub open spec fn feedback_category_name(c: FeedbackCategory) -> Seq<char> {
    match c {
        FeedbackCategory::ChainIntegrity => "chain_integrity"@,
        FeedbackCategory::LinkCandidate => "link_candidate"@,
        FeedbackCategory::Drift => "drift"@,
        FeedbackCategory::OrphanFile => "orphan_file"@,
        FeedbackCategory::SemanticSimilarity => "semantic_similarity"@,
    }
}

impl FeedbackCategory {
    pub fn as_str(&self) -> (r: &'static str)
        ensures
            r@ == feedback_category_name(*self),
    {
        match self {
            FeedbackCategory::ChainIntegrity => "chain_integrity",
            FeedbackCategory::LinkCandidate => "link_candidate",
            FeedbackCategory::Drift => "drift",
            FeedbackCategory::OrphanFile => "orphan_file",
            FeedbackCategory::SemanticSimilarity => "semantic_similarity",
        }
    }
}

/// An observation before it is recorded.
#[derive(Debug, Clone, PartialEq, Eq)]
pub struct NewObservation {
    pub source: String,
    pub category: String,
    pub severity: String,
    pub message: String,
    pub related_ids: Vec<String>,
    pub context_json: Option<String>,
}

/// A new observation as plain values.
pub struct NewObservationView {
    pub source: Seq<char>,
    pub category: Seq<char>,
    pub severity: Seq<char>,
    pub message: Seq<char>,
    pub related: Seq<Seq<char>>,
    pub context: Option<Seq<char>>,
}

impl View for NewObservation {
    type V = NewObservationView;

    open spec fn view(&self) -> NewObservationView {
        NewObservationView {
            source: self.source@,
            category: self.category@,
            severity: self.severity@,
            message: self.message@,
            related: string_views(self.related_ids@),
            context: match self.context_json {
                Some(c) => Some(c@),
                None => None,
            },
        }
    }
}

/// A recorded observation.
#[derive(Debug, Clone, PartialEq, Eq)]
pub struct Observation {
    pub id: i64,
    pub source: String,
    pub category: String,
    pub severity: String,
    pub message: String,
    pub related_ids: Vec<String>,
    pub context_json: Option<String>,
    pub status: ObservationStatus,
    pub created_at: String,
}

/// The feedback category of a check finding, or `None` when the finding yields no
/// observation: findings of severity `Clear`, missing files, document-id warnings and
/// categories without a proposal rule are dropped; a semantic finding is a link
/// candidate (info with two ids), a drift (warning with one id) or a plain semantic
/// similarity otherwise.
pub open spec fn finding_category(f: FindingView) -> Option<Seq<char>> {
    if f.severity == Severity::Clear {
        None
    } else if f.category == CheckCategory::FileExistence && f.severity == Severity::Error {
        None
    } else if f.category == CheckCategory::DocumentId && f.severity == Severity::Warning {
        None
    } else {
        match f.category {
            CheckCategory::ChainIntegrity => Some("chain_integrity"@),
            CheckCategory::OrphanFile => Some("orphan_file"@),
            CheckCategory::SemanticSimilarity => if f.severity == Severity::Info && f.related.len() == 2 {
                Some("link_candidate"@)
            } else if f.severity == Severity::Warning && f.related.len() == 1 {
                Some("drift"@)
            } else {
                Some("semantic_similarity"@)
            },
            _ => None,
        }
    }
}

/// The stored severity text of a non-clear severity.
pub open spec fn severity_text(s: Severity) -> Seq<char> {
    match s {
        Severity::Error => "error"@,
        Severity::Warning => "warning"@,
        _ => "info"@,
    }
}

/// The observation message of a finding: its masked message, or `{category} finding`
/// when that is blank.
pub open spec fn observation_message(category: Seq<char>, message: Seq<char>) -> Seq<char> {
    let masked = masked_with(credential_patterns(), message);
    if is_blank(masked) {
        category + " finding"@
    } else {
        masked
    }
}

/// The new observation a finding yields, if any.
pub open spec fn observation_of(f: FindingView) -> Option<NewObservationView> {
    match finding_category(f) {
        None => None,
        Some(c) => Some(
            NewObservationView {
                source: "auto:"@ + c,
                category: c,
                severity: severity_text(f.severity),
                message: observation_message(c, f.message),
                related: sort_strs(f.related),
                context: None,
            },
        ),
    }
}

/// The new observations of a sequence of findings, in order.
pub open spec fn observations_of(fs: Seq<FindingView>) -> Seq<NewObservationView>
    decreases fs.len(),
{
    if fs.len() == 0 {
        Seq::empty()
    } else {
        match observation_of(fs.last()) {
            Some(o) => observations_of(fs.drop_last()).push(o),
            None => observations_of(fs.drop_last()),
        }
    }
}

/// Turns check findings into new observations.
pub struct AutoObserver;

impl AutoObserver {
    /// The observations that the findings of `report` yield, in finding order.
    pub fn from_check_results(report: &CheckReport) -> (r: Vec<NewObservation>)
        ensures
            r@.map_values(|o: NewObservation| o@) == observations_of(finding_views(report.findings@)),
    {
        let ghost fv = finding_views(report.findings@);
        let mut out: Vec<NewObservation> = Vec::new();
        let mut i: usize = 0;
        while i < report.findings.len()
            invariant
                i <= report.findings@.len(),
                fv == finding_views(report.findings@),
                out@.map_values(|o: NewObservation| o@) == observations_of(fv.take(i as int)),
            decreases report.findings.len() - i,
        {
            proof {
                assert(fv.take(i + 1).drop_last() =~= fv.take(i as int));
                assert(fv.take(i + 1).last() == report.findings@[i as int]@);
            }
            let ghost before = out@.map_values(|o: NewObservation| o@);
            match Self::to_new_observation(&report.findings[i]) {
                Some(o) => {
                    out.push(o);
                    assert(out@.map_values(|o: NewObservation| o@) =~= before.push(o@));
                },
                None => {},
            }
            i = i + 1;
        }
        assert(fv.take(fv.len() as int) =~= fv);
        out
    }

    /// The observation a single finding yields, if any.
    pub fn to_new_observation(r: &CheckResult) -> (o: Option<NewObservation>)
        ensures
            match o {
                Some(n) => observation_of(r@) == Some(n@),
                None => observation_of(r@) is None,
            },
    {
        if r.severity == Severity::Clear {
            return None;
        }
        if r.category == CheckCategory::FileExistence && r.severity == Severity::Error {
            return None;
        }
        if r.category == CheckCategory::DocumentId && r.severity == Severity::Warning {
            return None;
        }
        let category: &str = match r.category {
            CheckCategory::ChainIntegrity => "chain_integrity",
            CheckCategory::OrphanFile => "orphan_file",
            CheckCategory::SemanticSimilarity => {
                if r.severity == Severity::Info && r.related_ids.len() == 2 {
                    "link_candidate"
                } else if r.severity == Severity::Warning && r.related_ids.len() == 1 {
                    "drift"
                } else {
                    "semantic_similarity"
                }
            },
            _ => return None,
        };
        let severity: &str = match r.severity {
            Severity::Error => "error",
            Severity::Warning => "warning",
            _ => "info",
        };
        let mut related: Vec<String> = Vec::new();
        let mut i: usize = 0;
        while i < r.related_ids.len()
            invariant
                i <= r.related_ids@.len(),
                string_views(related@) == r@.related.take(i as int),
            decreases r.related_ids.len() - i,
        {
            let ghost before = string_views(related@);
            related.push(String::from_str(r.related_ids[i].as_str()));
            assert(r@.related[i as int] == r.related_ids@[i as int]@);
            assert(string_views(related@) =~= before.push(r.related_ids@[i as int]@));
            assert(string_views(related@) =~= r@.related.take(i + 1));
            i = i + 1;
        }
        assert(r@.related.take(r@.related.len() as int) =~= r@.related);
        let related = sort_strings(related);
        let masked = mask_api_key(r.message.as_str());
        let message = if blank(masked.as_str()) {
            let mut m = String::from_str(category);
            m.append(" finding");
            m
        } else {
            masked
        };
        let mut source = String::from_str("auto:");
        source.append(category);
        let o = NewObservation {
            source,
            category: String::from_str(category),
            severity: String::from_str(severity),
            message,
            related_ids: related,
            context_json: None,
        };
        Some(o)
    }
}

/// The drift observation for an embedding error: only a failed contextual retrieval
/// yields one, with the masked detail as its message and the node as its only id.
pub fn drift_from_embed_error(err: &EmbedError, node_id: &str) -> (r: Option<NewObservation>)
    ensures
        match err {
            EmbedError::ContextualRetrievalFailed { detail, .. } => r matches Some(o) && o@.source
                == "drift:contextual_retrieval"@ && o@.category == "drift"@ && o@.severity == "warning"@
                && o@.message == masked_with(credential_patterns(), detail@) && o@.related == seq![node_id@]
                && o@.context is None,
            EmbedError::Other(_) => r is None,
        },
{
    match err {
        EmbedError::ContextualRetrievalFailed { detail, .. } => {
            let mut ids: Vec<String> = Vec::new();
            ids.push(String::from_str(node_id));
            let o = NewObservation {
                source: String::from_str("drift:contextual_retrieval"),
                category: String::from_str("drift"),
                severity: String::from_str("warning"),
                message: mask_api_key(detail.as_str()),
                related_ids: ids,
                context_json: None,
            };
            assert(o@.related =~= seq![node_id@]);
            Some(o)
        },
        EmbedError::Other(_) => None,
    }
}

} // verus!
