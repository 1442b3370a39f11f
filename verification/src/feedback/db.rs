use vstd::prelude::*;

use crate::feedback::analyzer::{action_of, opt_view, semantic_key_of, Proposal, ProposalStatus, ProposalView};
use crate::feedback::audit::{ContextLogEntry, LogView};
use crate::feedback::error::DbStubError;
use crate::feedback::observer::{Observation, ObservationStatus};
use crate::common::string_views;
use crate::text::{datetime_string, datetime_text};

use std::time::{Duration, SystemTime, SystemTimeError};

verus! {

#[verifier::external_type_specification]
#[verifier::external_body]
pub struct ExSystemTime(SystemTime);

#[verifier::external_type_specification]
#[verifier::external_body]
pub struct ExSystemTimeError(SystemTimeError);

/// `SystemTime::now`: the current time of the system clock.
#[verifier::external_body]
pub(crate) fn system_now() -> SystemTime {
    SystemTime::now()
}

/// `SystemTime::duration_since(UNIX_EPOCH)`: the time elapsed since the Unix epoch,
/// or an error for a time before it.
#[verifier::external_body]
pub(crate) fn since_unix_epoch(t: &SystemTime) -> Result<Duration, SystemTimeError> {
    t.duration_since(std::time::UNIX_EPOCH)
}

/// `Duration::as_secs`: the whole seconds of a duration.
#[verifier::external_body]
fn whole_seconds(d: &Duration) -> u64 {
    d.as_secs()
}

/// `Duration::as_millis`: the whole milliseconds of a duration.
#[verifier::external_body]
pub(crate) fn whole_millis(d: &Duration) -> u128 {
    d.as_millis()
}

/// `Duration::subsec_nanos`: the nanoseconds of a duration beyond its whole seconds.
#[verifier::external_body]
pub(crate) fn sub_second_nanos(d: &Duration) -> (r: u32)
    ensures
        r < 1_000_000_000,
{
    d.subsec_nanos()
}

/// The current UTC time as `YYYY-MM-DD HH:MM:SS` (the epoch itself when the clock
/// reads a time before it).
pub fn now_text() -> (r: String)
    ensures
        exists|secs: nat| r@ == datetime_text(secs),
{
    let t = system_now();
    let secs: u64 = match since_unix_epoch(&t) {
        Ok(d) => whole_seconds(&d),
        Err(_) => 0,
    };
    datetime_string(secs)
}

/// A stored observation together with its deduplication key (the canonical JSON
/// list of its related ids).
#[derive(Debug, Clone, PartialEq, Eq)]
pub struct ObservationRow {
    pub observation: Observation,
    pub key: String,
}

/// A stored observation as plain values.
pub struct ObsView {
    pub id: i64,
    pub source: Seq<char>,
    pub category: Seq<char>,
    pub severity: Seq<char>,
    pub message: Seq<char>,
    pub related: Seq<Seq<char>>,
    pub context: Option<Seq<char>>,
    pub status: ObservationStatus,
    pub created_at: Seq<char>,
    pub key: Seq<char>,
}

impl View for ObservationRow {
    type V = ObsView;

    open spec fn view(&self) -> ObsView {
        ObsView {
            id: self.observation.id,
            source: self.observation.source@,
            category: self.observation.category@,
            severity: self.observation.severity@,
            message: self.observation.message@,
            related: string_views(self.observation.related_ids@),
            context: opt_view(self.observation.context_json),
            status: self.observation.status,
            created_at: self.observation.created_at@,
            key: self.key@,
        }
    }
}

/// A custom edge added by approving a proposal.
#[derive(Debug, Clone, PartialEq, Eq)]
pub struct CustomEdge {
    pub id: i64,
    pub from_id: String,
    pub to_id: String,
    pub reason: Option<String>,
    pub created_at: Option<String>,
}

/// A custom edge as plain values.
pub struct EdgeView {
    pub id: i64,
    pub from: Seq<char>,
    pub to: Seq<char>,
    pub reason: Option<Seq<char>>,
    pub created_at: Option<Seq<char>>,
}

impl View for CustomEdge {
    type V = EdgeView;

    open spec fn view(&self) -> EdgeView {
        EdgeView {
            id: self.id,
            from: self.from_id@,
            to: self.to_id@,
            reason: opt_view(self.reason),
            created_at: opt_view(self.created_at),
        }
    }
}

/// The engine database as plain values: its four tables and, per table, the id the
/// next inserted row receives.
pub struct DbView {
    pub observations: Seq<ObsView>,
    pub proposals: Seq<ProposalView>,
    pub edges: Seq<EdgeView>,
    pub log: Seq<LogView>,
    pub next_observation: i64,
    pub next_proposal: i64,
    pub next_edge: i64,
    pub next_log: i64,
}

/// The engine database: observations, proposals, custom edges and the context log.
/// Row ids are given in increasing order, starting at 1, and never reused.
pub struct Connection {
    observations: Vec<ObservationRow>,
    proposals: Vec<Proposal>,
    custom_edges: Vec<CustomEdge>,
    context_log: Vec<ContextLogEntry>,
    next_observation: i64,
    next_proposal: i64,
    next_edge: i64,
    next_log: i64,
}

/// The views of observation rows.
pub open spec fn obs_views(s: Seq<ObservationRow>) -> Seq<ObsView> {
    s.map_values(|r: ObservationRow| r@)
}

/// The views of proposals.
pub open spec fn proposal_views(s: Seq<Proposal>) -> Seq<ProposalView> {
    s.map_values(|p: Proposal| p@)
}

/// The views of custom edges.
pub open spec fn edge_views(s: Seq<CustomEdge>) -> Seq<EdgeView> {
    s.map_values(|e: CustomEdge| e@)
}

/// The views of log entries.
pub open spec fn log_views(s: Seq<ContextLogEntry>) -> Seq<LogView> {
    s.map_values(|e: ContextLogEntry| e@)
}

impl View for Connection {
    type V = DbView;

    closed spec fn view(&self) -> DbView {
        DbView {
            observations: obs_views(self.observations@),
            proposals: proposal_views(self.proposals@),
            edges: edge_views(self.custom_edges@),
            log: log_views(self.context_log@),
            next_observation: self.next_observation,
            next_proposal: self.next_proposal,
            next_edge: self.next_edge,
            next_log: self.next_log,
        }
    }
}

/// Ids in strictly increasing order, each at least 1 and below `next`.
pub open spec fn ids_ok(ids: Seq<i64>, next: i64) -> bool {
    &&& next >= 1
    &&& forall|i: int, j: int| 0 <= i < j < ids.len() ==> ids[i] < ids[j]
    &&& forall|i: int| 0 <= i < ids.len() ==> 1 <= #[trigger] ids[i] < next
}

/// An observation that is still open for analysis.
pub open spec fn active(s: ObservationStatus) -> bool {
    s == ObservationStatus::Pending || s == ObservationStatus::Analyzing
}

/// No two open observations share category and key.
pub open spec fn unique_active(s: Seq<ObsView>) -> bool {
    forall|i: int, j: int|
        0 <= i < s.len() && 0 <= j < s.len() && i != j && active(#[trigger] s[i].status) && active(
            #[trigger] s[j].status,
        ) ==> !(s[i].category == s[j].category && s[i].key == s[j].key)
}

/// No two pending proposals share a semantic key, nor an observation.
pub open spec fn unique_pending(s: Seq<ProposalView>) -> bool {
    forall|i: int, j: int|
        0 <= i < s.len() && 0 <= j < s.len() && i != j && #[trigger] s[i].status == ProposalStatus::Pending
            && #[trigger] s[j].status == ProposalStatus::Pending ==> s[i].semantic_key != s[j].semantic_key
            && s[i].observation_id != s[j].observation_id
}

/// Observation `o` is under analysis and is the source of pending proposal `p`: its
/// action has the proposal's semantic key.
pub open spec fn backs(o: ObsView, p: ProposalView) -> bool {
    &&& o.id == p.observation_id
    &&& o.status == ObservationStatus::Analyzing
    &&& action_of(o) matches Some(a) && semantic_key_of(a) == p.semantic_key
}

/// Every pending proposal comes from an observation under analysis.
pub open spec fn pending_backed(v: DbView) -> bool {
    forall|i: int|
        0 <= i < v.proposals.len() && #[trigger] v.proposals[i].status == ProposalStatus::Pending ==> exists|k: int|
            0 <= k < v.observations.len() && #[trigger] backs(v.observations[k], v.proposals[i])
}

/// The invariant of the engine database.
pub open spec fn db_ok(v: DbView) -> bool {
    &&& ids_ok(v.observations.map_values(|o: ObsView| o.id), v.next_observation)
    &&& ids_ok(v.proposals.map_values(|p: ProposalView| p.id), v.next_proposal)
    &&& ids_ok(v.edges.map_values(|e: EdgeView| e.id), v.next_edge)
    &&& ids_ok(v.log.map_values(|e: LogView| e.id), v.next_log)
    &&& unique_active(v.observations)
    &&& unique_pending(v.proposals)
    &&& pending_backed(v)
}

/// The message of a failed insertion once a table has used up its ids.
pub open spec fn full_message() -> Seq<char> {
    "database or disk is full"@
}

impl Connection {
    /// The database invariant holds.
    pub open spec fn wf(&self) -> bool {
        db_ok(self@)
    }

    /// A new, empty in-memory engine database.
    pub fn open_in_memory() -> (r: Result<Connection, DbStubError>)
        ensures
            r matches Ok(c) && c@.observations.len() == 0 && c@.proposals.len() == 0 && c@.edges.len() == 0
                && c@.log.len() == 0 && c@.next_observation == 1 && c@.next_proposal == 1 && c@.next_edge == 1
                && c@.next_log == 1 && c.wf(),
    {
        let c = Connection {
            observations: Vec::new(),
            proposals: Vec::new(),
            custom_edges: Vec::new(),
            context_log: Vec::new(),
            next_observation: 1,
            next_proposal: 1,
            next_edge: 1,
            next_log: 1,
        };
        proof {
            assert(c@.observations =~= Seq::<ObsView>::empty());
            assert(c@.proposals =~= Seq::<ProposalView>::empty());
            assert(c@.edges =~= Seq::<EdgeView>::empty());
            assert(c@.log =~= Seq::<LogView>::empty());
        }
        Ok(c)
    }

    /// The id the next custom edge receives.
    pub fn next_edge_id(&self) -> (r: i64)
        ensures
            r == self@.next_edge,
    {
        self.next_edge
    }

    /// The observation rows, in id order.
    pub fn observation_rows(&self) -> (r: &Vec<ObservationRow>)
        ensures
            obs_views(r@) == self@.observations,
    {
        &self.observations
    }

    /// The proposals, in id order.
    pub fn proposal_rows(&self) -> (r: &Vec<Proposal>)
        ensures
            proposal_views(r@) == self@.proposals,
    {
        &self.proposals
    }

    /// The custom edges, in id order.
    pub fn custom_edge_rows(&self) -> (r: &Vec<CustomEdge>)
        ensures
            edge_views(r@) == self@.edges,
    {
        &self.custom_edges
    }

    /// The context-log entries, in id order.
    pub fn log_rows(&self) -> (r: &Vec<ContextLogEntry>)
        ensures
            log_views(r@) == self@.log,
    {
        &self.context_log
    }

    /// Appends an observation row under the next observation id, which it returns
    /// (`None`, and no change, once the ids are used up).
    pub(crate) fn push_observation(&mut self, row: ObservationRow) -> (r: Option<i64>)
        ensures
            match r {
                None => old(self)@.next_observation == i64::MAX && final(self)@ == old(self)@,
                Some(id) => {
                    &&& id == old(self)@.next_observation && id < i64::MAX
                    &&& final(self)@.observations == old(self)@.observations.push(ObsView { id, ..row@ })
                    &&& final(self)@.next_observation == id + 1
                    &&& final(self)@.proposals == old(self)@.proposals
                    &&& final(self)@.edges == old(self)@.edges
                    &&& final(self)@.log == old(self)@.log
                    &&& final(self)@.next_proposal == old(self)@.next_proposal
                    &&& final(self)@.next_edge == old(self)@.next_edge
                    &&& final(self)@.next_log == old(self)@.next_log
                },
            },
    {
        if self.next_observation == i64::MAX {
            return None;
        }
        let id = self.next_observation;
        let mut row = row;
        row.observation.id = id;
        let ghost rv = row@;
        self.observations.push(row);
        self.next_observation = id + 1;
        assert(obs_views(self.observations@) =~= old(self)@.observations.push(rv));
        Some(id)
    }

    /// Moves every pending observation to analyzing.
    pub(crate) fn claim_pending(&mut self)
        ensures
            final(self)@.observations.len() == old(self)@.observations.len(),
            forall|k: int|
                0 <= k < old(self)@.observations.len() ==> #[trigger] final(self)@.observations[k] == (if old(
                    self,
                )@.observations[k].status == ObservationStatus::Pending {
                    ObsView { status: ObservationStatus::Analyzing, ..old(self)@.observations[k] }
                } else {
                    old(self)@.observations[k]
                }),
            final(self)@.proposals == old(self)@.proposals,
            final(self)@.edges == old(self)@.edges,
            final(self)@.log == old(self)@.log,
            final(self)@.next_observation == old(self)@.next_observation,
            final(self)@.next_proposal == old(self)@.next_proposal,
            final(self)@.next_edge == old(self)@.next_edge,
            final(self)@.next_log == old(self)@.next_log,
    {
        let mut i: usize = 0;
        while i < self.observations.len()
            invariant
                i <= self.observations@.len(),
                self.observations@.len() == old(self).observations@.len(),
                forall|k: int|
                    0 <= k < self.observations@.len() ==> #[trigger] self.observations@[k]@ == (if k < i
                        && old(self).observations@[k]@.status == ObservationStatus::Pending {
                        ObsView { status: ObservationStatus::Analyzing, ..old(self).observations@[k]@ }
                    } else {
                        old(self).observations@[k]@
                    }),
                self.proposals == old(self).proposals,
                self.custom_edges == old(self).custom_edges,
                self.context_log == old(self).context_log,
                self.next_observation == old(self).next_observation,
                self.next_proposal == old(self).next_proposal,
                self.next_edge == old(self).next_edge,
                self.next_log == old(self).next_log,
            decreases self.observations@.len() - i,
        {
            if self.observations[i].observation.status == ObservationStatus::Pending {
                let ghost before = self.observations@;
                let mut row = self.observations.remove(i);
                let ghost orig = row@;
                row.observation.status = ObservationStatus::Analyzing;
                assert(row@ == ObsView { status: ObservationStatus::Analyzing, ..orig });
                self.observations.insert(i, row);
                assert(self.observations@ =~= before.update(i as int, row));
                assert(self.observations@[i as int]@ == ObsView { status: ObservationStatus::Analyzing, ..orig });
            }
            i = i + 1;
        }
        assert(final(self)@.observations =~= self@.observations);
    }

    /// Appends a proposal under the next proposal id, which it returns (`None`, and no
    /// change, once the ids are used up).
    pub(crate) fn push_proposal(&mut self, p: Proposal) -> (r: Option<i64>)
        ensures
            match r {
                None => old(self)@.next_proposal == i64::MAX && final(self)@ == old(self)@,
                Some(id) => {
                    &&& id == old(self)@.next_proposal && id < i64::MAX
                    &&& final(self)@.proposals == old(self)@.proposals.push(ProposalView { id, ..p@ })
                    &&& final(self)@.next_proposal == id + 1
                    &&& final(self)@.observations == old(self)@.observations
                    &&& final(self)@.edges == old(self)@.edges
                    &&& final(self)@.log == old(self)@.log
                    &&& final(self)@.next_observation == old(self)@.next_observation
                    &&& final(self)@.next_edge == old(self)@.next_edge
                    &&& final(self)@.next_log == old(self)@.next_log
                },
            },
    {
        if self.next_proposal == i64::MAX {
            return None;
        }
        let id = self.next_proposal;
        let mut p = p;
        p.id = id;
        let ghost pv = p@;
        self.proposals.push(p);
        self.next_proposal = id + 1;
        assert(proposal_views(self.proposals@) =~= old(self)@.proposals.push(pv));
        Some(id)
    }

    /// Records the decision on the proposal at position `i`.
    pub(crate) fn decide_proposal(
        &mut self,
        i: usize,
        status: ProposalStatus,
        decided_at: String,
        reason: Option<String>,
    )
        requires
            i < old(self)@.proposals.len(),
        ensures
            final(self)@.proposals == old(self)@.proposals.update(
                i as int,
                ProposalView {
                    status,
                    decided_at: Some(decided_at@),
                    decided_reason: opt_view(reason),
                    ..old(self)@.proposals[i as int]
                },
            ),
            final(self)@.observations == old(self)@.observations,
            final(self)@.edges == old(self)@.edges,
            final(self)@.log == old(self)@.log,
            final(self)@.next_observation == old(self)@.next_observation,
            final(self)@.next_proposal == old(self)@.next_proposal,
            final(self)@.next_edge == old(self)@.next_edge,
            final(self)@.next_log == old(self)@.next_log,
    {
        let mut p = self.proposals.remove(i);
        p.status = status;
        p.decided_at = Some(decided_at);
        p.decided_reason = reason;
        let ghost pv = p@;
        self.proposals.insert(i, p);
        assert(proposal_views(self.proposals@) =~= old(self)@.proposals.update(i as int, pv));
    }

    /// Appends a custom edge under the next edge id, which it returns (`None`, and no
    /// change, once the ids are used up).
    pub(crate) fn push_custom_edge(&mut self, e: CustomEdge) -> (r: Option<i64>)
        ensures
            match r {
                None => old(self)@.next_edge == i64::MAX && final(self)@ == old(self)@,
                Some(id) => {
                    &&& id == old(self)@.next_edge && id < i64::MAX
                    &&& final(self)@.edges == old(self)@.edges.push(EdgeView { id, ..e@ })
                    &&& final(self)@.next_edge == id + 1
                    &&& final(self)@.observations == old(self)@.observations
                    &&& final(self)@.proposals == old(self)@.proposals
                    &&& final(self)@.log == old(self)@.log
                    &&& final(self)@.next_observation == old(self)@.next_observation
                    &&& final(self)@.next_proposal == old(self)@.next_proposal
                    &&& final(self)@.next_log == old(self)@.next_log
                },
            },
    {
        if self.next_edge == i64::MAX {
            return None;
        }
        let id = self.next_edge;
        let mut e = e;
        e.id = id;
        let ghost ev = e@;
        self.custom_edges.push(e);
        self.next_edge = id + 1;
        assert(edge_views(self.custom_edges@) =~= old(self)@.edges.push(ev));
        Some(id)
    }

    /// Appends a context-log entry under the next log id, which it returns (`None`,
    /// and no change, once the ids are used up).
    pub fn push_log(&mut self, e: ContextLogEntry) -> (r: Option<i64>)
        ensures
            match r {
                None => old(self)@.next_log == i64::MAX && final(self)@ == old(self)@,
                Some(id) => {
                    &&& id == old(self)@.next_log && id < i64::MAX
                    &&& final(self)@.log == old(self)@.log.push(LogView { id, ..e@ })
                    &&& final(self)@.next_log == id + 1
                    &&& final(self)@.observations == old(self)@.observations
                    &&& final(self)@.proposals == old(self)@.proposals
                    &&& final(self)@.edges == old(self)@.edges
                    &&& final(self)@.next_observation == old(self)@.next_observation
                    &&& final(self)@.next_proposal == old(self)@.next_proposal
                    &&& final(self)@.next_edge == old(self)@.next_edge
                    &&& (old(self).wf() ==> final(self).wf())
                },
            },
    {
        if self.next_log == i64::MAX {
            return None;
        }
        let id = self.next_log;
        let mut e = e;
        e.id = id;
        let ghost ev = e@;
        self.context_log.push(e);
        self.next_log = id + 1;
        assert(log_views(self.context_log@) =~= old(self)@.log.push(ev));
        proof {
            let a = old(self)@.log.map_values(|e: LogView| e.id);
            let b = self@.log.map_values(|e: LogView| e.id);
            assert(b =~= a.push(id));
            if old(self).wf() {
                assert(pending_backed(self@)) by {
                    assert forall|i: int|
                        0 <= i < self@.proposals.len() && #[trigger] self@.proposals[i].status
                            == ProposalStatus::Pending implies exists|k: int|
                        0 <= k < self@.observations.len() && #[trigger] backs(
                            self@.observations[k],
                            self@.proposals[i],
                        ) by {
                        assert(self@.proposals[i] == old(self)@.proposals[i]);
                        let k = choose|k: int|
                            0 <= k < old(self)@.observations.len() && #[trigger] backs(
                                old(self)@.observations[k],
                                old(self)@.proposals[i],
                            );
                        assert(backs(self@.observations[k], self@.proposals[i]));
                    }
                }
            }
        }
        Some(id)
    }

    /// Sets the status of the observation with id `id` (no change if there is none).
    pub(crate) fn set_observation_status(&mut self, id: i64, status: ObservationStatus)
        ensures
            final(self)@.observations.len() == old(self)@.observations.len(),
            forall|k: int|
                0 <= k < old(self)@.observations.len() ==> #[trigger] final(self)@.observations[k] == (if old(
                    self,
                )@.observations[k].id == id {
                    ObsView { status, ..old(self)@.observations[k] }
                } else {
                    old(self)@.observations[k]
                }),
            final(self)@.proposals == old(self)@.proposals,
            final(self)@.edges == old(self)@.edges,
            final(self)@.log == old(self)@.log,
            final(self)@.next_observation == old(self)@.next_observation,
            final(self)@.next_proposal == old(self)@.next_proposal,
            final(self)@.next_edge == old(self)@.next_edge,
            final(self)@.next_log == old(self)@.next_log,
    {
        let mut i: usize = 0;
        while i < self.observations.len()
            invariant
                i <= self.observations@.len(),
                self.observations@.len() == old(self).observations@.len(),
                forall|k: int|
                    0 <= k < self.observations@.len() ==> #[trigger] self.observations@[k]@ == (if k < i
                        && old(self).observations@[k]@.id == id {
                        ObsView { status, ..old(self).observations@[k]@ }
                    } else {
                        old(self).observations@[k]@
                    }),
                self.proposals == old(self).proposals,
                self.custom_edges == old(self).custom_edges,
                self.context_log == old(self).context_log,
                self.next_observation == old(self).next_observation,
                self.next_proposal == old(self).next_proposal,
                self.next_edge == old(self).next_edge,
                self.next_log == old(self).next_log,
            decreases self.observations@.len() - i,
        {
            if self.observations[i].observation.id == id {
                let ghost before = self.observations@;
                let mut row = self.observations.remove(i);
                let ghost orig = row@;
                row.observation.status = status;
                assert(row@ == ObsView { status: status, ..orig });
                self.observations.insert(i, row);
                assert(self.observations@ =~= before.update(i as int, row));
                assert(self.observations@[i as int]@ == ObsView { status: status, ..orig });
            }
            i = i + 1;
        }
        assert(final(self)@.observations =~= self@.observations);
    }
}


/// Whether `ids` are strictly increasing, each at least 1 and below `next`.
fn ids_in_order(ids: &Vec<i64>, next: i64) -> (r: bool)
    ensures
        r == ids_ok(ids@, next),
{
    if next < 1 {
        return false;
    }
    let mut i: usize = 0;
    while i < ids.len()
        invariant
            i <= ids@.len(),
            next >= 1,
            forall|a: int, b: int| 0 <= a < b < i ==> ids@[a] < ids@[b],
            forall|a: int| 0 <= a < i ==> 1 <= #[trigger] ids@[a] < next,
        decreases ids@.len() - i,
    {
        if ids[i] < 1 || ids[i] >= next {
            return false;
        }
        if i > 0 && ids[i - 1] >= ids[i] {
            return false;
        }
        assert forall|a: int, b: int| 0 <= a < b < i + 1 implies ids@[a] < ids@[b] by {
            if b == i && a < i - 1 {
                assert(ids@[a] < ids@[i - 1]);
            }
        }
        i = i + 1;
    }
    true
}

/// The database that the given tables and next ids make.
pub open spec fn db_of(
    observations: Seq<ObservationRow>,
    proposals: Seq<Proposal>,
    edges: Seq<CustomEdge>,
    log: Seq<ContextLogEntry>,
    next_observation: i64,
    next_proposal: i64,
    next_edge: i64,
    next_log: i64,
) -> DbView {
    DbView {
        observations: obs_views(observations),
        proposals: proposal_views(proposals),
        edges: edge_views(edges),
        log: log_views(log),
        next_observation,
        next_proposal,
        next_edge,
        next_log,
    }
}

/// Whether observation `o` backs pending proposal `p`.
fn backs_exec(o: &ObservationRow, p: &Proposal) -> (r: bool)
    ensures
        r == backs(o@, p@),
{
    if o.observation.id != p.observation_id || o.observation.status != ObservationStatus::Analyzing {
        return false;
    }
    match crate::feedback::analyzer::generate_proposal_action(o) {
        Some(a) => crate::text::str_eq(crate::feedback::analyzer::build_semantic_key(&a).as_str(), p.semantic_key.as_str()),
        None => false,
    }
}

impl Connection {
    /// The engine database with the given tables and next ids, as stored; none when
    /// they break its invariant (ids in increasing order below the next ones, no two
    /// open observations with the same category and key, no two pending proposals with
    /// the same semantic key or observation, every pending proposal backed by an
    /// observation under analysis).
    pub fn restore(
        observations: Vec<ObservationRow>,
        proposals: Vec<Proposal>,
        custom_edges: Vec<CustomEdge>,
        context_log: Vec<ContextLogEntry>,
        next_observation: i64,
        next_proposal: i64,
        next_edge: i64,
        next_log: i64,
    ) -> (r: Option<Connection>)
        ensures
            match r {
                Some(c) => c@ == db_of(
                    observations@,
                    proposals@,
                    custom_edges@,
                    context_log@,
                    next_observation,
                    next_proposal,
                    next_edge,
                    next_log,
                ) && c.wf(),
                None => !db_ok(
                    db_of(
                        observations@,
                        proposals@,
                        custom_edges@,
                        context_log@,
                        next_observation,
                        next_proposal,
                        next_edge,
                        next_log,
                    ),
                ),
            },
    {
        let ghost v = db_of(
            observations@,
            proposals@,
            custom_edges@,
            context_log@,
            next_observation,
            next_proposal,
            next_edge,
            next_log,
        );
        let mut oids: Vec<i64> = Vec::new();
        let mut i: usize = 0;
        while i < observations.len()
            invariant
                i <= observations@.len(),
                oids@ == obs_views(observations@).map_values(|o: ObsView| o.id).take(i as int),
            decreases observations@.len() - i,
        {
            oids.push(observations[i].observation.id);
            assert(oids@ =~= obs_views(observations@).map_values(|o: ObsView| o.id).take(i + 1));
            i = i + 1;
        }
        assert(oids@ =~= v.observations.map_values(|o: ObsView| o.id));
        let mut pids: Vec<i64> = Vec::new();
        let mut i: usize = 0;
        while i < proposals.len()
            invariant
                i <= proposals@.len(),
                pids@ == proposal_views(proposals@).map_values(|p: ProposalView| p.id).take(i as int),
            decreases proposals@.len() - i,
        {
            pids.push(proposals[i].id);
            assert(pids@ =~= proposal_views(proposals@).map_values(|p: ProposalView| p.id).take(i + 1));
            i = i + 1;
        }
        assert(pids@ =~= v.proposals.map_values(|p: ProposalView| p.id));
        let mut eids: Vec<i64> = Vec::new();
        let mut i: usize = 0;
        while i < custom_edges.len()
            invariant
                i <= custom_edges@.len(),
                eids@ == edge_views(custom_edges@).map_values(|e: EdgeView| e.id).take(i as int),
            decreases custom_edges@.len() - i,
        {
            eids.push(custom_edges[i].id);
            assert(eids@ =~= edge_views(custom_edges@).map_values(|e: EdgeView| e.id).take(i + 1));
            i = i + 1;
        }
        assert(eids@ =~= v.edges.map_values(|e: EdgeView| e.id));
        let mut lids: Vec<i64> = Vec::new();
        let mut i: usize = 0;
        while i < context_log.len()
            invariant
                i <= context_log@.len(),
                lids@ == log_views(context_log@).map_values(|e: LogView| e.id).take(i as int),
            decreases context_log@.len() - i,
        {
            lids.push(context_log[i].id);
            assert(lids@ =~= log_views(context_log@).map_values(|e: LogView| e.id).take(i + 1));
            i = i + 1;
        }
        assert(lids@ =~= v.log.map_values(|e: LogView| e.id));
        if !ids_in_order(&oids, next_observation) || !ids_in_order(&pids, next_proposal) || !ids_in_order(
            &eids,
            next_edge,
        ) || !ids_in_order(&lids, next_log) {
            return None;
        }
        let mut a: usize = 0;
        while a < observations.len()
            invariant
                a <= observations@.len(),
                v.observations == obs_views(observations@),
                forall|x: int, y: int|
                    0 <= x < a && 0 <= y < observations@.len() && x != y && active(#[trigger] v.observations[x].status)
                        && active(#[trigger] v.observations[y].status) ==> !(v.observations[x].category
                        == v.observations[y].category && v.observations[x].key == v.observations[y].key),
            decreases observations@.len() - a,
        {
            let oa = &observations[a].observation;
            let mut b: usize = 0;
            while b < observations.len()
                invariant
                    a < observations@.len(),
                    b <= observations@.len(),
                    v.observations == obs_views(observations@),
                    *oa == observations@[a as int].observation,
                    forall|y: int|
                        0 <= y < b && a != y && active(v.observations[a as int].status) && active(
                            #[trigger] v.observations[y].status,
                        ) ==> !(v.observations[a as int].category == v.observations[y].category
                            && v.observations[a as int].key == v.observations[y].key),
                decreases observations@.len() - b,
            {
                let ob = &observations[b].observation;
                if a != b && (oa.status == ObservationStatus::Pending || oa.status == ObservationStatus::Analyzing) && (
                ob.status == ObservationStatus::Pending || ob.status == ObservationStatus::Analyzing)
                    && crate::text::str_eq(oa.category.as_str(), ob.category.as_str()) && crate::text::str_eq(
                    observations[a].key.as_str(),
                    observations[b].key.as_str(),
                ) {
                    proof {
                        assert(!unique_active(v.observations)) by {
                            assert(active(v.observations[a as int].status) && active(v.observations[b as int].status));
                        }
                    }
                    return None;
                }
                b = b + 1;
            }
            a = a + 1;
        }
        let mut a: usize = 0;
        while a < proposals.len()
            invariant
                a <= proposals@.len(),
                v.proposals == proposal_views(proposals@),
                v.observations == obs_views(observations@),
                forall|x: int, y: int|
                    0 <= x < a && 0 <= y < proposals@.len() && x != y && #[trigger] v.proposals[x].status
                        == ProposalStatus::Pending && #[trigger] v.proposals[y].status == ProposalStatus::Pending
                        ==> v.proposals[x].semantic_key != v.proposals[y].semantic_key && v.proposals[x].observation_id
                        != v.proposals[y].observation_id,
                forall|x: int|
                    0 <= x < a && #[trigger] v.proposals[x].status == ProposalStatus::Pending ==> exists|k: int|
                        0 <= k < v.observations.len() && #[trigger] backs(v.observations[k], v.proposals[x]),
            decreases proposals@.len() - a,
        {
            let pa = &proposals[a];
            if pa.status == ProposalStatus::Pending {
                let mut b: usize = 0;
                while b < proposals.len()
                    invariant
                        a < proposals@.len(),
                        b <= proposals@.len(),
                        v.proposals == proposal_views(proposals@),
                        *pa == proposals@[a as int],
                        pa.status == ProposalStatus::Pending,
                        forall|y: int|
                            0 <= y < b && a != y && #[trigger] v.proposals[y].status == ProposalStatus::Pending
                                ==> v.proposals[a as int].semantic_key != v.proposals[y].semantic_key
                                && v.proposals[a as int].observation_id != v.proposals[y].observation_id,
                    decreases proposals@.len() - b,
                {
                    let pb = &proposals[b];
                    if a != b && pb.status == ProposalStatus::Pending && (crate::text::str_eq(
                        pa.semantic_key.as_str(),
                        pb.semantic_key.as_str(),
                    ) || pa.observation_id == pb.observation_id) {
                        proof {
                            assert(!unique_pending(v.proposals)) by {
                                assert(v.proposals[a as int].status == ProposalStatus::Pending);
                                assert(v.proposals[b as int].status == ProposalStatus::Pending);
                            }
                        }
                        return None;
                    }
                    b = b + 1;
                }
                let mut found = false;
                let mut k: usize = 0;
                while k < observations.len() && !found
                    invariant
                        a < proposals@.len(),
                        k <= observations@.len(),
                        v.proposals == proposal_views(proposals@),
                        v.observations == obs_views(observations@),
                        *pa == proposals@[a as int],
                        found ==> exists|q: int| 0 <= q < v.observations.len() && #[trigger] backs(v.observations[q], v.proposals[a as int]),
                        !found ==> forall|q: int| 0 <= q < k ==> !#[trigger] backs(v.observations[q], v.proposals[a as int]),
                    decreases observations@.len() - k,
                {
                    if backs_exec(&observations[k], pa) {
                        found = true;
                        assert(backs(v.observations[k as int], v.proposals[a as int]));
                    }
                    k = k + 1;
                }
                if !found {
                    proof {
                        assert(!pending_backed(v)) by {
                            assert(v.proposals[a as int].status == ProposalStatus::Pending);
                        }
                    }
                    return None;
                }
            }
            a = a + 1;
        }
        let c = Connection {
            observations,
            proposals,
            custom_edges,
            context_log,
            next_observation,
            next_proposal,
            next_edge,
            next_log,
        };
        assert(c@ == v);
        Some(c)
    }
}

} // verus!
