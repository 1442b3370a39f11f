use vstd::prelude::*;

use crate::check::{finding_views, CheckReport};
use crate::feedback::analyzer::{analyze_effect, Proposal, ProposalAnalyzer, ProposalStatus, ProposalView};
use crate::feedback::db::{proposal_views, Connection, DbView};
use crate::feedback::error::FeedbackError;
use crate::feedback::manager::{approve_effect, reject_effect, ProposalManager};
use crate::feedback::observer::{observations_of, AutoObserver, NewObservation, NewObservationView};
use crate::feedback::recorder::{record_effect, ObservationRecorder, RecordResult};

verus! {

/// The outcome of `feedback`: how many observations were created and how many were
/// already open.
#[derive(Debug, Clone, Copy, PartialEq, Eq, Structural)]
pub struct FeedbackReport {
    pub observations_created: usize,
    pub observations_skipped: usize,
}

/// One line of the proposal list.
#[derive(Debug, Clone, PartialEq, Eq)]
pub struct ProposalSummary {
    pub id: i64,
    pub kind: String,
    pub semantic_key: String,
    pub title: String,
    pub status: ProposalStatus,
    pub created_at: String,
}

/// The summary of a proposal, as plain values.
pub open spec fn summary_of(p: ProposalView) -> (i64, Seq<char>, Seq<char>, Seq<char>, ProposalStatus, Seq<char>) {
    (p.id, p.kind, p.semantic_key, p.title, p.status, p.created_at)
}

impl View for ProposalSummary {
    type V = (i64, Seq<char>, Seq<char>, Seq<char>, ProposalStatus, Seq<char>);

    open spec fn view(&self) -> (i64, Seq<char>, Seq<char>, Seq<char>, ProposalStatus, Seq<char>) {
        (self.id, self.kind@, self.semantic_key@, self.title@, self.status, self.created_at@)
    }
}

/// Recording `obs` one after the other passes through `states` (from the first to
/// the last), each recording succeeding with the result in `rs`.
pub open spec fn records(states: Seq<DbView>, obs: Seq<NewObservationView>, rs: Seq<RecordResult>) -> bool {
    &&& states.len() == obs.len() + 1
    &&& rs.len() == obs.len()
    &&& forall|k: int| 0 <= k < obs.len() ==> #[trigger] record_effect(states[k], obs[k], states[k + 1], Ok(rs[k]))
}

/// How many of `rs` created an observation (`skipped == false`), or did not.
pub open spec fn count_skipped(rs: Seq<RecordResult>, skipped: bool) -> nat
    decreases rs.len(),
{
    if rs.len() == 0 {
        0
    } else {
        count_skipped(rs.drop_last(), skipped) + if rs.last().skipped == skipped {
            1nat
        } else {
            0nat
        }
    }
}

proof fn lemma_count_skipped_bound(rs: Seq<RecordResult>, skipped: bool)
    ensures
        count_skipped(rs, skipped) <= rs.len(),
    decreases rs.len(),
{
    if rs.len() > 0 {
        lemma_count_skipped_bound(rs.drop_last(), skipped);
    }
}

/// The proposals of `ps` with status `status` (all of them for `None`), as summaries.
pub open spec fn summaries(ps: Seq<ProposalView>, status: Option<ProposalStatus>) -> Seq<
    (i64, Seq<char>, Seq<char>, Seq<char>, ProposalStatus, Seq<char>),
>
    decreases ps.len(),
{
    if ps.len() == 0 {
        Seq::empty()
    } else {
        let rest = summaries(ps.drop_last(), status);
        match status {
            Some(s) => if ps.last().status == s {
                rest.push(summary_of(ps.last()))
            } else {
                rest
            },
            None => rest.push(summary_of(ps.last())),
        }
    }
}

/// The feedback-loop commands.
pub struct FeedbackCli;

impl FeedbackCli {
    /// Records the observations that the findings of `check_report` yield, in order,
    /// and counts those created and those already open. Stops at the first failure.
    pub fn run_feedback(db: &mut Connection, check_report: &CheckReport) -> (r: Result<FeedbackReport, FeedbackError>)
        requires
            old(db).wf(),
        ensures
            final(db).wf(),
            match r {
                Ok(rep) => exists|states: Seq<DbView>, rs: Seq<RecordResult>|
                    #[trigger] records(states, observations_of(finding_views(check_report.findings@)), rs) && states[0]
                        == old(db)@ && states.last() == final(db)@ && rep.observations_created == count_skipped(rs, false) && rep.observations_skipped
                        == count_skipped(rs, true),
                Err(e) => exists|states: Seq<DbView>, rs: Seq<RecordResult>, k: int|
                    0 <= k < observations_of(finding_views(check_report.findings@)).len() && #[trigger] records(
                        states,
                        observations_of(finding_views(check_report.findings@)).take(k),
                        rs,
                    ) && states[0] == old(db)@ && record_effect(
                        states.last(),
                        observations_of(finding_views(check_report.findings@))[k],
                        final(db)@,
                        Err(e),
                    ),
            },
    {
        let candidates = AutoObserver::from_check_results(check_report);
        let ghost obs = candidates@.map_values(|o: NewObservation| o@);
        proof {
            assert(observations_of(finding_views(check_report.findings@)) == obs);
        }
        let ghost a = db@;
        let ghost mut rs: Seq<RecordResult> = Seq::empty();
        let ghost mut states: Seq<DbView> = seq![a];
        let mut report = FeedbackReport { observations_created: 0, observations_skipped: 0 };
        let mut i: usize = 0;
        proof {
            assert(obs.take(0) =~= Seq::<NewObservationView>::empty());
            assert(records(states, obs.take(0), rs));
        }
        while i < candidates.len()
            invariant
                i <= candidates@.len(),
                obs == candidates@.map_values(|o: NewObservation| o@),
                db.wf(),
                records(states, obs.take(i as int), rs),
                observations_of(finding_views(check_report.findings@)) == obs,
                states[0] == a,
                a == old(db)@,
                states.last() == db@,
                rs.len() == i,
                report.observations_created == count_skipped(rs, false),
                report.observations_skipped == count_skipped(rs, true),
            decreases candidates.len() - i,
        {
            let ghost m = db@;
            let rr = ObservationRecorder::record(&candidates[i], db);
            let ghost rv = rr;
            let result = match rr {
                Ok(x) => x,
                Err(e) => {
                    proof {
                        assert(obs[i as int] == candidates@[i as int]@);
                        assert(rv == Err::<RecordResult, FeedbackError>(e));
                        assert(exists|st: Seq<DbView>, r2: Seq<RecordResult>, k: int|
                            0 <= k < obs.len() && #[trigger] records(st, obs.take(k), r2) && st[0] == a
                                && record_effect(st.last(), obs[k], db@, Err(e))) by {
                            assert(0 <= i < obs.len());
                            assert(records(states, obs.take(i as int), rs));
                        }
                    }
                    return Err(e);
                },
            };
            proof {
                lemma_count_skipped_bound(rs, false);
                lemma_count_skipped_bound(rs, true);
                let t = obs.take(i + 1);
                let nrs = rs.push(result);
                assert(nrs.drop_last() =~= rs);
                let nst = states.push(db@);
                assert(rv == Ok::<RecordResult, FeedbackError>(result));
                assert forall|k: int| 0 <= k < t.len() implies #[trigger] record_effect(nst[k], t[k], nst[k + 1], Ok(nrs[k])) by {
                    if k < i {
                        assert(t[k] == obs.take(i as int)[k]);
                        assert(record_effect(states[k], obs.take(i as int)[k], states[k + 1], Ok(rs[k])));
                    } else {
                        assert(t[k] == candidates@[i as int]@);
                    }
                }
                rs = nrs;
                states = nst;
            }
            if result.skipped {
                report.observations_skipped = report.observations_skipped + 1;
            } else {
                report.observations_created = report.observations_created + 1;
            }
            i = i + 1;
        }
        proof {
            assert(obs.take(obs.len() as int) =~= obs);
            assert(observations_of(finding_views(check_report.findings@)) == obs);
        }
        Ok(report)
    }

    /// Runs the analysis (see `ProposalAnalyzer::analyze`).
    pub fn run_analyze(db: &mut Connection) -> (r: Result<Vec<Proposal>, FeedbackError>)
        requires
            old(db).wf(),
        ensures
            final(db).wf(),
            analyze_effect(
                old(db)@,
                final(db)@,
                match r {
                    Ok(v) => Ok(proposal_views(v@)),
                    Err(e) => Err(e),
                },
            ),
    {
        ProposalAnalyzer::analyze(db)
    }

    /// The proposals, in id order, all of them or those with the given status.
    pub fn list_proposals(db: &Connection, status_filter: Option<ProposalStatus>) -> (r: Result<
        Vec<ProposalSummary>,
        FeedbackError,
    >)
        ensures
            r matches Ok(v) && v@.map_values(|s: ProposalSummary| s@) == summaries(db@.proposals, status_filter),
    {
        let rows = db.proposal_rows();
        let ghost ps = db@.proposals;
        let mut out: Vec<ProposalSummary> = Vec::new();
        let mut i: usize = 0;
        while i < rows.len()
            invariant
                i <= rows@.len(),
                proposal_views(rows@) == ps,
                out@.map_values(|s: ProposalSummary| s@) == summaries(ps.take(i as int), status_filter),
            decreases rows.len() - i,
        {
            proof {
                assert(ps.take(i + 1).drop_last() =~= ps.take(i as int));
                assert(ps.take(i + 1).last() == rows@[i as int]@);
            }
            let p = &rows[i];
            let keep = match status_filter {
                Some(s) => p.status == s,
                None => true,
            };
            if keep {
                let ghost before = out@.map_values(|s: ProposalSummary| s@);
                let s = ProposalSummary {
                    id: p.id,
                    kind: p.kind.clone(),
                    semantic_key: p.semantic_key.clone(),
                    title: p.title.clone(),
                    status: p.status,
                    created_at: p.created_at.clone(),
                };
                out.push(s);
                assert(out@.map_values(|s: ProposalSummary| s@) =~= before.push(summary_of(p@)));
            }
            i = i + 1;
        }
        assert(ps.take(ps.len() as int) =~= ps);
        Ok(out)
    }

    /// Approves a proposal (see `ProposalManager::approve`).
    pub fn approve(db: &mut Connection, proposal_id: i64) -> (r: Result<(), FeedbackError>)
        requires
            old(db).wf(),
        ensures
            final(db).wf(),
            approve_effect(old(db)@, proposal_id, final(db)@, r),
    {
        ProposalManager::approve(proposal_id, db)
    }

    /// Rejects a proposal (see `ProposalManager::reject`).
    pub fn reject(db: &mut Connection, proposal_id: i64, reason: &str) -> (r: Result<(), FeedbackError>)
        requires
            old(db).wf(),
        ensures
            final(db).wf(),
            reject_effect(old(db)@, proposal_id, reason@, final(db)@, r),
    {
        ProposalManager::reject(proposal_id, reason, db)
    }
}

} // verus!
