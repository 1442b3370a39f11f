use vstd::prelude::*;

use crate::feedback::analyzer::{
    opt_view, proposal_status_name, untimed, with_observation_status, Proposal, ProposalStatus, ProposalView,
};
use crate::feedback::db::{
    backs, db_ok, now_text, obs_views, proposal_views, unique_pending, Connection, CustomEdge, DbView, EdgeView,
    ObsView, edge_views,
};
use crate::feedback::error::{DbStubError, FeedbackError};
use crate::feedback::observer::ObservationStatus;
use crate::text::{blank, is_blank, str_eq};

verus! {

/// Whether `text` is well-formed JSON (`serde_json::from_str::<Value>` succeeds).
pub uninterp spec fn json_parses(text: Seq<char>) -> bool;

/// The string stored under `field` when `text` is a JSON object holding a string
/// there.
pub uninterp spec fn json_string_field(text: Seq<char>, field: Seq<char>) -> Option<Seq<char>>;

/// `serde_json::from_str::<Value>(text)` and then `get(field)` and `as_str()`:
/// an error exactly when the text is no JSON, else the string under `field`, if
/// there is one.
#[verifier::external_body]
fn json_string_at(text: &str, field: &str) -> (r: Result<Option<String>, String>)
    ensures
        match r {
            Ok(o) => json_parses(text@) && match o {
                Some(s) => json_string_field(text@, field@) == Some(s@),
                None => json_string_field(text@, field@) is None,
            },
            Err(_) => !json_parses(text@),
        },
{
    match serde_json::from_str::<serde_json::Value>(text) {
        Ok(v) => match v.get(field) {
            Some(x) => match x.as_str() {
                Some(s) => Ok(Some(s.to_string())),
                None => Ok(None),
            },
            None => Ok(None),
        },
        Err(e) => Err(e.to_string()),
    }
}

/// The string under `field` of JSON `text` (empty when there is none or it is no
/// string), or the parse error.
fn json_field_or_empty(text: &str, field: &str) -> (r: Result<String, String>)
    ensures
        match r {
            Ok(s) => json_parses(text@) && s@ == field_or_empty(text@, field@),
            Err(_) => !json_parses(text@),
        },
{
    match json_string_at(text, field) {
        Ok(Some(s)) => Ok(s),
        Ok(None) => Ok(String::new()),
        Err(e) => Err(e),
    }
}

/// The string under `field` of JSON `text`, or the empty string.
pub open spec fn field_or_empty(text: Seq<char>, field: Seq<char>) -> Seq<char> {
    match json_string_field(text, field) {
        Some(x) => x,
        None => Seq::empty(),
    }
}

/// Index of the proposal with id `id`.
pub open spec fn find_proposal(ps: Seq<ProposalView>, id: i64) -> Option<int>
    decreases ps.len(),
{
    if ps.len() == 0 {
        None
    } else {
        match find_proposal(ps.drop_last(), id) {
            Some(i) => Some(i),
            None => if ps.last().id == id {
                Some(ps.len() - 1)
            } else {
                None
            },
        }
    }
}

/// `v` with proposal `i` decided as `status` (with reason `reason`) and its
/// observation set to `obs_status`, timestamps blanked.
pub open spec fn decided(v: DbView, i: int, status: ProposalStatus, reason: Option<Seq<char>>, obs_status: ObservationStatus) -> DbView {
    let w = DbView {
        proposals: v.proposals.update(
            i,
            ProposalView { status, decided_at: Some(Seq::empty()), decided_reason: reason, ..v.proposals[i] },
        ),
        ..v
    };
    untimed(with_observation_status(w, v.proposals[i].observation_id, obs_status))
}

/// The refusal of a decision on a proposal that is not pending.
pub open spec fn not_pending_error(r: Result<(), FeedbackError>, id: i64, p: ProposalView) -> bool {
    r matches Err(FeedbackError::InvalidProposalStatus { id: x, expected, actual }) && x == id && expected@
        == "pending"@ && actual@ == proposal_status_name(p.status)
}

/// Some custom edge leads from `from` to `to`.
pub open spec fn edge_exists(edges: Seq<EdgeView>, from: Seq<char>, to: Seq<char>) -> bool {
    exists|k: int| 0 <= k < edges.len() && (#[trigger] edges[k]).from == from && edges[k].to == to
}

/// The effect of approving proposal `id` on `a`, leaving `b`, returning `r`: an
/// unknown id or a decided proposal is refused without change; otherwise the
/// proposal becomes approved and its observation resolved. A proposal of kind
/// `add_custom_edge` also adds the custom edge its action names; if its action is no
/// JSON, the edge exists already, or the edge ids are used up, nothing changes and
/// the approval fails.
pub open spec fn approve_effect(a: DbView, id: i64, b: DbView, r: Result<(), FeedbackError>) -> bool {
    match find_proposal(a.proposals, id) {
        None => r matches Err(FeedbackError::ProposalNotFound { id: x }) && x == id && b == a,
        Some(i) => {
            let p = a.proposals[i];
            if p.status != ProposalStatus::Pending {
                not_pending_error(r, id, p) && b == a
            } else if p.kind != "add_custom_edge"@ {
                r is Ok && untimed(b) == decided(a, i, ProposalStatus::Approved, None, ObservationStatus::Resolved)
            } else if !json_parses(p.action_json) {
                r matches Err(FeedbackError::Json(_)) && b == a
            } else {
                let from = field_or_empty(p.action_json, "from_id"@);
                let to = field_or_empty(p.action_json, "to_id"@);
                let reason = field_or_empty(p.action_json, "reason"@);
                if edge_exists(a.edges, from, to) || a.next_edge == i64::MAX {
                    r matches Err(FeedbackError::Db(_)) && b == a
                } else {
                    let d = decided(a, i, ProposalStatus::Approved, None, ObservationStatus::Resolved);
                    &&& r is Ok
                    &&& untimed(b) == DbView {
                        edges: d.edges.push(EdgeView { id: a.next_edge, from, to, reason: Some(reason), created_at: None }),
                        next_edge: (a.next_edge + 1) as i64,
                        ..d
                    }
                }
            }
        },
    }
}

/// The effect of rejecting proposal `id` with `reason` on `a`, leaving `b`,
/// returning `r`: a blank reason, an unknown id or a decided proposal is refused
/// without change; otherwise the proposal becomes rejected with the reason, and its
/// observation goes back to pending.
pub open spec fn reject_effect(a: DbView, id: i64, reason: Seq<char>, b: DbView, r: Result<(), FeedbackError>) -> bool {
    if is_blank(reason) {
        r matches Err(FeedbackError::EmptyRejectReason) && b == a
    } else {
        match find_proposal(a.proposals, id) {
            None => r matches Err(FeedbackError::ProposalNotFound { id: x }) && x == id && b == a,
            Some(i) => {
                let p = a.proposals[i];
                if p.status != ProposalStatus::Pending {
                    not_pending_error(r, id, p) && b == a
                } else {
                    r is Ok && untimed(b) == decided(a, i, ProposalStatus::Rejected, Some(reason), ObservationStatus::Pending)
                }
            },
        }
    }
}

proof fn lemma_find_proposal(ps: Seq<ProposalView>, id: i64)
    ensures
        match find_proposal(ps, id) {
            Some(i) => 0 <= i < ps.len() && ps[i].id == id,
            None => forall|j: int| 0 <= j < ps.len() ==> (#[trigger] ps[j]).id != id,
        },
    decreases ps.len(),
{
    if ps.len() > 0 {
        lemma_find_proposal(ps.drop_last(), id);
        assert forall|j: int| 0 <= j < ps.len() - 1 implies ps.drop_last()[j] == ps[j] by {}
    }
}


proof fn lemma_find_same_ids(s1: Seq<ProposalView>, s2: Seq<ProposalView>, id: i64)
    requires
        s1.len() == s2.len(),
        forall|k: int| 0 <= k < s1.len() ==> #[trigger] s1[k].id == s2[k].id,
    ensures
        find_proposal(s1, id) == find_proposal(s2, id),
    decreases s1.len(),
{
    if s1.len() > 0 {
        lemma_find_same_ids(s1.drop_last(), s2.drop_last(), id);
        assert(s1.last().id == s2.last().id);
    }
}

/// After a decision on proposal `i` of `a` (`b` up to timestamps), the proposal is
/// found under the same id with the decided status.
proof fn lemma_decided_found(
    a: DbView,
    b: DbView,
    id: i64,
    i: int,
    status: ProposalStatus,
    reason: Option<Seq<char>>,
    obs_status: ObservationStatus,
)
    requires
        find_proposal(a.proposals, id) == Some(i),
        untimed(b).proposals == decided(a, i, status, reason, obs_status).proposals,
    ensures
        find_proposal(b.proposals, id) == Some(i),
        b.proposals[i].status == status,
{
    lemma_find_proposal(a.proposals, id);
    let ub = untimed(b).proposals;
    assert(ub.len() == b.proposals.len());
    assert forall|k: int| 0 <= k < b.proposals.len() implies #[trigger] b.proposals[k].id == a.proposals[k].id by {
        assert(ub[k].id == b.proposals[k].id);
    }
    lemma_find_same_ids(b.proposals, a.proposals, id);
    assert(ub[i].status == b.proposals[i].status);
}

/// A decided proposal stays decided: once approving proposal `id` succeeded, approving
/// or rejecting it again is refused as not pending and changes nothing.
pub proof fn law_approved_is_final(
    a: DbView,
    id: i64,
    b: DbView,
    r1: Result<(), FeedbackError>,
    reason: Seq<char>,
    c: DbView,
    r2: Result<(), FeedbackError>,
)
    requires
        approve_effect(a, id, b, r1),
        r1 is Ok,
        approve_effect(b, id, c, r2) || (reject_effect(b, id, reason, c, r2) && !is_blank(reason)),
    ensures
        r2 matches Err(FeedbackError::InvalidProposalStatus { id: x, .. }) && x == id,
        c == b,
{
    let i = find_proposal(a.proposals, id)->Some_0;
    let d = decided(a, i, ProposalStatus::Approved, None, ObservationStatus::Resolved);
    assert(untimed(b).proposals == d.proposals);
    lemma_decided_found(a, b, id, i, ProposalStatus::Approved, None, ObservationStatus::Resolved);
}

/// A rejected proposal stays rejected: once rejecting proposal `id` succeeded,
/// approving or rejecting it again is refused as not pending and changes nothing.
pub proof fn law_rejected_is_final(
    a: DbView,
    id: i64,
    reason1: Seq<char>,
    b: DbView,
    r1: Result<(), FeedbackError>,
    reason: Seq<char>,
    c: DbView,
    r2: Result<(), FeedbackError>,
)
    requires
        reject_effect(a, id, reason1, b, r1),
        r1 is Ok,
        approve_effect(b, id, c, r2) || (reject_effect(b, id, reason, c, r2) && !is_blank(reason)),
    ensures
        r2 matches Err(FeedbackError::InvalidProposalStatus { id: x, .. }) && x == id,
        c == b,
{
    let i = find_proposal(a.proposals, id)->Some_0;
    let d = decided(a, i, ProposalStatus::Rejected, Some(reason1), ObservationStatus::Pending);
    assert(untimed(b).proposals == d.proposals);
    lemma_decided_found(a, b, id, i, ProposalStatus::Rejected, Some(reason1), ObservationStatus::Pending);
}

/// Decides on proposals (compare-and-set on their status).
pub struct ProposalManager;

/// Index of the proposal with id `id`, if any.
fn proposal_index(db: &Connection, id: i64) -> (r: Option<usize>)
    ensures
        match r {
            Some(k) => find_proposal(db@.proposals, id) == Some(k as int),
            None => find_proposal(db@.proposals, id) is None,
        },
{
    let rows = db.proposal_rows();
    let ghost ps = db@.proposals;
    let mut i: usize = 0;
    while i < rows.len()
        invariant
            i <= rows@.len(),
            proposal_views(rows@) == ps,
            ps == db@.proposals,
            find_proposal(ps.take(i as int), id) is None,
        decreases rows.len() - i,
    {
        proof {
            assert(ps.take(i + 1).drop_last() =~= ps.take(i as int));
            assert(ps.take(i + 1).last() == rows@[i as int]@);
        }
        if rows[i].id == id {
            proof {
                assert(find_proposal(ps.take(i + 1), id) == Some(i as int));
                lemma_find_proposal_prefix(ps, id, i + 1);
            }
            return Some(i);
        }
        i = i + 1;
    }
    assert(ps.take(ps.len() as int) =~= ps);
    None
}

proof fn lemma_find_proposal_prefix(ps: Seq<ProposalView>, id: i64, k: int)
    requires
        0 <= k <= ps.len(),
        find_proposal(ps.take(k), id) is Some,
    ensures
        find_proposal(ps, id) == find_proposal(ps.take(k), id),
    decreases ps.len() - k,
{
    if k < ps.len() {
        assert(ps.take(k + 1).drop_last() =~= ps.take(k));
        lemma_find_proposal_prefix(ps, id, k + 1);
    } else {
        assert(ps.take(k) =~= ps);
    }
}

proof fn lemma_decide_ok(v: DbView, i: int, status: ProposalStatus, reason: Option<Seq<char>>, obs_status: ObservationStatus, d: Seq<char>)
    requires
        db_ok(v),
        0 <= i < v.proposals.len(),
        v.proposals[i].status == ProposalStatus::Pending,
        status != ProposalStatus::Pending,
        obs_status == ObservationStatus::Resolved || obs_status == ObservationStatus::Pending,
    ensures
        db_ok(with_observation_status(
            DbView {
                proposals: v.proposals.update(
                    i,
                    ProposalView { status, decided_at: Some(d), decided_reason: reason, ..v.proposals[i] },
                ),
                ..v
            },
            v.proposals[i].observation_id,
            obs_status,
        )),
{
    let p = v.proposals[i];
    let w0 = DbView {
        proposals: v.proposals.update(i, ProposalView { status, decided_at: Some(d), decided_reason: reason, ..p }),
        ..v
    };
    let w = with_observation_status(w0, p.observation_id, obs_status);
    let kp = choose|k: int| 0 <= k < v.observations.len() && #[trigger] backs(v.observations[k], v.proposals[i]);
    assert(w.observations.map_values(|o: ObsView| o.id) =~= v.observations.map_values(|o: ObsView| o.id));
    assert(w.proposals.map_values(|q: ProposalView| q.id) =~= v.proposals.map_values(|q: ProposalView| q.id));
    assert forall|k: int| 0 <= k < v.observations.len() && k != kp implies w.observations[k] == v.observations[k] by {
        if v.observations[k].id == p.observation_id {
            let ids = v.observations.map_values(|o: ObsView| o.id);
            assert(ids[k] == v.observations[k].id && ids[kp] == v.observations[kp].id);
            if k < kp {
                assert(ids[k] < ids[kp]);
            } else {
                assert(ids[kp] < ids[k]);
            }
        }
    }
    assert forall|x: int, y: int|
        0 <= x < w.observations.len() && 0 <= y < w.observations.len() && x != y && crate::feedback::db::active(
            #[trigger] w.observations[x].status,
        ) && crate::feedback::db::active(#[trigger] w.observations[y].status) implies !(w.observations[x].category
        == w.observations[y].category && w.observations[x].key == w.observations[y].key) by {
        assert(crate::feedback::db::active(v.observations[x].status) && crate::feedback::db::active(v.observations[y].status));
    }
    assert(unique_pending(w.proposals)) by {
        assert forall|x: int, y: int|
            0 <= x < w.proposals.len() && 0 <= y < w.proposals.len() && x != y && #[trigger] w.proposals[x].status
                == ProposalStatus::Pending && #[trigger] w.proposals[y].status == ProposalStatus::Pending implies w.proposals[x].semantic_key
            != w.proposals[y].semantic_key && w.proposals[x].observation_id != w.proposals[y].observation_id by {
            assert(w.proposals[x] == v.proposals[x] && w.proposals[y] == v.proposals[y]);
        }
    }
    assert forall|x: int|
        0 <= x < w.proposals.len() && #[trigger] w.proposals[x].status == ProposalStatus::Pending implies exists|k: int|
        0 <= k < w.observations.len() && #[trigger] backs(w.observations[k], w.proposals[x]) by {
        assert(x != i);
        assert(w.proposals[x] == v.proposals[x]);
        let k = choose|k: int| 0 <= k < v.observations.len() && #[trigger] backs(v.observations[k], v.proposals[x]);
        assert(v.proposals[x].observation_id != p.observation_id);
        assert(k != kp);
        assert(backs(w.observations[k], w.proposals[x]));
    }
}

impl ProposalManager {
    /// Approves a pending proposal (see `approve_effect`).
    pub fn approve(proposal_id: i64, db: &mut Connection) -> (r: Result<(), FeedbackError>)
        requires
            old(db).wf(),
        ensures
            final(db).wf(),
            approve_effect(old(db)@, proposal_id, final(db)@, r),
    {
        let ghost a = db@;
        let i = match proposal_index(db, proposal_id) {
            Some(i) => i,
            None => return Err(FeedbackError::ProposalNotFound { id: proposal_id }),
        };
        proof {
            lemma_find_proposal(a.proposals, proposal_id);
        }
        let rows = db.proposal_rows();
        let status = rows[i].status;
        let observation_id = rows[i].observation_id;
        let is_edge = str_eq(rows[i].kind.as_str(), "add_custom_edge");
        assert(a.proposals[i as int] == rows@[i as int]@);
        if status != ProposalStatus::Pending {
            return Err(
                FeedbackError::InvalidProposalStatus {
                    id: proposal_id,
                    expected: "pending",
                    actual: String::from_str(status.as_str()),
                },
            );
        }
        let mut edge: Option<CustomEdge> = None;
        if is_edge {
            let action = db.proposal_rows()[i].action_json.clone();
            let from_id = match json_field_or_empty(action.as_str(), "from_id") {
                Ok(s) => s,
                Err(e) => return Err(FeedbackError::Json(e)),
            };
            let to_id = match json_field_or_empty(action.as_str(), "to_id") {
                Ok(s) => s,
                Err(e) => return Err(FeedbackError::Json(e)),
            };
            let reason = match json_field_or_empty(action.as_str(), "reason") {
                Ok(s) => s,
                Err(e) => return Err(FeedbackError::Json(e)),
            };
            if Self::edge_present(db, from_id.as_str(), to_id.as_str()) {
                return Err(
                    FeedbackError::Db(
                        DbStubError::Op(String::from_str("UNIQUE constraint failed: custom_edges.from_id, custom_edges.to_id")),
                    ),
                );
            }
            if db.next_edge_id() == i64::MAX {
                return Err(FeedbackError::Db(DbStubError::Op(String::from_str("database or disk is full"))));
            }
            edge = Some(CustomEdge { id: 0, from_id, to_id, reason: Some(reason), created_at: Some(now_text()) });
        }
        let ghost before = db@;
        db.decide_proposal(i, ProposalStatus::Approved, now_text(), None);
        let ghost mid = db@;
        db.set_observation_status(observation_id, ObservationStatus::Resolved);
        proof {
            assert(db@.observations =~= with_observation_status(mid, observation_id, ObservationStatus::Resolved).observations);
            assert(db@ == with_observation_status(mid, observation_id, ObservationStatus::Resolved));
            lemma_decide_ok(a, i as int, ProposalStatus::Approved, None, ObservationStatus::Resolved, mid.proposals[i as int].decided_at->Some_0);
            assert(untimed(mid) == untimed(DbView {
                proposals: a.proposals.update(
                    i as int,
                    ProposalView { status: ProposalStatus::Approved, decided_at: Some(Seq::empty()), decided_reason: None, ..a.proposals[i as int] },
                ),
                ..a
            })) by {
                assert(untimed(mid).proposals =~= untimed(DbView {
                    proposals: a.proposals.update(
                        i as int,
                        ProposalView { status: ProposalStatus::Approved, decided_at: Some(Seq::empty()), decided_reason: None, ..a.proposals[i as int] },
                    ),
                    ..a
                }).proposals);
            }
            crate::feedback::analyzer::lemma_untimed_status(mid, observation_id, ObservationStatus::Resolved);
            crate::feedback::analyzer::lemma_untimed_status(DbView {
                proposals: a.proposals.update(
                    i as int,
                    ProposalView { status: ProposalStatus::Approved, decided_at: Some(Seq::empty()), decided_reason: None, ..a.proposals[i as int] },
                ),
                ..a
            }, observation_id, ObservationStatus::Resolved);
        }
        match edge {
            Some(e) => {
                let ghost ev = e@;
                let ghost pre = db@;
                match db.push_custom_edge(e) {
                    Some(_) => {
                        proof {
                            assert(untimed(db@).edges =~= untimed(pre).edges.push(EdgeView { id: a.next_edge, from: ev.from, to: ev.to, reason: ev.reason, created_at: None }));
                            let ids = db@.edges.map_values(|x: EdgeView| x.id);
                            let oids = pre.edges.map_values(|x: EdgeView| x.id);
                            assert forall|k: int| 0 <= k < oids.len() implies ids[k] == oids[k] by {}
                            assert forall|x: int, y: int| 0 <= x < y < ids.len() implies ids[x] < ids[y] by {
                                if y == oids.len() {
                                    assert(1 <= oids[x] < pre.next_edge);
                                }
                            }
                            assert forall|k: int| 0 <= k < ids.len() implies 1 <= #[trigger] ids[k] < db@.next_edge by {
                                if k < oids.len() {
                                    assert(1 <= oids[k] < pre.next_edge);
                                }
                            }
                        }
                    },
                    None => {},
                }
            },
            None => {},
        }
        Ok(())
    }

    fn edge_present(db: &Connection, from: &str, to: &str) -> (r: bool)
        ensures
            r == edge_exists(db@.edges, from@, to@),
    {
        let rows = db.custom_edge_rows();
        let mut k: usize = 0;
        while k < rows.len()
            invariant
                k <= rows@.len(),
                edge_views(rows@) == db@.edges,
                forall|j: int| 0 <= j < k ==> !((#[trigger] db@.edges[j]).from == from@ && db@.edges[j].to == to@),
            decreases rows.len() - k,
        {
            assert(db@.edges[k as int] == rows@[k as int]@);
            if str_eq(rows[k].from_id.as_str(), from) && str_eq(rows[k].to_id.as_str(), to) {
                return true;
            }
            k = k + 1;
        }
        false
    }

    /// Rejects a pending proposal with a non-blank reason (see `reject_effect`).
    pub fn reject(proposal_id: i64, reason: &str, db: &mut Connection) -> (r: Result<(), FeedbackError>)
        requires
            old(db).wf(),
        ensures
            final(db).wf(),
            reject_effect(old(db)@, proposal_id, reason@, final(db)@, r),
    {
        if blank(reason) {
            return Err(FeedbackError::EmptyRejectReason);
        }
        let ghost a = db@;
        let i = match proposal_index(db, proposal_id) {
            Some(i) => i,
            None => return Err(FeedbackError::ProposalNotFound { id: proposal_id }),
        };
        proof {
            lemma_find_proposal(a.proposals, proposal_id);
        }
        let rows = db.proposal_rows();
        let status = rows[i].status;
        let observation_id = rows[i].observation_id;
        assert(a.proposals[i as int] == rows@[i as int]@);
        if status != ProposalStatus::Pending {
            return Err(
                FeedbackError::InvalidProposalStatus {
                    id: proposal_id,
                    expected: "pending",
                    actual: String::from_str(status.as_str()),
                },
            );
        }
        db.decide_proposal(i, ProposalStatus::Rejected, now_text(), Some(String::from_str(reason)));
        let ghost mid = db@;
        db.set_observation_status(observation_id, ObservationStatus::Pending);
        proof {
            let w0 = DbView {
                proposals: a.proposals.update(
                    i as int,
                    ProposalView { status: ProposalStatus::Rejected, decided_at: Some(Seq::empty()), decided_reason: Some(reason@), ..a.proposals[i as int] },
                ),
                ..a
            };
            assert(db@.observations =~= with_observation_status(mid, observation_id, ObservationStatus::Pending).observations);
            assert(db@ == with_observation_status(mid, observation_id, ObservationStatus::Pending));
            lemma_decide_ok(a, i as int, ProposalStatus::Rejected, Some(reason@), ObservationStatus::Pending, mid.proposals[i as int].decided_at->Some_0);
            assert(untimed(mid).proposals =~= untimed(w0).proposals);
            assert(untimed(mid) == untimed(w0));
            crate::feedback::analyzer::lemma_untimed_status(mid, observation_id, ObservationStatus::Pending);
            crate::feedback::analyzer::lemma_untimed_status(w0, observation_id, ObservationStatus::Pending);
        }
        Ok(())
    }
}

} // verus!
