use vstd::prelude::*;

use crate::feedback::db::{
    active, db_ok, ids_ok, now_text, pending_backed, unique_active, unique_pending, Connection, DbView, ObsView,
    full_message,
};
use crate::feedback::error::FeedbackError;
use crate::feedback::observer::ObservationStatus;
use crate::feedback::recorder::{ids_json, json_array};
use crate::feedback::db::{obs_views, proposal_views, ObservationRow};
use crate::feedback::error::DbStubError;
use crate::text::copy_strings;
use crate::common::string_views;
use crate::json::{json_quote, json_string};
use crate::order::{lex_lt, sort_strings, sort_strs, str_less};
use crate::text::str_eq;

verus! {

/// Status of a proposal: `Pending`, then `Approved` or `Rejected` (both terminal).
#[derive(Debug, Clone, Copy, PartialEq, Eq, Structural)]
pub enum ProposalStatus {
    Pending,
    Approved,
    Rejected,
}

/// The stored name of a proposal status.
pub open spec fn proposal_status_name(s: ProposalStatus) -> Seq<char> {
    match s {
        ProposalStatus::Pending => "pending"@,
        ProposalStatus::Approved => "approved"@,
        ProposalStatus::Rejected => "rejected"@,
    }
}

/// The proposal status stored under `s`.
pub open spec fn parse_proposal_status(s: Seq<char>) -> Option<ProposalStatus> {
    if s == "pending"@ {
        Some(ProposalStatus::Pending)
    } else if s == "approved"@ {
        Some(ProposalStatus::Approved)
    } else if s == "rejected"@ {
        Some(ProposalStatus::Rejected)
    } else {
        None
    }
}

impl ProposalStatus {
    pub fn as_str(&self) -> (r: &'static str)
        ensures
            r@ == proposal_status_name(*self),
    {
        match self {
            ProposalStatus::Pending => "pending",
            ProposalStatus::Approved => "approved",
            ProposalStatus::Rejected => "rejected",
        }
    }

    pub fn from_str(s: &str) -> (r: Option<ProposalStatus>)
        ensures
            r == parse_proposal_status(s@),
    {
        if str_eq(s, "pending") {
            Some(ProposalStatus::Pending)
        } else if str_eq(s, "approved") {
            Some(ProposalStatus::Approved)
        } else if str_eq(s, "rejected") {
            Some(ProposalStatus::Rejected)
        } else {
            None
        }
    }
}

/// Parsing the stored name of a proposal status gives the status back.
pub proof fn law_proposal_status_round_trip(s: ProposalStatus)
    ensures
        parse_proposal_status(proposal_status_name(s)) == Some(s),
{
    reveal_strlit("pending");
    reveal_strlit("approved");
    reveal_strlit("rejected");
    assert("pending"@.len() == 7 && "approved"@.len() == 8 && "rejected"@.len() == 8);
    assert("approved"@[0] != "rejected"@[0]);
}

/// A stored proposal.
#[derive(Debug, Clone, PartialEq, Eq)]
pub struct Proposal {
    pub id: i64,
    pub observation_id: i64,
    pub kind: String,
    pub semantic_key: String,
    pub title: String,
    pub description: String,
    pub action_json: String,
    pub status: ProposalStatus,
    pub decided_at: Option<String>,
    pub decided_reason: Option<String>,
    pub created_at: String,
}

/// A proposal as plain values.
pub struct ProposalView {
    pub id: i64,
    pub observation_id: i64,
    pub kind: Seq<char>,
    pub semantic_key: Seq<char>,
    pub title: Seq<char>,
    pub description: Seq<char>,
    pub action_json: Seq<char>,
    pub status: ProposalStatus,
    pub decided_at: Option<Seq<char>>,
    pub decided_reason: Option<Seq<char>>,
    pub created_at: Seq<char>,
}

/// The view of an optional string.
pub open spec fn opt_view(s: Option<String>) -> Option<Seq<char>> {
    match s {
        Some(x) => Some(x@),
        None => None,
    }
}

impl View for Proposal {
    type V = ProposalView;

    open spec fn view(&self) -> ProposalView {
        ProposalView {
            id: self.id,
            observation_id: self.observation_id,
            kind: self.kind@,
            semantic_key: self.semantic_key@,
            title: self.title@,
            description: self.description@,
            action_json: self.action_json@,
            status: self.status,
            decided_at: opt_view(self.decided_at),
            decided_reason: opt_view(self.decided_reason),
            created_at: self.created_at@,
        }
    }
}


/// What a proposal asks for.
#[derive(Debug, Clone, PartialEq, Eq)]
pub enum ProposalAction {
    AddChainEntry { missing_id: String },
    AddLink { source_id: String, target_id: String },
    UpdateDoc { changed_id: String, review_targets: Vec<String> },
}

/// A proposal action as plain values.
pub enum ActionView {
    AddChainEntry { missing_id: Seq<char> },
    AddLink { source_id: Seq<char>, target_id: Seq<char> },
    UpdateDoc { changed_id: Seq<char>, review_targets: Seq<Seq<char>> },
}

impl View for ProposalAction {
    type V = ActionView;

    open spec fn view(&self) -> ActionView {
        match self {
            ProposalAction::AddChainEntry { missing_id } => ActionView::AddChainEntry { missing_id: missing_id@ },
            ProposalAction::AddLink { source_id, target_id } => ActionView::AddLink {
                source_id: source_id@,
                target_id: target_id@,
            },
            ProposalAction::UpdateDoc { changed_id, review_targets } => ActionView::UpdateDoc {
                changed_id: changed_id@,
                review_targets: string_views(review_targets@),
            },
        }
    }
}

/// Element `i` of `s`, or the empty string past its end.
pub open spec fn nth_or_empty(s: Seq<Seq<char>>, i: int) -> Seq<char> {
    if 0 <= i < s.len() {
        s[i]
    } else {
        Seq::empty()
    }
}

/// The action an observation turns into, by category: a chain entry for its first
/// id, a link between its two smallest ids, or a document update of its first id
/// reviewing all of them; `None` for categories without a rule.
pub open spec fn action_of(o: ObsView) -> Option<ActionView> {
    if o.category == "chain_integrity"@ {
        Some(ActionView::AddChainEntry { missing_id: nth_or_empty(o.related, 0) })
    } else if o.category == "link_candidate"@ {
        let ids = sort_strs(o.related);
        Some(ActionView::AddLink { source_id: nth_or_empty(ids, 0), target_id: nth_or_empty(ids, 1) })
    } else if o.category == "drift"@ {
        Some(ActionView::UpdateDoc { changed_id: nth_or_empty(o.related, 0), review_targets: o.related })
    } else {
        None
    }
}

/// The kind of a proposal with action `a`.
pub open spec fn action_kind(a: ActionView) -> Seq<char> {
    match a {
        ActionView::AddChainEntry { .. } => "add_chain_entry"@,
        ActionView::AddLink { .. } => "add_link"@,
        ActionView::UpdateDoc { .. } => "update_doc"@,
    }
}

/// The semantic key of an action: the kind and its ids, the two ids of a link in
/// character order.
pub open spec fn semantic_key_of(a: ActionView) -> Seq<char> {
    match a {
        ActionView::AddChainEntry { missing_id } => "add_chain_entry:"@ + missing_id,
        ActionView::AddLink { source_id, target_id } => if lex_lt(target_id, source_id) {
            "add_link:"@ + target_id + ":"@ + source_id
        } else {
            "add_link:"@ + source_id + ":"@ + target_id
        },
        ActionView::UpdateDoc { changed_id, .. } => "update_doc:"@ + changed_id,
    }
}

/// An action as a compact JSON object, keys in order.
pub open spec fn action_json_of(a: ActionView) -> Seq<char> {
    match a {
        ActionView::AddChainEntry { missing_id } => "{\"missing_id\":"@ + json_string(missing_id) + "}"@,
        ActionView::AddLink { source_id, target_id } => "{\"source_id\":"@ + json_string(source_id)
            + ",\"target_id\":"@ + json_string(target_id) + "}"@,
        ActionView::UpdateDoc { changed_id, review_targets } => "{\"changed_id\":"@ + json_string(changed_id)
            + ",\"review_targets\":"@ + ids_json(review_targets) + "}"@,
    }
}

/// A pending proposal with semantic key `key` exists.
pub open spec fn pending_key(props: Seq<ProposalView>, key: Seq<char>) -> bool {
    exists|i: int| 0 <= i < props.len() && (#[trigger] props[i]).status == ProposalStatus::Pending && props[i].semantic_key == key
}

/// `v` with the observation of id `id` set to `status`.
pub open spec fn with_observation_status(v: DbView, id: i64, status: ObservationStatus) -> DbView {
    DbView {
        observations: v.observations.map_values(|o: ObsView| if o.id == id { ObsView { status, ..o } } else { o }),
        ..v
    }
}

/// `v` with its timestamps blanked (the only values that depend on the clock).
pub open spec fn untimed(v: DbView) -> DbView {
    DbView {
        observations: v.observations.map_values(|o: ObsView| ObsView { created_at: Seq::empty(), ..o }),
        proposals: v.proposals.map_values(|p: ProposalView| untimed_proposal(p)),
        edges: v.edges.map_values(|e: crate::feedback::db::EdgeView| crate::feedback::db::EdgeView { created_at: None, ..e }),
        ..v
    }
}

/// `p` with its timestamps blanked.
pub open spec fn untimed_proposal(p: ProposalView) -> ProposalView {
    ProposalView {
        created_at: Seq::empty(),
        decided_at: match p.decided_at {
            Some(_) => Some(Seq::empty()),
            None => None,
        },
        ..p
    }
}

/// The proposal that an observation with action `a` becomes under id `id`.
pub open spec fn new_proposal(o: ObsView, a: ActionView, id: i64) -> ProposalView {
    ProposalView {
        id,
        observation_id: o.id,
        kind: action_kind(a),
        semantic_key: semantic_key_of(a),
        title: action_kind(a) + ": "@ + o.message,
        description: o.message,
        action_json: action_json_of(a),
        status: ProposalStatus::Pending,
        decided_at: None,
        decided_reason: None,
        created_at: Seq::empty(),
    }
}

/// What processing one claimed observation did.
pub enum Outcome {
    Created(ProposalView),
    Duplicate,
    Skipped,
    Failed,
}

/// Processing the claimed observation `o` in `v` (timestamps blanked): without a rule
/// it is skipped; if a pending proposal has its semantic key nothing happens; if the
/// proposal ids are used up its claim is released (back to pending); otherwise a new
/// pending proposal is added.
pub open spec fn process_step(v: DbView, o: ObsView) -> (DbView, Outcome) {
    match action_of(o) {
        None => (with_observation_status(v, o.id, ObservationStatus::Skipped), Outcome::Skipped),
        Some(a) => if pending_key(v.proposals, semantic_key_of(a)) {
            (v, Outcome::Duplicate)
        } else if v.next_proposal == i64::MAX {
            (with_observation_status(v, o.id, ObservationStatus::Pending), Outcome::Failed)
        } else {
            let p = new_proposal(o, a, v.next_proposal);
            (DbView { proposals: v.proposals.push(p), next_proposal: (v.next_proposal + 1) as i64, ..v }, Outcome::Created(p))
        },
    }
}

/// Processing the claimed observations `queue` in order: the resulting database, the
/// proposals created, and the id of the observation whose processing failed (which
/// ends the run).
pub open spec fn process_all(v: DbView, queue: Seq<ObsView>) -> (DbView, Seq<ProposalView>, Option<i64>)
    decreases queue.len(),
{
    if queue.len() == 0 {
        (v, Seq::empty(), None)
    } else {
        let (v1, out) = process_step(v, queue[0]);
        match out {
            Outcome::Failed => (v1, Seq::empty(), Some(queue[0].id)),
            Outcome::Created(p) => {
                let (v2, ps, f) = process_all(v1, queue.drop_first());
                (v2, seq![p] + ps, f)
            },
            _ => process_all(v1, queue.drop_first()),
        }
    }
}

/// `v` after the claim: every pending observation becomes analyzing.
pub open spec fn claimed(v: DbView) -> DbView {
    DbView {
        observations: v.observations.map_values(
            |o: ObsView| if o.status == ObservationStatus::Pending {
                ObsView { status: ObservationStatus::Analyzing, ..o }
            } else {
                o
            },
        ),
        ..v
    }
}

/// An observation as the claim leaves it: pending becomes analyzing.
pub open spec fn claim_one(o: ObsView) -> ObsView {
    if o.status == ObservationStatus::Pending {
        ObsView { status: ObservationStatus::Analyzing, ..o }
    } else {
        o
    }
}

/// The observations of `s` that were pending, as the claim leaves them, in id order.
pub open spec fn claimed_rows(s: Seq<ObsView>) -> Seq<ObsView>
    decreases s.len(),
{
    if s.len() == 0 {
        s
    } else if s.last().status == ObservationStatus::Pending {
        claimed_rows(s.drop_last()).push(claim_one(s.last()))
    } else {
        claimed_rows(s.drop_last())
    }
}

/// The effect of `analyze` on `a`, leaving `b` and returning `r`: after the claim,
/// each observation that was pending when the call began is processed in id order
/// (`process_all`, up to the timestamps); observations already under analysis (left
/// so by an earlier duplicate) are not taken up again. `r` holds the proposals
/// created, or the failure of the observation whose processing failed.
pub open spec fn analyze_effect(a: DbView, b: DbView, r: Result<Seq<ProposalView>, FeedbackError>) -> bool {
    let c = claimed(a);
    let (v, ps, f) = process_all(untimed(c), claimed_rows(untimed(a).observations));
    &&& untimed(b) == v
    &&& match f {
        None => r matches Ok(got) && got.map_values(|p: ProposalView| untimed_proposal(p)) == ps,
        Some(id) => r matches Err(FeedbackError::AnalyzeFailed { observation_id, .. }) && observation_id == id,
    }
}


fn nth_or_empty_exec(v: &Vec<String>, i: usize) -> (r: String)
    ensures
        r@ == nth_or_empty(string_views(v@), i as int),
{
    if i < v.len() {
        v[i].clone()
    } else {
        String::new()
    }
}

fn string_views_copy(v: &Vec<String>) -> (r: Vec<String>)
    ensures
        string_views(r@) == string_views(v@),
{
    let r = copy_strings(v);
    assert(string_views(r@) =~= string_views(v@));
    r
}

/// The action that the observation of `row` turns into, if its category has a rule.
pub fn generate_proposal_action(row: &ObservationRow) -> (r: Option<ProposalAction>)
    ensures
        match r {
            Some(a) => action_of(row@) == Some(a@),
            None => action_of(row@) is None,
        },
{
    let o = &row.observation;
    if str_eq(o.category.as_str(), "chain_integrity") {
        Some(ProposalAction::AddChainEntry { missing_id: nth_or_empty_exec(&o.related_ids, 0) })
    } else if str_eq(o.category.as_str(), "link_candidate") {
        let ids = sort_strings(string_views_copy(&o.related_ids));
        Some(ProposalAction::AddLink { source_id: nth_or_empty_exec(&ids, 0), target_id: nth_or_empty_exec(&ids, 1) })
    } else if str_eq(o.category.as_str(), "drift") {
        Some(
            ProposalAction::UpdateDoc {
                changed_id: nth_or_empty_exec(&o.related_ids, 0),
                review_targets: string_views_copy(&o.related_ids),
            },
        )
    } else {
        None
    }
}

fn kind_of(action: &ProposalAction) -> (r: &'static str)
    ensures
        r@ == action_kind(action@),
{
    match action {
        ProposalAction::AddChainEntry { .. } => "add_chain_entry",
        ProposalAction::AddLink { .. } => "add_link",
        ProposalAction::UpdateDoc { .. } => "update_doc",
    }
}

/// The semantic key of an action.
pub fn build_semantic_key(action: &ProposalAction) -> (r: String)
    ensures
        r@ == semantic_key_of(action@),
{
    match action {
        ProposalAction::AddChainEntry { missing_id } => {
            let mut k = String::from_str("add_chain_entry:");
            k.append(missing_id.as_str());
            k
        },
        ProposalAction::AddLink { source_id, target_id } => {
            let mut k = String::from_str("add_link:");
            if str_less(target_id.as_str(), source_id.as_str()) {
                k.append(target_id.as_str());
                k.append(":");
                k.append(source_id.as_str());
            } else {
                k.append(source_id.as_str());
                k.append(":");
                k.append(target_id.as_str());
            }
            k
        },
        ProposalAction::UpdateDoc { changed_id, .. } => {
            let mut k = String::from_str("update_doc:");
            k.append(changed_id.as_str());
            k
        },
    }
}

/// An action as a compact JSON object.
pub fn action_to_json(action: &ProposalAction) -> (r: String)
    ensures
        r@ == action_json_of(action@),
{
    match action {
        ProposalAction::AddChainEntry { missing_id } => {
            let mut j = String::from_str("{\"missing_id\":");
            let q = json_quote(missing_id.as_str());
            j.append(q.as_str());
            j.append("}");
            j
        },
        ProposalAction::AddLink { source_id, target_id } => {
            let mut j = String::from_str("{\"source_id\":");
            let q = json_quote(source_id.as_str());
            j.append(q.as_str());
            j.append(",\"target_id\":");
            let q = json_quote(target_id.as_str());
            j.append(q.as_str());
            j.append("}");
            j
        },
        ProposalAction::UpdateDoc { changed_id, review_targets } => {
            let mut j = String::from_str("{\"changed_id\":");
            let q = json_quote(changed_id.as_str());
            j.append(q.as_str());
            j.append(",\"review_targets\":");
            let a = json_array(review_targets);
            j.append(a.as_str());
            j.append("}");
            j
        },
    }
}

fn pending_key_exists(db: &Connection, key: &str) -> (r: bool)
    ensures
        r == pending_key(db@.proposals, key@),
{
    let rows = db.proposal_rows();
    let mut i: usize = 0;
    while i < rows.len()
        invariant
            i <= rows@.len(),
            proposal_views(rows@) == db@.proposals,
            forall|j: int| 0 <= j < i ==> !((#[trigger] db@.proposals[j]).status == ProposalStatus::Pending && db@.proposals[j].semantic_key == key@),
        decreases rows.len() - i,
    {
        assert(db@.proposals[i as int] == rows@[i as int]@);
        if rows[i].status == ProposalStatus::Pending && str_eq(rows[i].semantic_key.as_str(), key) {
            return true;
        }
        i = i + 1;
    }
    false
}


/// The observation with the id of `o` is `o` itself.
pub open spec fn is_row(v: DbView, o: ObsView) -> bool {
    exists|idx: int| 0 <= idx < v.observations.len() && v.observations[idx] == o
}

proof fn lemma_same_id_same_row(v: DbView, i: int, j: int)
    requires
        db_ok(v),
        0 <= i < v.observations.len(),
        0 <= j < v.observations.len(),
        v.observations[i].id == v.observations[j].id,
    ensures
        i == j,
{
    let ids = v.observations.map_values(|o: ObsView| o.id);
    assert(ids[i] == v.observations[i].id);
    assert(ids[j] == v.observations[j].id);
    if i < j {
        assert(ids[i] < ids[j]);
    } else if j < i {
        assert(ids[j] < ids[i]);
    }
}

proof fn lemma_claim_ok(a: DbView)
    requires
        db_ok(a),
    ensures
        db_ok(claimed(a)),
{
    let c = claimed(a);
    assert(c.observations.map_values(|o: ObsView| o.id) =~= a.observations.map_values(|o: ObsView| o.id));
    assert forall|i: int, j: int|
        0 <= i < c.observations.len() && 0 <= j < c.observations.len() && i != j && active(#[trigger] c.observations[i].status)
            && active(#[trigger] c.observations[j].status) implies !(c.observations[i].category == c.observations[j].category
        && c.observations[i].key == c.observations[j].key) by {
        assert(active(a.observations[i].status) && active(a.observations[j].status));
    }
    assert forall|i: int|
        0 <= i < c.proposals.len() && #[trigger] c.proposals[i].status == ProposalStatus::Pending implies exists|k: int|
        0 <= k < c.observations.len() && #[trigger] crate::feedback::db::backs(c.observations[k], c.proposals[i]) by {
        let k = choose|k: int| 0 <= k < a.observations.len() && #[trigger] crate::feedback::db::backs(a.observations[k], a.proposals[i]);
        assert(c.observations[k] == a.observations[k]);
    }
}

proof fn lemma_status_change_ok(v: DbView, idx: int, s: ObservationStatus)
    requires
        db_ok(v),
        0 <= idx < v.observations.len(),
        v.observations[idx].status == ObservationStatus::Analyzing,
        s == ObservationStatus::Skipped || s == ObservationStatus::Pending,
        forall|i: int|
            0 <= i < v.proposals.len() && (#[trigger] v.proposals[i]).status == ProposalStatus::Pending
                ==> v.proposals[i].observation_id != v.observations[idx].id,
    ensures
        db_ok(with_observation_status(v, v.observations[idx].id, s)),
{
    let id = v.observations[idx].id;
    let w = with_observation_status(v, id, s);
    assert(w.observations.map_values(|o: ObsView| o.id) =~= v.observations.map_values(|o: ObsView| o.id));
    assert forall|i: int| 0 <= i < v.observations.len() && i != idx implies w.observations[i] == v.observations[i] by {
        if v.observations[i].id == id {
            lemma_same_id_same_row(v, i, idx);
        }
    }
    assert forall|i: int, j: int|
        0 <= i < w.observations.len() && 0 <= j < w.observations.len() && i != j && active(#[trigger] w.observations[i].status)
            && active(#[trigger] w.observations[j].status) implies !(w.observations[i].category == w.observations[j].category
        && w.observations[i].key == w.observations[j].key) by {
        assert(active(v.observations[i].status) && active(v.observations[j].status));
    }
    assert forall|i: int|
        0 <= i < w.proposals.len() && #[trigger] w.proposals[i].status == ProposalStatus::Pending implies exists|k: int|
        0 <= k < w.observations.len() && #[trigger] crate::feedback::db::backs(w.observations[k], w.proposals[i]) by {
        let k = choose|k: int| 0 <= k < v.observations.len() && #[trigger] crate::feedback::db::backs(v.observations[k], v.proposals[i]);
        assert(k != idx);
        assert(w.observations[k] == v.observations[k]);
    }
}

proof fn lemma_no_pending_of(v: DbView, idx: int, a: ActionView)
    requires
        db_ok(v),
        0 <= idx < v.observations.len(),
        action_of(v.observations[idx]) == Some(a),
        !pending_key(v.proposals, semantic_key_of(a)),
    ensures
        forall|i: int|
            0 <= i < v.proposals.len() && (#[trigger] v.proposals[i]).status == ProposalStatus::Pending
                ==> v.proposals[i].observation_id != v.observations[idx].id,
{
    assert forall|i: int|
        0 <= i < v.proposals.len() && (#[trigger] v.proposals[i]).status == ProposalStatus::Pending implies v.proposals[i].observation_id
        != v.observations[idx].id by {
        let k = choose|k: int| 0 <= k < v.observations.len() && #[trigger] crate::feedback::db::backs(v.observations[k], v.proposals[i]);
        if v.proposals[i].observation_id == v.observations[idx].id {
            lemma_same_id_same_row(v, k, idx);
            assert(v.proposals[i].semantic_key == semantic_key_of(a));
        }
    }
}

proof fn lemma_no_pending_of_unconvertible(v: DbView, idx: int)
    requires
        db_ok(v),
        0 <= idx < v.observations.len(),
        action_of(v.observations[idx]) is None,
    ensures
        forall|i: int|
            0 <= i < v.proposals.len() && (#[trigger] v.proposals[i]).status == ProposalStatus::Pending
                ==> v.proposals[i].observation_id != v.observations[idx].id,
{
    assert forall|i: int|
        0 <= i < v.proposals.len() && (#[trigger] v.proposals[i]).status == ProposalStatus::Pending implies v.proposals[i].observation_id
        != v.observations[idx].id by {
        let k = choose|k: int| 0 <= k < v.observations.len() && #[trigger] crate::feedback::db::backs(v.observations[k], v.proposals[i]);
        if v.proposals[i].observation_id == v.observations[idx].id {
            lemma_same_id_same_row(v, k, idx);
        }
    }
}

proof fn lemma_create_ok(v: DbView, idx: int, a: ActionView, p: ProposalView)
    requires
        db_ok(v),
        0 <= idx < v.observations.len(),
        v.observations[idx].status == ObservationStatus::Analyzing,
        action_of(v.observations[idx]) == Some(a),
        !pending_key(v.proposals, semantic_key_of(a)),
        v.next_proposal < i64::MAX,
        p.id == v.next_proposal,
        p.observation_id == v.observations[idx].id,
        p.semantic_key == semantic_key_of(a),
        p.status == ProposalStatus::Pending,
    ensures
        db_ok(DbView { proposals: v.proposals.push(p), next_proposal: (v.next_proposal + 1) as i64, ..v }),
{
    lemma_no_pending_of(v, idx, a);
    let w = DbView { proposals: v.proposals.push(p), next_proposal: (v.next_proposal + 1) as i64, ..v };
    let ids = w.proposals.map_values(|q: ProposalView| q.id);
    let oids = v.proposals.map_values(|q: ProposalView| q.id);
    assert forall|i: int| 0 <= i < oids.len() implies ids[i] == oids[i] by {}
    assert forall|i: int, j: int| 0 <= i < j < ids.len() implies ids[i] < ids[j] by {
        if j == oids.len() {
            assert(1 <= oids[i] < v.next_proposal);
        }
    }
    assert forall|i: int| 0 <= i < ids.len() implies 1 <= #[trigger] ids[i] < w.next_proposal by {
        if i < oids.len() {
            assert(1 <= oids[i] < v.next_proposal);
        }
    }
    assert(crate::feedback::db::unique_pending(w.proposals)) by {
        assert forall|i: int, j: int|
            0 <= i < w.proposals.len() && 0 <= j < w.proposals.len() && i != j && #[trigger] w.proposals[i].status
                == ProposalStatus::Pending && #[trigger] w.proposals[j].status == ProposalStatus::Pending implies w.proposals[i].semantic_key
            != w.proposals[j].semantic_key && w.proposals[i].observation_id != w.proposals[j].observation_id by {
            if i == v.proposals.len() {
                assert(w.proposals[j] == v.proposals[j]);
            } else if j == v.proposals.len() {
                assert(w.proposals[i] == v.proposals[i]);
            } else {
                assert(w.proposals[i] == v.proposals[i] && w.proposals[j] == v.proposals[j]);
            }
        }
    }
    assert forall|i: int|
        0 <= i < w.proposals.len() && #[trigger] w.proposals[i].status == ProposalStatus::Pending implies exists|k: int|
        0 <= k < w.observations.len() && #[trigger] crate::feedback::db::backs(w.observations[k], w.proposals[i]) by {
        if i == v.proposals.len() {
            assert(crate::feedback::db::backs(w.observations[idx], w.proposals[i]));
        } else {
            assert(w.proposals[i] == v.proposals[i]);
            let k = choose|k: int| 0 <= k < v.observations.len() && #[trigger] crate::feedback::db::backs(v.observations[k], v.proposals[i]);
            assert(crate::feedback::db::backs(w.observations[k], w.proposals[i]));
        }
    }
}


/// An observation with its timestamp blanked.
pub open spec fn untimed_observation(o: ObsView) -> ObsView {
    ObsView { created_at: Seq::empty(), ..o }
}

proof fn lemma_claimed_rows(s: Seq<ObsView>)
    ensures
        claimed_rows(s.map_values(|o: ObsView| ObsView { created_at: Seq::empty(), ..o })) == claimed_rows(s).map_values(
            |o: ObsView| untimed_observation(o),
        ),
        forall|j: int|
            0 <= j < claimed_rows(s).len() ==> (#[trigger] claimed_rows(s)[j]).status == ObservationStatus::Analyzing
                && exists|idx: int| 0 <= idx < s.len() && claim_one(s[idx]) == claimed_rows(s)[j],
        (forall|i: int, j: int| 0 <= i < j < s.len() ==> s[i].id < s[j].id) ==> (forall|i: int, j: int|
            0 <= i < j < claimed_rows(s).len() ==> claimed_rows(s)[i].id < claimed_rows(s)[j].id),
    decreases s.len(),
{
    if s.len() > 0 {
        let d = s.drop_last();
        lemma_claimed_rows(d);
        let m = s.map_values(|o: ObsView| ObsView { created_at: Seq::empty(), ..o });
        assert(m.drop_last() =~= d.map_values(|o: ObsView| ObsView { created_at: Seq::empty(), ..o }));
        assert(m.last().status == s.last().status);
        let ad = claimed_rows(d);
        assert forall|j: int| 0 <= j < ad.len() implies exists|idx: int| 0 <= idx < s.len() && claim_one(s[idx]) == #[trigger] ad[j] by {
            let idx = choose|idx: int| 0 <= idx < d.len() && claim_one(d[idx]) == ad[j];
            assert(s[idx] == d[idx]);
        }
        if s.last().status == ObservationStatus::Pending {
            assert(claim_one(m.last()) == untimed_observation(claim_one(s.last())));
            assert(claimed_rows(m) =~= claimed_rows(s).map_values(|o: ObsView| untimed_observation(o)));
            let a = claimed_rows(s);
            assert forall|j: int| 0 <= j < a.len() implies (#[trigger] a[j]).status == ObservationStatus::Analyzing
                && exists|idx: int| 0 <= idx < s.len() && claim_one(s[idx]) == a[j] by {
                if j == a.len() - 1 {
                    assert(claim_one(s[s.len() - 1]) == a[j]);
                } else {
                    assert(a[j] == ad[j]);
                }
            }
            if forall|i: int, j: int| 0 <= i < j < s.len() ==> s[i].id < s[j].id {
                assert(forall|i: int, j: int| 0 <= i < j < d.len() ==> d[i].id < d[j].id) by {
                    assert forall|i: int, j: int| 0 <= i < j < d.len() implies d[i].id < d[j].id by {
                        assert(d[i] == s[i] && d[j] == s[j]);
                    }
                }
                assert forall|i: int, j: int| 0 <= i < j < a.len() implies a[i].id < a[j].id by {
                    if j == a.len() - 1 {
                        assert(a[i] == ad[i]);
                        let idx = choose|idx: int| 0 <= idx < d.len() && claim_one(d[idx]) == ad[i];
                        assert(s[idx] == d[idx]);
                    } else {
                        assert(a[i] == ad[i] && a[j] == ad[j]);
                    }
                }
            }
        } else {
            assert(claimed_rows(m) =~= claimed_rows(s).map_values(|o: ObsView| untimed_observation(o)));
            if forall|i: int, j: int| 0 <= i < j < s.len() ==> s[i].id < s[j].id {
                assert forall|i: int, j: int| 0 <= i < j < d.len() implies d[i].id < d[j].id by {
                    assert(d[i] == s[i] && d[j] == s[j]);
                }
            }
        }
    } else {
        assert(s.map_values(|o: ObsView| ObsView { created_at: Seq::empty(), ..o }) =~= s);
    }
}

/// The kind of the proposals that observations of category `c` turn into, if any.
pub open spec fn category_kind(c: Seq<char>) -> Option<Seq<char>> {
    if c == "chain_integrity"@ {
        Some("add_chain_entry"@)
    } else if c == "link_candidate"@ {
        Some("add_link"@)
    } else if c == "drift"@ {
        Some("update_doc"@)
    } else {
        None
    }
}

proof fn lemma_claimed_rows_pending(s: Seq<ObsView>)
    ensures
        forall|j: int|
            0 <= j < claimed_rows(s).len() ==> exists|idx: int|
                0 <= idx < s.len() && s[idx].status == ObservationStatus::Pending && #[trigger] claimed_rows(s)[j]
                    == claim_one(s[idx]),
    decreases s.len(),
{
    if s.len() > 0 {
        let d = s.drop_last();
        lemma_claimed_rows_pending(d);
        let a = claimed_rows(s);
        let ad = claimed_rows(d);
        assert forall|j: int| 0 <= j < a.len() implies exists|idx: int|
            0 <= idx < s.len() && s[idx].status == ObservationStatus::Pending && #[trigger] a[j] == claim_one(s[idx]) by {
            if s.last().status == ObservationStatus::Pending && j == a.len() - 1 {
                assert(a[j] == claim_one(s[s.len() - 1]));
            } else {
                assert(a[j] == ad[j]);
                let idx = choose|idx: int|
                    0 <= idx < d.len() && d[idx].status == ObservationStatus::Pending && #[trigger] ad[j] == claim_one(d[idx]);
                assert(s[idx] == d[idx]);
            }
        }
    }
}

/// Some entry of `queue` has id `id`.
pub open spec fn queued_id(queue: Seq<ObsView>, id: i64) -> bool {
    exists|k: int| 0 <= k < queue.len() && (#[trigger] queue[k]).id == id
}

proof fn lemma_process_all(v: DbView, queue: Seq<ObsView>)
    ensures
        process_all(v, queue).0.observations.len() == v.observations.len(),
        forall|idx: int|
            0 <= idx < v.observations.len() ==> (#[trigger] process_all(v, queue).0.observations[idx]).id
                == v.observations[idx].id,
        forall|idx: int|
            0 <= idx < v.observations.len() && !queued_id(queue, v.observations[idx].id) ==> #[trigger] process_all(
                v,
                queue,
            ).0.observations[idx] == v.observations[idx],
        forall|i: int|
            0 <= i < process_all(v, queue).1.len() ==> exists|k: int|
                0 <= k < queue.len() && (#[trigger] process_all(v, queue).1[i]).observation_id == queue[k].id
                    && category_kind(queue[k].category) == Some(process_all(v, queue).1[i].kind)
                    && process_all(v, queue).1[i].status == ProposalStatus::Pending,
        process_all(v, queue).2 matches Some(id) ==> queued_id(queue, id) && forall|idx: int|
            0 <= idx < v.observations.len() && (#[trigger] process_all(v, queue).0.observations[idx]).id == id
                ==> process_all(v, queue).0.observations[idx].status == ObservationStatus::Pending,
    decreases queue.len(),
{
    if queue.len() > 0 {
        let o = queue[0];
        let rest = queue.drop_first();
        let (v1, out) = process_step(v, o);
        assert(v1.observations.len() == v.observations.len());
        assert forall|idx: int| 0 <= idx < v.observations.len() implies #[trigger] v1.observations[idx].id == v.observations[idx].id
            && (v.observations[idx].id != o.id ==> v1.observations[idx] == v.observations[idx]) by {
        }
        match out {
            Outcome::Failed => {
                assert(queue[0].id == o.id);
            },
            _ => {
                lemma_process_all(v1, rest);
                let (v2, ps, f) = process_all(v1, rest);
                assert forall|k: int| 0 <= k < rest.len() implies (#[trigger] rest[k]).id == queue[k + 1].id by {}
                assert forall|idx: int|
                    0 <= idx < v.observations.len() && !queued_id(queue, v.observations[idx].id) implies #[trigger] process_all(
                        v,
                        queue,
                    ).0.observations[idx] == v.observations[idx] by {
                    if queued_id(rest, v1.observations[idx].id) {
                        let k = choose|k: int| 0 <= k < rest.len() && (#[trigger] rest[k]).id == v1.observations[idx].id;
                        assert(queue[k + 1].id == v.observations[idx].id);
                    }
                    assert(queue[0].id == o.id);
                }
                match out {
                    Outcome::Created(p) => {
                        let all = seq![p] + ps;
                        assert(process_all(v, queue).1 == all);
                        assert(action_of(o) is Some);
                        assert forall|i: int| 0 <= i < all.len() implies exists|k: int|
                            0 <= k < queue.len() && (#[trigger] all[i]).observation_id == queue[k].id
                                && category_kind(queue[k].category) == Some(all[i].kind)
                                && all[i].status == ProposalStatus::Pending by {
                            if i == 0 {
                                assert(queue[0] == o);
                            } else {
                                assert(all[i] == ps[i - 1]);
                                let k = choose|k: int|
                                    0 <= k < rest.len() && (#[trigger] ps[i - 1]).observation_id == rest[k].id
                                        && category_kind(rest[k].category) == Some(ps[i - 1].kind)
                                        && ps[i - 1].status == ProposalStatus::Pending;
                                assert(rest[k] == queue[k + 1]);
                            }
                        }
                    },
                    _ => {
                        assert forall|i: int| 0 <= i < ps.len() implies exists|k: int|
                            0 <= k < queue.len() && (#[trigger] ps[i]).observation_id == queue[k].id
                                && category_kind(queue[k].category) == Some(ps[i].kind)
                                && ps[i].status == ProposalStatus::Pending by {
                            let k = choose|k: int|
                                0 <= k < rest.len() && (#[trigger] ps[i]).observation_id == rest[k].id
                                    && category_kind(rest[k].category) == Some(ps[i].kind)
                                    && ps[i].status == ProposalStatus::Pending;
                            assert(rest[k] == queue[k + 1]);
                        }
                    },
                }
                match f {
                    Some(id) => {
                        let k = choose|k: int| 0 <= k < rest.len() && (#[trigger] rest[k]).id == id;
                        assert(queue[k + 1].id == id);
                    },
                    None => {},
                }
            },
        }
    }
}

/// What `analyze` does to each observation: every proposal it returns is pending, comes
/// from an observation that was pending when the call began, and has the kind of that
/// observation's category (chain_integrity: add_chain_entry; link_candidate: add_link;
/// drift: update_doc); an observation that was not pending (skipped, resolved, or
/// under analysis) is left as it was and is not taken up; and when the run fails on an
/// observation, that observation is pending again.
pub proof fn law_analyze_observations(a: DbView, b: DbView, r: Result<Seq<ProposalView>, FeedbackError>)
    requires
        db_ok(a),
        analyze_effect(a, b, r),
    ensures
        b.observations.len() == a.observations.len(),
        r matches Ok(got) ==> forall|i: int|
            0 <= i < got.len() ==> (#[trigger] got[i]).status == ProposalStatus::Pending && exists|idx: int|
                0 <= idx < a.observations.len() && a.observations[idx].id == got[i].observation_id
                    && a.observations[idx].status == ObservationStatus::Pending && category_kind(
                    a.observations[idx].category,
                ) == Some(got[i].kind),
        forall|idx: int|
            0 <= idx < a.observations.len() && a.observations[idx].status != ObservationStatus::Pending ==> (
            #[trigger] b.observations[idx]).id == a.observations[idx].id && b.observations[idx].status
                == a.observations[idx].status,
        r matches Err(FeedbackError::AnalyzeFailed { observation_id, .. }) ==> exists|idx: int|
            0 <= idx < b.observations.len() && b.observations[idx].id == observation_id
                && b.observations[idx].status == ObservationStatus::Pending,
{
    let c = claimed(a);
    let q = claimed_rows(untimed(a).observations);
    let v0 = untimed(c);
    lemma_process_all(v0, q);
    lemma_claimed_rows_pending(untimed(a).observations);
    let (v, ps, f) = process_all(v0, q);
    let ua = untimed(a).observations;
    assert(ua.len() == a.observations.len());
    assert(untimed(b).observations.len() == b.observations.len());
    assert forall|idx: int| 0 <= idx < a.observations.len() implies #[trigger] ua[idx].id == a.observations[idx].id
        && ua[idx].status == a.observations[idx].status && ua[idx].category == a.observations[idx].category
        && v0.observations[idx].id == a.observations[idx].id && (a.observations[idx].status != ObservationStatus::Pending
        ==> v0.observations[idx].status == a.observations[idx].status) by {
        assert(c.observations[idx] == claim_one(a.observations[idx]));
    }
    assert forall|idx: int| 0 <= idx < b.observations.len() implies #[trigger] untimed(b).observations[idx].id == b.observations[idx].id
        && untimed(b).observations[idx].status == b.observations[idx].status by {}
    // a queued observation comes from a pending row of `a`
    assert forall|k: int| 0 <= k < q.len() implies exists|idx: int|
        0 <= idx < a.observations.len() && a.observations[idx].status == ObservationStatus::Pending && #[trigger] q[k].id
            == a.observations[idx].id && q[k].category == a.observations[idx].category by {
        let idx = choose|idx: int| 0 <= idx < ua.len() && ua[idx].status == ObservationStatus::Pending && #[trigger] q[k] == claim_one(ua[idx]);
    }
    assert forall|idx: int|
        0 <= idx < a.observations.len() && a.observations[idx].status != ObservationStatus::Pending implies (
        #[trigger] b.observations[idx]).id == a.observations[idx].id && b.observations[idx].status
            == a.observations[idx].status by {
        if queued_id(q, v0.observations[idx].id) {
            let k = choose|k: int| 0 <= k < q.len() && (#[trigger] q[k]).id == v0.observations[idx].id;
            let j = choose|j: int|
                0 <= j < a.observations.len() && a.observations[j].status == ObservationStatus::Pending && #[trigger] q[k].id
                    == a.observations[j].id && q[k].category == a.observations[j].category;
            lemma_same_id_same_row(a, idx, j);
        }
        assert(v.observations[idx] == v0.observations[idx]);
    }
    match r {
        Ok(got) => {
            assert(f is None);
            assert forall|i: int| 0 <= i < got.len() implies (#[trigger] got[i]).status == ProposalStatus::Pending && exists|idx: int|
                0 <= idx < a.observations.len() && a.observations[idx].id == got[i].observation_id
                    && a.observations[idx].status == ObservationStatus::Pending && category_kind(a.observations[idx].category)
                    == Some(got[i].kind) by {
                assert(ps[i] == untimed_proposal(got[i]));
                let k = choose|k: int|
                    0 <= k < q.len() && (#[trigger] ps[i]).observation_id == q[k].id && category_kind(q[k].category) == Some(
                        ps[i].kind,
                    ) && ps[i].status == ProposalStatus::Pending;
                let j = choose|j: int|
                    0 <= j < a.observations.len() && a.observations[j].status == ObservationStatus::Pending && #[trigger] q[k].id
                        == a.observations[j].id && q[k].category == a.observations[j].category;
            }
        },
        Err(FeedbackError::AnalyzeFailed { observation_id, .. }) => {
            assert(f is Some);
            let id = f->Some_0;
            let k = choose|k: int| 0 <= k < q.len() && (#[trigger] q[k]).id == id;
            let j = choose|j: int|
                0 <= j < a.observations.len() && a.observations[j].status == ObservationStatus::Pending && #[trigger] q[k].id
                    == a.observations[j].id && q[k].category == a.observations[j].category;
            assert(v.observations[j].id == id);
            assert(b.observations[j].id == observation_id);
        },
        _ => {},
    }
}

/// Clearing the timestamps commutes with setting an observation's status.
pub(crate) proof fn lemma_untimed_status(v: DbView, id: i64, s: ObservationStatus)
    ensures
        untimed(with_observation_status(v, id, s)) == with_observation_status(untimed(v), id, s),
{
    assert(untimed(with_observation_status(v, id, s)).observations =~= with_observation_status(untimed(v), id, s).observations);
}

fn copy_proposal(p: &Proposal) -> (r: Proposal)
    ensures
        r@ == p@,
{
    Proposal {
        id: p.id,
        observation_id: p.observation_id,
        kind: p.kind.clone(),
        semantic_key: p.semantic_key.clone(),
        title: p.title.clone(),
        description: p.description.clone(),
        action_json: p.action_json.clone(),
        status: p.status,
        decided_at: match &p.decided_at {
            Some(x) => Some(x.clone()),
            None => None,
        },
        decided_reason: match &p.decided_reason {
            Some(x) => Some(x.clone()),
            None => None,
        },
        created_at: p.created_at.clone(),
    }
}

fn copy_row(r: &ObservationRow) -> (c: ObservationRow)
    ensures
        c@ == r@,
{
    let o = &r.observation;
    let related = copy_strings(&o.related_ids);
    assert(string_views(related@) =~= string_views(o.related_ids@));
    ObservationRow {
        observation: crate::feedback::observer::Observation {
            id: o.id,
            source: o.source.clone(),
            category: o.category.clone(),
            severity: o.severity.clone(),
            message: o.message.clone(),
            related_ids: related,
            context_json: match &o.context_json {
                Some(x) => Some(x.clone()),
                None => None,
            },
            status: o.status,
            created_at: o.created_at.clone(),
        },
        key: r.key.clone(),
    }
}

/// Copies of the pending observations, as the claim will leave them, in id order.
fn claimed_copies(db: &Connection) -> (r: Vec<ObservationRow>)
    ensures
        obs_views(r@) == claimed_rows(db@.observations),
{
    let rows = db.observation_rows();
    let ghost s = db@.observations;
    let mut out: Vec<ObservationRow> = Vec::new();
    let mut i: usize = 0;
    while i < rows.len()
        invariant
            i <= rows@.len(),
            obs_views(rows@) == s,
            obs_views(out@) == claimed_rows(s.take(i as int)),
        decreases rows.len() - i,
    {
        proof {
            assert(s.take(i + 1).drop_last() =~= s.take(i as int));
            assert(s.take(i + 1).last() == rows@[i as int]@);
        }
        if rows[i].observation.status == ObservationStatus::Pending {
            let ghost before = obs_views(out@);
            let mut c = copy_row(&rows[i]);
            c.observation.status = ObservationStatus::Analyzing;
            out.push(c);
            assert(obs_views(out@) =~= before.push(claim_one(rows@[i as int]@)));
        }
        i = i + 1;
    }
    assert(s.take(s.len() as int) =~= s);
    out
}

/// The proposals of a list, timestamps blanked.
pub open spec fn untimed_views(s: Seq<Proposal>) -> Seq<ProposalView> {
    s.map_values(|p: Proposal| untimed_proposal(p@))
}

/// Turns pending observations into proposals.
pub struct ProposalAnalyzer;

impl ProposalAnalyzer {
    /// Claims every pending observation, then processes the observations so claimed
    /// in id order (one left under analysis by an earlier duplicate is not taken up
    /// again): categories without a rule are skipped (terminal), an
    /// action whose semantic key a pending proposal already has adds nothing, and
    /// otherwise a new pending proposal is added. Returns the proposals added; when
    /// a proposal cannot be stored the observation's claim is released and the run
    /// fails.
    pub fn analyze(db: &mut Connection) -> (r: Result<Vec<Proposal>, FeedbackError>)
        requires
            old(db).wf(),
        ensures
            final(db).wf(),
            analyze_effect(
                old(db)@,
                final(db)@,
                match r {
                    Ok(v) => Ok(proposal_views(v@)),
                    Err(e) => Err(e),
                },
            ),
    {
        let ghost a = db@;
        let queue = claimed_copies(db);
        db.claim_pending();
        proof {
            assert(db@.observations =~= claimed(a).observations);
            assert(db@ == claimed(a));
            lemma_claim_ok(a);
        }
        let ghost c = db@;
        let ghost t = obs_views(queue@);
        let ghost ut = claimed_rows(untimed(a).observations);
        proof {
            lemma_claimed_rows(a.observations);
            let aids = a.observations.map_values(|o: ObsView| o.id);
            assert forall|i: int, j: int| 0 <= i < j < a.observations.len() implies a.observations[i].id < a.observations[j].id by {
                assert(aids[i] == a.observations[i].id && aids[j] == a.observations[j].id);
            }
            assert(untimed(a).observations == a.observations.map_values(|o: ObsView| ObsView { created_at: Seq::empty(), ..o }));
            assert(ut == t.map_values(|o: ObsView| untimed_observation(o)));
            assert forall|j: int| 0 <= j < t.len() implies #[trigger] is_row(c, t[j]) by {
                let idx = choose|idx: int| 0 <= idx < a.observations.len() && claim_one(a.observations[idx]) == t[j];
                assert(c.observations[idx] == t[j]);
            }
            assert(ut.skip(0) =~= ut);
            assert(untimed_views(Seq::<Proposal>::empty()) =~= Seq::<ProposalView>::empty());
        }
        let mut created: Vec<Proposal> = Vec::new();
        let mut k: usize = 0;
        while k < queue.len()
            invariant
                db.wf(),
                c == claimed(old(db)@),
                a == old(db)@,
                ut == claimed_rows(untimed(a).observations),
                t == obs_views(queue@),
                t == claimed_rows(a.observations),
                ut == t.map_values(|o: ObsView| untimed_observation(o)),
                k <= t.len(),
                forall|j: int| k <= j < t.len() ==> #[trigger] is_row(db@, t[j]),
                forall|j: int| 0 <= j < t.len() ==> (#[trigger] t[j]).status == ObservationStatus::Analyzing,
                forall|i: int, j: int| 0 <= i < j < t.len() ==> t[i].id < t[j].id,
                process_all(untimed(c), ut) == ({
                    let (vf, pf, ff) = process_all(untimed(db@), ut.skip(k as int));
                    (vf, untimed_views(created@) + pf, ff)
                }),
            decreases queue.len() - k,
        {
            let row = &queue[k];
            let ghost o = t[k as int];
            let ghost v = db@;
            assert(is_row(db@, t[k as int]));
            let ghost idx = choose|idx: int| 0 <= idx < v.observations.len() && v.observations[idx] == o;
            proof {
                assert(row@ == o);
                assert(ut.skip(k as int) =~= seq![ut[k as int]] + ut.skip(k + 1));
                assert(ut.skip(k as int)[0] == untimed_observation(o));
                assert(ut.skip(k as int).drop_first() =~= ut.skip(k + 1));
                assert(action_of(untimed_observation(o)) == action_of(o));
            }
            let ghost rest = ut.skip(k + 1);
            match generate_proposal_action(row) {
                None => {
                    proof {
                        lemma_no_pending_of_unconvertible(v, idx);
                        lemma_status_change_ok(v, idx, ObservationStatus::Skipped);
                        lemma_untimed_status(v, o.id, ObservationStatus::Skipped);
                    }
                    db.set_observation_status(row.observation.id, ObservationStatus::Skipped);
                    proof {
                        assert(db@.observations =~= with_observation_status(v, o.id, ObservationStatus::Skipped).observations);
                        assert(db@ == with_observation_status(v, o.id, ObservationStatus::Skipped));
                        assert forall|j: int| k + 1 <= j < t.len() implies #[trigger] is_row(db@, t[j]) by {
                            assert(is_row(v, t[j]));
                            let jdx = choose|jdx: int| 0 <= jdx < v.observations.len() && v.observations[jdx] == t[j];
                            assert(t[j].id != o.id);
                            assert(db@.observations[jdx] == v.observations[jdx]);
                        }
                    }
                },
                Some(action) => {
                    let key = build_semantic_key(&action);
                    if pending_key_exists(db, key.as_str()) {
                        proof {
                            assert(untimed(v).proposals =~= v.proposals.map_values(|p: ProposalView| untimed_proposal(p)));
                            let i = choose|i: int| 0 <= i < v.proposals.len() && (#[trigger] v.proposals[i]).status == ProposalStatus::Pending && v.proposals[i].semantic_key == key@;
                            assert(untimed(v).proposals[i].status == ProposalStatus::Pending);
                            assert(pending_key(untimed(v).proposals, key@));
                        }
                    } else {
                        let kind = kind_of(&action);
                        let mut title = String::from_str(kind);
                        title.append(": ");
                        title.append(row.observation.message.as_str());
                        let p = Proposal {
                            id: 0,
                            observation_id: row.observation.id,
                            kind: String::from_str(kind),
                            semantic_key: key,
                            title,
                            description: row.observation.message.clone(),
                            action_json: action_to_json(&action),
                            status: ProposalStatus::Pending,
                            decided_at: None,
                            decided_reason: None,
                            created_at: now_text(),
                        };
                        let copy = copy_proposal(&p);
                        proof {
                            assert(untimed(v).proposals =~= v.proposals.map_values(|p: ProposalView| untimed_proposal(p)));
                            if pending_key(untimed(v).proposals, key@) {
                                let i = choose|i: int| 0 <= i < untimed(v).proposals.len() && (#[trigger] untimed(v).proposals[i]).status == ProposalStatus::Pending && untimed(v).proposals[i].semantic_key == key@;
                                assert(v.proposals[i].status == ProposalStatus::Pending);
                            }
                            assert(!pending_key(untimed(v).proposals, key@));
                        }
                        match db.push_proposal(p) {
                            Some(id) => {
                                let mut made = copy;
                                made.id = id;
                                proof {
                                    lemma_create_ok(v, idx, action@, made@);
                                    let np = new_proposal(untimed_observation(o), action@, id);
                                    assert(untimed_proposal(made@) == np);
                                    assert(untimed(db@).proposals =~= untimed(v).proposals.push(np));
                                    assert(untimed(db@) == DbView { proposals: untimed(v).proposals.push(np), next_proposal: (untimed(v).next_proposal + 1) as i64, ..untimed(v) });
                                    assert(db@ == DbView { proposals: v.proposals.push(made@), next_proposal: (v.next_proposal + 1) as i64, ..v });
                                    assert forall|j: int| k + 1 <= j < t.len() implies #[trigger] is_row(db@, t[j]) by {
                                        assert(is_row(v, t[j]));
                                    }
                                }
                                let ghost before = untimed_views(created@);
                                created.push(made);
                                proof {
                                    assert(untimed_views(created@) =~= before.push(new_proposal(untimed_observation(o), action@, id)));
                                    let (vf, pf, ff) = process_all(untimed(db@), rest);
                                    assert(before + (seq![new_proposal(untimed_observation(o), action@, id)] + pf) =~= before.push(new_proposal(untimed_observation(o), action@, id)) + pf);
                                }
                            },
                            None => {
                                proof {
                                    lemma_no_pending_of(v, idx, action@);
                                    lemma_status_change_ok(v, idx, ObservationStatus::Pending);
                                    lemma_untimed_status(v, o.id, ObservationStatus::Pending);
                                }
                                db.set_observation_status(row.observation.id, ObservationStatus::Pending);
                                proof {
                                    assert(db@.observations =~= with_observation_status(v, o.id, ObservationStatus::Pending).observations);
                                    assert(db@ == with_observation_status(v, o.id, ObservationStatus::Pending));
                                    assert(untimed_views(created@) + Seq::<ProposalView>::empty() =~= untimed_views(created@));
                                    assert(proposal_views(created@).map_values(|p: ProposalView| untimed_proposal(p)) =~= untimed_views(created@));
                                    let uo = ut.skip(k as int)[0];
                                    assert(uo == untimed_observation(o));
                                    assert(untimed(v).next_proposal == i64::MAX);
                                    assert(process_step(untimed(v), uo) == (with_observation_status(untimed(v), o.id, ObservationStatus::Pending), Outcome::Failed));
                                    assert(process_all(untimed(v), ut.skip(k as int)) == (with_observation_status(untimed(v), o.id, ObservationStatus::Pending), Seq::<ProposalView>::empty(), Some(o.id)));
                                }
                                return Err(
                                    FeedbackError::AnalyzeFailed {
                                        observation_id: row.observation.id,
                                        detail: String::from_str("database error: db error: database or disk is full"),
                                    },
                                );
                            },
                        }
                    }
                },
            }
            k = k + 1;
        }
        proof {
            assert(ut.skip(k as int) =~= Seq::<ObsView>::empty());
            assert(untimed_views(created@) + Seq::<ProposalView>::empty() =~= untimed_views(created@));
            assert(proposal_views(created@).map_values(|p: ProposalView| untimed_proposal(p)) =~= untimed_views(created@));
        }
        Ok(created)
    }
}

} // verus!
