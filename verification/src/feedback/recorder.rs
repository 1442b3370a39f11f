use vstd::prelude::*;

use crate::check::json_items;
use crate::common::string_views;
use crate::feedback::db::{
    active, backs, db_ok, full_message, now_text, unique_active, Connection, DbView, ObsView, ObservationRow,
};
use crate::feedback::error::{DbStubError, FeedbackError};
use crate::feedback::observer::{NewObservation, NewObservationView, Observation, ObservationStatus};
use crate::json::json_quote;
use crate::order::{lemma_lex_irreflexive, lemma_lex_transitive, lemma_lex_total, lemma_sort_strs, lex_lt, sort_strings, sort_strs, strs_sorted};
use crate::text::{blank, is_blank, str_eq};

verus! {

/// What `record` returns: the id of the stored observation and whether an open
/// observation with the same key already existed (nothing was inserted).
#[derive(Debug, Clone, Copy, PartialEq, Eq, Structural)]
pub struct RecordResult {
    pub id: i64,
    pub skipped: bool,
}

/// `s` without elements equal to their predecessor.
pub open spec fn dedup_adjacent(s: Seq<Seq<char>>) -> Seq<Seq<char>>
    decreases s.len(),
{
    if s.len() == 0 {
        s
    } else {
        let d = dedup_adjacent(s.drop_last());
        if d.len() > 0 && d.last() == s.last() {
            d
        } else {
            d.push(s.last())
        }
    }
}

/// The canonical form of a list of related ids: sorted, each id once.
pub open spec fn canonical_ids(s: Seq<Seq<char>>) -> Seq<Seq<char>> {
    dedup_adjacent(sort_strs(s))
}

/// A list of strings as a JSON array of string literals.
pub open spec fn ids_json(s: Seq<Seq<char>>) -> Seq<char> {
    "["@ + json_items(s) + "]"@
}

/// Every element comes strictly after the one before it.
pub open spec fn strictly_sorted(s: Seq<Seq<char>>) -> bool {
    forall|i: int, j: int| 0 <= i < j < s.len() ==> lex_lt(#[trigger] s[i], #[trigger] s[j])
}

proof fn lemma_dedup_adjacent(s: Seq<Seq<char>>)
    requires
        strs_sorted(s),
    ensures
        strictly_sorted(dedup_adjacent(s)),
        dedup_adjacent(s).to_set() == s.to_set(),
        s.len() > 0 ==> dedup_adjacent(s).len() > 0 && dedup_adjacent(s).last() == s.last(),
    decreases s.len(),
{
    if s.len() > 0 {
        let t = s.drop_last();
        assert(strs_sorted(t)) by {
            assert forall|i: int, j: int| 0 <= i < j < t.len() implies !lex_lt(#[trigger] t[j], #[trigger] t[i]) by {
                assert(t[i] == s[i] && t[j] == s[j]);
            }
        }
        lemma_dedup_adjacent(t);
        let d = dedup_adjacent(t);
        assert(s.to_set() =~= t.to_set().insert(s.last())) by {
            assert forall|x: Seq<char>| s.to_set().contains(x) <==> t.to_set().insert(s.last()).contains(x) by {
                if s.contains(x) {
                    let k = choose|k: int| 0 <= k < s.len() && s[k] == x;
                    if k < s.len() - 1 {
                        assert(t[k] == x);
                    }
                }
                if t.contains(x) {
                    let k = choose|k: int| 0 <= k < t.len() && t[k] == x;
                    assert(s[k] == x);
                }
                if x == s.last() {
                    assert(s[s.len() - 1] == x);
                }
            }
        }
        if d.len() > 0 && d.last() == s.last() {
            assert(d.to_set() =~= t.to_set().insert(s.last())) by {
                assert(d.contains(s.last())) by {
                    assert(d[d.len() - 1] == s.last());
                }
            }
        } else {
            let r = d.push(s.last());
            if t.len() > 0 {
                assert(!lex_lt(s.last(), t.last())) by {
                    assert(s[t.len() - 1] == t.last());
                }
                lemma_lex_total(t.last(), s.last());
                assert(lex_lt(d.last(), s.last()));
            }
            assert forall|i: int, j: int| 0 <= i < j < r.len() implies lex_lt(#[trigger] r[i], #[trigger] r[j]) by {
                if j == r.len() - 1 {
                    if i < d.len() - 1 {
                        assert(lex_lt(d[i], d[d.len() - 1]));
                        lemma_lex_transitive(d[i], d.last(), s.last());
                    }
                } else {
                    assert(r[i] == d[i] && r[j] == d[j]);
                }
            }
            assert(r.to_set() =~= d.to_set().insert(s.last())) by {
                assert forall|y: Seq<char>| r.to_set().contains(y) <==> d.to_set().insert(s.last()).contains(y) by {
                    if r.contains(y) {
                        let k = choose|k: int| 0 <= k < r.len() && r[k] == y;
                        if k < d.len() {
                            assert(d[k] == y);
                        }
                    }
                    if d.contains(y) {
                        let k = choose|k: int| 0 <= k < d.len() && d[k] == y;
                        assert(r[k] == y);
                    }
                    if y == s.last() {
                        assert(r[r.len() - 1] == y);
                    }
                }
            }
        }
    }
}

proof fn lemma_strictly_sorted_unique(a: Seq<Seq<char>>, b: Seq<Seq<char>>)
    requires
        strictly_sorted(a),
        strictly_sorted(b),
        a.to_set() == b.to_set(),
    ensures
        a == b,
    decreases a.len() + b.len(),
{
    if a.len() == 0 || b.len() == 0 {
        if a.len() > 0 {
            assert(a.to_set().contains(a[0]));
        }
        if b.len() > 0 {
            assert(b.to_set().contains(b[0]));
        }
        assert(a =~= b);
    } else {
        assert(a.to_set().contains(a[0]));
        assert(b.to_set().contains(b[0]));
        let ka = choose|k: int| 0 <= k < b.len() && b[k] == a[0];
        let kb = choose|k: int| 0 <= k < a.len() && a[k] == b[0];
        if ka > 0 {
            assert(lex_lt(b[0], b[ka]));
        }
        if kb > 0 {
            assert(lex_lt(a[0], a[kb]));
        }
        if ka > 0 && kb > 0 {
            lemma_lex_transitive(b[0], a[0], b[0]);
            lemma_lex_irreflexive(b[0]);
        }
        if ka > 0 && kb == 0 {
            lemma_lex_irreflexive(a[0]);
        }
        if kb > 0 && ka == 0 {
            lemma_lex_irreflexive(b[0]);
        }
        assert(a[0] == b[0]);
        let a1 = a.drop_first();
        let b1 = b.drop_first();
        assert(strictly_sorted(a1)) by {
            assert forall|i: int, j: int| 0 <= i < j < a1.len() implies lex_lt(#[trigger] a1[i], #[trigger] a1[j]) by {
                assert(a1[i] == a[i + 1] && a1[j] == a[j + 1]);
            }
        }
        assert(strictly_sorted(b1)) by {
            assert forall|i: int, j: int| 0 <= i < j < b1.len() implies lex_lt(#[trigger] b1[i], #[trigger] b1[j]) by {
                assert(b1[i] == b[i + 1] && b1[j] == b[j + 1]);
            }
        }
        assert(a1.to_set() =~= b1.to_set()) by {
            assert forall|x: Seq<char>| a1.to_set().contains(x) <==> b1.to_set().contains(x) by {
                if a1.contains(x) {
                    let k = choose|k: int| 0 <= k < a1.len() && a1[k] == x;
                    assert(a[k + 1] == x);
                    assert(lex_lt(a[0], a[k + 1]));
                    assert(b.to_set().contains(x));
                    let m = choose|m: int| 0 <= m < b.len() && b[m] == x;
                    if m == 0 {
                        lemma_lex_irreflexive(x);
                    }
                    assert(b1[m - 1] == x);
                }
                if b1.contains(x) {
                    let k = choose|k: int| 0 <= k < b1.len() && b1[k] == x;
                    assert(b[k + 1] == x);
                    assert(lex_lt(b[0], b[k + 1]));
                    assert(a.to_set().contains(x));
                    let m = choose|m: int| 0 <= m < a.len() && a[m] == x;
                    if m == 0 {
                        lemma_lex_irreflexive(x);
                    }
                    assert(a1[m - 1] == x);
                }
            }
        }
        lemma_strictly_sorted_unique(a1, b1);
        assert(a =~= seq![a[0]] + a1);
        assert(b =~= seq![b[0]] + b1);
    }
}

/// The canonical form of a list of related ids is strictly sorted and holds exactly
/// its ids.
pub proof fn law_canonical_ids(s: Seq<Seq<char>>)
    ensures
        strictly_sorted(canonical_ids(s)),
        canonical_ids(s).to_set() == s.to_set(),
{
    broadcast use vstd::seq_lib::group_to_multiset_ensures;
    lemma_sort_strs(s);
    lemma_dedup_adjacent(sort_strs(s));
    assert(sort_strs(s).to_set() =~= s.to_set()) by {
        assert forall|x: Seq<char>| sort_strs(s).to_set().contains(x) <==> s.to_set().contains(x) by {
            assert(sort_strs(s).contains(x) <==> sort_strs(s).to_multiset().count(x) > 0);
            assert(s.contains(x) <==> s.to_multiset().count(x) > 0);
        }
    }
}

/// Lists of related ids with the same ids, in whatever order and however often, have
/// the same canonical form.
pub proof fn law_canonical_ids_order_and_repeat_free(a: Seq<Seq<char>>, b: Seq<Seq<char>>)
    requires
        a.to_set() == b.to_set(),
    ensures
        canonical_ids(a) == canonical_ids(b),
{
    law_canonical_ids(a);
    law_canonical_ids(b);
    lemma_strictly_sorted_unique(canonical_ids(a), canonical_ids(b));
}

fn dedup_sorted(v: Vec<String>) -> (r: Vec<String>)
    ensures
        string_views(r@) == dedup_adjacent(string_views(v@)),
{
    let ghost input = string_views(v@);
    let mut out: Vec<String> = Vec::new();
    for x in it: v
        invariant
            input == string_views(it.seq()),
            string_views(out@) == dedup_adjacent(input.take(it.index() as int)),
    {
        let ghost k = it.index() as int;
        proof {
            assert(input.take(k + 1).drop_last() =~= input.take(k));
            assert(input.take(k + 1).last() == x@);
        }
        let n = out.len();
        if n > 0 && str_eq(out[n - 1].as_str(), x.as_str()) {
        } else {
            let ghost before = string_views(out@);
            out.push(x);
            assert(string_views(out@) =~= before.push(x@));
        }
    }
    assert(input.take(input.len() as int) =~= input);
    out
}

pub(crate) fn json_array(ids: &Vec<String>) -> (r: String)
    ensures
        r@ == ids_json(string_views(ids@)),
{
    let ghost sv = string_views(ids@);
    let mut out = String::from_str("[");
    let mut i: usize = 0;
    while i < ids.len()
        invariant
            i <= ids@.len(),
            sv == string_views(ids@),
            out@ == "["@ + json_items(sv.take(i as int)),
        decreases ids.len() - i,
    {
        proof {
            assert(sv.take(i + 1).drop_last() =~= sv.take(i as int));
            assert(sv.take(i + 1).last() == ids@[i as int]@);
        }
        if i > 0 {
            out.append(",");
        }
        let q = json_quote(ids[i].as_str());
        out.append(q.as_str());
        proof {
            if i == 0 {
                assert(sv.take(1)[0] == sv[0]);
            }
            assert(out@ =~= "["@ + json_items(sv.take(i + 1)));
        }
        i = i + 1;
    }
    assert(sv.take(sv.len() as int) =~= sv);
    out.append("]");
    out
}

fn canonical_list(related_ids: &[String]) -> (r: Vec<String>)
    ensures
        string_views(r@) == canonical_ids(string_views(related_ids@)),
{
    let mut copy: Vec<String> = Vec::new();
    let mut i: usize = 0;
    while i < related_ids.len()
        invariant
            i <= related_ids@.len(),
            string_views(copy@) == string_views(related_ids@).take(i as int),
        decreases related_ids.len() - i,
    {
        let ghost before = string_views(copy@);
        copy.push(related_ids[i].clone());
        assert(string_views(copy@) =~= before.push(related_ids@[i as int]@));
        assert(string_views(related_ids@).take(i + 1) =~= string_views(related_ids@).take(i as int).push(related_ids@[i as int]@));
        i = i + 1;
    }
    assert(string_views(related_ids@).take(related_ids@.len() as int) =~= string_views(related_ids@));
    let sorted = sort_strings(copy);
    dedup_sorted(sorted)
}

/// Index of the first open observation with category `category` and key `key`.
pub open spec fn find_active(rows: Seq<ObsView>, category: Seq<char>, key: Seq<char>) -> Option<int>
    decreases rows.len(),
{
    if rows.len() == 0 {
        None
    } else {
        match find_active(rows.drop_last(), category, key) {
            Some(i) => Some(i),
            None => if active(rows.last().status) && rows.last().category == category && rows.last().key == key {
                Some(rows.len() - 1)
            } else {
                None
            },
        }
    }
}

/// `row` is what `record` stores for `o` under `id` (its time of creation aside).
pub open spec fn recorded_row(o: NewObservationView, id: i64, row: ObsView) -> bool {
    &&& row.id == id
    &&& row.source == o.source
    &&& row.category == o.category
    &&& row.severity == o.severity
    &&& row.message == o.message
    &&& row.related == canonical_ids(o.related)
    &&& row.key == ids_json(canonical_ids(o.related))
    &&& row.context == o.context
    &&& row.status == ObservationStatus::Pending
}

/// The effect of recording `o` on a database `a`, leaving `b` and returning `r`:
/// a blank message is refused; an open observation with the same category and
/// canonical related ids is returned instead of a new one; otherwise a pending
/// observation is appended under the next id (refused once the ids are used up).
pub open spec fn record_effect(a: DbView, o: NewObservationView, b: DbView, r: Result<RecordResult, FeedbackError>) -> bool {
    if is_blank(o.message) {
        r matches Err(FeedbackError::EmptyObservationMessage) && b == a
    } else {
        match find_active(a.observations, o.category, ids_json(canonical_ids(o.related))) {
            Some(i) => r == Ok::<RecordResult, FeedbackError>(RecordResult { id: a.observations[i].id, skipped: true })
                && b == a,
            None => if a.next_observation == i64::MAX {
                r matches Err(FeedbackError::Db(DbStubError::Op(m))) && m@ == full_message() && b == a
            } else {
                &&& r == Ok::<RecordResult, FeedbackError>(RecordResult { id: a.next_observation, skipped: false })
                &&& b.observations.len() == a.observations.len() + 1
                &&& b.observations.drop_last() == a.observations
                &&& recorded_row(o, a.next_observation, b.observations.last())
                &&& b.next_observation == a.next_observation + 1
                &&& b.proposals == a.proposals
                &&& b.edges == a.edges
                &&& b.log == a.log
                &&& b.next_proposal == a.next_proposal
                &&& b.next_edge == a.next_edge
                &&& b.next_log == a.next_log
            },
        }
    }
}

proof fn lemma_find_active(rows: Seq<ObsView>, category: Seq<char>, key: Seq<char>)
    ensures
        match find_active(rows, category, key) {
            Some(i) => 0 <= i < rows.len() && active(rows[i].status) && rows[i].category == category
                && rows[i].key == key,
            None => forall|j: int|
                0 <= j < rows.len() ==> !(active(#[trigger] rows[j].status) && rows[j].category == category
                    && rows[j].key == key),
        },
    decreases rows.len(),
{
    if rows.len() > 0 {
        lemma_find_active(rows.drop_last(), category, key);
        assert forall|j: int| 0 <= j < rows.len() - 1 implies rows.drop_last()[j] == rows[j] by {}
    }
}

/// Recording the same observation twice stores it once: the second call returns the
/// id the first one returned, marked as skipped, and changes nothing.
pub proof fn law_record_twice(
    a: DbView,
    o: NewObservationView,
    b: DbView,
    r1: Result<RecordResult, FeedbackError>,
    c: DbView,
    r2: Result<RecordResult, FeedbackError>,
)
    requires
        record_effect(a, o, b, r1),
        record_effect(b, o, c, r2),
        r1 is Ok,
    ensures
        r2 == Ok::<RecordResult, FeedbackError>(RecordResult { id: r1->Ok_0.id, skipped: true }),
        c == b,
{
    let key = ids_json(canonical_ids(o.related));
    lemma_find_active(a.observations, o.category, key);
    lemma_find_active(b.observations, o.category, key);
    match find_active(a.observations, o.category, key) {
        Some(i) => {},
        None => {
            let n = a.observations.len() as int;
            assert(b.observations[n] == b.observations.last());
            match find_active(b.observations, o.category, key) {
                Some(j) => {
                    if j < n {
                        assert(b.observations[j] == a.observations.drop_last().push(a.observations.last())[j]) by {
                            assert(b.observations.drop_last()[j] == b.observations[j]);
                        }
                        assert(b.observations[j] == a.observations[j]) by {
                            assert(b.observations.drop_last()[j] == b.observations[j]);
                        }
                    }
                },
                None => {
                    assert(active(b.observations[n].status));
                },
            }
        },
    }
}

/// Recording, after an observation, another one with the same category and the same
/// related ids (in whatever order and however often) and a non-blank message stores
/// nothing: it returns the id the first call returned, marked as skipped.
pub proof fn law_record_same_ids_deduplicated(
    a: DbView,
    o1: NewObservationView,
    b: DbView,
    r1: Result<RecordResult, FeedbackError>,
    o2: NewObservationView,
    c: DbView,
    r2: Result<RecordResult, FeedbackError>,
)
    requires
        record_effect(a, o1, b, r1),
        record_effect(b, o2, c, r2),
        r1 is Ok,
        o2.category == o1.category,
        o2.related.to_set() == o1.related.to_set(),
        !is_blank(o2.message),
    ensures
        r2 == Ok::<RecordResult, FeedbackError>(RecordResult { id: r1->Ok_0.id, skipped: true }),
        c == b,
{
    law_canonical_ids_order_and_repeat_free(o1.related, o2.related);
    let key = ids_json(canonical_ids(o1.related));
    assert(ids_json(canonical_ids(o2.related)) == key);
    lemma_find_active(a.observations, o1.category, key);
    lemma_find_active(b.observations, o1.category, key);
    match find_active(a.observations, o1.category, key) {
        Some(i) => {},
        None => {
            let n = a.observations.len() as int;
            assert(b.observations[n] == b.observations.last());
            match find_active(b.observations, o1.category, key) {
                Some(j) => {
                    if j < n {
                        assert(b.observations[j] == a.observations[j]) by {
                            assert(b.observations.drop_last()[j] == b.observations[j]);
                        }
                    }
                },
                None => {
                    assert(active(b.observations[n].status));
                },
            }
        },
    }
}

/// Records observations, deduplicating open ones.
pub struct ObservationRecorder;

impl ObservationRecorder {
    /// Records `obs`: refuses a blank message, returns the open observation with the
    /// same category and related-id set if there is one, and otherwise stores a new
    /// pending observation.
    pub fn record(obs: &NewObservation, db: &mut Connection) -> (r: Result<RecordResult, FeedbackError>)
        requires
            old(db).wf(),
        ensures
            final(db).wf(),
            record_effect(old(db)@, obs@, final(db)@, r),
    {
        if blank(obs.message.as_str()) {
            return Err(FeedbackError::EmptyObservationMessage);
        }
        let related = canonical_list(obs.related_ids.as_slice());
        let key = json_array(&related);
        match Self::find_existing(db, obs.category.as_str(), key.as_str()) {
            Some(existing) => {
                return Ok(RecordResult { id: existing, skipped: true });
            },
            None => {},
        }
        let created_at = now_text();
        let context_json = match &obs.context_json {
            Some(c) => Some(c.clone()),
            None => None,
        };
        let row = ObservationRow {
            observation: Observation {
                id: 0,
                source: obs.source.clone(),
                category: obs.category.clone(),
                severity: obs.severity.clone(),
                message: obs.message.clone(),
                related_ids: related,
                context_json,
                status: ObservationStatus::Pending,
                created_at,
            },
            key,
        };
        let ghost a = db@;
        match db.push_observation(row) {
            Some(id) => {
                proof {
                    lemma_find_active(a.observations, obs@.category, ids_json(canonical_ids(obs@.related)));
                    assert(db@.observations.drop_last() =~= a.observations);
                    let b = db@;
                    assert(unique_active(b.observations)) by {
                        assert forall|i: int, j: int|
                            0 <= i < b.observations.len() && 0 <= j < b.observations.len() && i != j && active(
                                #[trigger] b.observations[i].status,
                            ) && active(#[trigger] b.observations[j].status) implies !(b.observations[i].category
                            == b.observations[j].category && b.observations[i].key == b.observations[j].key) by {
                            if i < a.observations.len() && j < a.observations.len() {
                                assert(b.observations[i] == a.observations[i]);
                                assert(b.observations[j] == a.observations[j]);
                            } else if i < a.observations.len() {
                                assert(b.observations[i] == a.observations[i]);
                            } else {
                                assert(b.observations[j] == a.observations[j]);
                            }
                        }
                    }
                    assert(db_ok(b)) by {
                        let ids = b.observations.map_values(|o: ObsView| o.id);
                        let oids = a.observations.map_values(|o: ObsView| o.id);
                        assert forall|i: int| 0 <= i < oids.len() implies ids[i] == oids[i] by {
                            assert(b.observations[i] == a.observations[i]);
                        }
                        assert(ids.len() == oids.len() + 1);
                        assert(ids[oids.len() as int] == id);
                        assert forall|i: int, j: int| 0 <= i < j < ids.len() implies ids[i] < ids[j] by {
                            if j == oids.len() {
                                assert(1 <= oids[i] < a.next_observation);
                            }
                        }
                        assert forall|i: int| 0 <= i < ids.len() implies 1 <= #[trigger] ids[i] < b.next_observation by {
                            if i < oids.len() {
                                assert(1 <= oids[i] < a.next_observation);
                            }
                        }
                        assert forall|i: int|
                            0 <= i < b.proposals.len() && #[trigger] b.proposals[i].status
                                == crate::feedback::analyzer::ProposalStatus::Pending implies exists|k: int|
                            0 <= k < b.observations.len() && #[trigger] backs(b.observations[k], b.proposals[i]) by {
                            let k = choose|k: int| 0 <= k < a.observations.len() && #[trigger] backs(a.observations[k], a.proposals[i]);
                            assert(b.observations[k] == a.observations[k]);
                        }
                    }
                }
                Ok(RecordResult { id, skipped: false })
            },
            None => Err(FeedbackError::Db(DbStubError::Op(String::from_str("database or disk is full")))),
        }
    }

    /// The canonical JSON form of a list of related ids: sorted, each id once, as a
    /// JSON array of strings.
    pub fn canonicalize_related_ids(related_ids: &[String]) -> (r: Result<String, FeedbackError>)
        ensures
            r matches Ok(j) && j@ == ids_json(canonical_ids(string_views(related_ids@))),
    {
        let list = canonical_list(related_ids);
        Ok(json_array(&list))
    }

    /// The id of the first open observation with `category` and `key`.
    fn find_existing(db: &Connection, category: &str, key: &str) -> (r: Option<i64>)
        ensures
            match find_active(db@.observations, category@, key@) {
                Some(i) => r == Some(db@.observations[i].id),
                None => r is None,
            },
    {
        let rows = db.observation_rows();
        let ghost rv = db@.observations;
        let mut i: usize = 0;
        while i < rows.len()
            invariant
                i <= rows@.len(),
                crate::feedback::db::obs_views(rows@) == rv,
                rv == db@.observations,
                find_active(rv.take(i as int), category@, key@) is None,
            decreases rows.len() - i,
        {
            proof {
                assert(rv.take(i + 1).drop_last() =~= rv.take(i as int));
                assert(rv[i as int] == rows@[i as int]@);
            }
            let o = &rows[i].observation;
            if (o.status == ObservationStatus::Pending || o.status == ObservationStatus::Analyzing)
                && str_eq(o.category.as_str(), category) && str_eq(rows[i].key.as_str(), key) {
                proof {
                    assert(rv.take(i + 1).last() == rv[i as int]);
                    assert(find_active(rv.take(i + 1), category@, key@) == Some(i as int));
                    lemma_find_active_prefix(rv, category@, key@, i + 1);
                    assert(o.id == rv[i as int].id);
                    assert(rv == db@.observations);
                }
                return Some(o.id);
            }
            i = i + 1;
        }
        assert(rv.take(rv.len() as int) =~= rv);
        None
    }
}

proof fn lemma_find_active_prefix(rows: Seq<ObsView>, category: Seq<char>, key: Seq<char>, k: int)
    requires
        0 <= k <= rows.len(),
        find_active(rows.take(k), category, key) is Some,
    ensures
        find_active(rows, category, key) == find_active(rows.take(k), category, key),
    decreases rows.len() - k,
{
    if k < rows.len() {
        assert(rows.take(k + 1).drop_last() =~= rows.take(k));
        lemma_find_active_prefix(rows, category, key, k + 1);
    } else {
        assert(rows.take(k) =~= rows);
    }
}

} // verus!
