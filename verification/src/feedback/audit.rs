use vstd::prelude::*;

use crate::feedback::analyzer::opt_view;
use crate::feedback::db::{log_views, Connection, DbView};
use crate::feedback::error::FeedbackError;
use crate::text::str_eq;

verus! {

/// One entry of the context log (written by context compilation, read here).
#[derive(Debug, Clone, PartialEq, Eq)]
pub struct ContextLogEntry {
    pub id: i64,
    pub target_id: String,
    pub granularity: Option<String>,
    pub payload: String,
    pub created_at: String,
}

/// A context-log entry as plain values.
pub struct LogView {
    pub id: i64,
    pub target: Seq<char>,
    pub granularity: Option<Seq<char>>,
    pub payload: Seq<char>,
    pub created_at: Seq<char>,
}

impl View for ContextLogEntry {
    type V = LogView;

    open spec fn view(&self) -> LogView {
        LogView {
            id: self.id,
            target: self.target_id@,
            granularity: opt_view(self.granularity),
            payload: self.payload@,
            created_at: self.created_at@,
        }
    }
}


/// The entries of `log` newest first (highest id first), at most `limit` of them; a
/// limit beyond `i64::MAX` lets all of them through.
pub open spec fn newest(log: Seq<LogView>, limit: usize) -> Seq<LogView> {
    let r = log.reverse();
    if limit as int > i64::MAX as int || limit as int >= r.len() {
        r
    } else {
        r.take(limit as int)
    }
}

/// The entries of `log` for target `target`, in id order.
pub open spec fn for_target(log: Seq<LogView>, target: Seq<char>) -> Seq<LogView>
    decreases log.len(),
{
    if log.len() == 0 {
        log
    } else if log.last().target == target {
        for_target(log.drop_last(), target).push(log.last())
    } else {
        for_target(log.drop_last(), target)
    }
}

fn copy_entry(e: &ContextLogEntry) -> (r: ContextLogEntry)
    ensures
        r@ == e@,
{
    ContextLogEntry {
        id: e.id,
        target_id: e.target_id.clone(),
        granularity: match &e.granularity {
            Some(g) => Some(g.clone()),
            None => None,
        },
        payload: e.payload.clone(),
        created_at: e.created_at.clone(),
    }
}

/// Newest first, at most `limit` of the entries of `rows` that satisfy `keep`.
fn newest_of(rows: &Vec<ContextLogEntry>, target: Option<&str>, limit: usize) -> (r: Vec<ContextLogEntry>)
    ensures
        log_views(r@) == newest(
            match target {
                Some(t) => for_target(log_views(rows@), t@),
                None => log_views(rows@),
            },
            limit,
        ),
{
    let ghost all = log_views(rows@);
    let ghost sel = match target {
        Some(t) => for_target(all, t@),
        None => all,
    };
    let mut kept: Vec<ContextLogEntry> = Vec::new();
    let mut i: usize = 0;
    while i < rows.len()
        invariant
            i <= rows@.len(),
            all == log_views(rows@),
            sel == match target {
                Some(t) => for_target(all, t@),
                None => all,
            },
            log_views(kept@) == match target {
                Some(t) => for_target(all.take(i as int), t@),
                None => all.take(i as int),
            },
        decreases rows.len() - i,
    {
        proof {
            assert(all.take(i + 1).drop_last() =~= all.take(i as int));
            assert(all.take(i + 1).last() == rows@[i as int]@);
        }
        let keep = match target {
            Some(t) => str_eq(rows[i].target_id.as_str(), t),
            None => true,
        };
        let ghost before = log_views(kept@);
        if keep {
            kept.push(copy_entry(&rows[i]));
            assert(log_views(kept@) =~= before.push(rows@[i as int]@));
        }
        proof {
            match target {
                Some(t) => {},
                None => {
                    assert(all.take(i + 1) =~= all.take(i as int).push(all[i as int]));
                },
            }
        }
        i = i + 1;
    }
    assert(all.take(all.len() as int) =~= all);
    let ghost kv = log_views(kept@);
    let unlimited = limit as u64 > 9223372036854775807u64;
    let mut out: Vec<ContextLogEntry> = Vec::new();
    let mut j: usize = kept.len();
    while j > 0 && (unlimited || out.len() < limit)
        invariant
            j <= kept@.len(),
            kv == log_views(kept@),
            kv == sel,
            unlimited == (limit as int > i64::MAX as int),
            out@.len() == kept@.len() - j,
            unlimited || out@.len() <= limit,
            log_views(out@) == kv.reverse().take(out@.len() as int),
        decreases j,
    {
        j = j - 1;
        let ghost before = log_views(out@);
        out.push(copy_entry(&kept[j]));
        assert(kv.reverse()[(kept@.len() - j - 1) as int] == kv[j as int]);
        assert(log_views(out@) =~= kv.reverse().take(out@.len() as int));
    }
    proof {
        if j == 0 {
            assert(kv.reverse().take(kv.len() as int) =~= kv.reverse());
        }
    }
    out
}

/// Reads the context log (read-only).
pub struct ContextAuditReader;

impl ContextAuditReader {
    /// The newest `limit` context-log entries, newest first.
    pub fn recent(db: &Connection, limit: usize) -> (r: Result<Vec<ContextLogEntry>, FeedbackError>)
        ensures
            r matches Ok(v) && log_views(v@) == newest(db@.log, limit),
    {
        Ok(newest_of(db.log_rows(), None, limit))
    }

    /// The newest `limit` context-log entries for `target_id`, newest first.
    pub fn by_target(db: &Connection, target_id: &str, limit: usize) -> (r: Result<Vec<ContextLogEntry>, FeedbackError>)
        ensures
            r matches Ok(v) && log_views(v@) == newest(for_target(db@.log, target_id@), limit),
    {
        Ok(newest_of(db.log_rows(), Some(target_id), limit))
    }
}

} // verus!
