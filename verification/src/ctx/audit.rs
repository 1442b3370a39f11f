use vstd::prelude::*;

use crate::common::string_views;
use crate::ctx::types::{granularity_name, CompileInput, ContextError, ContextResult, DbConn, ResolvedTarget};
use crate::feedback::audit::{ContextLogEntry, LogView};
use crate::feedback::db::{now_text, DbView};
use crate::feedback::recorder::{ids_json, json_array};
use crate::json::{json_quote, json_string};
use crate::text::{copy_strings, decimal, decimal_string};

verus! {

/// The ids the targets resolved to, in order.
pub open spec fn resolved_ids(ts: Seq<ResolvedTarget>) -> Seq<Seq<char>>
    decreases ts.len(),
{
    if ts.len() == 0 {
        Seq::empty()
    } else {
        let prev = resolved_ids(ts.drop_last());
        match ts.last().artifact_id {
            Some(a) => prev.push(a@),
            None => prev,
        }
    }
}

/// The target a context-log entry is filed under: the id the first target resolved
/// to, else its path, else `(none)` when there is no target.
pub open spec fn log_target(result: ContextResult) -> Seq<char> {
    if result.targets@.len() == 0 {
        "(none)"@
    } else {
        match result.targets@[0].artifact_id {
            Some(a) => a@,
            None => result.targets@[0].file_path@,
        }
    }
}

/// The JSON payload of a context-log entry (compact, keys in order): the command, the
/// resolved ids, the target files, the unresolved targets and the number of upstream
/// artifacts.
pub open spec fn payload_text(input: CompileInput, result: ContextResult) -> Seq<char> {
    "{\"command\":"@ + match input.command {
        Some(c) => json_string(c@),
        None => "null"@,
    } + ",\"resolved_targets\":"@ + ids_json(resolved_ids(result.targets@)) + ",\"target_files\":"@ + ids_json(
        string_views(input.target_files@),
    ) + ",\"unresolved\":"@ + ids_json(string_views(result.unresolved_targets@)) + ",\"upstream_count\":"@
        + decimal(result.upstream@.len()) + "}"@
}

/// The context log of compilations, written on a best-effort basis.
pub struct AuditLogger<'a> {
    db: Option<&'a mut DbConn>,
}

fn resolved_list(ts: &Vec<ResolvedTarget>) -> (r: Vec<String>)
    ensures
        string_views(r@) == resolved_ids(ts@),
{
    let mut out: Vec<String> = Vec::new();
    let mut i: usize = 0;
    while i < ts.len()
        invariant
            i <= ts@.len(),
            string_views(out@) == resolved_ids(ts@.take(i as int)),
        decreases ts@.len() - i,
    {
        assert(ts@.take(i + 1).drop_last() =~= ts@.take(i as int));
        match &ts[i].artifact_id {
            Some(a) => {
                let ghost before = out@;
                out.push(a.clone());
                assert(string_views(out@) =~= string_views(before).push(a@));
            },
            None => {},
        }
        i = i + 1;
    }
    assert(ts@.take(ts@.len() as int) =~= ts@);
    out
}

fn copy_strings_of(v: &Vec<String>) -> (r: Vec<String>)
    ensures
        string_views(r@) == string_views(v@),
{
    let r = copy_strings(v);
    assert(string_views(r@) =~= string_views(v@));
    r
}

/// The JSON payload of the context-log entry of a compilation.
pub fn payload(input: &CompileInput, result: &ContextResult) -> (r: String)
    ensures
        r@ == payload_text(*input, *result),
{
    let mut s = String::from_str("{\"command\":");
    match &input.command {
        Some(c) => {
            let q = json_quote(c.as_str());
            s.append(q.as_str());
        },
        None => s.append("null"),
    }
    s.append(",\"resolved_targets\":");
    s.append(json_array(&resolved_list(&result.targets)).as_str());
    s.append(",\"target_files\":");
    s.append(json_array(&copy_strings_of(&input.target_files)).as_str());
    s.append(",\"unresolved\":");
    s.append(json_array(&copy_strings_of(&result.unresolved_targets)).as_str());
    s.append(",\"upstream_count\":");
    s.append(decimal_string(result.upstream.len() as u64).as_str());
    s.append("}");
    s
}

/// The target of the context-log entry of a compilation.
pub fn log_target_id(result: &ContextResult) -> (r: String)
    ensures
        r@ == log_target(*result),
{
    if result.targets.len() == 0 {
        return String::from_str("(none)");
    }
    match &result.targets[0].artifact_id {
        Some(a) => a.clone(),
        None => result.targets[0].file_path.clone(),
    }
}

impl<'a> AuditLogger<'a> {
    /// The database handle logged to, if any.
    pub closed spec fn handle(&self) -> Option<DbConn> {
        match self.db {
            Some(d) => Some(*d),
            None => None,
        }
    }

    /// A logger writing through `db` (none: a logger that writes nothing).
    pub fn new(db: Option<&'a mut DbConn>) -> (r: Self)
        ensures
            match db {
                Some(d) => r.handle() == Some(*d),
                None => r.handle() is None,
            },
    {
        AuditLogger { db }
    }

    /// Logs a compilation (see `write_entry`). Logging never fails the compilation: the
    /// result is always `Ok`.
    pub fn log(&mut self, input: &CompileInput, result: &ContextResult) -> (r: Result<(), ContextError>)
        ensures
            r is Ok,
            match old(self).handle() {
                None => final(self).handle() is None,
                Some(h) => final(self).handle() matches Some(h2) && logged(h, h2, *input, *result),
            },
    {
        match &mut self.db {
            None => Ok(()),
            Some(db) => {
                write_entry(db, input, result);
                Ok(())
            },
        }
    }
}

/// `h2` is `h` after logging a compilation: when `h` has a connection whose log ids
/// are not used up, it gains one entry, under the next log id, filed under
/// `log_target(result)`, with the granularity's name and `payload_text` as payload
/// (its timestamp is the time of writing); once the ids are used up, or without a
/// connection, nothing changes.
pub open spec fn logged(h: DbConn, h2: DbConn, input: CompileInput, result: ContextResult) -> bool {
    &&& h2.path_view() == h.path_view()
    &&& match h.connection() {
        None => h2.connection() is None,
        Some(c) => h2.connection() matches Some(c2) && (c.wf() ==> c2.wf()) && if c@.next_log == i64::MAX {
            c2@ == c@
        } else {
            exists|e: LogView|
                #![trigger c@.log.push(e)]
                c2@ == DbView { log: c@.log.push(e), next_log: (c@.next_log + 1) as i64, ..c@ } && e.id == c@.next_log
                    && e.target == log_target(result) && e.granularity == Some(granularity_name(result.granularity))
                    && e.payload == payload_text(input, result)
        },
    }
}

/// Appends the context-log entry of a compilation through `db` (see `logged`).
pub fn write_entry(db: &mut DbConn, input: &CompileInput, result: &ContextResult)
    ensures
        logged(*old(db), *final(db), *input, *result),
{
    if db.conn().is_none() {
        return;
    }
    let entry = ContextLogEntry {
        id: 0,
        target_id: log_target_id(result),
        granularity: Some(String::from_str(result.granularity.as_str())),
        payload: payload(input, result),
        created_at: now_text(),
    };
    let _ = db.push_log(entry);
}

} // verus!
