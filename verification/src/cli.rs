use vstd::prelude::*;

use crate::check::{category_name, finding_views, CheckReport, CheckResult, FindingView};
use crate::common::Severity;
use crate::json::{json_quote, json_string};
use crate::subnode::join;
use crate::text::{decimal, decimal_string};

verus! {

/// The label of a severity in the text report.
pub open spec fn severity_label(s: Severity) -> Seq<char> {
    match s {
        Severity::Error => "ERROR"@,
        Severity::Warning => "WARNING"@,
        Severity::Info => "INFO"@,
        Severity::Clear => "OK"@,
    }
}

/// The line of one finding: `[LABEL] Category: message`, then ` [id, id]` when it
/// names ids.
pub open spec fn finding_line(f: FindingView) -> Seq<char> {
    "["@ + severity_label(f.severity) + "] "@ + category_name(f.category) + ": "@ + f.message + (if f.related.len()
        > 0 {
        " ["@ + join(f.related, ", "@) + "]"@
    } else {
        Seq::empty()
    }) + "\n"@
}

/// The lines of the findings, in order.
pub open spec fn finding_lines(s: Seq<FindingView>) -> Seq<char>
    decreases s.len(),
{
    if s.len() == 0 {
        Seq::empty()
    } else {
        finding_lines(s.drop_last()) + finding_line(s.last())
    }
}

/// The text form of a check report: one line per finding, then a summary of the
/// error, warning and info counts.
pub open spec fn check_report_text(r: CheckReport) -> Seq<char> {
    finding_lines(finding_views(r.findings@)) + "\nSummary: "@ + decimal(r.counts.error as nat) + " error, "@
        + decimal(r.counts.warning as nat) + " warning, "@ + decimal(r.counts.info as nat) + " info\n"@
}

fn severity_text(s: Severity) -> (r: &'static str)
    ensures
        r@ == severity_label(s),
{
    match s {
        Severity::Error => "ERROR",
        Severity::Warning => "WARNING",
        Severity::Info => "INFO",
        Severity::Clear => "OK",
    }
}

fn push_finding(out: &mut String, f: &CheckResult)
    ensures
        final(out)@ == old(out)@ + finding_line(f@),
{
    let ghost before = out@;
    out.append("[");
    out.append(severity_text(f.severity));
    out.append("] ");
    out.append(f.category.name());
    out.append(": ");
    out.append(f.message.as_str());
    let ghost head = out@;
    let ghost ids = f@.related;
    if f.related_ids.len() > 0 {
        out.append(" [");
        let ghost open = out@;
        let mut i: usize = 0;
        while i < f.related_ids.len()
            invariant
                i <= f.related_ids@.len(),
                ids == f@.related,
                ids.len() == f.related_ids@.len(),
                out@ == open + join(ids.take(i as int), ", "@),
            decreases f.related_ids@.len() - i,
        {
            proof {
                assert(ids.take(i + 1).drop_last() =~= ids.take(i as int));
                assert(ids.take(i + 1).last() == f.related_ids@[i as int]@);
                reveal_strlit(", ");
            }
            if i > 0 {
                out.append(", ");
            }
            out.append(f.related_ids[i].as_str());
            proof {
                if i == 0 {
                    assert(join(ids.take(0), ", "@) =~= Seq::<char>::empty());
                }
                assert(out@ =~= open + join(ids.take(i + 1), ", "@));
            }
            i = i + 1;
        }
        assert(ids.take(ids.len() as int) =~= ids);
        out.append("]");
        out.append("\n");
        assert(out@ =~= before + finding_line(f@));
    } else {
        out.append("\n");
        assert(out@ =~= before + finding_line(f@));
    }
}

/// The text form of a check report (see `check_report_text`).
pub fn render_check_report(report: &CheckReport) -> (r: String)
    ensures
        r@ == check_report_text(*report),
{
    let ghost fs = finding_views(report.findings@);
    let mut s = String::new();
    let mut i: usize = 0;
    while i < report.findings.len()
        invariant
            i <= report.findings@.len(),
            fs == finding_views(report.findings@),
            s@ == finding_lines(fs.take(i as int)),
        decreases report.findings@.len() - i,
    {
        proof {
            assert(fs.take(i + 1).drop_last() =~= fs.take(i as int));
            assert(fs.take(i + 1).last() == report.findings@[i as int]@);
        }
        push_finding(&mut s, &report.findings[i]);
        i = i + 1;
    }
    assert(fs.take(fs.len() as int) =~= fs);
    s.append("\nSummary: ");
    s.append(decimal_string(report.counts.error as u64).as_str());
    s.append(" error, ");
    s.append(decimal_string(report.counts.warning as u64).as_str());
    s.append(" warning, ");
    s.append(decimal_string(report.counts.info as u64).as_str());
    s.append(" info\n");
    s
}

/// The JSON array of string literals of `items`.
pub open spec fn json_string_array(items: Seq<Seq<char>>) -> Seq<char> {
    "["@ + join(items.map_values(|s: Seq<char>| json_string(s)), ","@) + "]"@
}

/// The compact JSON object of the observation context: the keys that were given, in
/// key order (`missing_doc`, `source_glob`, `target_files`); none when none was given.
pub open spec fn context_json(targets: Seq<Seq<char>>, missing_doc: Option<Seq<char>>, source_glob: Option<Seq<char>>) -> Option<
    Seq<char>,
> {
    if targets.len() == 0 && missing_doc is None && source_glob is None {
        None
    } else {
        let parts = (match missing_doc {
            Some(d) => seq!["\"missing_doc\":"@ + json_string(d)],
            None => Seq::empty(),
        }) + (match source_glob {
            Some(g) => seq!["\"source_glob\":"@ + json_string(g)],
            None => Seq::empty(),
        }) + (if targets.len() > 0 {
            seq!["\"target_files\":"@ + json_string_array(targets)]
        } else {
            Seq::empty()
        });
        Some("{"@ + join(parts, ","@) + "}"@)
    }
}

/// The context of an observation as compact JSON (see `context_json`).
pub fn build_context_json(target_files: &[String], missing_doc: Option<&str>, source_glob: Option<&str>) -> (r: Option<
    String,
>)
    ensures
        crate::ctx::compiler::opt_str(r) == context_json(
            crate::common::string_views(target_files@),
            match missing_doc {
                Some(d) => Some(d@),
                None => None,
            },
            match source_glob {
                Some(g) => Some(g@),
                None => None,
            },
        ),
{
    let ghost tv = crate::common::string_views(target_files@);
    if target_files.len() == 0 && missing_doc.is_none() && source_glob.is_none() {
        return None;
    }
    let mut parts: Vec<String> = Vec::new();
    match missing_doc {
        Some(d) => {
            let mut p = String::from_str("\"missing_doc\":");
            p.append(json_quote(d).as_str());
            parts.push(p);
        },
        None => {},
    }
    match source_glob {
        Some(g) => {
            let mut p = String::from_str("\"source_glob\":");
            p.append(json_quote(g).as_str());
            parts.push(p);
        },
        None => {},
    }
    if target_files.len() > 0 {
        let ghost qs = tv.map_values(|s: Seq<char>| json_string(s));
        let mut arr = String::from_str("[");
        let ghost open = arr@;
        let mut i: usize = 0;
        while i < target_files.len()
            invariant
                i <= target_files@.len(),
                tv == crate::common::string_views(target_files@),
                qs == tv.map_values(|s: Seq<char>| json_string(s)),
                qs.len() == target_files@.len(),
                arr@ == open + join(qs.take(i as int), ","@),
            decreases target_files@.len() - i,
        {
            proof {
                assert(qs.take(i + 1).drop_last() =~= qs.take(i as int));
                assert(qs.take(i + 1).last() == json_string(target_files@[i as int]@));
                reveal_strlit(",");
            }
            if i > 0 {
                arr.append(",");
            }
            arr.append(json_quote(target_files[i].as_str()).as_str());
            proof {
                if i == 0 {
                    assert(join(qs.take(0), ","@) =~= Seq::<char>::empty());
                }
                assert(arr@ =~= open + join(qs.take(i + 1), ","@));
            }
            i = i + 1;
        }
        assert(qs.take(qs.len() as int) =~= qs);
        arr.append("]");
        let mut p = String::from_str("\"target_files\":");
        p.append(arr.as_str());
        parts.push(p);
    }
    let ghost pv = crate::common::string_views(parts@);
    proof {
        let want = (match missing_doc {
            Some(d) => seq!["\"missing_doc\":"@ + json_string(d@)],
            None => Seq::<Seq<char>>::empty(),
        }) + (match source_glob {
            Some(g) => seq!["\"source_glob\":"@ + json_string(g@)],
            None => Seq::<Seq<char>>::empty(),
        }) + (if tv.len() > 0 {
            seq!["\"target_files\":"@ + json_string_array(tv)]
        } else {
            Seq::<Seq<char>>::empty()
        });
        assert(pv =~= want);
    }
    let mut body = String::from_str("{");
    let ghost open = body@;
    let mut k: usize = 0;
    while k < parts.len()
        invariant
            k <= parts@.len(),
            pv == crate::common::string_views(parts@),
            body@ == open + join(pv.take(k as int), ","@),
        decreases parts@.len() - k,
    {
        proof {
            assert(pv.take(k + 1).drop_last() =~= pv.take(k as int));
            assert(pv.take(k + 1).last() == parts@[k as int]@);
            reveal_strlit(",");
        }
        if k > 0 {
            body.append(",");
        }
        body.append(parts[k].as_str());
        proof {
            if k == 0 {
                assert(join(pv.take(0), ","@) =~= Seq::<char>::empty());
            }
            assert(body@ =~= open + join(pv.take(k + 1), ","@));
        }
        k = k + 1;
    }
    assert(pv.take(pv.len() as int) =~= pv);
    body.append("}");
    Some(body)
}

} // verus!
