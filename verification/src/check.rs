use vstd::prelude::*;

use crate::common::{id_views, severity_name, string_views, Config, ConfigError, Id, Severity, TypeSpec};
use crate::cycle::{first_back_edge_target, first_cycle_node, on_cycle, reaches, reaches_cycle};
use crate::json::{json_quote, json_string};
use crate::graph::{document_nodes_of, Edge, EdgeKind, GraphError, Node, TraceGraph};
use crate::subnode::{valid_explicit_name, validate_explicit_name};
use crate::text::{
    ascii_alnum, ascii_alpha, ascii_digit, ascii_hex, chars_of, contains_char, is_ascii_alnum,
    is_ascii_alpha, is_ascii_digit, is_ascii_hex, split_chars, split_on, str_eq, decimal, decimal_string,
    string_from_chars,
};
use crate::order::{ids_less, lemma_list_asymmetric, lemma_list_irreflexive, lemma_list_total, lemma_list_transitive, list_lt};

verus! {

/// Check categories. Declaration order is the secondary sort key of a report.
#[derive(Debug, Clone, Copy, PartialEq, Eq, Hash, PartialOrd, Ord, Structural)]
pub enum CheckCategory {
    FileExistence,
    DocumentId,
    ChainIntegrity,
    OrphanFile,
    GraphDag,
    Freshness,
    SubnodeIdFormat,
    SubnodeIdUniqueness,
    SubnodeParentIntegrity,
    SubnodePathConsistency,
    SubnodeDag,
    SubnodeIdCollision,
    UnresolvedEdge,
    IdRedefined,
    IdSemanticMismatch,
    IdSemanticDrift,
    SemanticSimilarity,
}

impl CheckCategory {
    /// Position of the category in declaration order.
    pub open spec fn rank(self) -> int {
        match self {
            CheckCategory::FileExistence => 0,
            CheckCategory::DocumentId => 1,
            CheckCategory::ChainIntegrity => 2,
            CheckCategory::OrphanFile => 3,
            CheckCategory::GraphDag => 4,
            CheckCategory::Freshness => 5,
            CheckCategory::SubnodeIdFormat => 6,
            CheckCategory::SubnodeIdUniqueness => 7,
            CheckCategory::SubnodeParentIntegrity => 8,
            CheckCategory::SubnodePathConsistency => 9,
            CheckCategory::SubnodeDag => 10,
            CheckCategory::SubnodeIdCollision => 11,
            CheckCategory::UnresolvedEdge => 12,
            CheckCategory::IdRedefined => 13,
            CheckCategory::IdSemanticMismatch => 14,
            CheckCategory::IdSemanticDrift => 15,
            CheckCategory::SemanticSimilarity => 16,
        }
    }

    pub fn position(&self) -> (r: u8)
        ensures
            r == self.rank(),
    {
        match self {
            CheckCategory::FileExistence => 0,
            CheckCategory::DocumentId => 1,
            CheckCategory::ChainIntegrity => 2,
            CheckCategory::OrphanFile => 3,
            CheckCategory::GraphDag => 4,
            CheckCategory::Freshness => 5,
            CheckCategory::SubnodeIdFormat => 6,
            CheckCategory::SubnodeIdUniqueness => 7,
            CheckCategory::SubnodeParentIntegrity => 8,
            CheckCategory::SubnodePathConsistency => 9,
            CheckCategory::SubnodeDag => 10,
            CheckCategory::SubnodeIdCollision => 11,
            CheckCategory::UnresolvedEdge => 12,
            CheckCategory::IdRedefined => 13,
            CheckCategory::IdSemanticMismatch => 14,
            CheckCategory::IdSemanticDrift => 15,
            CheckCategory::SemanticSimilarity => 16,
        }
    }
}

/// Where a finding was made: a file path and, optionally, a line.
#[derive(Debug, Clone, PartialEq, Eq)]
pub struct Location {
    pub path: String,
    pub line: Option<usize>,
}

/// One finding of a check.
#[derive(Debug, Clone, PartialEq, Eq)]
pub struct CheckResult {
    pub severity: Severity,
    pub category: CheckCategory,
    pub message: String,
    pub related_ids: Vec<Id>,
    pub location: Option<Location>,
}

/// A finding as plain values.
#[verifier::ext_equal]
pub struct FindingView {
    pub severity: Severity,
    pub category: CheckCategory,
    pub message: Seq<char>,
    pub related: Seq<Seq<char>>,
    pub location: Option<(Seq<char>, Option<usize>)>,
}

impl View for CheckResult {
    type V = FindingView;

    open spec fn view(&self) -> FindingView {
        FindingView {
            severity: self.severity,
            category: self.category,
            message: self.message@,
            related: id_views(self.related_ids@),
            location: match self.location {
                Some(l) => Some((l.path@, l.line)),
                None => None,
            },
        }
    }
}

/// The views of a sequence of findings.
pub open spec fn finding_views(s: Seq<CheckResult>) -> Seq<FindingView> {
    s.map_values(|f: CheckResult| f@)
}

/// Number of findings per severity.
#[derive(Debug, Clone, Copy, PartialEq, Eq, Structural)]
pub struct SeverityCounts {
    pub error: usize,
    pub warning: usize,
    pub info: usize,
    pub ok: usize,
}

impl Default for SeverityCounts {
    fn default() -> (c: SeverityCounts)
        ensures
            c.error == 0 && c.warning == 0 && c.info == 0 && c.ok == 0,
    {
        SeverityCounts { error: 0, warning: 0, info: 0, ok: 0 }
    }
}

/// Number of findings in `s` with severity `sev`.
pub open spec fn count_of(s: Seq<FindingView>, sev: Severity) -> nat
    decreases s.len(),
{
    if s.len() == 0 {
        0
    } else {
        count_of(s.drop_last(), sev) + if s.last().severity == sev {
            1nat
        } else {
            0nat
        }
    }
}

proof fn lemma_count_of_bound(s: Seq<FindingView>, sev: Severity)
    ensures
        count_of(s, sev) <= s.len(),
    decreases s.len(),
{
    if s.len() > 0 {
        lemma_count_of_bound(s.drop_last(), sev);
    }
}

/// The counts of `s` per severity.
pub open spec fn counts_match(c: SeverityCounts, s: Seq<FindingView>) -> bool {
    &&& c.error == count_of(s, Severity::Error)
    &&& c.warning == count_of(s, Severity::Warning)
    &&& c.info == count_of(s, Severity::Info)
    &&& c.ok == count_of(s, Severity::Clear)
}

/// A check report: findings in report order and their counts.
#[derive(Debug, Clone, PartialEq, Eq)]
pub struct CheckReport {
    pub findings: Vec<CheckResult>,
    pub counts: SeverityCounts,
}

/// Which layers a check runs: the formal layer alone, or the semantic layer too.
#[derive(Debug, Clone, Copy, PartialEq, Eq, Structural)]
pub enum CheckMode {
    Formal,
    Full,
}

/// Counts the findings per severity.
pub fn count_severities(findings: &[CheckResult]) -> (c: SeverityCounts)
    ensures
        counts_match(c, finding_views(findings@)),
{
    let mut c = SeverityCounts::default();
    let mut i: usize = 0;
    while i < findings.len()
        invariant
            i <= findings@.len(),
            counts_match(c, finding_views(findings@.take(i as int))),
        decreases findings@.len() - i,
    {
        let ghost pre = finding_views(findings@.take(i as int));
        proof {
            assert(finding_views(findings@.take(i + 1)).drop_last() =~= pre);
            lemma_count_of_bound(pre, Severity::Error);
            lemma_count_of_bound(pre, Severity::Warning);
            lemma_count_of_bound(pre, Severity::Info);
            lemma_count_of_bound(pre, Severity::Clear);
        }
        match findings[i].severity {
            Severity::Error => c.error = c.error + 1,
            Severity::Warning => c.warning = c.warning + 1,
            Severity::Info => c.info = c.info + 1,
            Severity::Clear => c.ok = c.ok + 1,
        }
        i = i + 1;
    }
    assert(findings@.take(findings@.len() as int) =~= findings@);
    c
}

/// Process exit code of a report: 1 when it counts an error, else 0.
pub fn exit_code(report: &CheckReport) -> (r: i32)
    ensures
        r == (if report.counts.error > 0 { 1int } else { 0int }),
{
    if report.counts.error > 0 {
        1
    } else {
        0
    }
}


/// `a` goes strictly before `b` in report order: higher severity first, then the
/// category in declaration order, then the related ids.
pub open spec fn finding_before(a: FindingView, b: FindingView) -> bool {
    ||| a.severity.rank() > b.severity.rank()
    ||| (a.severity.rank() == b.severity.rank() && a.category.rank() < b.category.rank())
    ||| (a.severity.rank() == b.severity.rank() && a.category.rank() == b.category.rank()
        && list_lt(a.related, b.related))
}

/// Stable insertion of `x` into `s`: after every element that does not go after it.
pub open spec fn insert_sorted(s: Seq<FindingView>, x: FindingView) -> Seq<FindingView>
    decreases s.len(),
{
    if s.len() == 0 {
        seq![x]
    } else if finding_before(x, s.last()) {
        insert_sorted(s.drop_last(), x).push(s.last())
    } else {
        s.push(x)
    }
}

/// The findings in report order (a stable sort by `finding_before`).
pub open spec fn report_order(s: Seq<FindingView>) -> Seq<FindingView>
    decreases s.len(),
{
    if s.len() == 0 {
        s
    } else {
        insert_sorted(report_order(s.drop_last()), s.last())
    }
}

/// No element goes strictly before an earlier one.
pub open spec fn in_report_order(s: Seq<FindingView>) -> bool {
    forall|i: int, j: int| 0 <= i < j < s.len() ==> !finding_before(#[trigger] s[j], #[trigger] s[i])
}

/// Where `insert_sorted` places `x`.
pub open spec fn insert_pos(s: Seq<FindingView>, x: FindingView) -> int
    decreases s.len(),
{
    if s.len() == 0 {
        0
    } else if finding_before(x, s.last()) {
        insert_pos(s.drop_last(), x)
    } else {
        s.len() as int
    }
}

proof fn lemma_insert_pos(s: Seq<FindingView>, x: FindingView)
    ensures
        0 <= insert_pos(s, x) <= s.len(),
        insert_sorted(s, x) == s.insert(insert_pos(s, x), x),
        forall|i: int| insert_pos(s, x) <= i < s.len() ==> finding_before(x, #[trigger] s[i]),
        insert_pos(s, x) > 0 ==> !finding_before(x, s[insert_pos(s, x) - 1]),
    decreases s.len(),
{
    if s.len() > 0 {
        if finding_before(x, s.last()) {
            let d = s.drop_last();
            lemma_insert_pos(d, x);
            assert(insert_sorted(s, x) =~= s.insert(insert_pos(s, x), x));
            assert forall|i: int| insert_pos(s, x) <= i < s.len() implies finding_before(x, #[trigger] s[i]) by {
                if i < s.len() - 1 {
                    assert(s[i] == d[i]);
                }
            }
            if insert_pos(s, x) > 0 {
                assert(s[insert_pos(s, x) - 1] == d[insert_pos(s, x) - 1]);
            }
        } else {
            assert(insert_sorted(s, x) =~= s.insert(s.len() as int, x));
        }
    } else {
        assert(insert_sorted(s, x) =~= s.insert(0, x));
    }
}

proof fn lemma_before_asymmetric(a: FindingView, b: FindingView)
    ensures
        !(finding_before(a, b) && finding_before(b, a)),
{
    lemma_list_asymmetric(a.related, b.related);
}

proof fn lemma_not_before_transitive(a: FindingView, b: FindingView, c: FindingView)
    requires
        !finding_before(b, a),
        !finding_before(c, b),
    ensures
        !finding_before(c, a),
{
    lemma_list_total(a.related, b.related);
    lemma_list_total(b.related, c.related);
    lemma_list_total(a.related, c.related);
    if list_lt(c.related, a.related) && a.severity.rank() == c.severity.rank()
        && a.category.rank() == c.category.rank() {
        if a.related == b.related {
        } else if b.related == c.related {
        } else {
            lemma_list_transitive(c.related, a.related, b.related);
            lemma_list_asymmetric(c.related, b.related);
        }
    }
}

proof fn lemma_insert_sorted_ordered(s: Seq<FindingView>, x: FindingView)
    requires
        in_report_order(s),
    ensures
        in_report_order(insert_sorted(s, x)),
        insert_sorted(s, x).to_multiset() == s.to_multiset().insert(x),
{
    broadcast use vstd::seq_lib::group_to_multiset_ensures;
    lemma_insert_pos(s, x);
    let p = insert_pos(s, x);
    let r = s.insert(p, x);
    assert forall|i: int, j: int| 0 <= i < j < r.len() implies !finding_before(#[trigger] r[j], #[trigger] r[i]) by {
        if j < p {
            assert(r[i] == s[i] && r[j] == s[j]);
        } else if j == p {
            assert(r[i] == s[i]);
            if i < p - 1 {
                assert(!finding_before(s[p - 1], s[i]));
            } else {
                lemma_list_irreflexive(s[i].related);
            }
            lemma_not_before_transitive(s[i], s[p - 1], x);
        } else if i == p {
            assert(r[j] == s[j - 1]);
            lemma_before_asymmetric(x, s[j - 1]);
        } else if i < p {
            assert(r[i] == s[i] && r[j] == s[j - 1]);
        } else {
            assert(r[i] == s[i - 1] && r[j] == s[j - 1]);
        }
    }
    assert(r.remove(p) =~= s);
    assert(r.to_multiset().count(x) > 0) by {
        assert(r[p] == x);
        assert(r.contains(x));
    }
    assert(r.to_multiset() =~= s.to_multiset().insert(x));
}

/// Report order is ordered by `finding_before` and keeps every finding: the result
/// holds the same findings, each as often, with none going before an earlier one.
pub proof fn lemma_report_order(s: Seq<FindingView>)
    ensures
        in_report_order(report_order(s)),
        report_order(s).to_multiset() == s.to_multiset(),
    decreases s.len(),
{
    broadcast use vstd::seq_lib::group_to_multiset_ensures;
    if s.len() == 0 {
        assert(s.to_multiset() =~= vstd::multiset::Multiset::empty());
    } else {
        lemma_report_order(s.drop_last());
        lemma_insert_sorted_ordered(report_order(s.drop_last()), s.last());
        assert(s.drop_last().push(s.last()) =~= s);
    }
}

/// Whether finding `a` goes strictly before `b` in report order.
fn before(a: &CheckResult, b: &CheckResult) -> (r: bool)
    ensures
        r == finding_before(a@, b@),
{
    let sa = a.severity.level();
    let sb = b.severity.level();
    if sa != sb {
        return sa > sb;
    }
    let ca = a.category.position();
    let cb = b.category.position();
    if ca != cb {
        return ca < cb;
    }
    ids_less(&a.related_ids, &b.related_ids)
}

/// Sorts findings into report order (stable: equal keys keep their order).
pub fn sort_findings(v: Vec<CheckResult>) -> (r: Vec<CheckResult>)
    ensures
        finding_views(r@) == report_order(finding_views(v@)),
{
    let ghost input = finding_views(v@);
    let mut out: Vec<CheckResult> = Vec::new();
    for x in it: v
        invariant
            input == finding_views(it.seq()),
            finding_views(out@) == report_order(input.take(it.index() as int)),
    {
        let ghost k = it.index() as int;
        let ghost fo = finding_views(out@);
        proof {
            assert(input.take(k + 1).drop_last() =~= input.take(k));
            assert(input.take(k + 1).last() == x@);
        }
        let mut j: usize = out.len();
        proof {
            assert(fo.take(j as int) =~= fo);
            assert(insert_sorted(fo, x@) + fo.skip(j as int) =~= insert_sorted(fo, x@));
        }
        while j > 0 && before(&x, &out[j - 1])
            invariant
                j <= out@.len(),
                fo == finding_views(out@),
                insert_sorted(fo, x@) == insert_sorted(fo.take(j as int), x@) + fo.skip(j as int),
            decreases j,
        {
            proof {
                let t = fo.take(j as int);
                assert(t.drop_last() =~= fo.take(j - 1));
                assert(t.last() == fo[j - 1]);
                assert(fo.skip(j - 1) =~= seq![fo[j - 1]] + fo.skip(j as int));
                assert(insert_sorted(fo.take(j - 1), x@).push(fo[j - 1]) + fo.skip(j as int)
                    =~= insert_sorted(fo.take(j - 1), x@) + fo.skip(j - 1));
            }
            j = j - 1;
        }
        proof {
            if j > 0 {
                assert(fo.take(j as int).last() == fo[j - 1]);
            }
            assert(insert_sorted(fo.take(j as int), x@) =~= fo.take(j as int).push(x@));
            assert(fo.take(j as int).push(x@) + fo.skip(j as int) =~= fo.insert(j as int, x@));
        }
        out.insert(j, x);
        assert(finding_views(out@) =~= fo.insert(j as int, x@));
    }
    proof {
        assert(input.take(input.len() as int) =~= input);
    }
    out
}


/// Every character of `s` satisfies `p`.
pub open spec fn all_chars(s: Seq<char>, p: spec_fn(char) -> bool) -> bool {
    forall|i: int| 0 <= i < s.len() ==> p(#[trigger] s[i])
}

/// A document id `{type}-{area}-{seq}`: three `-`-separated non-empty parts, the
/// first ASCII letters, the second ASCII letters and digits, the third ASCII digits.
pub open spec fn valid_document_id(id: Seq<char>) -> bool {
    let parts = split_on(id, '-');
    &&& parts.len() == 3
    &&& parts[0].len() > 0 && all_chars(parts[0], |c: char| is_ascii_alpha(c))
    &&& parts[1].len() > 0 && all_chars(parts[1], |c: char| is_ascii_alnum(c))
    &&& parts[2].len() > 0 && all_chars(parts[2], |c: char| is_ascii_digit(c))
}

/// Which character class a part must be made of.
fn part_ok(v: &Vec<char>, class: u8) -> (r: bool)
    ensures
        r == (v@.len() > 0 && (if class == 0 {
            all_chars(v@, |c: char| is_ascii_alpha(c))
        } else if class == 1 {
            all_chars(v@, |c: char| is_ascii_alnum(c))
        } else {
            all_chars(v@, |c: char| is_ascii_digit(c))
        })),
{
    if v.len() == 0 {
        return false;
    }
    let mut i: usize = 0;
    while i < v.len()
        invariant
            i <= v@.len(),
            forall|j: int|
                0 <= j < i ==> (if class == 0 {
                    is_ascii_alpha(#[trigger] v@[j])
                } else if class == 1 {
                    is_ascii_alnum(v@[j])
                } else {
                    is_ascii_digit(v@[j])
                }),
        decreases v.len() - i,
    {
        let c = v[i];
        let ok = if class == 0 {
            ascii_alpha(c)
        } else if class == 1 {
            ascii_alnum(c)
        } else {
            ascii_digit(c)
        };
        if !ok {
            return false;
        }
        i = i + 1;
    }
    true
}

/// Whether `id` is a well-formed document id `{type}-{area}-{seq}`.
pub fn is_valid_document_id(id: &str) -> (r: bool)
    ensures
        r == valid_document_id(id@),
{
    let cs = chars_of(id);
    document_id_chars(&cs)
}

fn document_id_chars(cs: &Vec<char>) -> (r: bool)
    ensures
        r == valid_document_id(cs@),
{
    let parts = split_chars(cs, '-');
    if parts.len() != 3 {
        return false;
    }
    part_ok(&parts[0], 0) && part_ok(&parts[1], 1) && part_ok(&parts[2], 2)
}

/// An error finding of `category` about the single id `id`.
pub open spec fn error_about(category: CheckCategory, message: Seq<char>, id: Seq<char>) -> FindingView {
    FindingView {
        severity: Severity::Error,
        category,
        message,
        related: seq![id],
        location: None,
    }
}

fn error_finding(category: CheckCategory, message: String, id: &str) -> (r: CheckResult)
    ensures
        r@ == error_about(category, message@, id@),
{
    let mut ids: Vec<Id> = Vec::new();
    ids.push(Id::new(id));
    let r = CheckResult { severity: Severity::Error, category, message, related_ids: ids, location: None };
    assert(r@.related =~= seq![id@]);
    r
}

/// Message for a malformed document id.
pub open spec fn bad_id_message(id: Seq<char>) -> Seq<char> {
    "ID 形式が不正: "@ + id + " （`{type}-{area}-{seq}` に一致しません）"@
}

/// Message for a chain node without a chain parent edge.
pub open spec fn missing_parent_message(id: Seq<char>) -> Seq<char> {
    "chain 親エッジが欠落: "@ + id
}

/// The chain order selected by `Config::spec_chain_for`.
pub open spec fn chain_order_of(config: Config, i: int) -> Seq<Seq<char>> {
    if i == -1 {
        string_views(config.chain_order@)
    } else {
        string_views(config.chains@[i].order@)
    }
}

/// Some chain edge ends at `id`.
pub open spec fn has_chain_parent(edges: Seq<Edge>, id: Seq<char>) -> bool {
    exists|k: int| 0 <= k < edges.len() && (#[trigger] edges[k]).to@ == id && edges[k].kind == EdgeKind::Chain
}

/// The chain-integrity findings of one node: a malformed document id, or a chain
/// typecode other than the first of its chain without a chain parent edge.
pub open spec fn chain_issue(edges: Seq<Edge>, config: Config, n: Node) -> Seq<FindingView> {
    if n.id@.contains('#') {
        Seq::empty()
    } else if !valid_document_id(n.id@) {
        seq![error_about(CheckCategory::ChainIntegrity, bad_id_message(n.id@), n.id@)]
    } else {
        match config.spec_chain_for(n.id@) {
            None => Seq::empty(),
            Some(i) => {
                let order = chain_order_of(config, i);
                if !order.contains(n.type_code@) || order[0] == n.type_code@ || has_chain_parent(edges, n.id@) {
                    Seq::empty()
                } else {
                    seq![error_about(CheckCategory::ChainIntegrity, missing_parent_message(n.id@), n.id@)]
                }
            },
        }
    }
}

/// The chain-integrity findings of all nodes, in node order.
pub open spec fn chain_issues(nodes: Seq<Node>, edges: Seq<Edge>, config: Config) -> Seq<FindingView>
    decreases nodes.len(),
{
    if nodes.len() == 0 {
        Seq::empty()
    } else {
        chain_issues(nodes.drop_last(), edges, config) + chain_issue(edges, config, nodes.last())
    }
}

/// Whether `v` holds a string equal to `s`.
pub(crate) fn contains_str(v: &Vec<String>, s: &str) -> (r: bool)
    ensures
        r == string_views(v@).contains(s@),
{
    let mut i: usize = 0;
    while i < v.len()
        invariant
            i <= v@.len(),
            forall|j: int| 0 <= j < i ==> v@[j]@ != s@,
        decreases v.len() - i,
    {
        if str_eq(v[i].as_str(), s) {
            assert(string_views(v@)[i as int] == s@);
            return true;
        }
        i = i + 1;
    }
    assert forall|j: int| 0 <= j < string_views(v@).len() implies string_views(v@)[j] != s@ by {
        assert(v@[j]@ != s@);
    }
    false
}

/// Whether some chain edge ends at `id`.
fn chain_parent_exists(edges: &[Edge], id: &str) -> (r: bool)
    ensures
        r == has_chain_parent(edges@, id@),
{
    let mut k: usize = 0;
    while k < edges.len()
        invariant
            k <= edges@.len(),
            forall|j: int| 0 <= j < k ==> !((#[trigger] edges@[j]).to@ == id@ && edges@[j].kind == EdgeKind::Chain),
        decreases edges.len() - k,
    {
        if edges[k].kind == EdgeKind::Chain && str_eq(edges[k].to.as_str(), id) {
            return true;
        }
        k = k + 1;
    }
    false
}

fn chain_issue_of(edges: &[Edge], config: &Config, n: &Node) -> (r: Option<CheckResult>)
    ensures
        match r {
            Some(f) => chain_issue(edges@, *config, *n) == seq![f@],
            None => chain_issue(edges@, *config, *n) == Seq::<FindingView>::empty(),
        },
{
    if contains_char(n.id.as_str(), '#') {
        return None;
    }
    if !is_valid_document_id(n.id.as_str()) {
        let mut m = String::from_str("ID 形式が不正: ");
        m.append(n.id.as_str());
        m.append(" （`{type}-{area}-{seq}` に一致しません）");
        return Some(error_finding(CheckCategory::ChainIntegrity, m, n.id.as_str()));
    }
    let order = match config.chain_order_for(n.id.as_str()) {
        Some(o) => o,
        None => return None,
    };
    if !contains_str(order, n.type_code.as_str()) {
        return None;
    }
    if str_eq(order[0].as_str(), n.type_code.as_str()) {
        return None;
    }
    if chain_parent_exists(edges, n.id.as_str()) {
        return None;
    }
    let mut m = String::from_str("chain 親エッジが欠落: ");
    m.append(n.id.as_str());
    Some(error_finding(CheckCategory::ChainIntegrity, m, n.id.as_str()))
}

/// Chain-integrity findings: document ids that are malformed, and chain nodes (other
/// than the first typecode of their area's chain) without an incoming chain edge.
pub fn check_chain_integrity(graph: &TraceGraph, config: &Config) -> (r: Vec<CheckResult>)
    ensures
        finding_views(r@) == chain_issues(graph.node_seq(), graph.edge_seq(), *config),
{
    let nodes = graph.nodes();
    let edges = graph.edges();
    let mut out: Vec<CheckResult> = Vec::new();
    let mut i: usize = 0;
    while i < nodes.len()
        invariant
            i <= nodes@.len(),
            nodes@ == graph.node_seq(),
            edges@ == graph.edge_seq(),
            finding_views(out@) == chain_issues(nodes@.take(i as int), edges@, *config),
        decreases nodes.len() - i,
    {
        proof {
            assert(nodes@.take(i + 1).drop_last() =~= nodes@.take(i as int));
        }
        let ghost before = finding_views(out@);
        match chain_issue_of(edges, config, &nodes[i]) {
            Some(f) => {
                out.push(f);
                assert(finding_views(out@) =~= before + chain_issue(edges@, *config, nodes@[i as int]));
            },
            None => {
                assert(before + chain_issue(edges@, *config, nodes@[i as int]) =~= before);
            },
        }
        i = i + 1;
    }
    assert(nodes@.take(nodes@.len() as int) =~= nodes@);
    out
}


/// `s` split at its first `c`: the part before and the part after.
pub open spec fn split_first(s: Seq<char>, c: char) -> Option<(Seq<char>, Seq<char>)>
    decreases s.len(),
{
    if s.len() == 0 {
        None
    } else if s[0] == c {
        Some((Seq::empty(), s.drop_first()))
    } else {
        match split_first(s.drop_first(), c) {
            Some((a, b)) => Some((seq![s[0]] + a, b)),
            None => None,
        }
    }
}

proof fn lemma_split_first(s: Seq<char>, c: char, p: int)
    requires
        0 <= p <= s.len(),
        forall|i: int| 0 <= i < p ==> s[i] != c,
        p < s.len() ==> s[p] == c,
    ensures
        split_first(s, c) == (if p < s.len() {
            Some((s.take(p), s.skip(p + 1)))
        } else {
            None::<(Seq<char>, Seq<char>)>
        }),
    decreases p,
{
    if p > 0 {
        let d = s.drop_first();
        assert forall|i: int| 0 <= i < p - 1 implies d[i] != c by {
            assert(d[i] == s[i + 1]);
        }
        lemma_split_first(d, c, p - 1);
        if p < s.len() {
            assert(seq![s[0]] + d.take(p - 1) =~= s.take(p));
            assert(d.skip(p) =~= s.skip(p + 1));
        }
    } else if s.len() > 0 {
        assert(s.take(0) =~= Seq::<char>::empty());
        assert(s.skip(1) =~= s.drop_first());
    }
}

/// A subnode suffix: `s:<name>` with a valid explicit name, or hexadecimal digits.
pub open spec fn valid_subnode_suffix(suffix: Seq<char>) -> bool {
    if suffix.len() >= 2 && suffix[0] == 's' && suffix[1] == ':' {
        valid_explicit_name(suffix.skip(2))
    } else {
        suffix.len() > 0 && all_chars(suffix, |c: char| is_ascii_hex(c))
    }
}

/// Message for a malformed subnode id.
pub open spec fn bad_subnode_message(id: Seq<char>) -> Seq<char> {
    "サブノード ID 形式が不正: "@ + id + " （`{parent}#{hex}` または `{parent}#s:<slug>`）"@
}

/// The subnode-id finding of one node: an id with `#` whose part before the first
/// `#` is no document id, or whose part after it is no valid suffix.
pub open spec fn subnode_format_issue(n: Node) -> Seq<FindingView> {
    match split_first(n.id@, '#') {
        None => Seq::empty(),
        Some((parent, suffix)) => if valid_document_id(parent) && valid_subnode_suffix(suffix) {
            Seq::empty()
        } else {
            seq![error_about(CheckCategory::SubnodeIdFormat, bad_subnode_message(n.id@), n.id@)]
        },
    }
}

/// The subnode-id findings of all nodes, in node order.
pub open spec fn subnode_format_issues(nodes: Seq<Node>) -> Seq<FindingView>
    decreases nodes.len(),
{
    if nodes.len() == 0 {
        Seq::empty()
    } else {
        subnode_format_issues(nodes.drop_last()) + subnode_format_issue(nodes.last())
    }
}

fn hex_suffix_ok(v: &Vec<char>) -> (r: bool)
    ensures
        r == (v@.len() > 0 && all_chars(v@, |c: char| is_ascii_hex(c))),
{
    if v.len() == 0 {
        return false;
    }
    let mut i: usize = 0;
    while i < v.len()
        invariant
            i <= v@.len(),
            forall|j: int| 0 <= j < i ==> is_ascii_hex(#[trigger] v@[j]),
        decreases v.len() - i,
    {
        if !ascii_hex(v[i]) {
            return false;
        }
        i = i + 1;
    }
    true
}

fn subnode_issue_of(n: &Node) -> (r: Option<CheckResult>)
    ensures
        match r {
            Some(f) => subnode_format_issue(*n) == seq![f@],
            None => subnode_format_issue(*n) == Seq::<FindingView>::empty(),
        },
{
    let cs = chars_of(n.id.as_str());
    let mut p: usize = 0;
    while p < cs.len() && cs[p] != '#'
        invariant
            cs@ == n.id@,
            p <= cs@.len(),
            forall|i: int| 0 <= i < p ==> cs@[i] != '#',
        decreases cs.len() - p,
    {
        p = p + 1;
    }
    proof {
        lemma_split_first(cs@, '#', p as int);
    }
    if p == cs.len() {
        return None;
    }
    let mut parent: Vec<char> = Vec::new();
    let mut suffix: Vec<char> = Vec::new();
    let mut i: usize = 0;
    while i < cs.len()
        invariant
            p < cs@.len(),
            i <= cs@.len(),
            parent@ == cs@.take(if i < p { i as int } else { p as int }),
            suffix@ == (if i <= p { Seq::<char>::empty() } else { cs@.subrange(p + 1, i as int) }),
        decreases cs.len() - i,
    {
        if i < p {
            parent.push(cs[i]);
            assert(parent@ =~= cs@.take(i + 1));
        } else if i > p {
            suffix.push(cs[i]);
            assert(suffix@ =~= cs@.subrange(p + 1, i + 1));
        } else {
            assert(suffix@ =~= cs@.subrange(p + 1, p + 1));
        }
        i = i + 1;
    }
    assert(suffix@ =~= cs@.skip(p + 1));
    let parent_ok = document_id_chars(&parent);
    let suffix_ok = if suffix.len() >= 2 && suffix[0] == 's' && suffix[1] == ':' {
        let mut rest: Vec<char> = Vec::new();
        let mut k: usize = 2;
        while k < suffix.len()
            invariant
                2 <= k <= suffix@.len(),
                rest@ == suffix@.subrange(2, k as int),
            decreases suffix.len() - k,
        {
            rest.push(suffix[k]);
            assert(rest@ =~= suffix@.subrange(2, k + 1));
            k = k + 1;
        }
        assert(rest@ =~= suffix@.skip(2));
        let name = crate::text::string_from_chars(rest.as_slice());
        validate_explicit_name(name.as_str()).is_ok()
    } else {
        hex_suffix_ok(&suffix)
    };
    if parent_ok && suffix_ok {
        return None;
    }
    let mut m = String::from_str("サブノード ID 形式が不正: ");
    m.append(n.id.as_str());
    m.append(" （`{parent}#{hex}` または `{parent}#s:<slug>`）");
    Some(error_finding(CheckCategory::SubnodeIdFormat, m, n.id.as_str()))
}

/// Subnode-id findings: ids with `#` whose parent part is no document id or whose
/// suffix is neither `s:<name>` with a valid explicit name nor hexadecimal digits.
pub fn check_subnode_id_format(graph: &TraceGraph) -> (r: Vec<CheckResult>)
    ensures
        finding_views(r@) == subnode_format_issues(graph.node_seq()),
{
    let nodes = graph.nodes();
    let mut out: Vec<CheckResult> = Vec::new();
    let mut i: usize = 0;
    while i < nodes.len()
        invariant
            i <= nodes@.len(),
            nodes@ == graph.node_seq(),
            finding_views(out@) == subnode_format_issues(nodes@.take(i as int)),
        decreases nodes.len() - i,
    {
        proof {
            assert(nodes@.take(i + 1).drop_last() =~= nodes@.take(i as int));
        }
        let ghost before = finding_views(out@);
        match subnode_issue_of(&nodes[i]) {
            Some(f) => {
                out.push(f);
                assert(finding_views(out@) =~= before + subnode_format_issue(nodes@[i as int]));
            },
            None => {
                assert(before + subnode_format_issue(nodes@[i as int]) =~= before);
            },
        }
        i = i + 1;
    }
    assert(nodes@.take(nodes@.len() as int) =~= nodes@);
    out
}


/// Message for a cycle through `v`.
pub open spec fn cycle_message(v: Seq<char>) -> Seq<char> {
    "グラフにサイクルを検出（例: "@ + v + " を含む）"@
}

/// What the acyclicity check reports: one error naming the node at which the
/// depth-first search from the nodes in order first meets an edge back to its path
/// (a node on a cycle that a node of the graph reaches), or nothing when there is none
/// (no node reaches a cycle).
pub open spec fn dag_findings_ok(nodes: Seq<Node>, edges: Seq<Edge>, d: Seq<FindingView>) -> bool {
    &&& d == match first_back_edge_target(nodes.map_values(|n: Node| n.id@), edges) {
        Some(v) => seq![error_about(CheckCategory::GraphDag, cycle_message(v), v)],
        None => Seq::<FindingView>::empty(),
    }
    &&& {
        ||| d.len() == 0 && forall|i: int| 0 <= i < nodes.len() ==> !reaches_cycle(edges, #[trigger] nodes[i].id@)
        ||| exists|v: Seq<char>|
            #[trigger] on_cycle(edges, v) && (exists|i: int| 0 <= i < nodes.len() && reaches(edges, #[trigger] nodes[i].id@, v))
                && d == seq![error_about(CheckCategory::GraphDag, cycle_message(v), v)]
    }
}

/// Acyclicity over all edges: one error naming a node on a cycle, if a node of the
/// graph reaches one (the first found by the depth-first search of `first_cycle_node`).
pub fn check_graph_dag(graph: &TraceGraph) -> (r: Vec<CheckResult>)
    ensures
        dag_findings_ok(graph.node_seq(), graph.edge_seq(), finding_views(r@)),
{
    let mut out: Vec<CheckResult> = Vec::new();
    match first_cycle_node(graph) {
        Some(v) => {
            let mut m = String::from_str("グラフにサイクルを検出（例: ");
            m.append(v.as_str());
            m.append(" を含む）");
            out.push(error_finding(CheckCategory::GraphDag, m, v.as_str()));
            assert(finding_views(out@) =~= seq![error_about(CheckCategory::GraphDag, cycle_message(v@), v@)]);
        },
        None => {
            assert(finding_views(out@) =~= Seq::<FindingView>::empty());
        },
    }
    out
}

/// Message for a document whose file is missing.
pub open spec fn missing_file_message(id: Seq<char>, path: Seq<char>) -> Seq<char> {
    "ノード '"@ + id + "' の path '"@ + path + "' が存在しません"@
}

/// The file-existence findings of the document nodes `docs`, given for each whether
/// its file exists.
pub open spec fn missing_files(docs: Seq<Node>, exists: Seq<bool>) -> Seq<FindingView>
    decreases docs.len(),
{
    if docs.len() == 0 || exists.len() == 0 {
        Seq::empty()
    } else {
        missing_files(docs.drop_last(), exists.drop_last()) + if exists.last() {
            Seq::<FindingView>::empty()
        } else {
            seq![FindingView {
                severity: Severity::Error,
                category: CheckCategory::FileExistence,
                message: missing_file_message(docs.last().id@, docs.last().path@),
                related: seq![docs.last().id@],
                location: Some((docs.last().path@, None)),
            }]
        }
    }
}

/// File-existence findings: one error per document node whose file does not exist
/// (`exists` holds, per document node in order, whether its path exists under the
/// project root).
pub fn check_file_existence(graph: &TraceGraph, exists: &Vec<bool>) -> (r: Vec<CheckResult>)
    requires
        exists@.len() == document_nodes_of(graph.node_seq()).len(),
    ensures
        finding_views(r@) == missing_files(document_nodes_of(graph.node_seq()), exists@),
{
    let docs = graph.document_nodes();
    let ghost dv = docs@.map_values(|n: &Node| *n);
    let mut out: Vec<CheckResult> = Vec::new();
    let mut i: usize = 0;
    while i < docs.len()
        invariant
            i <= docs@.len(),
            dv == docs@.map_values(|n: &Node| *n),
            dv.len() == exists@.len(),
            finding_views(out@) == missing_files(dv.take(i as int), exists@.take(i as int)),
        decreases docs.len() - i,
    {
        let n = docs[i];
        proof {
            assert(dv.take(i + 1).drop_last() =~= dv.take(i as int));
            assert(exists@.take(i + 1).drop_last() =~= exists@.take(i as int));
            assert(dv[i as int] == *n);
        }
        let ghost before = finding_views(out@);
        if !exists[i] {
            let mut m = String::from_str("ノード '");
            m.append(n.id.as_str());
            m.append("' の path '");
            m.append(n.path.as_str());
            m.append("' が存在しません");
            let mut ids: Vec<Id> = Vec::new();
            ids.push(Id::new(n.id.as_str()));
            let loc = Location { path: n.path.clone(), line: None };
            let f = CheckResult {
                severity: Severity::Error,
                category: CheckCategory::FileExistence,
                message: m,
                related_ids: ids,
                location: Some(loc),
            };
            let ghost prev = finding_views(out@);
            assert(f@.related =~= seq![n.id@]);
            out.push(f);
            assert(dv.take(i + 1).last() == *n);
            assert(exists@.take(i + 1).last() == exists@[i as int]);
            assert(finding_views(out@) =~= prev.push(f@));
            assert(finding_views(out@) =~= missing_files(dv.take(i + 1), exists@.take(i + 1)));
        } else {
            assert(dv.take(i + 1).last() == *n);
            assert(exists@.take(i + 1).last() == exists@[i as int]);
            assert(finding_views(out@) =~= missing_files(dv.take(i + 1), exists@.take(i + 1)));
        }
        i = i + 1;
    }
    assert(dv.take(dv.len() as int) =~= dv);
    assert(exists@.take(dv.len() as int) =~= exists@);
    out
}

/// `p` with every backslash replaced by a slash.
pub open spec fn slashes(p: Seq<char>) -> Seq<char> {
    p.map_values(|c: char| if c == '\\' { '/' } else { c })
}

/// Rewrites the backslashes of a relative path as slashes.
pub fn normalize_rel(p: &str) -> (r: String)
    ensures
        r@ == slashes(p@),
{
    let v = chars_of(p);
    let mut out: Vec<char> = Vec::new();
    let mut i: usize = 0;
    while i < v.len()
        invariant
            v@ == p@,
            i <= v@.len(),
            out@ == slashes(v@.take(i as int)),
        decreases v.len() - i,
    {
        let c = v[i];
        out.push(if c == '\\' { '/' } else { c });
        assert(out@ =~= slashes(v@.take(i + 1)));
        i = i + 1;
    }
    assert(v@.take(v@.len() as int) =~= v@);
    string_from_chars(out.as_slice())
}

/// Message for a file that no document node registers.
pub open spec fn orphan_message(rel: Seq<char>, dir: Seq<char>) -> Seq<char> {
    "未登録ファイル '"@ + rel + "' が "@ + dir + " に存在します"@
}

/// The orphan findings among `files` (relative paths found under `dir`), given the
/// normalised paths of the registered documents.
pub open spec fn orphans_in(registered: Seq<Seq<char>>, dir: Seq<char>, files: Seq<Seq<char>>) -> Seq<FindingView>
    decreases files.len(),
{
    if files.len() == 0 {
        Seq::empty()
    } else {
        let rel = slashes(files.last());
        orphans_in(registered, dir, files.drop_last()) + if registered.contains(rel) {
            Seq::<FindingView>::empty()
        } else {
            seq![FindingView {
                severity: Severity::Info,
                category: CheckCategory::OrphanFile,
                message: orphan_message(rel, dir),
                related: Seq::empty(),
                location: Some((rel, None)),
            }]
        }
    }
}

/// The orphan findings of every typecode directory in order.
pub open spec fn orphan_issues(registered: Seq<Seq<char>>, types: Seq<TypeSpec>, listings: Seq<Seq<Seq<char>>>) -> Seq<FindingView>
    decreases types.len(),
{
    if types.len() == 0 || listings.len() == 0 {
        Seq::empty()
    } else {
        orphan_issues(registered, types.drop_last(), listings.drop_last()) + orphans_in(
            registered,
            types.last().dir@,
            listings.last(),
        )
    }
}

/// The normalised paths of the document nodes.
pub open spec fn registered_paths(docs: Seq<Node>) -> Seq<Seq<char>> {
    docs.map_values(|n: Node| slashes(n.path@))
}

fn contains_string(v: &Vec<String>, s: &String) -> (r: bool)
    ensures
        r == string_views(v@).contains(s@),
{
    contains_str(v, s.as_str())
}

/// Orphan-file findings: one info per listed file that no document node registers.
/// `listings` holds, per entry of `config.types` in order, the relative paths of the
/// files with that type's extension under its directory, in the order to report them
/// (empty where the directory does not exist).
pub fn check_orphan_file(graph: &TraceGraph, config: &Config, listings: &Vec<Vec<String>>) -> (r: Vec<CheckResult>)
    requires
        listings@.len() == config.types@.len(),
    ensures
        finding_views(r@) == orphan_issues(
            registered_paths(document_nodes_of(graph.node_seq())),
            config.types@,
            listings@.map_values(|l: Vec<String>| string_views(l@)),
        ),
{
    let docs = graph.document_nodes();
    let ghost dv = docs@.map_values(|n: &Node| *n);
    let mut registered: Vec<String> = Vec::new();
    let mut i: usize = 0;
    while i < docs.len()
        invariant
            i <= docs@.len(),
            dv == docs@.map_values(|n: &Node| *n),
            string_views(registered@) == registered_paths(dv.take(i as int)),
        decreases docs.len() - i,
    {
        let n = docs[i];
        assert(dv[i as int] == *n);
        assert(dv.take(i + 1).drop_last() =~= dv.take(i as int));
        let ghost before = string_views(registered@);
        let np = normalize_rel(n.path.as_str());
        registered.push(np);
        assert(string_views(registered@) =~= before.push(slashes(n.path@)));
        assert(registered_paths(dv.take(i + 1)) =~= registered_paths(dv.take(i as int)).push(slashes(n.path@)));
        i = i + 1;
    }
    assert(dv.take(dv.len() as int) =~= dv);
    let ghost reg = string_views(registered@);
    let ghost ls = listings@.map_values(|l: Vec<String>| string_views(l@));
    let mut out: Vec<CheckResult> = Vec::new();
    let mut t: usize = 0;
    while t < config.types.len()
        invariant
            t <= config.types@.len(),
            listings@.len() == config.types@.len(),
            reg == string_views(registered@),
            ls == listings@.map_values(|l: Vec<String>| string_views(l@)),
            finding_views(out@) == orphan_issues(reg, config.types@.take(t as int), ls.take(t as int)),
        decreases config.types.len() - t,
    {
        let dir = &config.types[t].dir;
        let files = &listings[t];
        let ghost fv = string_views(files@);
        let ghost base = finding_views(out@);
        let mut k: usize = 0;
        while k < files.len()
            invariant
                k <= files@.len(),
                fv == string_views(files@),
                reg == string_views(registered@),
                finding_views(out@) == base + orphans_in(reg, dir@, fv.take(k as int)),
            decreases files.len() - k,
        {
            proof {
                assert(fv.take(k + 1).drop_last() =~= fv.take(k as int));
            }
            let rel = normalize_rel(files[k].as_str());
            if !contains_string(&registered, &rel) {
                let mut m = String::from_str("未登録ファイル '");
                m.append(rel.as_str());
                m.append("' が ");
                m.append(dir.as_str());
                m.append(" に存在します");
                let loc = Location { path: rel, line: None };
                let f = CheckResult {
                    severity: Severity::Info,
                    category: CheckCategory::OrphanFile,
                    message: m,
                    related_ids: Vec::new(),
                    location: Some(loc),
                };
                let ghost prev = finding_views(out@);
                out.push(f);
                assert(f@.related =~= Seq::<Seq<char>>::empty());
                assert(finding_views(out@) =~= prev.push(f@));
                assert(base + orphans_in(reg, dir@, fv.take(k + 1)) =~= base + orphans_in(reg, dir@, fv.take(k as int)) + seq![f@]);
            } else {
                assert(base + orphans_in(reg, dir@, fv.take(k + 1)) =~= base + orphans_in(reg, dir@, fv.take(k as int)));
            }
            k = k + 1;
        }
        proof {
            assert(fv.take(fv.len() as int) =~= fv);
            assert(config.types@.take(t + 1).drop_last() =~= config.types@.take(t as int));
            assert(ls.take(t + 1).drop_last() =~= ls.take(t as int));
            assert(ls[t as int] == fv);
        }
        t = t + 1;
    }
    assert(config.types@.take(config.types@.len() as int) =~= config.types@);
    assert(ls.take(ls.len() as int) =~= ls);
    out
}

/// Failure of a check run (distinct from findings).
#[derive(Debug)]
pub enum CheckError {
    GraphLoad(GraphError),
    ConfigLoad(ConfigError),
    Db(String),
    Embed(String),
}

/// The informational finding that stands for a semantic layer without embeddings.
pub open spec fn no_embeddings_finding() -> FindingView {
    FindingView {
        severity: Severity::Info,
        category: CheckCategory::SemanticSimilarity,
        message: "embeddings 未生成: `legixy embed --all` を実行してください（意味層は省略）"@,
        related: Seq::empty(),
        location: None,
    }
}

/// The semantic-layer findings: none in formal mode; in full mode the given ones, or
/// the single informational finding when there are no embeddings.
pub open spec fn semantic_part(mode: CheckMode, semantic: Option<Seq<FindingView>>) -> Seq<FindingView> {
    match mode {
        CheckMode::Formal => Seq::empty(),
        CheckMode::Full => match semantic {
            Some(s) => s,
            None => seq![no_embeddings_finding()],
        },
    }
}

/// The findings of a run before sorting, given the acyclicity findings `dag` and the
/// project-root findings `rooted`.
pub open spec fn unsorted_findings(
    graph: TraceGraph,
    config: Config,
    dag: Seq<FindingView>,
    rooted: Seq<FindingView>,
    mode: CheckMode,
    semantic: Option<Seq<FindingView>>,
) -> Seq<FindingView> {
    chain_issues(graph.node_seq(), graph.edge_seq(), config) + subnode_format_issues(graph.node_seq()) + dag
        + rooted + semantic_part(mode, semantic)
}

/// What a run reports: the findings in report order and their counts.
pub open spec fn report_of(
    rep: CheckReport,
    graph: TraceGraph,
    config: Config,
    rooted: Seq<FindingView>,
    mode: CheckMode,
    semantic: Option<Seq<FindingView>>,
) -> bool {
    &&& exists|dag: Seq<FindingView>|
        #[trigger] dag_findings_ok(graph.node_seq(), graph.edge_seq(), dag) && finding_views(rep.findings@)
            == report_order(unsorted_findings(graph, config, dag, rooted, mode, semantic))
    &&& counts_match(rep.counts, finding_views(rep.findings@))
}

/// A finding of one of the filesystem checks, which need a project root.
pub open spec fn rooted_category(c: CheckCategory) -> bool {
    c == CheckCategory::FileExistence || c == CheckCategory::OrphanFile
}

proof fn lemma_chain_issues_category(nodes: Seq<Node>, edges: Seq<Edge>, config: Config)
    ensures
        forall|i: int|
            0 <= i < chain_issues(nodes, edges, config).len() ==> (#[trigger] chain_issues(nodes, edges, config)[i]).category
                == CheckCategory::ChainIntegrity,
    decreases nodes.len(),
{
    if nodes.len() > 0 {
        lemma_chain_issues_category(nodes.drop_last(), edges, config);
        let a = chain_issues(nodes.drop_last(), edges, config);
        let b = chain_issue(edges, config, nodes.last());
        assert forall|i: int| 0 <= i < (a + b).len() implies (#[trigger] (a + b)[i]).category == CheckCategory::ChainIntegrity by {
            if i >= a.len() {
                assert((a + b)[i] == b[i - a.len()]);
            }
        }
    }
}

proof fn lemma_subnode_issues_category(nodes: Seq<Node>)
    ensures
        forall|i: int|
            0 <= i < subnode_format_issues(nodes).len() ==> (#[trigger] subnode_format_issues(nodes)[i]).category
                == CheckCategory::SubnodeIdFormat,
    decreases nodes.len(),
{
    if nodes.len() > 0 {
        lemma_subnode_issues_category(nodes.drop_last());
        let a = subnode_format_issues(nodes.drop_last());
        let b = subnode_format_issue(nodes.last());
        assert forall|i: int| 0 <= i < (a + b).len() implies (#[trigger] (a + b)[i]).category == CheckCategory::SubnodeIdFormat by {
            if i >= a.len() {
                assert((a + b)[i] == b[i - a.len()]);
            }
        }
    }
}

proof fn lemma_chain_issues_contains(nodes: Seq<Node>, edges: Seq<Edge>, config: Config, x: FindingView)
    ensures
        chain_issues(nodes, edges, config).contains(x) <==> exists|m: int|
            0 <= m < nodes.len() && #[trigger] chain_issue(edges, config, nodes[m]).contains(x),
    decreases nodes.len(),
{
    let d = nodes.drop_last();
    if nodes.len() > 0 {
        lemma_chain_issues_contains(d, edges, config, x);
        let a = chain_issues(d, edges, config);
        let b = chain_issue(edges, config, nodes.last());
        let u = a + b;
        if u.contains(x) {
            let j = choose|j: int| 0 <= j < u.len() && u[j] == x;
            if j < a.len() {
                assert(a[j] == x);
                let m = choose|m: int| 0 <= m < d.len() && #[trigger] chain_issue(edges, config, d[m]).contains(x);
                assert(d[m] == nodes[m]);
            } else {
                assert(b[j - a.len()] == x);
                assert(chain_issue(edges, config, nodes[nodes.len() - 1]).contains(x));
            }
        }
        if exists|m: int| 0 <= m < nodes.len() && #[trigger] chain_issue(edges, config, nodes[m]).contains(x) {
            let m = choose|m: int| 0 <= m < nodes.len() && #[trigger] chain_issue(edges, config, nodes[m]).contains(x);
            if m < nodes.len() - 1 {
                assert(d[m] == nodes[m]);
                assert(a.contains(x));
                let j = choose|j: int| 0 <= j < a.len() && a[j] == x;
                assert(u[j] == x);
            } else {
                let j = choose|j: int| 0 <= j < b.len() && b[j] == x;
                assert(u[a.len() + j] == x);
            }
        }
    }
}

/// Node `n` belongs to a chain below its first typecode: its id is a well-formed
/// document id (not a subnode) and its typecode is in the chain order that its id
/// selects, but not the first one.
pub open spec fn chain_child(config: Config, n: Node) -> bool {
    &&& !n.id@.contains('#')
    &&& valid_document_id(n.id@)
    &&& config.spec_chain_for(n.id@) matches Some(c) && chain_order_of(config, c).contains(n.type_code@)
        && chain_order_of(config, c)[0] != n.type_code@
}

/// A formal check reports a missing chain parent for a node below the first typecode
/// of its chain exactly when no chain edge of the graph ends at that node; an edge
/// leaving the node, or an edge of another kind, never counts as its parent.
pub proof fn law_chain_parent_reported(
    graph: TraceGraph,
    config: Config,
    mode: CheckMode,
    semantic: Option<Seq<FindingView>>,
    rep: CheckReport,
    i: int,
)
    requires
        report_of(rep, graph, config, Seq::empty(), mode, semantic),
        semantic matches Some(s) ==> forall|j: int| 0 <= j < s.len() ==> (#[trigger] s[j]).category != CheckCategory::ChainIntegrity,
        0 <= i < graph.node_seq().len(),
        chain_child(config, graph.node_seq()[i]),
    ensures
        finding_views(rep.findings@).contains(
            error_about(CheckCategory::ChainIntegrity, missing_parent_message(graph.node_seq()[i].id@), graph.node_seq()[i].id@),
        ) <==> !exists|k: int|
            0 <= k < graph.edge_seq().len() && (#[trigger] graph.edge_seq()[k]).to@ == graph.node_seq()[i].id@
                && graph.edge_seq()[k].kind == EdgeKind::Chain,
{
    broadcast use vstd::seq_lib::group_to_multiset_ensures;
    let nodes = graph.node_seq();
    let edges = graph.edge_seq();
    let n = nodes[i];
    let id = n.id@;
    let x = error_about(CheckCategory::ChainIntegrity, missing_parent_message(id), id);
    let dag = choose|dag: Seq<FindingView>|
        #[trigger] dag_findings_ok(nodes, edges, dag) && finding_views(rep.findings@)
            == report_order(unsorted_findings(graph, config, dag, Seq::empty(), mode, semantic));
    let a = chain_issues(nodes, edges, config);
    let b = subnode_format_issues(nodes);
    let sp = semantic_part(mode, semantic);
    let u = unsorted_findings(graph, config, dag, Seq::empty(), mode, semantic);
    assert(u == a + b + dag + Seq::<FindingView>::empty() + sp);
    let f = finding_views(rep.findings@);
    lemma_report_order(u);
    lemma_subnode_issues_category(nodes);
    lemma_chain_issues_contains(nodes, edges, config, x);
    assert(f.contains(x) <==> u.contains(x)) by {
        if f.contains(x) {
            assert(f.to_multiset().count(x) > 0);
            assert(u.to_multiset().count(x) > 0);
        }
        if u.contains(x) {
            assert(u.to_multiset().count(x) > 0);
            assert(f.to_multiset().count(x) > 0);
        }
    }
    assert(u.contains(x) <==> a.contains(x)) by {
        if u.contains(x) {
            let j = choose|j: int| 0 <= j < u.len() && u[j] == x;
            if j < a.len() {
                assert(a[j] == x);
            } else if j < a.len() + b.len() {
                assert(b[j - a.len()] == x);
            } else if j < a.len() + b.len() + dag.len() {
                assert(dag[j - a.len() - b.len()] == x);
                match first_back_edge_target(nodes.map_values(|nd: Node| nd.id@), edges) {
                    Some(v) => assert(dag[0].category == CheckCategory::GraphDag),
                    None => {},
                }
            } else {
                assert(sp[j - a.len() - b.len() - dag.len()] == x);
                match mode {
                    CheckMode::Formal => {},
                    CheckMode::Full => match semantic {
                        Some(s) => assert(s[j - a.len() - b.len() - dag.len()] == x),
                        None => assert(sp[0] == no_embeddings_finding()),
                    },
                }
            }
        }
        if a.contains(x) {
            let j = choose|j: int| 0 <= j < a.len() && a[j] == x;
            assert(u[j] == x);
        }
    }
    let has_parent = exists|k: int|
        0 <= k < edges.len() && (#[trigger] edges[k]).to@ == id && edges[k].kind == EdgeKind::Chain;
    assert(has_parent == has_chain_parent(edges, id));
    if a.contains(x) {
        let m = choose|m: int| 0 <= m < nodes.len() && #[trigger] chain_issue(edges, config, nodes[m]).contains(x);
        let c = chain_issue(edges, config, nodes[m]);
        let j = choose|j: int| 0 <= j < c.len() && c[j] == x;
        assert(c[j].related == seq![nodes[m].id@]);
        assert(x.related == seq![id]);
        assert(seq![nodes[m].id@][0] == seq![id][0]);
        assert(nodes[m].id@ == id);
        assert(!has_chain_parent(edges, id));
    }
    if !has_parent {
        assert(chain_issue(edges, config, n) == seq![x]);
        assert(chain_issue(edges, config, nodes[i]).contains(x)) by {
            assert(chain_issue(edges, config, nodes[i])[0] == x);
        }
    }
}

/// A formal check is a function of its inputs, in report order, counted per severity,
/// and adds no filesystem finding of its own: two runs on the same graph, settings,
/// mode and semantic findings report the same findings, in the same order, with the
/// same counts; a finding never goes before an earlier one (severity first, then
/// category, then related ids); the counts are the number of findings of each
/// severity; and without a project root a file-existence or orphan finding comes only
/// from the semantic findings passed in.
pub proof fn law_run_deterministic_and_ordered(
    graph: TraceGraph,
    config: Config,
    mode: CheckMode,
    semantic: Option<Seq<FindingView>>,
    r1: CheckReport,
    r2: CheckReport,
)
    requires
        report_of(r1, graph, config, Seq::empty(), mode, semantic),
        report_of(r2, graph, config, Seq::empty(), mode, semantic),
    ensures
        finding_views(r1.findings@) == finding_views(r2.findings@),
        r1.counts == r2.counts,
        in_report_order(finding_views(r1.findings@)),
        counts_match(r1.counts, finding_views(r1.findings@)),
        (semantic matches Some(s) ==> forall|i: int| 0 <= i < s.len() ==> !rooted_category(#[trigger] s[i].category))
            ==> forall|i: int|
            0 <= i < finding_views(r1.findings@).len() ==> !rooted_category(
                #[trigger] finding_views(r1.findings@)[i].category,
            ),
{
    broadcast use vstd::seq_lib::group_to_multiset_ensures;
    let dag1 = choose|dag: Seq<FindingView>|
        #[trigger] dag_findings_ok(graph.node_seq(), graph.edge_seq(), dag) && finding_views(r1.findings@)
            == report_order(unsorted_findings(graph, config, dag, Seq::empty(), mode, semantic));
    let dag2 = choose|dag: Seq<FindingView>|
        #[trigger] dag_findings_ok(graph.node_seq(), graph.edge_seq(), dag) && finding_views(r2.findings@)
            == report_order(unsorted_findings(graph, config, dag, Seq::empty(), mode, semantic));
    assert(dag1 == dag2);
    let u = unsorted_findings(graph, config, dag1, Seq::empty(), mode, semantic);
    lemma_report_order(u);
    if semantic matches Some(s) ==> forall|i: int| 0 <= i < s.len() ==> !rooted_category(#[trigger] s[i].category) {
        lemma_chain_issues_category(graph.node_seq(), graph.edge_seq(), config);
        lemma_subnode_issues_category(graph.node_seq());
        let f = finding_views(r1.findings@);
        assert forall|i: int| 0 <= i < u.len() implies !rooted_category(#[trigger] u[i].category) by {
            let a = chain_issues(graph.node_seq(), graph.edge_seq(), config);
            let b = subnode_format_issues(graph.node_seq());
            let sp = semantic_part(mode, semantic);
            assert(u == a + b + dag1 + Seq::<FindingView>::empty() + sp);
            if i < a.len() {
                assert(u[i] == a[i]);
            } else if i < a.len() + b.len() {
                assert(u[i] == b[i - a.len()]);
            } else if i < a.len() + b.len() + dag1.len() {
                assert(u[i] == dag1[i - a.len() - b.len()]);
            } else {
                assert(u[i] == sp[i - a.len() - b.len() - dag1.len()]);
            }
        }
        assert forall|i: int| 0 <= i < f.len() implies !rooted_category(#[trigger] f[i].category) by {
            assert(f.to_multiset().count(f[i]) > 0);
            assert(u.to_multiset().count(f[i]) > 0);
            assert(u.contains(f[i]));
            let k = choose|k: int| 0 <= k < u.len() && u[k] == f[i];
        }
    }
}

fn semantic_views(semantic: &Option<Vec<CheckResult>>) -> (r: Ghost<Option<Seq<FindingView>>>)
    ensures
        r@ == match semantic {
            Some(v) => Some(finding_views(v@)),
            None => None::<Seq<FindingView>>,
        },
{
    Ghost(
        match semantic {
            Some(v) => Some(finding_views(v@)),
            None => None,
        },
    )
}

fn run_inner(
    graph: &TraceGraph,
    config: &Config,
    mode: CheckMode,
    semantic: Option<Vec<CheckResult>>,
    rooted: Vec<CheckResult>,
) -> (r: Result<CheckReport, CheckError>)
    ensures
        r matches Ok(rep) && report_of(rep, *graph, *config, finding_views(rooted@), mode,
            match semantic {
                Some(v) => Some(finding_views(v@)),
                None => None,
            }),
{
    let sem = semantic_views(&semantic);
    let mut findings = check_chain_integrity(graph, config);
    let mut sub = check_subnode_id_format(graph);
    let mut dag = check_graph_dag(graph);
    let ghost dv = finding_views(dag@);
    let mut rooted = rooted;
    let ghost rv = finding_views(rooted@);
    let ghost a = finding_views(findings@);
    let ghost b = finding_views(sub@);
    findings.append(&mut sub);
    findings.append(&mut dag);
    findings.append(&mut rooted);
    let ghost c = finding_views(findings@);
    assert(c =~= a + b + dv + rv);
    match mode {
        CheckMode::Formal => {},
        CheckMode::Full => match semantic {
            Some(mut v) => {
                let ghost sv = finding_views(v@);
                findings.append(&mut v);
                assert(finding_views(findings@) =~= c + sv);
            },
            None => {
                let f = CheckResult {
                    severity: Severity::Info,
                    category: CheckCategory::SemanticSimilarity,
                    message: String::from_str("embeddings 未生成: `legixy embed --all` を実行してください（意味層は省略）"),
                    related_ids: Vec::new(),
                    location: None,
                };
                findings.push(f);
                assert(f@ =~= no_embeddings_finding());
                assert(finding_views(findings@) =~= c + seq![no_embeddings_finding()]);
            },
        },
    }
    assert(finding_views(findings@) =~= unsorted_findings(*graph, *config, dv, rv, mode, sem@));
    let sorted = sort_findings(findings);
    let counts = count_severities(sorted.as_slice());
    let rep = CheckReport { findings: sorted, counts };
    assert(dag_findings_ok(graph.node_seq(), graph.edge_seq(), dv));
    Ok(rep)
}

/// Runs the formal layer (chain integrity and document ids, subnode ids,
/// acyclicity) and, in full mode, adds the semantic findings computed elsewhere
/// (`None`: no embeddings yet, reported as one informational finding). The filesystem
/// checks need a project root and are left out here (see `run_with_root`). Findings
/// come in report order with their counts; a run always succeeds.
pub fn run(
    graph: &TraceGraph,
    config: &Config,
    mode: CheckMode,
    semantic: Option<Vec<CheckResult>>,
) -> (r: Result<CheckReport, CheckError>)
    ensures
        r matches Ok(rep) && report_of(rep, *graph, *config, Seq::empty(), mode,
            match semantic {
                Some(v) => Some(finding_views(v@)),
                None => None,
            }),
{
    let r = run_inner(graph, config, mode, semantic, Vec::new());
    r
}

/// `run` with the filesystem checks of a project root: `exists` holds, per document
/// node in order, whether its path exists under the root; `listings` the files found
/// per entry of `config.types` (see `check_orphan_file`).
pub fn run_with_root(
    graph: &TraceGraph,
    config: &Config,
    mode: CheckMode,
    semantic: Option<Vec<CheckResult>>,
    exists: &Vec<bool>,
    listings: &Vec<Vec<String>>,
) -> (r: Result<CheckReport, CheckError>)
    requires
        exists@.len() == document_nodes_of(graph.node_seq()).len(),
        listings@.len() == config.types@.len(),
    ensures
        r matches Ok(rep) && report_of(
            rep,
            *graph,
            *config,
            missing_files(document_nodes_of(graph.node_seq()), exists@) + orphan_issues(
                registered_paths(document_nodes_of(graph.node_seq())),
                config.types@,
                listings@.map_values(|l: Vec<String>| string_views(l@)),
            ),
            mode,
            match semantic {
                Some(v) => Some(finding_views(v@)),
                None => None,
            },
        ),
{
    let mut rooted = check_file_existence(graph, exists);
    let ghost a = finding_views(rooted@);
    let mut orphans = check_orphan_file(graph, config, listings);
    let ghost b = finding_views(orphans@);
    rooted.append(&mut orphans);
    assert(finding_views(rooted@) =~= a + b);
    run_inner(graph, config, mode, semantic, rooted)
}


/// The name under which a category is written.
pub open spec fn category_name(c: CheckCategory) -> Seq<char> {
    match c {
        CheckCategory::FileExistence => "FileExistence"@,
        CheckCategory::DocumentId => "DocumentId"@,
        CheckCategory::ChainIntegrity => "ChainIntegrity"@,
        CheckCategory::OrphanFile => "OrphanFile"@,
        CheckCategory::GraphDag => "GraphDag"@,
        CheckCategory::Freshness => "Freshness"@,
        CheckCategory::SubnodeIdFormat => "SubnodeIdFormat"@,
        CheckCategory::SubnodeIdUniqueness => "SubnodeIdUniqueness"@,
        CheckCategory::SubnodeParentIntegrity => "SubnodeParentIntegrity"@,
        CheckCategory::SubnodePathConsistency => "SubnodePathConsistency"@,
        CheckCategory::SubnodeDag => "SubnodeDag"@,
        CheckCategory::SubnodeIdCollision => "SubnodeIdCollision"@,
        CheckCategory::UnresolvedEdge => "UnresolvedEdge"@,
        CheckCategory::IdRedefined => "IdRedefined"@,
        CheckCategory::IdSemanticMismatch => "IdSemanticMismatch"@,
        CheckCategory::IdSemanticDrift => "IdSemanticDrift"@,
        CheckCategory::SemanticSimilarity => "SemanticSimilarity"@,
    }
}

impl CheckCategory {
    /// The name under which the category is written.
    pub fn name(&self) -> (r: &'static str)
        ensures
            r@ == category_name(*self),
    {
        match self {
            CheckCategory::FileExistence => "FileExistence",
            CheckCategory::DocumentId => "DocumentId",
            CheckCategory::ChainIntegrity => "ChainIntegrity",
            CheckCategory::OrphanFile => "OrphanFile",
            CheckCategory::GraphDag => "GraphDag",
            CheckCategory::Freshness => "Freshness",
            CheckCategory::SubnodeIdFormat => "SubnodeIdFormat",
            CheckCategory::SubnodeIdUniqueness => "SubnodeIdUniqueness",
            CheckCategory::SubnodeParentIntegrity => "SubnodeParentIntegrity",
            CheckCategory::SubnodePathConsistency => "SubnodePathConsistency",
            CheckCategory::SubnodeDag => "SubnodeDag",
            CheckCategory::SubnodeIdCollision => "SubnodeIdCollision",
            CheckCategory::UnresolvedEdge => "UnresolvedEdge",
            CheckCategory::IdRedefined => "IdRedefined",
            CheckCategory::IdSemanticMismatch => "IdSemanticMismatch",
            CheckCategory::IdSemanticDrift => "IdSemanticDrift",
            CheckCategory::SemanticSimilarity => "SemanticSimilarity",
        }
    }
}

/// JSON string literals of `items`, separated by commas.
pub open spec fn json_items(items: Seq<Seq<char>>) -> Seq<char>
    decreases items.len(),
{
    if items.len() == 0 {
        Seq::empty()
    } else if items.len() == 1 {
        json_string(items[0])
    } else {
        json_items(items.drop_last()) + ","@ + json_string(items.last())
    }
}

/// A location as JSON: `null`, or an object with `path` and `line`.
pub open spec fn location_json(loc: Option<(Seq<char>, Option<usize>)>) -> Seq<char> {
    match loc {
        None => "null"@,
        Some((p, line)) => "{\"path\":"@ + json_string(p) + ",\"line\":"@ + match line {
            None => "null"@,
            Some(n) => decimal(n as nat),
        } + "}"@,
    }
}

/// A finding as one JSON object, fields in declaration order.
pub open spec fn finding_json(f: FindingView) -> Seq<char> {
    "{\"severity\":\""@ + severity_name(f.severity) + "\",\"category\":\""@ + category_name(f.category)
        + "\",\"message\":"@ + json_string(f.message) + ",\"related_ids\":["@ + json_items(f.related)
        + "],\"location\":"@ + location_json(f.location) + "}"@
}

/// JSON Lines: one object per finding, separated by line feeds.
pub open spec fn findings_json(s: Seq<FindingView>) -> Seq<char>
    decreases s.len(),
{
    if s.len() == 0 {
        Seq::empty()
    } else if s.len() == 1 {
        finding_json(s[0])
    } else {
        findings_json(s.drop_last()) + "\n"@ + finding_json(s.last())
    }
}

fn finding_to_json(f: &CheckResult) -> (r: String)
    ensures
        r@ == finding_json(f@),
{
    let mut out = String::from_str("{\"severity\":\"");
    out.append(f.severity.name());
    out.append("\",\"category\":\"");
    out.append(f.category.name());
    out.append("\",\"message\":");
    let m = json_quote(f.message.as_str());
    out.append(m.as_str());
    out.append(",\"related_ids\":[");
    let ghost rel = id_views(f.related_ids@);
    let ghost head = out@;
    let mut i: usize = 0;
    while i < f.related_ids.len()
        invariant
            i <= f.related_ids@.len(),
            rel == id_views(f.related_ids@),
            out@ == head + json_items(rel.take(i as int)),
        decreases f.related_ids.len() - i,
    {
        proof {
            assert(rel.take(i + 1).drop_last() =~= rel.take(i as int));
            assert(rel.take(i + 1).last() == f.related_ids@[i as int]@);
        }
        if i > 0 {
            out.append(",");
        }
        let q = json_quote(f.related_ids[i].as_str());
        out.append(q.as_str());
        proof {
            if i == 0 {
                assert(rel.take(1)[0] == rel[0]);
                assert(json_items(rel.take(0)) =~= Seq::<char>::empty());
            }
            assert(out@ =~= head + json_items(rel.take(i + 1)));
        }
        i = i + 1;
    }
    assert(rel.take(rel.len() as int) =~= rel);
    out.append("],\"location\":");
    match &f.location {
        None => {
            out.append("null");
        },
        Some(l) => {
            out.append("{\"path\":");
            let p = json_quote(l.path.as_str());
            out.append(p.as_str());
            out.append(",\"line\":");
            match l.line {
                None => {
                    out.append("null");
                },
                Some(n) => {
                    let d = decimal_string(n as u64);
                    out.append(d.as_str());
                },
            }
            out.append("}");
        },
    }
    out.append("}");
    proof {
        assert(out@ =~= finding_json(f@));
    }
    out
}

impl CheckReport {
    /// The findings as JSON Lines, one object per finding.
    pub fn to_json(&self) -> (r: String)
        ensures
            r@ == findings_json(finding_views(self.findings@)),
    {
        let ghost fv = finding_views(self.findings@);
        let mut out = String::new();
        let mut i: usize = 0;
        while i < self.findings.len()
            invariant
                i <= self.findings@.len(),
                fv == finding_views(self.findings@),
                out@ == findings_json(fv.take(i as int)),
            decreases self.findings.len() - i,
        {
            proof {
                assert(fv.take(i + 1).drop_last() =~= fv.take(i as int));
                assert(fv.take(i + 1).last() == self.findings@[i as int]@);
            }
            if i > 0 {
                out.append("\n");
            }
            let line = finding_to_json(&self.findings[i]);
            out.append(line.as_str());
            proof {
                if i == 0 {
                    assert(fv.take(1)[0] == fv[0]);
                }
                assert(out@ =~= findings_json(fv.take(i + 1)));
            }
            i = i + 1;
        }
        assert(fv.take(fv.len() as int) =~= fv);
        out
    }
}


/// The message for a document whose content changed since it was embedded.
pub open spec fn content_drift_message(id: Seq<char>) -> Seq<char> {
    "content drift: "@ + id + " の現内容が保存済 embedding と不一致（再 embed 推奨）"@
}

/// The message for an embedded document whose file cannot be read.
pub open spec fn unreadable_drift_message(id: Seq<char>) -> Seq<char> {
    "content drift: "@ + id + " のファイルを読めません（embedding 済だが現物不在）"@
}

/// The content-drift finding of one document: none when it has no stored embedding or
/// its content hashes as stored; a warning when the hash differs or the file cannot be
/// read (`content` none).
pub open spec fn content_drift_of(rows: Seq<crate::store::RowView>, id: Seq<char>, content: Option<Seq<char>>) -> Option<FindingView> {
    match crate::store::row_index(rows, id) {
        None => None,
        Some(k) => match content {
            None => Some(FindingView {
                severity: Severity::Warning,
                category: CheckCategory::SemanticSimilarity,
                message: unreadable_drift_message(id),
                related: seq![id],
                location: None,
            }),
            Some(c) => {
                let current = crate::embed::content::sha256_hex_of(
                    crate::embed::content::normalized(crate::embed::content::normalized(c)),
                );
                if current != rows[k].content_hash {
                    Some(FindingView {
                        severity: Severity::Warning,
                        category: CheckCategory::SemanticSimilarity,
                        message: content_drift_message(id),
                        related: seq![id],
                        location: None,
                    })
                } else {
                    None
                }
            },
        },
    }
}

/// The content-drift findings of the first `n` documents, in order.
pub open spec fn content_drift_findings(docs: Seq<Node>, rows: Seq<crate::store::RowView>, contents: Seq<Option<String>>, n: int) -> Seq<FindingView>
    decreases n,
{
    if n <= 0 {
        Seq::empty()
    } else {
        let rest = content_drift_findings(docs, rows, contents, n - 1);
        match content_drift_of(rows, docs[n - 1].id@, crate::ctx::compiler::opt_str(contents[n - 1])) {
            Some(f) => rest.push(f),
            None => rest,
        }
    }
}

fn drift_warning(message: String, id: &str) -> (r: CheckResult)
    ensures
        r@ == (FindingView {
            severity: Severity::Warning,
            category: CheckCategory::SemanticSimilarity,
            message: message@,
            related: seq![id@],
            location: None,
        }),
{
    let mut ids: Vec<Id> = Vec::new();
    ids.push(Id::new(id));
    let r = CheckResult {
        severity: Severity::Warning,
        category: CheckCategory::SemanticSimilarity,
        message,
        related_ids: ids,
        location: None,
    };
    assert(r@.related =~= seq![id@]);
    r
}

/// The content-drift part of the semantic check: for each document node of `graph`
/// (in order) that has a stored embedding, a warning when its current content hashes
/// otherwise than stored, or when its file cannot be read. `contents[i]` is the text of
/// the i-th document node, none when it cannot be read.
pub fn semantic_drift_findings(graph: &TraceGraph, store: &crate::store::EmbeddingStore, contents: &Vec<Option<String>>) -> (r: Vec<CheckResult>)
    requires
        contents@.len() == document_nodes_of(graph.node_seq()).len(),
    ensures
        finding_views(r@) == content_drift_findings(
            document_nodes_of(graph.node_seq()),
            store.rows(),
            contents@,
            contents@.len() as int,
        ),
{
    let docs = graph.document_nodes();
    let ghost dv = document_nodes_of(graph.node_seq());
    let ghost rows = store.rows();
    assert(docs@.len() == dv.len());
    let mut out: Vec<CheckResult> = Vec::new();
    let mut i: usize = 0;
    while i < docs.len()
        invariant
            i <= docs@.len(),
            docs@.len() == dv.len(),
            docs@.map_values(|n: &Node| *n) == dv,
            contents@.len() == dv.len(),
            rows == store.rows(),
            finding_views(out@) == content_drift_findings(dv, rows, contents@, i as int),
        decreases docs@.len() - i,
    {
        let n = docs[i];
        assert(*n == dv[i as int]);
        let ghost prev = finding_views(out@);
        let stored = store.load_embedding(n.id.as_str());
        let found: Option<CheckResult> = match stored {
            Ok(Some(e)) => match &contents[i] {
                None => {
                    let mut m = String::from_str("content drift: ");
                    m.append(n.id.as_str());
                    m.append(" のファイルを読めません（embedding 済だが現物不在）");
                    Some(drift_warning(m, n.id.as_str()))
                },
                Some(raw) => {
                    let content = crate::embed::content::normalize_content(raw.as_str());
                    let current = crate::embed::content::content_hash_for(content.as_str());
                    if crate::text::str_eq(current.as_str(), e.content_hash.as_str()) {
                        None
                    } else {
                        let mut m = String::from_str("content drift: ");
                        m.append(n.id.as_str());
                        m.append(" の現内容が保存済 embedding と不一致（再 embed 推奨）");
                        Some(drift_warning(m, n.id.as_str()))
                    }
                },
            },
            _ => None,
        };
        proof {
            let want = content_drift_of(rows, n.id@, crate::ctx::compiler::opt_str(contents@[i as int]));
            if found is Some {
                assert(want == Some(found->0@));
            } else {
                assert(want is None);
            }
        }
        match found {
            Some(f) => {
                let ghost fv = f@;
                out.push(f);
                assert(finding_views(out@) =~= prev.push(fv));
            },
            None => {},
        }
        i = i + 1;
    }
    out
}

/// Content drift is reported as a deviation, never as an error: every content-drift
/// finding is a semantic-similarity warning.
pub proof fn lemma_drift_findings_are_warnings(docs: Seq<Node>, rows: Seq<crate::store::RowView>, contents: Seq<Option<String>>, n: int)
    ensures
        forall|i: int| 0 <= i < content_drift_findings(docs, rows, contents, n).len() ==> {
            let f = #[trigger] content_drift_findings(docs, rows, contents, n)[i];
            f.severity == Severity::Warning && f.category == CheckCategory::SemanticSimilarity
        },
    decreases n,
{
    if n > 0 {
        lemma_drift_findings_are_warnings(docs, rows, contents, n - 1);
        let rest = content_drift_findings(docs, rows, contents, n - 1);
        let all = content_drift_findings(docs, rows, contents, n);
        assert forall|i: int| 0 <= i < all.len() implies {
            let f = #[trigger] all[i];
            f.severity == Severity::Warning && f.category == CheckCategory::SemanticSimilarity
        } by {
            if i < rest.len() {
                assert(all[i] == rest[i]);
            }
        }
    }
}

} // verus!
