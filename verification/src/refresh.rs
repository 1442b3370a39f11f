use vstd::prelude::*;

use crate::common::string_views;
use crate::ctx::compiler::opt_str;
use crate::graph::{document_nodes_of, Node, TraceGraph};
use crate::order::{index_order, key_views, lex_lt, stable_order, str_less};
use crate::store::{db_error_text, node_conflict_text, rename_result, DbError, EmbeddingStore, SubnodeRef};
use crate::subnode::{extract_from, extract_subnodes_with_levels, AutoSubnode, SubnodeView};
use crate::text::{chars_of, decimal, decimal_string, str_eq};

verus! {

/// A subnode whose id changed: the stored id, the id its heading has now, the
/// document, and the old and new anchors.
#[derive(Debug, Clone)]
pub struct SubnodeRename {
    pub old_id: String,
    pub new_id: String,
    pub parent_id: String,
    pub old_anchor: Option<String>,
    pub new_anchor: String,
}

/// Why a subnode is left without a counterpart.
#[derive(Debug, Clone, Copy, PartialEq, Eq, Structural)]
pub enum OrphanKind {
    /// Stored, but no longer extracted from the document.
    Removed,
    /// Extracted from the document, but not stored.
    Added,
}

/// A subnode without a counterpart.
#[derive(Debug, Clone)]
pub struct OrphanSubnode {
    pub id: String,
    pub parent_id: String,
    pub anchor: Option<String>,
    pub kind: OrphanKind,
}

/// What comparing stored subnodes with the documents found.
#[derive(Debug)]
pub struct RefreshReport {
    pub renames: Vec<SubnodeRename>,
    pub orphans: Vec<OrphanSubnode>,
    pub parents_scanned: usize,
}

impl Default for RefreshReport {
    fn default() -> (r: RefreshReport)
        ensures
            r.renames@.len() == 0,
            r.orphans@.len() == 0,
            r.parents_scanned == 0,
    {
        RefreshReport { renames: Vec::new(), orphans: Vec::new(), parents_scanned: 0 }
    }
}

/// The smallest of three numbers.
pub open spec fn min3(a: nat, b: nat, c: nat) -> nat {
    let m = if a < b {
        a
    } else {
        b
    };
    if m < c {
        m
    } else {
        c
    }
}

/// The Levenshtein distance: the fewest single-character insertions, deletions and
/// substitutions that turn `a` into `b`.
pub open spec fn lev(a: Seq<char>, b: Seq<char>) -> nat
    decreases a.len() + b.len(),
{
    if a.len() == 0 {
        b.len()
    } else if b.len() == 0 {
        a.len()
    } else {
        min3(
            lev(a.drop_last(), b) + 1,
            lev(a, b.drop_last()) + 1,
            lev(a.drop_last(), b.drop_last()) + if a.last() == b.last() {
                0nat
            } else {
                1nat
            },
        )
    }
}

proof fn lemma_lev_bound(a: Seq<char>, b: Seq<char>)
    ensures
        lev(a, b) <= a.len() + b.len(),
        lev(a, b) <= a.len() || lev(a, b) <= b.len(),
    decreases a.len() + b.len(),
{
    if a.len() > 0 && b.len() > 0 {
        lemma_lev_bound(a.drop_last(), b);
        lemma_lev_bound(a, b.drop_last());
        lemma_lev_bound(a.drop_last(), b.drop_last());
    }
}

/// The Levenshtein distance between the characters of `a` and `b`.
pub fn levenshtein(a: &str, b: &str) -> (r: usize)
    ensures
        r == lev(a@, b@),
{
    let av = crate::text::chars_of(a);
    let bv = crate::text::chars_of(b);
    let m = av.len();
    let n = bv.len();
    if m == 0 {
        return n;
    }
    if n == 0 {
        return m;
    }
    let mut prev: Vec<u128> = Vec::new();
    let mut j: usize = 0;
    while j < n
        invariant
            j <= n,
            n == bv@.len(),
            prev@.len() == j,
            forall|k: int| 0 <= k < j ==> #[trigger] prev@[k] == lev(av@.take(0), bv@.take(k)),
        decreases n - j,
    {
        proof {
            assert(av@.take(0).len() == 0);
        }
        prev.push(j as u128);
        j = j + 1;
    }
    proof {
        assert(av@.take(0).len() == 0);
    }
    prev.push(n as u128);
    let mut i: usize = 0;
    while i < m
        invariant
            i <= m,
            m == av@.len(),
            n == bv@.len(),
            n > 0,
            prev@.len() == n + 1,
            forall|k: int| 0 <= k <= n ==> #[trigger] prev@[k] == lev(av@.take(i as int), bv@.take(k)),
        decreases m - i,
    {
        let mut curr: Vec<u128> = Vec::new();
        proof {
            assert(bv@.take(0).len() == 0);
        }
        curr.push((i as u128) + 1);
        let mut j: usize = 0;
        while j < n
            invariant
                i < m,
                j <= n,
                m == av@.len(),
                n == bv@.len(),
                prev@.len() == n + 1,
                curr@.len() == j + 1,
                forall|k: int| 0 <= k <= n ==> #[trigger] prev@[k] == lev(av@.take(i as int), bv@.take(k)),
                forall|k: int| 0 <= k <= j ==> #[trigger] curr@[k] == lev(av@.take(i + 1), bv@.take(k)),
            decreases n - j,
        {
            let ghost a_i = av@.take(i + 1);
            let ghost b_j = bv@.take(j + 1);
            proof {
                assert(a_i.drop_last() =~= av@.take(i as int));
                assert(b_j.drop_last() =~= bv@.take(j as int));
                assert(a_i.last() == av@[i as int]);
                assert(b_j.last() == bv@[j as int]);
                lemma_lev_bound(a_i, bv@.take(j as int));
                lemma_lev_bound(av@.take(i as int), b_j);
                lemma_lev_bound(av@.take(i as int), bv@.take(j as int));
            }
            let cost: u128 = if av[i] == bv[j] {
                0
            } else {
                1
            };
            let x = curr[j] + 1;
            let y = prev[j + 1] + 1;
            let z = prev[j] + cost;
            let mm = if x < y {
                x
            } else {
                y
            };
            let v = if mm < z {
                mm
            } else {
                z
            };
            curr.push(v);
            j = j + 1;
        }
        prev = curr;
        i = i + 1;
    }
    proof {
        assert(av@.take(m as int) =~= av@);
        assert(bv@.take(n as int) =~= bv@);
        lemma_lev_bound(av@, bv@);
    }
    prev[n] as usize
}

/// How `{:?}` writes a string: quoted, with Rust's debug escapes.
pub uninterp spec fn debug_str(s: Seq<char>) -> Seq<char>;

/// `format!("{:?}", s)`: the string as Rust's `Debug` writes it (quoted and escaped).
#[verifier::external_body]
pub(crate) fn debug_quoted(s: &str) -> (r: String)
    ensures
        r@ == debug_str(s@),
{
    format!("{:?}", s)
}

/// How `{:?}` writes an optional string.
pub open spec fn debug_opt(o: Option<String>) -> Seq<char> {
    match o {
        Some(s) => "Some("@ + debug_str(s@) + ")"@,
        None => "None"@,
    }
}

fn debug_option(o: &Option<String>) -> (r: String)
    ensures
        r@ == debug_opt(*o),
{
    match o {
        Some(s) => {
            let mut t = String::from_str("Some(");
            t.append(debug_quoted(s.as_str()).as_str());
            t.append(")");
            t
        },
        None => String::from_str("None"),
    }
}

/// The report line of a rename.
pub open spec fn rename_line(r: SubnodeRename) -> Seq<char> {
    "  "@ + r.old_id@ + " → "@ + r.new_id@ + "  (parent="@ + r.parent_id@ + ", anchor: "@ + debug_opt(r.old_anchor)
        + " → "@ + debug_str(r.new_anchor@) + ")\n"@
}

/// The name of an orphan kind in the report.
pub open spec fn kind_name(k: OrphanKind) -> Seq<char> {
    match k {
        OrphanKind::Removed => "removed"@,
        OrphanKind::Added => "added"@,
    }
}

/// The report line of an orphan.
pub open spec fn orphan_line(o: OrphanSubnode) -> Seq<char> {
    "  ["@ + kind_name(o.kind) + "] "@ + o.id@ + " (parent="@ + o.parent_id@ + ", anchor="@ + debug_opt(o.anchor)
        + ")\n"@
}

/// The lines of the renames, in order.
pub open spec fn rename_lines(rs: Seq<SubnodeRename>) -> Seq<char>
    decreases rs.len(),
{
    if rs.len() == 0 {
        Seq::empty()
    } else {
        rename_lines(rs.drop_last()) + rename_line(rs.last())
    }
}

/// The lines of the orphans, in order.
pub open spec fn orphan_lines(os: Seq<OrphanSubnode>) -> Seq<char>
    decreases os.len(),
{
    if os.len() == 0 {
        Seq::empty()
    } else {
        orphan_lines(os.drop_last()) + orphan_line(os.last())
    }
}

/// The hint printed after a dry run that found something.
pub open spec fn apply_hint() -> Seq<char> {
    "\n--apply で embeddings の subnode ID を更新します（事前に engine.db をバックアップ）。\n"@
}

/// The report as text: a header saying whether it was applied, the number of
/// documents scanned, the renames and the orphans, and, after a dry run that found
/// something, a hint on applying it.
pub open spec fn report_text(r: RefreshReport, applied: bool) -> Seq<char> {
    "=== refresh-subnodes "@ + (if applied {
        "(apply) ===\n"@
    } else {
        "(dry-run) ===\n"@
    }) + "parents_scanned: "@ + decimal(r.parents_scanned as nat) + "\n"@ + "renames: "@ + decimal(
        r.renames@.len(),
    ) + "\n"@ + rename_lines(r.renames@) + "orphans: "@ + decimal(r.orphans@.len()) + "\n"@ + orphan_lines(
        r.orphans@,
    ) + (if !applied && (r.renames@.len() > 0 || r.orphans@.len() > 0) {
        apply_hint()
    } else {
        Seq::<char>::empty()
    })
}

fn append_rename_line(s: &mut String, r: &SubnodeRename)
    ensures
        final(s)@ == old(s)@ + rename_line(*r),
{
    s.append("  ");
    s.append(r.old_id.as_str());
    s.append(" → ");
    s.append(r.new_id.as_str());
    s.append("  (parent=");
    s.append(r.parent_id.as_str());
    s.append(", anchor: ");
    s.append(debug_option(&r.old_anchor).as_str());
    s.append(" → ");
    s.append(debug_quoted(r.new_anchor.as_str()).as_str());
    s.append(")\n");
    assert(s@ =~= old(s)@ + rename_line(*r));
}

fn append_orphan_line(s: &mut String, o: &OrphanSubnode)
    ensures
        final(s)@ == old(s)@ + orphan_line(*o),
{
    s.append("  [");
    match o.kind {
        OrphanKind::Removed => s.append("removed"),
        OrphanKind::Added => s.append("added"),
    }
    s.append("] ");
    s.append(o.id.as_str());
    s.append(" (parent=");
    s.append(o.parent_id.as_str());
    s.append(", anchor=");
    s.append(debug_option(&o.anchor).as_str());
    s.append(")\n");
    assert(s@ =~= old(s)@ + orphan_line(*o));
}

/// The report as text (see `report_text`).
pub fn render(report: &RefreshReport, applied: bool) -> (r: String)
    ensures
        r@ == report_text(*report, applied),
{
    let mut s = String::from_str("=== refresh-subnodes ");
    if applied {
        s.append("(apply) ===\n");
    } else {
        s.append("(dry-run) ===\n");
    }
    s.append("parents_scanned: ");
    s.append(decimal_string(report.parents_scanned as u64).as_str());
    s.append("\n");
    s.append("renames: ");
    s.append(decimal_string(report.renames.len() as u64).as_str());
    s.append("\n");
    let ghost head = s@;
    let mut i: usize = 0;
    while i < report.renames.len()
        invariant
            i <= report.renames@.len(),
            s@ == head + rename_lines(report.renames@.take(i as int)),
        decreases report.renames@.len() - i,
    {
        append_rename_line(&mut s, &report.renames[i]);
        proof {
            assert(report.renames@.take(i + 1).drop_last() =~= report.renames@.take(i as int));
            assert(report.renames@.take(i + 1).last() == report.renames@[i as int]);
        }
        assert(s@ =~= head + rename_lines(report.renames@.take(i + 1)));
        i = i + 1;
    }
    assert(report.renames@.take(report.renames@.len() as int) =~= report.renames@);
    s.append("orphans: ");
    s.append(decimal_string(report.orphans.len() as u64).as_str());
    s.append("\n");
    let ghost head2 = s@;
    let mut i: usize = 0;
    while i < report.orphans.len()
        invariant
            i <= report.orphans@.len(),
            s@ == head2 + orphan_lines(report.orphans@.take(i as int)),
        decreases report.orphans@.len() - i,
    {
        append_orphan_line(&mut s, &report.orphans[i]);
        proof {
            assert(report.orphans@.take(i + 1).drop_last() =~= report.orphans@.take(i as int));
            assert(report.orphans@.take(i + 1).last() == report.orphans@[i as int]);
        }
        assert(s@ =~= head2 + orphan_lines(report.orphans@.take(i + 1)));
        i = i + 1;
    }
    assert(report.orphans@.take(report.orphans@.len() as int) =~= report.orphans@);
    if !applied && (report.renames.len() > 0 || report.orphans.len() > 0) {
        s.append("\n--apply で embeddings の subnode ID を更新します（事前に engine.db をバックアップ）。\n");
    }
    assert(s@ =~= report_text(*report, applied));
    s
}


/// A subnode id with its anchor.
pub type Pair = (Seq<char>, Option<Seq<char>>);

/// The view of an exec subnode id with its anchor.
pub open spec fn pair_view(p: (String, Option<String>)) -> Pair {
    (p.0@, opt_str(p.1))
}

/// The views of exec pairs.
pub open spec fn pair_views(s: Seq<(String, Option<String>)>) -> Seq<Pair> {
    s.map_values(|p: (String, Option<String>)| pair_view(p))
}

/// The stored subnodes of document `d`, in order.
pub open spec fn stored_of(rows: Seq<SubnodeRef>, d: Seq<char>) -> Seq<Pair>
    decreases rows.len(),
{
    if rows.len() == 0 {
        Seq::empty()
    } else {
        let prev = stored_of(rows.drop_last(), d);
        let r = rows.last();
        if opt_str(r.parent_id) == Some(d) {
            prev.push((r.node_id@, opt_str(r.anchor)))
        } else {
            prev
        }
    }
}

/// The subnodes extracted from a document, with their headings as anchors.
pub open spec fn extracted_pairs(ex: Seq<SubnodeView>) -> Seq<Pair> {
    ex.map_values(|v: SubnodeView| (v.id, Some(v.anchor)))
}

/// Some pair of `s` has id `id`.
pub open spec fn has_id(s: Seq<Pair>, id: Seq<char>) -> bool {
    exists|i: int| 0 <= i < s.len() && (#[trigger] s[i]).0 == id
}

/// Each id once, with the anchor of its last occurrence (as when collected into a map).
pub open spec fn last_of_each(s: Seq<Pair>) -> Seq<Pair>
    decreases s.len(),
{
    if s.len() == 0 {
        s
    } else if has_id(s.drop_first(), s[0].0) {
        last_of_each(s.drop_first())
    } else {
        seq![s[0]] + last_of_each(s.drop_first())
    }
}

/// The pairs of `s` whose id `other` lacks, in order.
pub open spec fn without_ids(s: Seq<Pair>, other: Seq<Pair>) -> Seq<Pair>
    decreases s.len(),
{
    if s.len() == 0 {
        s
    } else if has_id(other, s.last().0) {
        without_ids(s.drop_last(), other)
    } else {
        without_ids(s.drop_last(), other).push(s.last())
    }
}

/// Inserts `x` after every pair whose id does not come after its id.
pub open spec fn insert_by_id(s: Seq<Pair>, x: Pair) -> Seq<Pair>
    decreases s.len(),
{
    if s.len() == 0 {
        seq![x]
    } else if lex_lt(x.0, s.last().0) {
        insert_by_id(s.drop_last(), x).push(s.last())
    } else {
        s.push(x)
    }
}

/// The pairs ordered by id (stably).
pub open spec fn sort_by_id(s: Seq<Pair>) -> Seq<Pair>
    decreases s.len(),
{
    if s.len() == 0 {
        s
    } else {
        insert_by_id(sort_by_id(s.drop_last()), s.last())
    }
}

/// The anchor text compared when matching renames (empty when there is none).
pub open spec fn anchor_text(a: Option<Seq<char>>) -> Seq<char> {
    match a {
        Some(t) => t,
        None => Seq::empty(),
    }
}

/// The distance between a removed and an added subnode: of their anchors.
pub open spec fn pair_distance(r: Pair, a: Pair) -> nat {
    lev(anchor_text(r.1), anchor_text(a.1))
}

/// The best pair found scanning removed subnode `ri` against added ones from `ai`
/// on: the first with the smallest distance.
pub open spec fn row_best(rm: Seq<Pair>, ad: Seq<Pair>, ri: int, ai: int, best: Option<(int, int, nat)>) -> Option<(int, int, nat)>
    decreases ad.len() - ai,
{
    if ai < 0 || ai >= ad.len() {
        best
    } else {
        let d = pair_distance(rm[ri], ad[ai]);
        let next = match best {
            Some(b) => if d < b.2 {
                Some((ri, ai, d))
            } else {
                best
            },
            None => Some((ri, ai, d)),
        };
        row_best(rm, ad, ri, ai + 1, next)
    }
}

/// The best pair found scanning removed subnodes from `ri` on, each against all added ones.
pub open spec fn all_best(rm: Seq<Pair>, ad: Seq<Pair>, ri: int, best: Option<(int, int, nat)>) -> Option<(int, int, nat)>
    decreases rm.len() - ri,
{
    if ri < 0 || ri >= rm.len() {
        best
    } else {
        all_best(rm, ad, ri + 1, row_best(rm, ad, ri, 0, best))
    }
}

/// A rename as plain values: old id, new id, document, old anchor, new anchor.
pub type RenameView = (Seq<char>, Seq<char>, Seq<char>, Option<Seq<char>>, Seq<char>);

/// An orphan as plain values: id, document, anchor, kind.
pub type OrphanView = (Seq<char>, Seq<char>, Option<Seq<char>>, OrphanKind);

/// Matches removed with added subnodes of document `d`, closest anchors first (the
/// first closest pair in scanning order), until one side is used up; the renames and
/// what is left of each side.
pub open spec fn pair_up(rm: Seq<Pair>, ad: Seq<Pair>, d: Seq<char>) -> (Seq<RenameView>, Seq<Pair>, Seq<Pair>)
    decreases rm.len(),
{
    if rm.len() == 0 || ad.len() == 0 {
        (Seq::empty(), rm, ad)
    } else {
        match all_best(rm, ad, 0, None) {
            Some(b) => if 0 <= b.0 < rm.len() && 0 <= b.1 < ad.len() {
                let r = rm[b.0];
                let a = ad[b.1];
                let rest = pair_up(rm.remove(b.0), ad.remove(b.1), d);
                (seq![(r.0, a.0, d, r.1, anchor_text(a.1))] + rest.0, rest.1, rest.2)
            } else {
                (Seq::empty(), rm, ad)
            },
            None => (Seq::empty(), rm, ad),
        }
    }
}

/// Scan state: renames and orphans so far, and documents scanned.
pub struct ScanState {
    pub renames: Seq<RenameView>,
    pub orphans: Seq<OrphanView>,
    pub scanned: int,
}

/// The content of the first source file at `p`, if it could be read.
pub open spec fn source_opt(s: Seq<(String, String)>, p: Seq<char>) -> Option<Seq<char>>
    decreases s.len(),
{
    if s.len() == 0 {
        None
    } else if s[0].0@ == p {
        Some(s[0].1@)
    } else {
        source_opt(s.drop_first(), p)
    }
}

/// The path ends with `.md`.
pub open spec fn is_markdown(p: Seq<char>) -> bool {
    p.len() >= 3 && p.subrange(p.len() - 3, p.len() as int) == ".md"@
}

/// Scanning one document: Markdown documents count as scanned; when the file could be
/// read, its stored and extracted subnodes are compared by id, those on one side only
/// are matched into renames, and the rest become orphans (removed ones, then added
/// ones, each ordered by id).
pub open spec fn scan_doc(rows: Seq<SubnodeRef>, sources: Seq<(String, String)>, st: ScanState, doc: Node) -> ScanState {
    if !is_markdown(doc.path@) {
        st
    } else {
        match source_opt(sources, doc.path@) {
            None => ScanState { scanned: st.scanned + 1, ..st },
            Some(content) => {
                let d = doc.id@;
                let ex = extracted_pairs(extract_from(d, content, seq![2u8, 3u8], 0, None));
                let stored = last_of_each(stored_of(rows, d));
                let extracted = last_of_each(ex);
                let rm = sort_by_id(without_ids(stored, extracted));
                let ad = sort_by_id(without_ids(extracted, stored));
                let p = pair_up(rm, ad, d);
                ScanState {
                    renames: st.renames + p.0,
                    orphans: st.orphans + p.1.map_values(|x: Pair| (x.0, d, x.1, OrphanKind::Removed))
                        + p.2.map_values(|x: Pair| (x.0, d, x.1, OrphanKind::Added)),
                    scanned: st.scanned + 1,
                }
            },
        }
    }
}

/// Scanning the documents in order.
pub open spec fn scan_docs(docs: Seq<Node>, rows: Seq<SubnodeRef>, sources: Seq<(String, String)>) -> ScanState
    decreases docs.len(),
{
    if docs.len() == 0 {
        ScanState { renames: Seq::empty(), orphans: Seq::empty(), scanned: 0 }
    } else {
        scan_doc(rows, sources, scan_docs(docs.drop_last(), rows, sources), docs.last())
    }
}

/// The view of a rename.
pub open spec fn rename_view(r: SubnodeRename) -> RenameView {
    (r.old_id@, r.new_id@, r.parent_id@, opt_str(r.old_anchor), r.new_anchor@)
}

/// The view of an orphan.
pub open spec fn orphan_view(o: OrphanSubnode) -> OrphanView {
    (o.id@, o.parent_id@, opt_str(o.anchor), o.kind)
}

/// The renames ordered by old id (stably).
pub open spec fn renames_in_order(rs: Seq<RenameView>) -> Seq<RenameView> {
    index_order(rs.map_values(|r: RenameView| seq![r.0]), rs.len() as int).map_values(|i: int| rs[i])
}

/// The orphans ordered by document, then id (stably).
pub open spec fn orphans_in_order(os: Seq<OrphanView>) -> Seq<OrphanView> {
    index_order(os.map_values(|o: OrphanView| seq![o.1, o.0]), os.len() as int).map_values(|i: int| os[i])
}


fn copy_opt(o: &Option<String>) -> (r: Option<String>)
    ensures
        opt_str(r) == opt_str(*o),
{
    match o {
        Some(x) => Some(x.clone()),
        None => None,
    }
}

fn copy_pair(p: &(String, Option<String>)) -> (r: (String, Option<String>))
    ensures
        pair_view(r) == pair_view(*p),
{
    (p.0.clone(), copy_opt(&p.1))
}

fn stored_pairs(rows: &Vec<SubnodeRef>, d: &str) -> (r: Vec<(String, Option<String>)>)
    ensures
        pair_views(r@) == stored_of(rows@, d@),
{
    let mut out: Vec<(String, Option<String>)> = Vec::new();
    let mut i: usize = 0;
    while i < rows.len()
        invariant
            i <= rows@.len(),
            pair_views(out@) == stored_of(rows@.take(i as int), d@),
        decreases rows@.len() - i,
    {
        assert(rows@.take(i + 1).drop_last() =~= rows@.take(i as int));
        assert(rows@.take(i + 1).last() == rows@[i as int]);
        let r = &rows[i];
        match &r.parent_id {
            Some(pid) => {
                if str_eq(pid.as_str(), d) {
                    let ghost prev = out@;
                    let x = (r.node_id.clone(), copy_opt(&r.anchor));
                    out.push(x);
                    assert(pair_views(out@) =~= pair_views(prev).push(pair_view(x)));
                }
            },
            None => {},
        }
        i = i + 1;
    }
    assert(rows@.take(rows@.len() as int) =~= rows@);
    out
}

fn extracted_vec(ex: &Vec<AutoSubnode>) -> (r: Vec<(String, Option<String>)>)
    ensures
        pair_views(r@) == extracted_pairs(ex@.map_values(|e: AutoSubnode| e@)),
{
    let mut out: Vec<(String, Option<String>)> = Vec::new();
    let mut i: usize = 0;
    while i < ex.len()
        invariant
            i <= ex@.len(),
            pair_views(out@) == extracted_pairs(ex@.take(i as int).map_values(|e: AutoSubnode| e@)),
        decreases ex@.len() - i,
    {
        let ghost prev = out@;
        let x = (ex[i].id.clone(), Some(ex[i].anchor.clone()));
        out.push(x);
        assert(ex@.take(i + 1).map_values(|e: AutoSubnode| e@) =~= ex@.take(i as int).map_values(
            |e: AutoSubnode| e@,
        ).push(ex@[i as int]@));
        assert(pair_views(out@) =~= pair_views(prev).push(pair_view(x)));
        i = i + 1;
    }
    assert(ex@.take(ex@.len() as int) =~= ex@);
    out
}

fn contains_id(s: &Vec<(String, Option<String>)>, from: usize, id: &str) -> (r: bool)
    requires
        from <= s@.len(),
    ensures
        r == has_id(pair_views(s@).skip(from as int), id@),
{
    let ghost t = pair_views(s@).skip(from as int);
    let mut i: usize = from;
    while i < s.len()
        invariant
            from <= i <= s@.len(),
            t == pair_views(s@).skip(from as int),
            forall|k: int| 0 <= k < i - from ==> t[k].0 != id@,
        decreases s@.len() - i,
    {
        if str_eq(s[i].0.as_str(), id) {
            assert(t[i - from].0 == id@);
            return true;
        }
        i = i + 1;
    }
    false
}

fn keep_last(s: &Vec<(String, Option<String>)>) -> (r: Vec<(String, Option<String>)>)
    ensures
        pair_views(r@) == last_of_each(pair_views(s@)),
{
    let ghost sv = pair_views(s@);
    let mut out: Vec<(String, Option<String>)> = Vec::new();
    let mut i: usize = 0;
    assert(sv.skip(0) =~= sv);
    while i < s.len()
        invariant
            i <= s@.len(),
            sv == pair_views(s@),
            pair_views(out@) + last_of_each(sv.skip(i as int)) == last_of_each(sv),
        decreases s@.len() - i,
    {
        let ghost rest = sv.skip(i as int);
        assert(rest.drop_first() =~= sv.skip(i + 1));
        assert(rest[0] == pair_view(s@[i as int]));
        let later = contains_id(s, i + 1, s[i].0.as_str());
        if !later {
            let ghost prev = out@;
            let x = copy_pair(&s[i]);
            out.push(x);
            assert(pair_views(out@) =~= pair_views(prev).push(pair_view(x)));
            assert(pair_views(out@) + last_of_each(sv.skip(i + 1)) =~= pair_views(prev) + last_of_each(rest));
        }
        i = i + 1;
    }
    assert(sv.skip(s@.len() as int) =~= Seq::<Pair>::empty());
    assert(pair_views(out@) + Seq::<Pair>::empty() =~= pair_views(out@));
    out
}

fn drop_ids(s: &Vec<(String, Option<String>)>, other: &Vec<(String, Option<String>)>) -> (r: Vec<(String, Option<String>)>)
    ensures
        pair_views(r@) == without_ids(pair_views(s@), pair_views(other@)),
{
    let ghost sv = pair_views(s@);
    let ghost ov = pair_views(other@);
    let mut out: Vec<(String, Option<String>)> = Vec::new();
    let mut i: usize = 0;
    while i < s.len()
        invariant
            i <= s@.len(),
            sv == pair_views(s@),
            ov == pair_views(other@),
            pair_views(out@) == without_ids(sv.take(i as int), ov),
        decreases s@.len() - i,
    {
        assert(sv.take(i + 1).drop_last() =~= sv.take(i as int));
        assert(sv.take(i + 1).last() == pair_view(s@[i as int]));
        assert(ov.skip(0) =~= ov);
        if !contains_id(other, 0, s[i].0.as_str()) {
            let ghost prev = out@;
            let x = copy_pair(&s[i]);
            out.push(x);
            assert(pair_views(out@) =~= pair_views(prev).push(pair_view(x)));
        }
        i = i + 1;
    }
    assert(sv.take(s@.len() as int) =~= sv);
    out
}

proof fn lemma_insert_by_id_split(s: Seq<Pair>, x: Pair, j: int)
    requires
        0 < j <= s.len(),
        lex_lt(x.0, s[j - 1].0),
    ensures
        insert_by_id(s.take(j), x) + s.skip(j) == insert_by_id(s.take(j - 1), x) + s.skip(j - 1),
{
    let t = s.take(j);
    assert(t.drop_last() =~= s.take(j - 1));
    assert(t.last() == s[j - 1]);
    assert(s.skip(j - 1) =~= seq![s[j - 1]] + s.skip(j));
    assert(insert_by_id(s.take(j - 1), x).push(s[j - 1]) + s.skip(j) =~= insert_by_id(s.take(j - 1), x) + s.skip(
        j - 1,
    ));
}

fn order_by_id(v: Vec<(String, Option<String>)>) -> (r: Vec<(String, Option<String>)>)
    ensures
        pair_views(r@) == sort_by_id(pair_views(v@)),
{
    let ghost input = pair_views(v@);
    let mut out: Vec<(String, Option<String>)> = Vec::new();
    for x in it: v
        invariant
            input == pair_views(it.seq()),
            pair_views(out@) == sort_by_id(input.take(it.index() as int)),
    {
        let ghost k = it.index() as int;
        let ghost fo = pair_views(out@);
        proof {
            assert(input.take(k + 1).drop_last() =~= input.take(k));
            assert(input.take(k + 1).last() == pair_view(x));
        }
        let mut j: usize = out.len();
        proof {
            assert(fo.take(j as int) =~= fo);
            assert(insert_by_id(fo, pair_view(x)) + fo.skip(j as int) =~= insert_by_id(fo, pair_view(x)));
        }
        while j > 0 && str_less(x.0.as_str(), out[j - 1].0.as_str())
            invariant
                j <= out@.len(),
                fo == pair_views(out@),
                insert_by_id(fo, pair_view(x)) == insert_by_id(fo.take(j as int), pair_view(x)) + fo.skip(j as int),
            decreases j,
        {
            proof {
                lemma_insert_by_id_split(fo, pair_view(x), j as int);
            }
            j = j - 1;
        }
        proof {
            let t = fo.take(j as int);
            if j > 0 {
                assert(t.last() == fo[j - 1]);
                assert(insert_by_id(t, pair_view(x)) == t.push(pair_view(x)));
            } else {
                assert(insert_by_id(t, pair_view(x)) == seq![pair_view(x)]);
            }
        }
        let ghost xv = pair_view(x);
        out.insert(j, x);
        assert(pair_views(out@) =~= fo.take(j as int).push(xv) + fo.skip(j as int));
    }
    assert(input.take(input.len() as int) =~= input);
    out
}

fn anchor_str(a: &Option<String>) -> (r: &str)
    ensures
        r@ == anchor_text(opt_str(*a)),
{
    match a {
        Some(t) => t.as_str(),
        None => {
            proof {
                reveal_strlit("");
            }
            ""
        },
    }
}

/// The first pair of smallest anchor distance, scanning removed subnodes in order and,
/// for each, the added ones in order.
fn best_pair(rm: &Vec<(String, Option<String>)>, ad: &Vec<(String, Option<String>)>) -> (r: (usize, usize))
    requires
        rm@.len() > 0,
        ad@.len() > 0,
    ensures
        all_best(pair_views(rm@), pair_views(ad@), 0, None) == Some((r.0 as int, r.1 as int, pair_distance(
            pair_views(rm@)[r.0 as int],
            pair_views(ad@)[r.1 as int],
        ))),
        r.0 < rm@.len(),
        r.1 < ad@.len(),
{
    let ghost rv = pair_views(rm@);
    let ghost av = pair_views(ad@);
    let mut best: Option<(usize, usize, usize)> = None;
    let mut ri: usize = 0;
    while ri < rm.len()
        invariant
            ri <= rm@.len(),
            rv == pair_views(rm@),
            av == pair_views(ad@),
            ad@.len() > 0,
            all_best(rv, av, 0, None) == all_best(rv, av, ri as int, match best {
                Some(b) => Some((b.0 as int, b.1 as int, b.2 as nat)),
                None => None,
            }),
            ri > 0 ==> best is Some,
            match best {
                Some(b) => b.0 < rm@.len() && b.1 < ad@.len() && b.2 == pair_distance(rv[b.0 as int], av[b.1 as int]),
                None => true,
            },
        decreases rm@.len() - ri,
    {
        let mut ai: usize = 0;
        let ghost start = match best {
            Some(b) => Some((b.0 as int, b.1 as int, b.2 as nat)),
            None => None,
        };
        while ai < ad.len()
            invariant
                ri < rm@.len(),
                ai <= ad@.len(),
                rv == pair_views(rm@),
                av == pair_views(ad@),
                row_best(rv, av, ri as int, 0, start) == row_best(rv, av, ri as int, ai as int, match best {
                    Some(b) => Some((b.0 as int, b.1 as int, b.2 as nat)),
                    None => None,
                }),
                ai > 0 ==> best is Some,
                (ri > 0 && start is Some) ==> best is Some,
                match best {
                    Some(b) => b.0 < rm@.len() && b.1 < ad@.len() && b.2 == pair_distance(
                        rv[b.0 as int],
                        av[b.1 as int],
                    ),
                    None => true,
                },
            decreases ad@.len() - ai,
        {
            let d = levenshtein(anchor_str(&rm[ri].1), anchor_str(&ad[ai].1));
            assert(d == pair_distance(rv[ri as int], av[ai as int]));
            best = match best {
                Some(b) => if d < b.2 {
                    Some((ri, ai, d))
                } else {
                    Some(b)
                },
                None => Some((ri, ai, d)),
            };
            ai = ai + 1;
        }
        ri = ri + 1;
    }
    match best {
        Some(b) => (b.0, b.1),
        None => {
            proof {
                assert(false);
            }
            (0, 0)
        },
    }
}


/// Matches removed with added subnodes of document `d` (see `pair_up`); the renames
/// are appended to `renames`, and what is left of each side stays in `rm` and `ad`.
fn match_renames(
    rm: &mut Vec<(String, Option<String>)>,
    ad: &mut Vec<(String, Option<String>)>,
    d: &str,
    renames: &mut Vec<SubnodeRename>,
)
    ensures
        ({
            let p = pair_up(pair_views(old(rm)@), pair_views(old(ad)@), d@);
            &&& renames_view(final(renames)@) == renames_view(old(renames)@) + p.0
            &&& pair_views(final(rm)@) == p.1
            &&& pair_views(final(ad)@) == p.2
        }),
{
    let ghost p0 = pair_up(pair_views(rm@), pair_views(ad@), d@);
    let ghost r0 = renames_view(renames@);
    assert(r0 + Seq::<RenameView>::empty() =~= r0);
    while rm.len() > 0 && ad.len() > 0
        invariant
            renames_view(renames@) + pair_up(pair_views(rm@), pair_views(ad@), d@).0 == r0 + p0.0,
            pair_up(pair_views(rm@), pair_views(ad@), d@).1 == p0.1,
            pair_up(pair_views(rm@), pair_views(ad@), d@).2 == p0.2,
        decreases rm@.len(),
    {
        let ghost rv = pair_views(rm@);
        let ghost av = pair_views(ad@);
        let (ri, ai) = best_pair(rm, ad);
        let r = rm.remove(ri);
        let a = ad.remove(ai);
        assert(pair_views(rm@) =~= rv.remove(ri as int));
        assert(pair_views(ad@) =~= av.remove(ai as int));
        let new_anchor = match &a.1 {
            Some(t) => t.clone(),
            None => String::new(),
        };
        let ren = SubnodeRename {
            old_id: r.0,
            new_id: a.0,
            parent_id: String::from_str(d),
            old_anchor: r.1,
            new_anchor,
        };
        let ghost rn = rename_view(ren);
        assert(rn == (rv[ri as int].0, av[ai as int].0, d@, rv[ri as int].1, anchor_text(av[ai as int].1)));
        let ghost before = renames_view(renames@);
        renames.push(ren);
        assert(renames_view(renames@) =~= before.push(rn));
        let ghost rest = pair_up(pair_views(rm@), pair_views(ad@), d@);
        assert(pair_up(rv, av, d@).0 == seq![rn] + rest.0);
        assert(renames_view(renames@) + rest.0 =~= before + (seq![rn] + rest.0));
    }
    proof {
        assert(pair_up(pair_views(rm@), pair_views(ad@), d@).0 == Seq::<RenameView>::empty());
        assert(renames_view(renames@) + Seq::<RenameView>::empty() =~= renames_view(renames@));
    }
}

/// The views of renames.
pub open spec fn renames_view(rs: Seq<SubnodeRename>) -> Seq<RenameView> {
    rs.map_values(|r: SubnodeRename| rename_view(r))
}

/// The views of orphans.
pub open spec fn orphans_view(os: Seq<OrphanSubnode>) -> Seq<OrphanView> {
    os.map_values(|o: OrphanSubnode| orphan_view(o))
}

fn push_orphans(
    orphans: &mut Vec<OrphanSubnode>,
    left: &Vec<(String, Option<String>)>,
    d: &str,
    kind: OrphanKind,
)
    ensures
        orphans_view(final(orphans)@) == orphans_view(old(orphans)@) + pair_views(left@).map_values(
            |x: Pair| (x.0, d@, x.1, kind),
        ),
{
    let ghost start = orphans_view(orphans@);
    let ghost lv = pair_views(left@);
    let mut i: usize = 0;
    while i < left.len()
        invariant
            i <= left@.len(),
            lv == pair_views(left@),
            orphans_view(orphans@) == start + lv.take(i as int).map_values(|x: Pair| (x.0, d@, x.1, kind)),
        decreases left@.len() - i,
    {
        let o = OrphanSubnode {
            id: left[i].0.clone(),
            parent_id: String::from_str(d),
            anchor: copy_opt(&left[i].1),
            kind,
        };
        let ghost before = orphans_view(orphans@);
        let ghost ov = orphan_view(o);
        orphans.push(o);
        assert(orphans_view(orphans@) =~= before.push(ov));
        assert(lv.take(i + 1).map_values(|x: Pair| (x.0, d@, x.1, kind)) =~= lv.take(i as int).map_values(
            |x: Pair| (x.0, d@, x.1, kind),
        ).push(ov));
        i = i + 1;
    }
    assert(lv.take(left@.len() as int) =~= lv);
}

fn source_lookup(sources: &Vec<(String, String)>, path: &str) -> (r: Option<String>)
    ensures
        opt_str(r) == source_opt(sources@, path@),
{
    let mut i: usize = 0;
    assert(sources@.skip(0) =~= sources@);
    while i < sources.len()
        invariant
            i <= sources@.len(),
            source_opt(sources@, path@) == source_opt(sources@.skip(i as int), path@),
        decreases sources@.len() - i,
    {
        let ghost rest = sources@.skip(i as int);
        assert(rest[0] == sources@[i as int]);
        if str_eq(sources[i].0.as_str(), path) {
            return Some(sources[i].1.clone());
        }
        assert(rest.drop_first() =~= sources@.skip(i + 1));
        i = i + 1;
    }
    assert(sources@.skip(i as int) =~= Seq::<(String, String)>::empty());
    None
}

fn markdown(p: &str) -> (r: bool)
    ensures
        r == is_markdown(p@),
{
    let c = chars_of(p);
    let n = c.len();
    proof {
        reveal_strlit(".md");
    }
    if n < 3 {
        return false;
    }
    let r = c[n - 3] == '.' && c[n - 2] == 'm' && c[n - 1] == 'd';
    proof {
        let t = c@.subrange(n - 3, n as int);
        if r {
            assert(t =~= ".md"@);
        } else {
            if t == ".md"@ {
                assert(t[0] == c@[n - 3]);
                assert(t[1] == c@[n - 2]);
                assert(t[2] == c@[n - 1]);
            }
        }
    }
    r
}

/// The scan state held by the executable scan.
pub open spec fn state_view(rs: Seq<SubnodeRename>, os: Seq<OrphanSubnode>, n: usize) -> ScanState {
    ScanState { renames: renames_view(rs), orphans: orphans_view(os), scanned: n as int }
}

#[verifier::rlimit(40)]
fn scan_one(
    doc: &Node,
    rows: &Vec<SubnodeRef>,
    sources: &Vec<(String, String)>,
    renames: &mut Vec<SubnodeRename>,
    orphans: &mut Vec<OrphanSubnode>,
    scanned: &mut usize,
)
    requires
        *old(scanned) < usize::MAX,
    ensures
        state_view(final(renames)@, final(orphans)@, *final(scanned)) == scan_doc(
            rows@,
            sources@,
            state_view(old(renames)@, old(orphans)@, *old(scanned)),
            *doc,
        ),
        *final(scanned) <= *old(scanned) + 1,
{
    if !markdown(doc.path.as_str()) {
        return;
    }
    *scanned = *scanned + 1;
    let content = match source_lookup(sources, doc.path.as_str()) {
        Some(c) => c,
        None => return,
    };
    let levels: [u8; 2] = [2, 3];
    assert(levels@ =~= seq![2u8, 3u8]);
    let ex = extract_subnodes_with_levels(doc.id.as_str(), content.as_str(), &levels);
    let stored = keep_last(&stored_pairs(rows, doc.id.as_str()));
    let extracted = keep_last(&extracted_vec(&ex));
    let mut rm = order_by_id(drop_ids(&stored, &extracted));
    let mut ad = order_by_id(drop_ids(&extracted, &stored));
    let ghost p = pair_up(pair_views(rm@), pair_views(ad@), doc.id@);
    match_renames(&mut rm, &mut ad, doc.id.as_str(), renames);
    let ghost o0 = orphans_view(orphans@);
    push_orphans(orphans, &rm, doc.id.as_str(), OrphanKind::Removed);
    push_orphans(orphans, &ad, doc.id.as_str(), OrphanKind::Added);
    assert(orphans_view(orphans@) =~= o0 + p.1.map_values(|x: Pair| (x.0, doc.id@, x.1, OrphanKind::Removed))
        + p.2.map_values(|x: Pair| (x.0, doc.id@, x.1, OrphanKind::Added)));
}

fn copy_rename(r: &SubnodeRename) -> (c: SubnodeRename)
    ensures
        rename_view(c) == rename_view(*r),
{
    SubnodeRename {
        old_id: r.old_id.clone(),
        new_id: r.new_id.clone(),
        parent_id: r.parent_id.clone(),
        old_anchor: copy_opt(&r.old_anchor),
        new_anchor: r.new_anchor.clone(),
    }
}

fn copy_orphan(o: &OrphanSubnode) -> (c: OrphanSubnode)
    ensures
        orphan_view(c) == orphan_view(*o),
{
    OrphanSubnode { id: o.id.clone(), parent_id: o.parent_id.clone(), anchor: copy_opt(&o.anchor), kind: o.kind }
}

fn sorted_renames(rs: &Vec<SubnodeRename>) -> (r: Vec<SubnodeRename>)
    ensures
        renames_view(r@) == renames_in_order(renames_view(rs@)),
{
    let ghost rv = renames_view(rs@);
    let mut keys: Vec<Vec<String>> = Vec::new();
    let mut i: usize = 0;
    while i < rs.len()
        invariant
            i <= rs@.len(),
            rv == renames_view(rs@),
            keys@.len() == i,
            forall|j: int| 0 <= j < i ==> string_views(#[trigger] keys@[j]@) == seq![rv[j].0],
        decreases rs@.len() - i,
    {
        let mut k: Vec<String> = Vec::new();
        k.push(rs[i].old_id.clone());
        assert(string_views(k@) =~= seq![rv[i as int].0]);
        let ghost prev = keys@;
        keys.push(k);
        assert forall|j: int| 0 <= j < i + 1 implies string_views(#[trigger] keys@[j]@) == seq![rv[j].0] by {
            if j < i {
                assert(keys@[j] == prev[j]);
            }
        }
        i = i + 1;
    }
    assert(key_views(keys@) =~= rv.map_values(|r: RenameView| seq![r.0]));
    let order = stable_order(&keys);
    let ghost o = order@.map_values(|x: usize| x as int);
    proof {
        crate::order::lemma_index_order(rv.map_values(|r: RenameView| seq![r.0]), rv.len() as int);
    }
    let mut out: Vec<SubnodeRename> = Vec::new();
    let mut j: usize = 0;
    while j < order.len()
        invariant
            j <= order@.len(),
            rv == renames_view(rs@),
            o == order@.map_values(|x: usize| x as int),
            o == index_order(rv.map_values(|r: RenameView| seq![r.0]), rv.len() as int),
            crate::order::is_permutation(o, rv.len() as int),
            out@.len() == j,
            renames_view(out@) == o.take(j as int).map_values(|x: int| rv[x]),
        decreases order@.len() - j,
    {
        assert(0 <= o[j as int] < rv.len());
        let ghost prev = out@;
        let c = copy_rename(&rs[order[j]]);
        out.push(c);
        proof {
            let lhs = renames_view(out@);
            let rhs = o.take(j + 1).map_values(|x: int| rv[x]);
            assert forall|x: int| 0 <= x < lhs.len() implies lhs[x] == rhs[x] by {
                if x < j {
                    assert(out@[x] == prev[x]);
                    assert(renames_view(prev)[x] == o.take(j as int).map_values(|y: int| rv[y])[x]);
                }
            }
            assert(lhs =~= rhs);
        }
        j = j + 1;
    }
    assert(o.take(o.len() as int) =~= o);
    out
}

fn sorted_orphans(os: &Vec<OrphanSubnode>) -> (r: Vec<OrphanSubnode>)
    ensures
        orphans_view(r@) == orphans_in_order(orphans_view(os@)),
{
    let ghost ov = orphans_view(os@);
    let mut keys: Vec<Vec<String>> = Vec::new();
    let mut i: usize = 0;
    while i < os.len()
        invariant
            i <= os@.len(),
            ov == orphans_view(os@),
            keys@.len() == i,
            forall|j: int| 0 <= j < i ==> string_views(#[trigger] keys@[j]@) == seq![ov[j].1, ov[j].0],
        decreases os@.len() - i,
    {
        let mut k: Vec<String> = Vec::new();
        k.push(os[i].parent_id.clone());
        k.push(os[i].id.clone());
        assert(string_views(k@) =~= seq![ov[i as int].1, ov[i as int].0]);
        let ghost prev = keys@;
        keys.push(k);
        assert forall|j: int| 0 <= j < i + 1 implies string_views(#[trigger] keys@[j]@) == seq![ov[j].1, ov[j].0] by {
            if j < i {
                assert(keys@[j] == prev[j]);
            }
        }
        i = i + 1;
    }
    assert(key_views(keys@) =~= ov.map_values(|o: OrphanView| seq![o.1, o.0]));
    let order = stable_order(&keys);
    let ghost o = order@.map_values(|x: usize| x as int);
    proof {
        crate::order::lemma_index_order(ov.map_values(|o: OrphanView| seq![o.1, o.0]), ov.len() as int);
    }
    let mut out: Vec<OrphanSubnode> = Vec::new();
    let mut j: usize = 0;
    while j < order.len()
        invariant
            j <= order@.len(),
            ov == orphans_view(os@),
            o == order@.map_values(|x: usize| x as int),
            o == index_order(ov.map_values(|o: OrphanView| seq![o.1, o.0]), ov.len() as int),
            crate::order::is_permutation(o, ov.len() as int),
            out@.len() == j,
            orphans_view(out@) == o.take(j as int).map_values(|x: int| ov[x]),
        decreases order@.len() - j,
    {
        assert(0 <= o[j as int] < ov.len());
        let ghost prev = out@;
        let c = copy_orphan(&os[order[j]]);
        out.push(c);
        proof {
            let lhs = orphans_view(out@);
            let rhs = o.take(j + 1).map_values(|x: int| ov[x]);
            assert forall|x: int| 0 <= x < lhs.len() implies lhs[x] == rhs[x] by {
                if x < j {
                    assert(out@[x] == prev[x]);
                    assert(orphans_view(prev)[x] == o.take(j as int).map_values(|y: int| ov[y])[x]);
                }
            }
            assert(lhs =~= rhs);
        }
        j = j + 1;
    }
    assert(o.take(o.len() as int) =~= o);
    out
}

/// Compares the subnodes stored for each document of the graph with those extracted
/// from its file now (files given as `(path, content)` pairs; one missing is skipped):
/// see `scan_docs`. Renames come ordered by old id, orphans by document and id.
///
/// Where several removed/added pairs are equally close, the first in id order is
/// matched first.
pub fn detect_changes(graph: &TraceGraph, persisted: &Vec<SubnodeRef>, sources: &Vec<(String, String)>) -> (r: RefreshReport)
    ensures
        ({
            let st = scan_docs(document_nodes_of(graph.node_seq()), persisted@, sources@);
            &&& renames_view(r.renames@) == renames_in_order(st.renames)
            &&& orphans_view(r.orphans@) == orphans_in_order(st.orphans)
            &&& r.parents_scanned == st.scanned
        }),
{
    let docs = graph.document_nodes();
    let ghost dv = docs@.map_values(|n: &Node| *n);
    let mut renames: Vec<SubnodeRename> = Vec::new();
    let mut orphans: Vec<OrphanSubnode> = Vec::new();
    let mut scanned: usize = 0;
    let mut i: usize = 0;
    proof {
        assert(renames_view(renames@) =~= Seq::<RenameView>::empty());
        assert(orphans_view(orphans@) =~= Seq::<OrphanView>::empty());
    }
    while i < docs.len()
        invariant
            i <= docs@.len(),
            dv == docs@.map_values(|n: &Node| *n),
            scanned <= i,
            state_view(renames@, orphans@, scanned) == scan_docs(dv.take(i as int), persisted@, sources@),
        decreases docs@.len() - i,
    {
        assert(dv.take(i + 1).drop_last() =~= dv.take(i as int));
        assert(dv.take(i + 1).last() == *docs@[i as int]);
        scan_one(docs[i], persisted, sources, &mut renames, &mut orphans, &mut scanned);
        i = i + 1;
    }
    assert(dv.take(docs@.len() as int) =~= dv);
    RefreshReport { renames: sorted_renames(&renames), orphans: sorted_orphans(&orphans), parents_scanned: scanned }
}


/// Applying renames in order: the rows after them, and the index of the rename that
/// failed, if one did (the renames after it are not applied).
pub open spec fn apply_all(rows: Seq<crate::store::RowView>, rs: Seq<RenameView>) -> (Seq<crate::store::RowView>, Option<int>)
    decreases rs.len(),
{
    if rs.len() == 0 {
        (rows, None)
    } else {
        match rename_result(rows, rs[0].0, rs[0].1) {
            None => (rows, Some(0)),
            Some(next) => {
                let rest = apply_all(next, rs.drop_first());
                (
                    rest.0,
                    match rest.1 {
                        Some(k) => Some(k + 1),
                        None => None,
                    },
                )
            },
        }
    }
}

/// The message of a rename that failed.
pub open spec fn rename_failure(r: RenameView) -> Seq<char> {
    "rename "@ + r.0 + " → "@ + r.1 + " failed: "@ + "db query error: "@ + node_conflict_text()
}


/// Applies the renames of a report to the stored subnodes, in order (see `apply_all`);
/// the number applied. Stops at the first that fails, with its message.
pub fn apply_renames(store: &mut EmbeddingStore, report: &RefreshReport) -> (r: Result<usize, String>)
    requires
        old(store).wf(),
    ensures
        final(store).wf(),
        final(store).snaps() == old(store).snaps(),
        ({
            let a = apply_all(old(store).rows(), renames_view(report.renames@));
            &&& final(store).rows() == a.0
            &&& match a.1 {
                None => r == Ok::<usize, String>(report.renames@.len() as usize),
                Some(k) => 0 <= k < report.renames@.len() && (r matches Err(m) && m@ == rename_failure(
                    renames_view(report.renames@)[k],
                )),
            }
        }),
{
    let ghost rs = renames_view(report.renames@);
    let ghost start = store.rows();
    let mut applied: usize = 0;
    assert(rs.skip(0) =~= rs);
    while applied < report.renames.len()
        invariant
            applied <= report.renames@.len(),
            rs == renames_view(report.renames@),
            start == old(store).rows(),
            store.wf(),
            store.snaps() == old(store).snaps(),
            apply_all(start, rs) == ({
                let rest = apply_all(store.rows(), rs.skip(applied as int));
                (
                    rest.0,
                    match rest.1 {
                        Some(k) => Some(k + applied),
                        None => None,
                    },
                )
            }),
        decreases report.renames@.len() - applied,
    {
        let ren = &report.renames[applied];
        let ghost rest = rs.skip(applied as int);
        assert(rest[0] == rename_view(*ren));
        assert(rest.drop_first() =~= rs.skip(applied + 1));
        let ghost before = store.rows();
        match store.rename_subnode(ren.old_id.as_str(), ren.new_id.as_str()) {
            Ok(_) => {},
            Err(e) => {
                let mut m = String::from_str("rename ");
                m.append(ren.old_id.as_str());
                m.append(" → ");
                m.append(ren.new_id.as_str());
                m.append(" failed: ");
                m.append(e.message().as_str());
                proof {
                    assert(rename_result(before, rest[0].0, rest[0].1) is None);
                    assert(rs[applied as int] == rest[0]);
                    assert(apply_all(before, rest) == (before, Some(0int)));
                    assert(db_error_text(e) == "db query error: "@ + node_conflict_text());
                    assert(m@ =~= rename_failure(rs[applied as int]));
                }
                return Err(m);
            },
        }
        applied = applied + 1;
    }
    proof {
        assert(rs.skip(applied as int) =~= Seq::<RenameView>::empty());
    }
    Ok(applied)
}

} // verus!
