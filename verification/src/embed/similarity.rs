use vstd::prelude::*;

use crate::graph::{Edge, TraceGraph};
use crate::store::EmbeddingRow;
use crate::text::str_eq;

verus! {

/// Counts behind the one summarized warning of a bulk scoring run.
#[derive(Debug, Clone, PartialEq, Eq)]
pub struct AggregatedWarnings {
    pub dim_mismatch_count: usize,
    pub zero_norm_count: usize,
    pub truncated_count: usize,
    pub empty_skip_count: usize,
}

impl Default for AggregatedWarnings {
    fn default() -> (r: AggregatedWarnings)
        ensures
            r.dim_mismatch_count == 0,
            r.zero_norm_count == 0,
            r.truncated_count == 0,
            r.empty_skip_count == 0,
    {
        AggregatedWarnings { dim_mismatch_count: 0, zero_norm_count: 0, truncated_count: 0, empty_skip_count: 0 }
    }
}


/// The position of the last row of node `id`.
pub open spec fn row_pos(rows: Seq<EmbeddingRow>, id: Seq<char>) -> Option<int>
    decreases rows.len(),
{
    if rows.len() == 0 {
        None
    } else if rows.last().node_id@ == id {
        Some(rows.len() - 1)
    } else {
        row_pos(rows.drop_last(), id)
    }
}

/// Two rows whose vectors can be compared: the same dimension, not zero.
pub open spec fn comparable(a: EmbeddingRow, b: EmbeddingRow) -> bool {
    a.dim == b.dim && a.dim != 0
}

/// For each of the first `n` edges whose ends both have rows that can be compared, the
/// edge and the two rows, in edge order.
pub open spec fn edge_pairs_of(edges: Seq<Edge>, rows: Seq<EmbeddingRow>, n: int) -> Seq<(int, int, int)>
    decreases n,
{
    if n <= 0 {
        Seq::empty()
    } else {
        let rest = edge_pairs_of(edges, rows, n - 1);
        let e = edges[n - 1];
        match (row_pos(rows, e.from@), row_pos(rows, e.to@)) {
            (Some(a), Some(b)) => if comparable(rows[a], rows[b]) {
                rest.push((n - 1, a, b))
            } else {
                rest
            },
            _ => rest,
        }
    }
}

/// An edge joins `a` and `b`, in either direction.
pub open spec fn linked(edges: Seq<Edge>, a: Seq<char>, b: Seq<char>) -> bool {
    exists|k: int|
        0 <= k < edges.len() && ((#[trigger] edges[k]).from@ == a && edges[k].to@ == b || edges[k].from@ == b
            && edges[k].to@ == a)
}

/// The pairs `(i, j)` with `i < j < n`, starting at `(i, j)` and in order, that `keep`
/// takes.
pub open spec fn pairs_row(i: int, j: int, n: int, keep: spec_fn(int, int) -> bool) -> Seq<(int, int)>
    decreases n - j,
{
    if j >= n {
        Seq::empty()
    } else {
        (if keep(i, j) {
            seq![(i, j)]
        } else {
            Seq::empty()
        }) + pairs_row(i, j + 1, n, keep)
    }
}

/// The pairs `(i, j)` with `i0 <= i < j < n`, in order, that `keep` takes.
pub open spec fn pairs_from(i: int, n: int, keep: spec_fn(int, int) -> bool) -> Seq<(int, int)>
    decreases n - i,
{
    if i >= n {
        Seq::empty()
    } else {
        pairs_row(i, i + 1, n, keep) + pairs_from(i + 1, n, keep)
    }
}

/// Pairs of rows whose vectors can be compared.
pub open spec fn comparable_keep(rows: Seq<EmbeddingRow>) -> spec_fn(int, int) -> bool {
    |i: int, j: int| comparable(rows[i], rows[j])
}

/// Pairs of rows whose vectors can be compared and that no edge joins.
pub open spec fn candidate_keep(rows: Seq<EmbeddingRow>, edges: Seq<Edge>) -> spec_fn(int, int) -> bool {
    |i: int, j: int| comparable(rows[i], rows[j]) && !linked(edges, rows[i].node_id@, rows[j].node_id@)
}

/// The pairs as plain integers.
pub open spec fn pair_views(v: Seq<(usize, usize)>) -> Seq<(int, int)> {
    v.map_values(|p: (usize, usize)| (p.0 as int, p.1 as int))
}

fn find_row_pos(rows: &Vec<EmbeddingRow>, id: &str) -> (r: Option<usize>)
    ensures
        match r {
            Some(k) => row_pos(rows@, id@) == Some(k as int),
            None => row_pos(rows@, id@) is None,
        },
{
    let mut found: Option<usize> = None;
    let mut i: usize = 0;
    while i < rows.len()
        invariant
            i <= rows@.len(),
            match found {
                Some(k) => row_pos(rows@.take(i as int), id@) == Some(k as int),
                None => row_pos(rows@.take(i as int), id@) is None,
            },
        decreases rows@.len() - i,
    {
        proof {
            assert(rows@.take(i + 1).drop_last() =~= rows@.take(i as int));
            assert(rows@.take(i + 1).last() == rows@[i as int]);
        }
        if str_eq(rows[i].node_id.as_str(), id) {
            found = Some(i);
        }
        i = i + 1;
    }
    assert(rows@.take(rows@.len() as int) =~= rows@);
    found
}

proof fn lemma_row_pos_bound(rows: Seq<EmbeddingRow>, id: Seq<char>)
    ensures
        match row_pos(rows, id) {
            Some(k) => 0 <= k < rows.len(),
            None => true,
        },
    decreases rows.len(),
{
    if rows.len() > 0 && rows.last().node_id@ != id {
        lemma_row_pos_bound(rows.drop_last(), id);
    }
}

/// The edges of `graph` whose vectors an edge score compares, in edge order: each as
/// (edge position, row of its source, row of its target), when both ends have rows of
/// the same non-zero dimension.
pub fn edge_pairs(graph: &TraceGraph, rows: &Vec<EmbeddingRow>) -> (r: Vec<(usize, usize, usize)>)
    ensures
        r@.map_values(|p: (usize, usize, usize)| (p.0 as int, p.1 as int, p.2 as int)) == edge_pairs_of(
            graph.edge_seq(),
            rows@,
            graph.edge_seq().len() as int,
        ),
{
    let edges = graph.edges();
    let mut out: Vec<(usize, usize, usize)> = Vec::new();
    let mut k: usize = 0;
    while k < edges.len()
        invariant
            k <= edges@.len(),
            edges@ == graph.edge_seq(),
            out@.map_values(|p: (usize, usize, usize)| (p.0 as int, p.1 as int, p.2 as int)) == edge_pairs_of(
                edges@,
                rows@,
                k as int,
            ),
        decreases edges@.len() - k,
    {
        let e = &edges[k];
        let ghost prev = out@.map_values(|p: (usize, usize, usize)| (p.0 as int, p.1 as int, p.2 as int));
        proof {
            lemma_row_pos_bound(rows@, e.from@);
            lemma_row_pos_bound(rows@, e.to@);
        }
        match (find_row_pos(rows, e.from.as_str()), find_row_pos(rows, e.to.as_str())) {
            (Some(a), Some(b)) => {
                if rows[a].dim == rows[b].dim && rows[a].dim != 0 {
                    out.push((k, a, b));
                    assert(out@.map_values(|p: (usize, usize, usize)| (p.0 as int, p.1 as int, p.2 as int)) =~= prev.push(
                        (k as int, a as int, b as int),
                    ));
                }
            },
            _ => {},
        }
        k = k + 1;
    }
    out
}

fn edge_joins(edges: &[Edge], a: &str, b: &str) -> (r: bool)
    ensures
        r == linked(edges@, a@, b@),
{
    let mut k: usize = 0;
    while k < edges.len()
        invariant
            k <= edges@.len(),
            forall|q: int|
                0 <= q < k ==> !((#[trigger] edges@[q]).from@ == a@ && edges@[q].to@ == b@ || edges@[q].from@ == b@
                    && edges@[q].to@ == a@),
        decreases edges@.len() - k,
    {
        let e = &edges[k];
        if (str_eq(e.from.as_str(), a) && str_eq(e.to.as_str(), b)) || (str_eq(e.from.as_str(), b) && str_eq(
            e.to.as_str(),
            a,
        )) {
            assert(edges@[k as int] == *e);
            return true;
        }
        k = k + 1;
    }
    false
}

/// The pairs `(i, j)`, `i < j`, of rows in order, that `keep` takes, where `keep` is
/// comparability alone or comparability and no joining edge.
fn row_pairs(rows: &Vec<EmbeddingRow>, edges: Option<&[Edge]>) -> (r: Vec<(usize, usize)>)
    ensures
        pair_views(r@) == pairs_from(
            0,
            rows@.len() as int,
            match edges {
                Some(es) => candidate_keep(rows@, es@),
                None => comparable_keep(rows@),
            },
        ),
{
    let ghost keep = match edges {
        Some(es) => candidate_keep(rows@, es@),
        None => comparable_keep(rows@),
    };
    let ghost n = rows@.len() as int;
    let mut out: Vec<(usize, usize)> = Vec::new();
    let mut i: usize = 0;
    while i < rows.len()
        invariant
            i <= rows@.len(),
            n == rows@.len(),
            keep == (match edges {
                Some(es) => candidate_keep(rows@, es@),
                None => comparable_keep(rows@),
            }),
            pair_views(out@) + pairs_from(i as int, n, keep) == pairs_from(0, n, keep),
        decreases rows@.len() - i,
    {
        let mut j: usize = i + 1;
        while j < rows.len()
            invariant
                i < rows@.len(),
                i + 1 <= j <= rows@.len(),
                n == rows@.len(),
                keep == (match edges {
                    Some(es) => candidate_keep(rows@, es@),
                    None => comparable_keep(rows@),
                }),
                pair_views(out@) + pairs_row(i as int, j as int, n, keep) + pairs_from(i + 1, n, keep) == pairs_from(
                    0,
                    n,
                    keep,
                ),
            decreases rows@.len() - j,
        {
            let a = &rows[i];
            let b = &rows[j];
            let take = a.dim == b.dim && a.dim != 0 && match edges {
                Some(es) => !edge_joins(es, a.node_id.as_str(), b.node_id.as_str()),
                None => true,
            };
            assert(take == keep(i as int, j as int));
            let ghost prev = pair_views(out@);
            if take {
                out.push((i, j));
                assert(pair_views(out@) =~= prev.push((i as int, j as int)));
                assert(pairs_row(i as int, j as int, n, keep) == seq![(i as int, j as int)] + pairs_row(
                    i as int,
                    j + 1,
                    n,
                    keep,
                ));
                assert(pair_views(out@) + pairs_row(i as int, j + 1, n, keep) + pairs_from(i + 1, n, keep) =~= prev
                    + pairs_row(i as int, j as int, n, keep) + pairs_from(i + 1, n, keep));
            } else {
                assert(pairs_row(i as int, j as int, n, keep) =~= Seq::<(int, int)>::empty() + pairs_row(
                    i as int,
                    j + 1,
                    n,
                    keep,
                ));
            }
            j = j + 1;
        }
        assert(pairs_row(i as int, j as int, n, keep) =~= Seq::<(int, int)>::empty());
        assert(pair_views(out@) + pairs_from(i + 1, n, keep) =~= pair_views(out@) + pairs_row(i as int, j as int, n, keep) + pairs_from(i + 1, n, keep));
        i = i + 1;
    }
    assert(pairs_from(i as int, n, keep) =~= Seq::<(int, int)>::empty());
    assert(pair_views(out@) =~= pair_views(out@) + pairs_from(i as int, n, keep));
    out
}

/// The pairs of rows, `i < j` in order, whose vectors a link-candidate score
/// compares: the same non-zero dimension, and no edge of `graph` joining the two nodes
/// in either direction.
pub fn candidate_pairs(graph: &TraceGraph, rows: &Vec<EmbeddingRow>) -> (r: Vec<(usize, usize)>)
    ensures
        pair_views(r@) == pairs_from(0, rows@.len() as int, candidate_keep(rows@, graph.edge_seq())),
{
    row_pairs(rows, Some(graph.edges()))
}

/// The pairs of rows, `i < j` in order, whose vectors can be compared (the same
/// non-zero dimension).
pub fn comparable_pairs(rows: &Vec<EmbeddingRow>) -> (r: Vec<(usize, usize)>)
    ensures
        pair_views(r@) == pairs_from(0, rows@.len() as int, comparable_keep(rows@)),
{
    row_pairs(rows, None)
}

} // verus!
