use vstd::prelude::*;

use crate::graph::{Edge, TraceGraph};
use crate::text::str_eq;

verus! {

/// Some edge leads from `a` to `b`.
pub open spec fn linked(edges: Seq<Edge>, a: Seq<char>, b: Seq<char>) -> bool {
    exists|k: int| 0 <= k < edges.len() && (#[trigger] edges[k]).from@ == a && edges[k].to@ == b
}

/// `p` is a walk along edges.
pub open spec fn is_walk(edges: Seq<Edge>, p: Seq<Seq<char>>) -> bool {
    &&& p.len() >= 1
    &&& forall|i: int| 0 <= i < p.len() - 1 ==> linked(edges, #[trigger] p[i], p[i + 1])
}

/// `v` lies on a directed cycle.
pub open spec fn on_cycle(edges: Seq<Edge>, v: Seq<char>) -> bool {
    exists|p: Seq<Seq<char>>| #[trigger] is_walk(edges, p) && p.len() >= 2 && p[0] == v && p.last() == v
}

/// A walk leads from `a` to a node that lies on a cycle.
pub open spec fn reaches_cycle(edges: Seq<Edge>, a: Seq<char>) -> bool {
    exists|p: Seq<Seq<char>>| #[trigger] is_walk(edges, p) && p[0] == a && on_cycle(edges, p.last())
}

/// A walk leads from `a` to `b`.
pub open spec fn reaches(edges: Seq<Edge>, a: Seq<char>, b: Seq<char>) -> bool {
    exists|p: Seq<Seq<char>>| #[trigger] is_walk(edges, p) && p[0] == a && p.last() == b
}

/// Edge `(u, w)` between indices.
pub open spec fn step(pairs: Seq<(usize, usize)>, u: int, w: int) -> bool {
    exists|k: int| 0 <= k < pairs.len() && (#[trigger] pairs[k]).0 == u && pairs[k].1 == w
}

pub open spec fn idx_walk(pairs: Seq<(usize, usize)>, p: Seq<int>) -> bool {
    forall|i: int| 0 <= i < p.len() - 1 ==> step(pairs, #[trigger] p[i], p[i + 1])
}

pub open spec fn idx_cycle(pairs: Seq<(usize, usize)>, m: int) -> bool {
    exists|p: Seq<int>| #[trigger] idx_walk(pairs, p) && p.len() >= 2 && p[0] == m && p.last() == m
}

pub open spec fn idx_reach(pairs: Seq<(usize, usize)>, a: int, b: int) -> bool {
    exists|p: Seq<int>| #[trigger] idx_walk(pairs, p) && p.len() >= 1 && p[0] == a && p.last() == b
}

proof fn lemma_reach_self(pairs: Seq<(usize, usize)>, a: int)
    ensures
        idx_reach(pairs, a, a),
{
    let p = seq![a];
    assert(idx_walk(pairs, p));
}

proof fn lemma_reach_prepend(pairs: Seq<(usize, usize)>, a: int, b: int, c: int)
    requires
        step(pairs, a, b),
        idx_reach(pairs, b, c),
    ensures
        idx_reach(pairs, a, c),
{
    let p = choose|p: Seq<int>| #[trigger] idx_walk(pairs, p) && p.len() >= 1 && p[0] == b && p.last() == c;
    let q = seq![a] + p;
    assert forall|i: int| 0 <= i < q.len() - 1 implies step(pairs, #[trigger] q[i], q[i + 1]) by {
        if i > 0 {
            assert(q[i] == p[i - 1] && q[i + 1] == p[i]);
        }
    }
    assert(idx_walk(pairs, q));
}

proof fn lemma_on_pushed(stack: Seq<int>, n: int, m: int)
    requires
        stack.push(n).contains(m),
    ensures
        stack.contains(m) || m == n,
{
    let j = choose|j: int| 0 <= j < stack.push(n).len() && stack.push(n)[j] == m;
    if j < stack.len() {
        assert(stack[j] == m);
    }
}

/// Number of entries of `s` equal to `v`.
pub open spec fn count_u8(s: Seq<u8>, v: u8) -> nat
    decreases s.len(),
{
    if s.len() == 0 {
        0
    } else {
        count_u8(s.drop_last(), v) + if s.last() == v {
            1nat
        } else {
            0nat
        }
    }
}

proof fn lemma_count_update(s: Seq<u8>, i: int, x: u8, v: u8)
    requires
        0 <= i < s.len(),
    ensures
        count_u8(s.update(i, x), v) + (if s[i] == v { 1int } else { 0int }) == count_u8(s, v) + (
        if x == v {
            1int
        } else {
            0int
        }),
    decreases s.len(),
{
    if i < s.len() - 1 {
        lemma_count_update(s.drop_last(), i, x, v);
        assert(s.update(i, x).drop_last() =~= s.drop_last().update(i, x));
    } else {
        assert(s.update(i, x).drop_last() =~= s.drop_last());
    }
}

proof fn lemma_count_bound(s: Seq<u8>, v: u8)
    ensures
        count_u8(s, v) <= s.len(),
    decreases s.len(),
{
    if s.len() > 0 {
        lemma_count_bound(s.drop_last(), v);
    }
}

/// Fewer zeros in `b` than in `a` when `b` has zeros only where `a` has, and loses one.
proof fn lemma_count_shrinks(a: Seq<u8>, b: Seq<u8>, y: int)
    requires
        a.len() == b.len(),
        forall|x: int| 0 <= x < b.len() && b[x] == 0 ==> a[x] == 0,
        0 <= y < a.len(),
        a[y] == 0,
        b[y] != 0,
    ensures
        count_u8(b, 0) < count_u8(a, 0),
    decreases a.len(),
{
    lemma_count_subset(a.drop_last(), b.drop_last());
    if y < a.len() - 1 {
        lemma_count_shrinks(a.drop_last(), b.drop_last(), y);
    }
}

proof fn lemma_count_subset(a: Seq<u8>, b: Seq<u8>)
    requires
        a.len() == b.len(),
        forall|x: int| 0 <= x < b.len() && b[x] == 0 ==> a[x] == 0,
    ensures
        count_u8(b, 0) <= count_u8(a, 0),
    decreases a.len(),
{
    if a.len() > 0 {
        lemma_count_subset(a.drop_last(), b.drop_last());
    }
}

/// The colour of node `s` in the search state `c` (0, unvisited, when it has none).
pub open spec fn color_of(c: Map<Seq<char>, u8>, s: Seq<char>) -> u8 {
    if c.dom().contains(s) {
        c[s]
    } else {
        0
    }
}

/// The depth-first search from the unvisited node `n`, with colours `c` (1 open,
/// 2 finished): `n` is opened, its edges are followed in order, and the search
/// stops at the target of the first edge that leads to an open node. `fuel`
/// bounds the depth.
pub open spec fn dfs_visit(edges: Seq<Edge>, c: Map<Seq<char>, u8>, n: Seq<char>, fuel: nat) -> (Map<Seq<char>, u8>, Option<Seq<char>>)
    decreases fuel, 0int, 0int,
{
    if fuel == 0 {
        (c, None)
    } else {
        dfs_edges(edges, c.insert(n, 1u8), n, 0, (fuel - 1) as nat)
    }
}

/// The search from the open node `n`, going on with its edges from the `k`-th one;
/// `n` is finished when its edges are done.
pub open spec fn dfs_edges(edges: Seq<Edge>, c: Map<Seq<char>, u8>, n: Seq<char>, k: int, fuel: nat) -> (Map<Seq<char>, u8>, Option<Seq<char>>)
    decreases fuel, 1int, edges.len() - k,
{
    if k < 0 || k >= edges.len() {
        (c.insert(n, 2u8), None)
    } else if edges[k].from@ != n {
        dfs_edges(edges, c, n, k + 1, fuel)
    } else {
        let m = edges[k].to@;
        if color_of(c, m) == 1 {
            (c, Some(m))
        } else if color_of(c, m) == 0 {
            let (c2, r) = dfs_visit(edges, c, m, fuel);
            if r is Some {
                (c2, r)
            } else {
                dfs_edges(edges, c2, n, k + 1, fuel)
            }
        } else {
            dfs_edges(edges, c, n, k + 1, fuel)
        }
    }
}

/// The search from each of `ids` in order, from the `s`-th one on, over the nodes
/// still unvisited: the first node it stops at.
pub open spec fn dfs_from(edges: Seq<Edge>, ids: Seq<Seq<char>>, c: Map<Seq<char>, u8>, s: int, fuel: nat) -> Option<Seq<char>>
    decreases ids.len() - s,
{
    if s < 0 || s >= ids.len() {
        None
    } else if color_of(c, ids[s]) == 0 {
        let (c2, r) = dfs_visit(edges, c, ids[s], fuel);
        if r is Some {
            r
        } else {
            dfs_from(edges, ids, c2, s + 1, fuel)
        }
    } else {
        dfs_from(edges, ids, c, s + 1, fuel)
    }
}

/// The node at which the depth-first search from the nodes `ids`, in order, over
/// `edges`, in order, first meets an edge back to a node on its current path.
pub open spec fn first_back_edge_target(ids: Seq<Seq<char>>, edges: Seq<Edge>) -> Option<Seq<char>> {
    dfs_from(edges, ids, Map::empty(), 0, (ids.len() + 2 * edges.len()) as nat)
}

/// Index colours `color` stand for the colours `c` of the names `names`.
pub open spec fn colors_match(color: Seq<u8>, names: Seq<Seq<char>>, c: Map<Seq<char>, u8>) -> bool {
    &&& color.len() == names.len()
    &&& forall|x: int| 0 <= x < color.len() ==> #[trigger] color[x] == color_of(c, names[x])
}

/// The index edges `pairs` stand for `edges` between the distinct names `names`.
pub open spec fn sim_ok(names: Seq<Seq<char>>, edges: Seq<Edge>, pairs: Seq<(usize, usize)>) -> bool {
    &&& forall|i: int, j: int| 0 <= i < j < names.len() ==> names[i] != names[j]
    &&& pairs.len() == edges.len()
    &&& forall|k: int|
        0 <= k < pairs.len() ==> (#[trigger] pairs[k]).0 < names.len() && pairs[k].1 < names.len()
            && names[pairs[k].0 as int] == edges[k].from@ && names[pairs[k].1 as int] == edges[k].to@
}

proof fn lemma_colors_set(color: Seq<u8>, names: Seq<Seq<char>>, c: Map<Seq<char>, u8>, n: int, v: u8)
    requires
        colors_match(color, names, c),
        forall|i: int, j: int| 0 <= i < j < names.len() ==> names[i] != names[j],
        0 <= n < names.len(),
    ensures
        colors_match(color.update(n, v), names, c.insert(names[n], v)),
{
    assert forall|x: int| 0 <= x < color.len() implies #[trigger] color.update(n, v)[x] == color_of(c.insert(names[n], v), names[x]) by {
        if x != n {
            if x < n {
                assert(names[x] != names[n]);
            } else {
                assert(names[n] != names[x]);
            }
        }
    }
}

/// The search state: colours (0 unvisited, 1 on the stack, 2 finished), finish
/// times, the finish counter and the stack of open nodes.
pub open spec fn search_ok(
    pairs: Seq<(usize, usize)>,
    color: Seq<u8>,
    fin: Seq<usize>,
    t: usize,
    stack: Seq<int>,
) -> bool {
    &&& color.len() == fin.len()
    &&& forall|k: int| 0 <= k < pairs.len() ==> (#[trigger] pairs[k]).0 < color.len() && pairs[k].1 < color.len()
    &&& forall|x: int| 0 <= x < color.len() ==> #[trigger] color[x] <= 2
    &&& forall|x: int| 0 <= x < color.len() ==> (#[trigger] color[x] == 1 <==> stack.contains(x))
    &&& forall|i: int| 0 <= i < stack.len() ==> 0 <= #[trigger] stack[i] < color.len()
    &&& idx_walk(pairs, stack)
    &&& forall|x: int| 0 <= x < color.len() && #[trigger] color[x] == 2 ==> fin[x] < t
    &&& forall|k: int|
        0 <= k < pairs.len() && color[(#[trigger] pairs[k]).0 as int] == 2 ==> color[pairs[k].1 as int] == 2
            && fin[pairs[k].1 as int] < fin[pairs[k].0 as int]
    &&& t + count_u8(color, 0) + stack.len() == color.len()
}

/// `b` extends `a`: finished nodes stay finished with their times, open nodes stay
/// open, and no node becomes unvisited.
pub open spec fn grows(a: Seq<u8>, fa: Seq<usize>, b: Seq<u8>, fb: Seq<usize>) -> bool {
    &&& a.len() == b.len()
    &&& forall|x: int| 0 <= x < a.len() && #[trigger] a[x] == 2 ==> b[x] == 2 && fb[x] == fa[x]
    &&& forall|x: int| 0 <= x < a.len() && #[trigger] a[x] == 1 ==> b[x] == 1
    &&& forall|x: int| 0 <= x < a.len() && #[trigger] b[x] == 0 ==> a[x] == 0
}

proof fn lemma_stack_cycle(pairs: Seq<(usize, usize)>, stack: Seq<int>, m: int)
    requires
        idx_walk(pairs, stack),
        stack.contains(m),
        step(pairs, stack.last(), m),
    ensures
        idx_cycle(pairs, m),
{
    let q = choose|q: int| 0 <= q < stack.len() && stack[q] == m;
    let p = stack.skip(q).push(m);
    assert forall|i: int| 0 <= i < p.len() - 1 implies step(pairs, #[trigger] p[i], p[i + 1]) by {
        if i < p.len() - 2 {
            assert(p[i] == stack[q + i] && p[i + 1] == stack[q + i + 1]);
        } else {
            assert(p[i] == stack.last());
        }
    }
    assert(idx_walk(pairs, p));
}

#[verifier::rlimit(60)]
/// Depth-first search from the unvisited node `n`; returns the target of the first
/// edge found that leads back to an open node.
fn visit(
    n: usize,
    pairs: &Vec<(usize, usize)>,
    color: &mut Vec<u8>,
    fin: &mut Vec<usize>,
    t: &mut usize,
    Ghost(stack): Ghost<Seq<int>>,
    Ghost(names): Ghost<Seq<Seq<char>>>,
    Ghost(edges): Ghost<Seq<Edge>>,
    Ghost(cm): Ghost<Map<Seq<char>, u8>>,
    Ghost(fuel): Ghost<nat>,
) -> (r: Option<usize>)
    requires
        search_ok(pairs@, old(color)@, old(fin)@, *old(t), stack),
        n < old(color)@.len(),
        old(color)@[n as int] == 0,
        stack.len() > 0 ==> step(pairs@, stack.last(), n as int),
        sim_ok(names, edges, pairs@),
        colors_match(old(color)@, names, cm),
        fuel >= count_u8(old(color)@, 0),
    ensures
        match r {
            Some(m) => m < old(color)@.len() && idx_cycle(pairs@, m as int) && (stack.contains(m as int) || idx_reach(
                pairs@,
                n as int,
                m as int,
            )) && dfs_visit(edges, cm, names[n as int], fuel).1 == Some(names[m as int]),
            None => {
                &&& dfs_visit(edges, cm, names[n as int], fuel).1 is None
                &&& colors_match(final(color)@, names, dfs_visit(edges, cm, names[n as int], fuel).0)
                &&& search_ok(pairs@, final(color)@, final(fin)@, *final(t), stack)
                &&& final(color)@[n as int] == 2
                &&& grows(old(color)@, old(fin)@, final(color)@, final(fin)@)
            },
        },
    decreases count_u8(old(color)@, 0),
{
    let ghost c0 = color@;
    let ghost f0 = fin@;
    let ghost st = stack.push(n as int);
    proof {
        lemma_count_update(color@, n as int, 1, 0);
        assert forall|i: int| 0 <= i < st.len() - 1 implies step(pairs@, #[trigger] st[i], st[i + 1]) by {
            if i < st.len() - 2 {
                assert(st[i] == stack[i] && st[i + 1] == stack[i + 1]);
            }
        }
    }
    let ghost mut cur = cm.insert(names[n as int], 1u8);
    proof {
        lemma_colors_set(color@, names, cm, n as int, 1u8);
    }
    color.set(n, 1);
    proof {
        assert(fuel >= 1);
        assert(dfs_visit(edges, cm, names[n as int], fuel) == dfs_edges(edges, cur, names[n as int], 0, (fuel - 1) as nat));
        assert forall|x: int| 0 <= x < color@.len() implies (#[trigger] color@[x] == 1 <==> st.contains(x)) by {
            if x == n {
                assert(st[st.len() - 1] == n);
            } else {
                if stack.contains(x) {
                    let j = choose|j: int| 0 <= j < stack.len() && stack[j] == x;
                    assert(st[j] == x);
                }
                if st.contains(x) {
                    let j = choose|j: int| 0 <= j < st.len() && st[j] == x;
                    assert(stack[j] == x);
                }
            }
        }
        assert(forall|x: int| 0 <= x < color@.len() && #[trigger] color@[x] == 2 ==> fin@[x] < *t);
    }
    let mut k: usize = 0;
    while k < pairs.len()
        invariant
            n < color@.len(),
            c0 == old(color)@,
            st == stack.push(n as int),
            c0[n as int] == 0,
            c0.len() == color@.len(),
            search_ok(pairs@, color@, fin@, *t, st),
            color@[n as int] == 1,
            forall|x: int| 0 <= x < c0.len() && #[trigger] c0[x] == 2 ==> color@[x] == 2 && fin@[x] == f0[x],
            forall|x: int| 0 <= x < c0.len() && #[trigger] c0[x] == 1 ==> color@[x] == 1,
            forall|x: int| 0 <= x < c0.len() && #[trigger] color@[x] == 0 ==> c0[x] == 0,
            k <= pairs@.len(),
            forall|j: int|
                0 <= j < k && (#[trigger] pairs@[j]).0 == n ==> color@[pairs@[j].1 as int] == 2
                    && fin@[pairs@[j].1 as int] < *t,
            sim_ok(names, edges, pairs@),
            colors_match(color@, names, cur),
            fuel >= 1,
            fuel - 1 >= count_u8(color@, 0),
            dfs_visit(edges, cm, names[n as int], fuel) == dfs_edges(edges, cur, names[n as int], k as int, (fuel - 1) as nat),
        decreases pairs.len() - k,
    {
        proof {
            if pairs@[k as int].0 != n {
                if edges[k as int].from@ == names[n as int] {
                    let a = pairs@[k as int].0 as int;
                    if a < n {
                        assert(names[a] != names[n as int]);
                    } else {
                        assert(names[n as int] != names[a]);
                    }
                }
            }
        }
        if pairs[k].0 == n {
            let m = pairs[k].1;
            assert(step(pairs@, n as int, m as int));
            let cm_m = color[m];
            assert(cm_m == color_of(cur, edges[k as int].to@));
            if cm_m == 1 {
                proof {
                    assert(st.contains(m as int));
                    assert(st.last() == n);
                    lemma_stack_cycle(pairs@, st, m as int);
                    lemma_on_pushed(stack, n as int, m as int);
                    lemma_reach_self(pairs@, n as int);
                }
                return Some(m);
            }
            if cm_m == 0 {
                proof {
                    lemma_count_shrinks(c0, color@, n as int);
                }
                let ghost cb = color@;
                let ghost fb = fin@;
                let ghost before = cur;
                match visit(m, pairs, color, fin, t, Ghost(st), Ghost(names), Ghost(edges), Ghost(cur), Ghost((fuel - 1) as nat)) {
                    Some(c) => {
                        proof {
                            if st.contains(c as int) {
                                lemma_on_pushed(stack, n as int, c as int);
                                lemma_reach_self(pairs@, n as int);
                            } else {
                                lemma_reach_prepend(pairs@, n as int, m as int, c as int);
                            }
                        }
                        return Some(c);
                    },
                    None => {
                        assert forall|j: int|
                            0 <= j <= k && (#[trigger] pairs@[j]).0 == n implies color@[pairs@[j].1 as int] == 2
                                && fin@[pairs@[j].1 as int] < *t by {
                            if j < k {
                                assert(cb[pairs@[j].1 as int] == 2);
                            }
                        }
                        proof {
                            cur = dfs_visit(edges, before, names[m as int], (fuel - 1) as nat).0;
                            lemma_count_subset(cb, color@);
                        }
                    },
                }
            }
        }
        k = k + 1;
    }
    let ghost c1 = color@;
    proof {
        lemma_count_update(color@, n as int, 2, 0);
        lemma_colors_set(color@, names, cur, n as int, 2u8);
    }
    let len = color.len();
    assert(*t < len);
    color.set(n, 2);
    fin.set(n, *t);
    *t = *t + 1;
    proof {
        assert forall|x: int| 0 <= x < color@.len() implies (#[trigger] color@[x] == 1 <==> stack.contains(x)) by {
            if x == n {
                if stack.contains(x) {
                    let j = choose|j: int| 0 <= j < stack.len() && stack[j] == x;
                    assert(st[j] == x);
                    assert(c1[x] == 1);
                    assert(c0[x] == 1);
                }
            } else {
                if stack.contains(x) {
                    let j = choose|j: int| 0 <= j < stack.len() && stack[j] == x;
                    assert(st[j] == x);
                }
                if st.contains(x) {
                    let j = choose|j: int| 0 <= j < st.len() && st[j] == x;
                    if j < stack.len() {
                        assert(stack[j] == x);
                    }
                }
            }
        }
        assert forall|i: int| 0 <= i < stack.len() - 1 implies step(pairs@, #[trigger] stack[i], stack[i + 1]) by {
            assert(st[i] == stack[i] && st[i + 1] == stack[i + 1]);
        }
        assert forall|i: int| 0 <= i < stack.len() implies 0 <= #[trigger] stack[i] < color@.len() by {
            assert(st[i] == stack[i]);
        }
        assert forall|kk: int|
            0 <= kk < pairs@.len() && color@[(#[trigger] pairs@[kk]).0 as int] == 2 implies color@[pairs@[kk].1 as int] == 2
                && fin@[pairs@[kk].1 as int] < fin@[pairs@[kk].0 as int] by {
            if pairs@[kk].0 as int != n {
                assert(c1[pairs@[kk].0 as int] == 2);
                if pairs@[kk].1 as int == n {
                    assert(c1[n as int] == 2);
                }
            }
        }
    }
    None
}

/// Searches the edges depth-first from each of the first `starts` indices in turn and
/// returns the target of the first edge that closes a cycle.
fn search(
    pairs: &Vec<(usize, usize)>,
    len: usize,
    starts: usize,
    Ghost(names): Ghost<Seq<Seq<char>>>,
    Ghost(edges): Ghost<Seq<Edge>>,
    Ghost(fuel): Ghost<nat>,
) -> (r: Option<usize>)
    requires
        starts <= len,
        forall|k: int| 0 <= k < pairs@.len() ==> (#[trigger] pairs@[k]).0 < len && pairs@[k].1 < len,
        sim_ok(names, edges, pairs@),
        names.len() == len,
        fuel >= len,
    ensures
        match r {
            Some(m) => m < len && idx_cycle(pairs@, m as int) && (exists|a: int| 0 <= a < starts && #[trigger] idx_reach(pairs@, a, m as int))
                && dfs_from(edges, names.take(starts as int), Map::empty(), 0, fuel) == Some(names[m as int]),
            None => dfs_from(edges, names.take(starts as int), Map::empty(), 0, fuel) is None && exists|color: Seq<u8>, fin: Seq<usize>, t: usize|
                #[trigger] search_ok(pairs@, color, fin, t, Seq::empty()) && color.len() == len
                    && forall|x: int| 0 <= x < starts ==> color[x] == 2,
        },
{
    let mut color: Vec<u8> = Vec::new();
    let mut fin: Vec<usize> = Vec::new();
    let mut i: usize = 0;
    while i < len
        invariant
            i <= len,
            color@.len() == i,
            fin@.len() == i,
            forall|x: int| 0 <= x < i ==> color@[x] == 0,
            count_u8(color@, 0) == i,
        decreases len - i,
    {
        let ghost before = color@;
        color.push(0);
        fin.push(0);
        assert(color@.drop_last() =~= before);
        i = i + 1;
    }
    let mut t: usize = 0;
    proof {
        assert forall|x: int| 0 <= x < color@.len() implies (#[trigger] color@[x] == 1 <==> Seq::<int>::empty().contains(x)) by {}
    }
    let ghost ids = names.take(starts as int);
    let ghost mut cur: Map<Seq<char>, u8> = Map::empty();
    assert(colors_match(color@, names, cur));
    let mut s: usize = 0;
    while s < starts
        invariant
            starts <= len,
            color@.len() == len,
            s <= starts,
            search_ok(pairs@, color@, fin@, t, Seq::empty()),
            forall|x: int| 0 <= x < s ==> color@[x] == 2,
            sim_ok(names, edges, pairs@),
            names.len() == len,
            fuel >= len,
            ids == names.take(starts as int),
            colors_match(color@, names, cur),
            dfs_from(edges, ids, Map::empty(), 0, fuel) == dfs_from(edges, ids, cur, s as int, fuel),
        decreases starts - s,
    {
        proof {
            lemma_count_bound(color@, 0);
            assert(ids[s as int] == names[s as int]);
        }
        if color[s] == 0 {
            let ghost cb = color@;
            let ghost before = cur;
            match visit(s, pairs, &mut color, &mut fin, &mut t, Ghost(Seq::empty()), Ghost(names), Ghost(edges), Ghost(cur), Ghost(fuel)) {
                Some(m) => {
                    assert(idx_reach(pairs@, s as int, m as int));
                    return Some(m);
                },
                None => {
                    assert forall|x: int| 0 <= x < s implies color@[x] == 2 by {
                        assert(cb[x] == 2);
                    }
                    proof {
                        cur = dfs_visit(edges, before, names[s as int], fuel).0;
                    }
                },
            }
        } else {
            assert(color@[s as int] != 1);
        }
        s = s + 1;
    }
    assert(search_ok(pairs@, color@, fin@, t, Seq::empty()));
    None
}

proof fn lemma_finished_walk(pairs: Seq<(usize, usize)>, color: Seq<u8>, fin: Seq<usize>, t: usize, p: Seq<int>)
    requires
        search_ok(pairs, color, fin, t, Seq::empty()),
        idx_walk(pairs, p),
        p.len() >= 1,
        0 <= p[0] < color.len(),
        color[p[0]] == 2,
    ensures
        forall|i: int| 0 <= i < p.len() ==> 0 <= #[trigger] p[i] < color.len() && color[p[i]] == 2,
        forall|i: int| 0 < i < p.len() ==> fin[#[trigger] p[i]] < fin[p[0]],
    decreases p.len(),
{
    if p.len() > 1 {
        let d = p.drop_last();
        assert forall|i: int| 0 <= i < d.len() - 1 implies step(pairs, #[trigger] d[i], d[i + 1]) by {
            assert(d[i] == p[i] && d[i + 1] == p[i + 1]);
        }
        lemma_finished_walk(pairs, color, fin, t, d);
        let a = p[p.len() - 2];
        assert(d[d.len() - 1] == a);
        assert(step(pairs, a, p.last()));
        let k = choose|k: int| 0 <= k < pairs.len() && (#[trigger] pairs[k]).0 == a && pairs[k].1 == p.last();
        assert(color[pairs[k].0 as int] == 2);
        assert forall|i: int| 0 <= i < p.len() implies 0 <= #[trigger] p[i] < color.len() && color[p[i]] == 2 by {
            if i < p.len() - 1 {
                assert(d[i] == p[i]);
            }
        }
        assert forall|i: int| 0 < i < p.len() implies fin[#[trigger] p[i]] < fin[p[0]] by {
            if i < p.len() - 1 {
                assert(d[i] == p[i]);
            } else if p.len() > 2 {
                assert(d[d.len() - 1] == a);
                assert(fin[d[d.len() - 1]] < fin[d[0]]);
            }
        }
    }
}

/// Index of the name equal to `s`.
fn index_of(names: &Vec<String>, s: &str) -> (r: Option<usize>)
    ensures
        match r {
            Some(i) => i < names@.len() && names@[i as int]@ == s@,
            None => forall|j: int| 0 <= j < names@.len() ==> names@[j]@ != s@,
        },
{
    let mut i: usize = 0;
    while i < names.len()
        invariant
            i <= names@.len(),
            forall|j: int| 0 <= j < i ==> names@[j]@ != s@,
        decreases names.len() - i,
    {
        if str_eq(names[i].as_str(), s) {
            return Some(i);
        }
        i = i + 1;
    }
    None
}

/// Some name equals `s`.
pub open spec fn has_name(names: Seq<String>, s: Seq<char>) -> bool {
    exists|a: int| 0 <= a < names.len() && names[a]@ == s
}

/// No two names are equal.
pub open spec fn distinct_names(names: Seq<String>) -> bool {
    forall|i: int, j: int| 0 <= i < j < names.len() ==> names[i]@ != names[j]@
}

/// Names and index edges that stand for the graph: the first names are the node ids,
/// and edge `k` leads between the indices of its endpoints.
pub open spec fn indexes(g_nodes: Seq<Seq<char>>, edges: Seq<Edge>, names: Seq<String>, pairs: Seq<(usize, usize)>) -> bool {
    &&& distinct_names(names)
    &&& g_nodes.len() <= names.len()
    &&& forall|i: int| 0 <= i < g_nodes.len() ==> #[trigger] names[i]@ == g_nodes[i]
    &&& pairs.len() == edges.len()
    &&& forall|k: int|
        0 <= k < pairs.len() ==> (#[trigger] pairs[k]).0 < names.len() && pairs[k].1 < names.len()
            && names[pairs[k].0 as int]@ == edges[k].from@ && names[pairs[k].1 as int]@ == edges[k].to@
}

fn add_name(names: &mut Vec<String>, s: &String)
    requires
        distinct_names(old(names)@),
    ensures
        distinct_names(final(names)@),
        final(names)@.len() >= old(names)@.len(),
        final(names)@.len() <= old(names)@.len() + 1,
        forall|i: int| 0 <= i < old(names)@.len() ==> final(names)@[i] == old(names)@[i],
        has_name(final(names)@, s@),
{
    match index_of(names, s.as_str()) {
        Some(i) => {},
        None => {
            names.push(s.clone());
            assert(names@[names@.len() - 1]@ == s@);
        },
    }
}

fn build_index(g_nodes: &[crate::graph::Node], edges: &[Edge]) -> (r: (Vec<String>, Vec<(usize, usize)>))
    requires
        crate::graph::unique_ids(g_nodes@),
    ensures
        indexes(g_nodes@.map_values(|n: crate::graph::Node| n.id@), edges@, r.0@, r.1@),
        r.0@.len() <= g_nodes@.len() + 2 * edges@.len(),
{
    let ghost ids = g_nodes@.map_values(|n: crate::graph::Node| n.id@);
    let mut names: Vec<String> = Vec::new();
    let mut i: usize = 0;
    while i < g_nodes.len()
        invariant
            i <= g_nodes@.len(),
            ids == g_nodes@.map_values(|n: crate::graph::Node| n.id@),
            crate::graph::unique_ids(g_nodes@),
            names@.len() == i,
            forall|j: int| 0 <= j < i ==> #[trigger] names@[j]@ == ids[j],
            distinct_names(names@),
        decreases g_nodes.len() - i,
    {
        names.push(g_nodes[i].id.clone());
        proof {
            assert forall|a: int, b: int| 0 <= a < b < names@.len() implies names@[a]@ != names@[b]@ by {
                if b == i {
                    assert(names@[a]@ == g_nodes@[a].id@);
                    assert(names@[b]@ == g_nodes@[b].id@);
                }
            }
        }
        i = i + 1;
    }
    let mut k: usize = 0;
    while k < edges.len()
        invariant
            k <= edges@.len(),
            ids.len() <= names@.len(),
            names@.len() <= ids.len() + 2 * k,
            ids.len() == g_nodes@.len(),
            forall|j: int| 0 <= j < ids.len() ==> #[trigger] names@[j]@ == ids[j],
            distinct_names(names@),
            forall|j: int|
                0 <= j < k ==> has_name(names@, (#[trigger] edges@[j]).from@) && has_name(names@, edges@[j].to@),
        decreases edges.len() - k,
    {
        let ghost before = names@;
        add_name(&mut names, &edges[k].from);
        add_name(&mut names, &edges[k].to);
        proof {
            assert forall|j: int| 0 <= j < k + 1 implies has_name(names@, (#[trigger] edges@[j]).from@) && has_name(names@, edges@[j].to@) by {
                if j < k {
                    let a = choose|a: int| 0 <= a < before.len() && before[a]@ == edges@[j].from@;
                    assert(names@[a] == before[a]);
                    let b = choose|b: int| 0 <= b < before.len() && before[b]@ == edges@[j].to@;
                    assert(names@[b] == before[b]);
                }
            }
        }
        k = k + 1;
    }
    assert(k == edges@.len());
    assert(forall|j: int|
        0 <= j < edges@.len() ==> has_name(names@, (#[trigger] edges@[j]).from@) && has_name(names@, edges@[j].to@));
    let ghost name_count = names@.len();
    let mut pairs: Vec<(usize, usize)> = Vec::new();
    let mut e: usize = 0;
    while e < edges.len()
        invariant
            e <= edges@.len(),
            names@.len() == name_count,
            distinct_names(names@),
            pairs@.len() == e,
            forall|j: int|
                0 <= j < edges@.len() ==> has_name(names@, (#[trigger] edges@[j]).from@) && has_name(names@, edges@[j].to@),
            forall|j: int|
                0 <= j < e ==> (#[trigger] pairs@[j]).0 < names@.len() && pairs@[j].1 < names@.len()
                    && names@[pairs@[j].0 as int]@ == edges@[j].from@ && names@[pairs@[j].1 as int]@ == edges@[j].to@,
        decreases edges.len() - e,
    {
        assert(has_name(names@, edges@[e as int].from@) && has_name(names@, edges@[e as int].to@));
        let u = match index_of(&names, edges[e].from.as_str()) {
            Some(u) => u,
            None => 0,
        };
        let w = match index_of(&names, edges[e].to.as_str()) {
            Some(w) => w,
            None => 0,
        };
        pairs.push((u, w));
        e = e + 1;
    }
    (names, pairs)
}

proof fn lemma_walk_to_indices(
    ids: Seq<Seq<char>>,
    edges: Seq<Edge>,
    names: Seq<String>,
    pairs: Seq<(usize, usize)>,
    p: Seq<Seq<char>>,
    start: int,
) -> (q: Seq<int>)
    requires
        indexes(ids, edges, names, pairs),
        is_walk(edges, p),
        0 <= start < names.len(),
        names[start]@ == p[0],
    ensures
        q.len() == p.len(),
        idx_walk(pairs, q),
        forall|i: int| 0 <= i < q.len() ==> 0 <= #[trigger] q[i] < names.len() && names[q[i]]@ == p[i],
    decreases p.len(),
{
    if p.len() == 1 {
        seq![start]
    } else {
        let d = p.drop_last();
        assert forall|i: int| 0 <= i < d.len() - 1 implies linked(edges, #[trigger] d[i], d[i + 1]) by {
            assert(d[i] == p[i] && d[i + 1] == p[i + 1]);
        }
        let qd = lemma_walk_to_indices(ids, edges, names, pairs, d, start);
        assert(linked(edges, p[p.len() - 2], p.last()));
        let k = choose|k: int| 0 <= k < edges.len() && (#[trigger] edges[k]).from@ == p[p.len() - 2] && edges[k].to@ == p.last();
        let a = qd.last();
        assert(names[a]@ == d[d.len() - 1]);
        assert(names[pairs[k].0 as int]@ == edges[k].from@);
        assert(pairs[k].0 as int == a);
        let q = qd.push(pairs[k].1 as int);
        assert(step(pairs, a, pairs[k].1 as int));
        assert forall|i: int| 0 <= i < q.len() - 1 implies step(pairs, #[trigger] q[i], q[i + 1]) by {
            if i < q.len() - 2 {
                assert(q[i] == qd[i] && q[i + 1] == qd[i + 1]);
            }
        }
        assert forall|i: int| 0 <= i < q.len() implies 0 <= #[trigger] q[i] < names.len() && names[q[i]]@ == p[i] by {
            if i < q.len() - 1 {
                assert(q[i] == qd[i]);
            }
        }
        q
    }
}

proof fn lemma_idx_walk_names(
    g_nodes: Seq<Seq<char>>,
    edges: Seq<Edge>,
    names: Seq<String>,
    pairs: Seq<(usize, usize)>,
    p: Seq<int>,
)
    requires
        indexes(g_nodes, edges, names, pairs),
        idx_walk(pairs, p),
        p.len() >= 1,
    ensures
        is_walk(edges, p.map_values(|x: int| names[x]@)),
{
    let w = p.map_values(|x: int| names[x]@);
    assert forall|i: int| 0 <= i < w.len() - 1 implies linked(edges, #[trigger] w[i], w[i + 1]) by {
        assert(step(pairs, p[i], p[i + 1]));
        let k = choose|k: int| 0 <= k < pairs.len() && (#[trigger] pairs[k]).0 == p[i] && pairs[k].1 == p[i + 1];
        assert(edges[k].from@ == w[i]);
    }
}

/// A node of the graph that lies on a directed cycle and that some node of the graph
/// reaches, or `None` when no node of the graph reaches a cycle. The search runs
/// depth-first from each node in order, following edges in order, and reports the
/// target of the first edge that leads back to a node on the current search path.
pub fn first_cycle_node(graph: &TraceGraph) -> (r: Option<String>)
    ensures
        match r {
            Some(v) => first_back_edge_target(graph.node_seq().map_values(|n: crate::graph::Node| n.id@), graph.edge_seq())
                == Some(v@),
            None => first_back_edge_target(graph.node_seq().map_values(|n: crate::graph::Node| n.id@), graph.edge_seq())
                is None,
        },
        match r {
            Some(v) => on_cycle(graph.edge_seq(), v@) && exists|i: int|
                0 <= i < graph.node_seq().len() && reaches(graph.edge_seq(), #[trigger] graph.node_seq()[i].id@, v@),
            None => forall|i: int|
                0 <= i < graph.node_seq().len() ==> !reaches_cycle(graph.edge_seq(), #[trigger] graph.node_seq()[i].id@),
        },
{
    let nodes = graph.nodes();
    let edges = graph.edges();
    let ghost ids = nodes@.map_values(|n: crate::graph::Node| n.id@);
    let (names, pairs) = build_index(nodes, edges);
    let ghost nm = names@.map_values(|x: String| x@);
    let ghost fuel = (ids.len() + 2 * edges@.len()) as nat;
    proof {
        assert forall|i: int, j: int| 0 <= i < j < nm.len() implies nm[i] != nm[j] by {}
        assert(sim_ok(nm, edges@, pairs@));
        assert(nm.take(nodes@.len() as int) =~= ids);
    }
    match search(&pairs, names.len(), nodes.len(), Ghost(nm), Ghost(edges@), Ghost(fuel)) {
        Some(m) => {
            proof {
                let p = choose|p: Seq<int>| #[trigger] idx_walk(pairs@, p) && p.len() >= 2 && p[0] == m && p.last() == m;
                let w = p.map_values(|x: int| names@[x]@);
                assert forall|i: int| 0 <= i < w.len() - 1 implies linked(edges@, #[trigger] w[i], w[i + 1]) by {
                    assert(step(pairs@, p[i], p[i + 1]));
                    let k = choose|k: int| 0 <= k < pairs@.len() && (#[trigger] pairs@[k]).0 == p[i] && pairs@[k].1 == p[i + 1];
                    assert(edges@[k].from@ == w[i]);
                }
                assert(is_walk(edges@, w));
                let a = choose|a: int| 0 <= a < nodes@.len() && #[trigger] idx_reach(pairs@, a, m as int);
                let q = choose|q: Seq<int>| #[trigger] idx_walk(pairs@, q) && q.len() >= 1 && q[0] == a && q.last() == m;
                lemma_idx_walk_names(ids, edges@, names@, pairs@, q);
                let wq = q.map_values(|x: int| names@[x]@);
                assert(names@[a]@ == ids[a]);
                assert(wq[0] == nodes@[a].id@);
                assert(reaches(edges@, nodes@[a].id@, names@[m as int]@));
            }
            Some(names[m].clone())
        },
        None => {
            proof {
                let (color, fin, t) = choose|color: Seq<u8>, fin: Seq<usize>, t: usize|
                    #[trigger] search_ok(pairs@, color, fin, t, Seq::empty()) && color.len() == names@.len()
                        && forall|x: int| 0 <= x < nodes@.len() ==> color[x] == 2;
                assert forall|i: int| 0 <= i < nodes@.len() implies !reaches_cycle(edges@, #[trigger] nodes@[i].id@) by {
                    if reaches_cycle(edges@, nodes@[i].id@) {
                        let p = choose|p: Seq<Seq<char>>| #[trigger] is_walk(edges@, p) && p[0] == nodes@[i].id@ && on_cycle(edges@, p.last());
                        assert(names@[i]@ == ids[i]);
                        let q = lemma_walk_to_indices(ids, edges@, names@, pairs@, p, i);
                        lemma_finished_walk(pairs@, color, fin, t, q);
                        let v = q.last();
                        let c = choose|c: Seq<Seq<char>>| #[trigger] is_walk(edges@, c) && c.len() >= 2 && c[0] == p.last() && c.last() == p.last();
                        assert(names@[v]@ == p.last());
                        let qc = lemma_walk_to_indices(ids, edges@, names@, pairs@, c, v);
                        lemma_finished_walk(pairs@, color, fin, t, qc);
                        assert(names@[qc.last()]@ == names@[v]@);
                        assert(qc.last() == v);
                    }
                }
            }
            None
        },
    }
}

} // verus!
