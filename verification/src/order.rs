use vstd::prelude::*;

use crate::common::{id_views, string_views, Id};
use crate::text::{chars_of, str_eq};

verus! {

/// Strict lexicographic order on character sequences (by code point), which is the
/// order of `str` and `String`.
pub open spec fn lex_lt(a: Seq<char>, b: Seq<char>) -> bool
    decreases a.len(),
{
    if a.len() == 0 {
        b.len() > 0
    } else if b.len() == 0 {
        false
    } else if a[0] != b[0] {
        a[0] < b[0]
    } else {
        lex_lt(a.drop_first(), b.drop_first())
    }
}

pub proof fn lemma_lex_irreflexive(a: Seq<char>)
    ensures
        !lex_lt(a, a),
    decreases a.len(),
{
    if a.len() > 0 {
        lemma_lex_irreflexive(a.drop_first());
    }
}

pub proof fn lemma_lex_asymmetric(a: Seq<char>, b: Seq<char>)
    ensures
        !(lex_lt(a, b) && lex_lt(b, a)),
    decreases a.len(),
{
    if a.len() > 0 && b.len() > 0 && a[0] == b[0] {
        lemma_lex_asymmetric(a.drop_first(), b.drop_first());
    }
}

pub proof fn lemma_lex_transitive(a: Seq<char>, b: Seq<char>, c: Seq<char>)
    requires
        lex_lt(a, b),
        lex_lt(b, c),
    ensures
        lex_lt(a, c),
    decreases a.len(),
{
    if a.len() > 0 && b.len() > 0 && c.len() > 0 {
        if a[0] == b[0] && b[0] == c[0] {
            lemma_lex_transitive(a.drop_first(), b.drop_first(), c.drop_first());
        }
    }
}

pub proof fn lemma_lex_total(a: Seq<char>, b: Seq<char>)
    ensures
        lex_lt(a, b) || lex_lt(b, a) || a == b,
    decreases a.len(),
{
    if a.len() > 0 && b.len() > 0 {
        if a[0] == b[0] {
            lemma_lex_total(a.drop_first(), b.drop_first());
            if a.drop_first() == b.drop_first() {
                assert(a =~= seq![a[0]] + a.drop_first());
                assert(b =~= seq![b[0]] + b.drop_first());
            }
        }
    } else if a.len() == 0 && b.len() == 0 {
        assert(a =~= b);
    }
}

/// `a` comes before or equals `b`.
pub open spec fn lex_le(a: Seq<char>, b: Seq<char>) -> bool {
    lex_lt(a, b) || a == b
}

proof fn lemma_lex_suffix(a: Seq<char>, b: Seq<char>, i: int)
    requires
        0 <= i <= a.len(),
        i <= b.len(),
        a.take(i) == b.take(i),
    ensures
        lex_lt(a, b) == lex_lt(a.skip(i), b.skip(i)),
    decreases i,
{
    if i > 0 {
        assert(a[0] == a.take(i)[0]);
        assert(b[0] == b.take(i)[0]);
        assert(a.drop_first().take(i - 1) =~= a.take(i).drop_first());
        assert(b.drop_first().take(i - 1) =~= b.take(i).drop_first());
        lemma_lex_suffix(a.drop_first(), b.drop_first(), i - 1);
        assert(a.drop_first().skip(i - 1) =~= a.skip(i));
        assert(b.drop_first().skip(i - 1) =~= b.skip(i));
    } else {
        assert(a.skip(0) =~= a);
        assert(b.skip(0) =~= b);
    }
}

/// Whether `a` comes strictly before `b` in character order.
pub fn chars_less(a: &Vec<char>, b: &Vec<char>) -> (r: bool)
    ensures
        r == lex_lt(a@, b@),
{
    let mut i: usize = 0;
    while i < a.len() && i < b.len()
        invariant
            i <= a@.len(),
            i <= b@.len(),
            a@.take(i as int) == b@.take(i as int),
        decreases a.len() - i,
    {
        if a[i] != b[i] {
            proof {
                lemma_lex_suffix(a@, b@, i as int);
                assert(a@.skip(i as int)[0] == a@[i as int]);
                assert(b@.skip(i as int)[0] == b@[i as int]);
            }
            return a[i] < b[i];
        }
        assert(a@.take(i + 1) =~= a@.take(i as int).push(a@[i as int]));
        assert(b@.take(i + 1) =~= b@.take(i as int).push(b@[i as int]));
        i = i + 1;
    }
    proof {
        lemma_lex_suffix(a@, b@, i as int);
    }
    i == a.len() && i < b.len()
}

/// Whether `a` comes strictly before `b` (the order of `str`).
pub fn str_less(a: &str, b: &str) -> (r: bool)
    ensures
        r == lex_lt(a@, b@),
{
    let x = chars_of(a);
    let y = chars_of(b);
    chars_less(&x, &y)
}

/// Strict lexicographic order on sequences of character sequences (the order of
/// `Vec<String>`).
pub open spec fn list_lt(a: Seq<Seq<char>>, b: Seq<Seq<char>>) -> bool
    decreases a.len(),
{
    if a.len() == 0 {
        b.len() > 0
    } else if b.len() == 0 {
        false
    } else if a[0] != b[0] {
        lex_lt(a[0], b[0])
    } else {
        list_lt(a.drop_first(), b.drop_first())
    }
}

pub(crate) proof fn lemma_list_suffix(a: Seq<Seq<char>>, b: Seq<Seq<char>>, i: int)
    requires
        0 <= i <= a.len(),
        i <= b.len(),
        a.take(i) == b.take(i),
    ensures
        list_lt(a, b) == list_lt(a.skip(i), b.skip(i)),
    decreases i,
{
    if i > 0 {
        assert(a[0] == a.take(i)[0]);
        assert(b[0] == b.take(i)[0]);
        assert(a.drop_first().take(i - 1) =~= a.take(i).drop_first());
        assert(b.drop_first().take(i - 1) =~= b.take(i).drop_first());
        lemma_list_suffix(a.drop_first(), b.drop_first(), i - 1);
        assert(a.drop_first().skip(i - 1) =~= a.skip(i));
        assert(b.drop_first().skip(i - 1) =~= b.skip(i));
    } else {
        assert(a.skip(0) =~= a);
        assert(b.skip(0) =~= b);
    }
}

/// Whether the identifier list `a` comes strictly before `b`.
pub fn ids_less(a: &Vec<Id>, b: &Vec<Id>) -> (r: bool)
    ensures
        r == list_lt(id_views(a@), id_views(b@)),
{
    let ghost av = id_views(a@);
    let ghost bv = id_views(b@);
    let mut i: usize = 0;
    while i < a.len() && i < b.len()
        invariant
            av == id_views(a@),
            bv == id_views(b@),
            i <= a@.len(),
            i <= b@.len(),
            av.take(i as int) == bv.take(i as int),
        decreases a.len() - i,
    {
        if !str_eq(a[i].as_str(), b[i].as_str()) {
            proof {
                lemma_list_suffix(av, bv, i as int);
                assert(av.skip(i as int)[0] == av[i as int]);
                assert(bv.skip(i as int)[0] == bv[i as int]);
            }
            return str_less(a[i].as_str(), b[i].as_str());
        }
        assert(av.take(i + 1) =~= av.take(i as int).push(av[i as int]));
        assert(bv.take(i + 1) =~= bv.take(i as int).push(bv[i as int]));
        i = i + 1;
    }
    proof {
        lemma_list_suffix(av, bv, i as int);
    }
    i == a.len() && i < b.len()
}

pub proof fn lemma_list_irreflexive(a: Seq<Seq<char>>)
    ensures
        !list_lt(a, a),
    decreases a.len(),
{
    if a.len() > 0 {
        lemma_list_irreflexive(a.drop_first());
    }
}

pub proof fn lemma_list_asymmetric(a: Seq<Seq<char>>, b: Seq<Seq<char>>)
    ensures
        !(list_lt(a, b) && list_lt(b, a)),
    decreases a.len(),
{
    if a.len() > 0 && b.len() > 0 {
        if a[0] == b[0] {
            lemma_list_asymmetric(a.drop_first(), b.drop_first());
        } else {
            lemma_lex_asymmetric(a[0], b[0]);
        }
    }
}

pub proof fn lemma_list_transitive(a: Seq<Seq<char>>, b: Seq<Seq<char>>, c: Seq<Seq<char>>)
    requires
        list_lt(a, b),
        list_lt(b, c),
    ensures
        list_lt(a, c),
    decreases a.len(),
{
    if a.len() > 0 && b.len() > 0 && c.len() > 0 {
        if a[0] == b[0] && b[0] == c[0] {
            lemma_list_transitive(a.drop_first(), b.drop_first(), c.drop_first());
        } else if a[0] == b[0] {
        } else if b[0] == c[0] {
        } else {
            lemma_lex_transitive(a[0], b[0], c[0]);
            if a[0] == c[0] {
                lemma_lex_asymmetric(a[0], b[0]);
            }
        }
    }
}

pub proof fn lemma_list_total(a: Seq<Seq<char>>, b: Seq<Seq<char>>)
    ensures
        list_lt(a, b) || list_lt(b, a) || a == b,
    decreases a.len(),
{
    if a.len() > 0 && b.len() > 0 {
        if a[0] == b[0] {
            lemma_list_total(a.drop_first(), b.drop_first());
            if a.drop_first() == b.drop_first() {
                assert(a =~= seq![a[0]] + a.drop_first());
                assert(b =~= seq![b[0]] + b.drop_first());
            }
        } else {
            lemma_lex_total(a[0], b[0]);
        }
    } else if a.len() == 0 && b.len() == 0 {
        assert(a =~= b);
    }
}


/// Inserts `x` into `s` after every element that does not come after it.
pub open spec fn insert_str(s: Seq<Seq<char>>, x: Seq<char>) -> Seq<Seq<char>>
    decreases s.len(),
{
    if s.len() == 0 {
        seq![x]
    } else if lex_lt(x, s.last()) {
        insert_str(s.drop_last(), x).push(s.last())
    } else {
        s.push(x)
    }
}

/// `s` sorted in character order (insertion sort; equal strings keep their order).
pub open spec fn sort_strs(s: Seq<Seq<char>>) -> Seq<Seq<char>>
    decreases s.len(),
{
    if s.len() == 0 {
        s
    } else {
        insert_str(sort_strs(s.drop_last()), s.last())
    }
}

/// Every string comes at or after the one before it.
pub open spec fn strs_sorted(s: Seq<Seq<char>>) -> bool {
    forall|i: int, j: int| 0 <= i < j < s.len() ==> !lex_lt(#[trigger] s[j], #[trigger] s[i])
}

spec fn insert_str_pos(s: Seq<Seq<char>>, x: Seq<char>) -> int
    decreases s.len(),
{
    if s.len() == 0 {
        0
    } else if lex_lt(x, s.last()) {
        insert_str_pos(s.drop_last(), x)
    } else {
        s.len() as int
    }
}

proof fn lemma_insert_str_pos(s: Seq<Seq<char>>, x: Seq<char>)
    ensures
        0 <= insert_str_pos(s, x) <= s.len(),
        insert_str(s, x) == s.insert(insert_str_pos(s, x), x),
        forall|i: int| insert_str_pos(s, x) <= i < s.len() ==> lex_lt(x, #[trigger] s[i]),
        insert_str_pos(s, x) > 0 ==> !lex_lt(x, s[insert_str_pos(s, x) - 1]),
    decreases s.len(),
{
    if s.len() > 0 {
        if lex_lt(x, s.last()) {
            let d = s.drop_last();
            lemma_insert_str_pos(d, x);
            assert(insert_str(s, x) =~= s.insert(insert_str_pos(s, x), x));
            assert forall|i: int| insert_str_pos(s, x) <= i < s.len() implies lex_lt(x, #[trigger] s[i]) by {
                if i < s.len() - 1 {
                    assert(s[i] == d[i]);
                }
            }
            if insert_str_pos(s, x) > 0 {
                assert(s[insert_str_pos(s, x) - 1] == d[insert_str_pos(s, x) - 1]);
            }
        } else {
            assert(insert_str(s, x) =~= s.insert(s.len() as int, x));
        }
    } else {
        assert(insert_str(s, x) =~= s.insert(0, x));
    }
}

proof fn lemma_not_lt_transitive(a: Seq<char>, b: Seq<char>, c: Seq<char>)
    requires
        !lex_lt(b, a),
        !lex_lt(c, b),
    ensures
        !lex_lt(c, a),
{
    lemma_lex_total(a, b);
    lemma_lex_total(b, c);
    if lex_lt(c, a) {
        if a == b {
        } else if b == c {
        } else {
            lemma_lex_transitive(c, a, b);
        }
    }
}

proof fn lemma_insert_str_sorted(s: Seq<Seq<char>>, x: Seq<char>)
    requires
        strs_sorted(s),
    ensures
        strs_sorted(insert_str(s, x)),
        insert_str(s, x).to_multiset() == s.to_multiset().insert(x),
{
    broadcast use vstd::seq_lib::group_to_multiset_ensures;
    lemma_insert_str_pos(s, x);
    let p = insert_str_pos(s, x);
    let r = s.insert(p, x);
    assert forall|i: int, j: int| 0 <= i < j < r.len() implies !lex_lt(#[trigger] r[j], #[trigger] r[i]) by {
        if j < p {
            assert(r[i] == s[i] && r[j] == s[j]);
        } else if j == p {
            assert(r[i] == s[i]);
            if i < p - 1 {
                assert(!lex_lt(s[p - 1], s[i]));
            } else {
                lemma_lex_irreflexive(s[i]);
            }
            lemma_not_lt_transitive(s[i], s[p - 1], x);
        } else if i == p {
            assert(r[j] == s[j - 1]);
            lemma_lex_asymmetric(x, s[j - 1]);
        } else if i < p {
            assert(r[i] == s[i] && r[j] == s[j - 1]);
        } else {
            assert(r[i] == s[i - 1] && r[j] == s[j - 1]);
        }
    }
    assert(r.remove(p) =~= s);
    assert(r[p] == x);
    assert(r.contains(x));
    assert(r.to_multiset() =~= s.to_multiset().insert(x));
}

/// Sorting in character order yields a sorted sequence with the same elements, each
/// as often.
pub proof fn lemma_sort_strs(s: Seq<Seq<char>>)
    ensures
        strs_sorted(sort_strs(s)),
        sort_strs(s).to_multiset() == s.to_multiset(),
    decreases s.len(),
{
    broadcast use vstd::seq_lib::group_to_multiset_ensures;
    if s.len() == 0 {
        assert(s.to_multiset() =~= vstd::multiset::Multiset::empty());
    } else {
        lemma_sort_strs(s.drop_last());
        lemma_insert_str_sorted(sort_strs(s.drop_last()), s.last());
        assert(s.drop_last().push(s.last()) =~= s);
    }
}

/// Sorts strings in character order (stable).
pub fn sort_strings(v: Vec<String>) -> (r: Vec<String>)
    ensures
        string_views(r@) == sort_strs(string_views(v@)),
{
    let ghost input = string_views(v@);
    let mut out: Vec<String> = Vec::new();
    for x in it: v
        invariant
            input == string_views(it.seq()),
            string_views(out@) == sort_strs(input.take(it.index() as int)),
    {
        let ghost k = it.index() as int;
        let ghost fo = string_views(out@);
        proof {
            assert(input.take(k + 1).drop_last() =~= input.take(k));
            assert(input.take(k + 1).last() == x@);
        }
        let mut j: usize = out.len();
        proof {
            assert(fo.take(j as int) =~= fo);
            assert(insert_str(fo, x@) + fo.skip(j as int) =~= insert_str(fo, x@));
        }
        while j > 0 && str_less(x.as_str(), out[j - 1].as_str())
            invariant
                j <= out@.len(),
                fo == string_views(out@),
                insert_str(fo, x@) == insert_str(fo.take(j as int), x@) + fo.skip(j as int),
            decreases j,
        {
            proof {
                let t = fo.take(j as int);
                assert(t.drop_last() =~= fo.take(j - 1));
                assert(t.last() == fo[j - 1]);
                assert(fo.skip(j - 1) =~= seq![fo[j - 1]] + fo.skip(j as int));
                assert(insert_str(fo.take(j - 1), x@).push(fo[j - 1]) + fo.skip(j as int)
                    =~= insert_str(fo.take(j - 1), x@) + fo.skip(j - 1));
            }
            j = j - 1;
        }
        proof {
            if j > 0 {
                assert(fo.take(j as int).last() == fo[j - 1]);
            }
            assert(insert_str(fo.take(j as int), x@) =~= fo.take(j as int).push(x@));
            assert(fo.take(j as int).push(x@) + fo.skip(j as int) =~= fo.insert(j as int, x@));
        }
        out.insert(j, x);
        assert(string_views(out@) =~= fo.insert(j as int, x@));
    }
    proof {
        assert(input.take(input.len() as int) =~= input);
    }
    out
}


/// Whether the string list `a` comes strictly before `b`.
pub fn strings_less(a: &Vec<String>, b: &Vec<String>) -> (r: bool)
    ensures
        r == list_lt(string_views(a@), string_views(b@)),
{
    let ghost av = string_views(a@);
    let ghost bv = string_views(b@);
    let mut i: usize = 0;
    while i < a.len() && i < b.len()
        invariant
            av == string_views(a@),
            bv == string_views(b@),
            i <= a@.len(),
            i <= b@.len(),
            av.take(i as int) == bv.take(i as int),
        decreases a.len() - i,
    {
        if !str_eq(a[i].as_str(), b[i].as_str()) {
            proof {
                lemma_list_suffix(av, bv, i as int);
                assert(av.skip(i as int)[0] == av[i as int]);
                assert(bv.skip(i as int)[0] == bv[i as int]);
            }
            return str_less(a[i].as_str(), b[i].as_str());
        }
        assert(av.take(i + 1) =~= av.take(i as int).push(av[i as int]));
        assert(bv.take(i + 1) =~= bv.take(i as int).push(bv[i as int]));
        i = i + 1;
    }
    proof {
        lemma_list_suffix(av, bv, i as int);
    }
    i == a.len() && i < b.len()
}

/// The views of a sequence of sort keys.
pub open spec fn key_views(keys: Seq<Vec<String>>) -> Seq<Seq<Seq<char>>> {
    keys.map_values(|k: Vec<String>| string_views(k@))
}

/// Inserts index `k` into `order` after every index whose key does not come after
/// the key of `k`.
pub open spec fn insert_index(order: Seq<int>, keys: Seq<Seq<Seq<char>>>, k: int) -> Seq<int>
    decreases order.len(),
{
    if order.len() == 0 {
        seq![k]
    } else if list_lt(keys[k], keys[order.last()]) {
        insert_index(order.drop_last(), keys, k).push(order.last())
    } else {
        order.push(k)
    }
}

/// The indices `0..n` ordered by their keys; indices with equal keys keep their order.
pub open spec fn index_order(keys: Seq<Seq<Seq<char>>>, n: int) -> Seq<int>
    decreases n,
{
    if n <= 0 {
        Seq::empty()
    } else {
        insert_index(index_order(keys, n - 1), keys, n - 1)
    }
}

/// `order` lists indices by ascending key, and indices with equal keys ascending.
pub open spec fn stable_sorted(keys: Seq<Seq<Seq<char>>>, order: Seq<int>) -> bool {
    forall|i: int, j: int|
        0 <= i < j < order.len() ==> list_lt(keys[#[trigger] order[i]], keys[#[trigger] order[j]]) || (keys[order[i]]
            == keys[order[j]] && order[i] < order[j])
}

/// `order` holds each of `0..n` exactly once.
pub open spec fn is_permutation(order: Seq<int>, n: int) -> bool {
    &&& order.len() == n
    &&& forall|i: int| 0 <= i < order.len() ==> 0 <= #[trigger] order[i] < n
    &&& forall|i: int, j: int| 0 <= i < j < order.len() ==> #[trigger] order[i] != #[trigger] order[j]
}

/// Where `insert_index` places `k`.
pub open spec fn index_pos(order: Seq<int>, keys: Seq<Seq<Seq<char>>>, k: int) -> int
    decreases order.len(),
{
    if order.len() == 0 {
        0
    } else if list_lt(keys[k], keys[order.last()]) {
        index_pos(order.drop_last(), keys, k)
    } else {
        order.len() as int
    }
}

proof fn lemma_index_pos(order: Seq<int>, keys: Seq<Seq<Seq<char>>>, k: int)
    ensures
        0 <= index_pos(order, keys, k) <= order.len(),
        insert_index(order, keys, k) == order.insert(index_pos(order, keys, k), k),
        forall|i: int|
            index_pos(order, keys, k) <= i < order.len() ==> list_lt(keys[k], keys[#[trigger] order[i]]),
        index_pos(order, keys, k) > 0 ==> !list_lt(keys[k], keys[order[index_pos(order, keys, k) - 1]]),
    decreases order.len(),
{
    if order.len() > 0 {
        if list_lt(keys[k], keys[order.last()]) {
            let d = order.drop_last();
            lemma_index_pos(d, keys, k);
            assert(insert_index(order, keys, k) =~= order.insert(index_pos(order, keys, k), k));
            assert forall|i: int|
                index_pos(order, keys, k) <= i < order.len() implies list_lt(keys[k], keys[#[trigger] order[i]]) by {
                if i < order.len() - 1 {
                    assert(order[i] == d[i]);
                }
            }
            if index_pos(order, keys, k) > 0 {
                assert(order[index_pos(order, keys, k) - 1] == d[index_pos(order, keys, k) - 1]);
            }
        } else {
            assert(insert_index(order, keys, k) =~= order.insert(order.len() as int, k));
        }
    } else {
        assert(insert_index(order, keys, k) =~= order.insert(0, k));
    }
}

proof fn lemma_key_le_transitive(a: Seq<Seq<char>>, b: Seq<Seq<char>>, c: Seq<Seq<char>>)
    requires
        list_lt(a, b) || a == b,
        list_lt(b, c) || b == c,
    ensures
        list_lt(a, c) || a == c,
{
    if list_lt(a, b) && list_lt(b, c) {
        lemma_list_transitive(a, b, c);
    }
}

/// Stable ordering by key: `index_order(keys, n)` holds each index of `0..n` once,
/// ascending by key, and indices with equal keys in ascending order.
pub proof fn lemma_index_order(keys: Seq<Seq<Seq<char>>>, n: int)
    requires
        0 <= n <= keys.len(),
    ensures
        is_permutation(index_order(keys, n), n),
        stable_sorted(keys, index_order(keys, n)),
    decreases n,
{
    if n > 0 {
        let k = n - 1;
        lemma_index_order(keys, k);
        let o = index_order(keys, k);
        lemma_index_pos(o, keys, k);
        let p = index_pos(o, keys, k);
        let r = o.insert(p, k);
        assert(index_order(keys, n) == r);
        assert forall|i: int| 0 <= i < r.len() implies 0 <= #[trigger] r[i] < n by {
            if i < p {
                assert(r[i] == o[i]);
            } else if i > p {
                assert(r[i] == o[i - 1]);
            }
        }
        assert forall|i: int, j: int| 0 <= i < j < r.len() implies #[trigger] r[i] != #[trigger] r[j] by {
            if j < p {
                assert(r[i] == o[i] && r[j] == o[j]);
            } else if j == p {
                assert(r[i] == o[i]);
            } else if i == p {
                assert(r[j] == o[j - 1]);
            } else if i < p {
                assert(r[i] == o[i] && r[j] == o[j - 1]);
            } else {
                assert(r[i] == o[i - 1] && r[j] == o[j - 1]);
            }
        }
        assert forall|i: int, j: int| 0 <= i < j < r.len() implies list_lt(
            keys[#[trigger] r[i]],
            keys[#[trigger] r[j]],
        ) || (keys[r[i]] == keys[r[j]] && r[i] < r[j]) by {
            if j < p {
                assert(r[i] == o[i] && r[j] == o[j]);
            } else if j == p {
                assert(r[i] == o[i]);
                assert(r[j] == k);
                lemma_list_total(keys[k], keys[o[p - 1]]);
                if i < p - 1 {
                    assert(list_lt(keys[o[i]], keys[o[p - 1]]) || keys[o[i]] == keys[o[p - 1]]);
                    lemma_key_le_transitive(keys[o[i]], keys[o[p - 1]], keys[k]);
                }
            } else if i == p {
                assert(r[j] == o[j - 1]);
                assert(list_lt(keys[k], keys[o[j - 1]]));
            } else if i < p {
                assert(r[i] == o[i] && r[j] == o[j - 1]);
            } else {
                assert(r[i] == o[i - 1] && r[j] == o[j - 1]);
            }
        }
    }
}

/// The indices of `keys` ordered by key, stably (equal keys keep their order).
pub fn stable_order(keys: &Vec<Vec<String>>) -> (r: Vec<usize>)
    ensures
        r@.map_values(|i: usize| i as int) == index_order(key_views(keys@), keys@.len() as int),
{
    let ghost kv = key_views(keys@);
    let mut out: Vec<usize> = Vec::new();
    let mut k: usize = 0;
    assert(out@.map_values(|i: usize| i as int) =~= index_order(kv, 0));
    while k < keys.len()
        invariant
            k <= keys@.len(),
            kv == key_views(keys@),
            out@.map_values(|i: usize| i as int) == index_order(kv, k as int),
            forall|i: int| 0 <= i < out@.len() ==> #[trigger] out@[i] < k,
        decreases keys@.len() - k,
    {
        let ghost fo = out@.map_values(|i: usize| i as int);
        let mut j: usize = out.len();
        proof {
            assert(fo.take(j as int) =~= fo);
            assert(insert_index(fo, kv, k as int) + fo.skip(j as int) =~= insert_index(fo, kv, k as int));
        }
        while j > 0 && strings_less(&keys[k], &keys[out[j - 1]])
            invariant
                j <= out@.len(),
                k < keys@.len(),
                kv == key_views(keys@),
                fo == out@.map_values(|i: usize| i as int),
                forall|i: int| 0 <= i < out@.len() ==> #[trigger] out@[i] < k,
                insert_index(fo, kv, k as int) == insert_index(fo.take(j as int), kv, k as int) + fo.skip(j as int),
            decreases j,
        {
            proof {
                let t = fo.take(j as int);
                assert(t.drop_last() =~= fo.take(j - 1));
                assert(t.last() == fo[j - 1]);
                assert(kv[k as int] == string_views(keys@[k as int]@));
                assert(kv[fo[j - 1]] == string_views(keys@[out@[j - 1] as int]@));
                assert(fo.skip(j - 1) =~= seq![fo[j - 1]] + fo.skip(j as int));
                assert(insert_index(fo.take(j - 1), kv, k as int).push(fo[j - 1]) + fo.skip(j as int)
                    =~= insert_index(fo.take(j - 1), kv, k as int) + fo.skip(j - 1));
            }
            j = j - 1;
        }
        proof {
            let t = fo.take(j as int);
            if j > 0 {
                assert(kv[k as int] == string_views(keys@[k as int]@));
                assert(kv[fo[j - 1]] == string_views(keys@[out@[j - 1] as int]@));
                assert(t.last() == fo[j - 1]);
                assert(insert_index(t, kv, k as int) == t.push(k as int));
            } else {
                assert(insert_index(t, kv, k as int) == seq![k as int]);
            }
        }
        let ghost prev = out@;
        out.insert(j, k);
        proof {
            assert(out@.map_values(|i: usize| i as int) =~= fo.take(j as int).push(k as int) + fo.skip(j as int));
            assert forall|i: int| 0 <= i < out@.len() implies #[trigger] out@[i] < k + 1 by {
                if i < j {
                    assert(out@[i] == prev[i]);
                } else if i > j {
                    assert(out@[i] == prev[i - 1]);
                }
            }
        }
        k = k + 1;
    }
    out
}

} // verus!
