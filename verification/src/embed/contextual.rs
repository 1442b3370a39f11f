use vstd::prelude::*;

use crate::ctx::outline::{line_at, outline_title};
use crate::embed::error::EmbedError;
use crate::subnode::{
    exec_line_end, hash_count, lemma_hash_count, lemma_line_end, lemma_trailing_hashes, lemma_trim_end,
    lemma_trim_start, line_end, trailing_hashes, trim_start,
};
use crate::text::{chars_between, chars_of, is_white, white};

verus! {

/// Fallback control of contextual retrieval: timeout, retries and backoff.
#[derive(Debug, Clone, PartialEq, Eq)]
pub struct CrOptions {
    pub timeout_sec: u64,
    pub max_retries: u32,
    pub base_backoff_ms: u64,
}

impl Default for CrOptions {
    fn default() -> (r: CrOptions)
        ensures
            r.timeout_sec == 30,
            r.max_retries == 3,
            r.base_backoff_ms == 1000,
    {
        CrOptions { timeout_sec: 30, max_retries: 3, base_backoff_ms: 1000 }
    }
}

/// Settings of contextual retrieval.
#[derive(Debug, Clone, PartialEq, Eq)]
pub struct ContextualConfig {
    pub opts: CrOptions,
}

/// A source of the short context that is put before a chunk when it is embedded.
/// `Ok(None)` means that no context is given for the chunk.
pub trait LlmClient {
    /// A context that places `text` (a chunk to embed) within node `node_id`.
    fn synthesize(&self, text: &str, node_id: &str) -> Result<Option<String>, EmbedError>;
}

/// The title of a line that is an ATX heading of level 1 to 6 whose hashes are
/// followed by a space: without leading white space, closing hashes and trailing
/// white space; none when that leaves nothing, or for any other line.
pub open spec fn heading_title(line: Seq<char>) -> Option<Seq<char>> {
    let t = trim_start(line);
    let n = hash_count(t);
    if 1 <= n <= 6 && n < t.len() && t[n as int] == ' ' {
        let title = outline_title(t.skip(n as int));
        if title.len() > 0 {
            Some(title)
        } else {
            None
        }
    } else {
        None
    }
}

/// The title of the first heading among the lines of `c` from position `p` on.
pub open spec fn first_heading_from(c: Seq<char>, p: int) -> Option<Seq<char>>
    decreases c.len() + 1 - p,
{
    if p < 0 || p >= c.len() {
        None
    } else {
        proof {
            lemma_line_end(c, p);
        }
        match heading_title(line_at(c, p)) {
            Some(t) => Some(t),
            None => first_heading_from(c, line_end(c, p) + 1),
        }
    }
}

/// The title of the first heading of a text.
pub open spec fn first_heading_of(text: Seq<char>) -> Option<Seq<char>> {
    first_heading_from(text, 0)
}

/// The context the deterministic client gives: the node, and the first heading of
/// the chunk when it has one.
pub open spec fn deterministic_context(text: Seq<char>, node_id: Seq<char>) -> Seq<char> {
    match first_heading_of(text) {
        Some(h) => "出典: "@ + node_id + " — 「"@ + h + "」"@,
        None => "出典: "@ + node_id,
    }
}

/// Where the title of the line `c[p..e]` lies, if the line is a heading with one.
fn heading_title_range(c: &Vec<char>, p: usize, e: usize) -> (r: Option<(usize, usize)>)
    requires
        p <= e <= c@.len(),
    ensures
        match r {
            Some((a, w)) => a <= w <= c@.len() && heading_title(c@.subrange(p as int, e as int)) == Some(
                c@.subrange(a as int, w as int),
            ),
            None => heading_title(c@.subrange(p as int, e as int)) is None,
        },
{
    let ghost line = c@.subrange(p as int, e as int);
    let mut s = p;
    while s < e && white(c[s])
        invariant
            p <= s <= e <= c@.len(),
            line == c@.subrange(p as int, e as int),
            forall|j: int| 0 <= j < s - p ==> is_white(line[j]),
        decreases e - s,
    {
        s = s + 1;
    }
    proof {
        lemma_trim_start(line, s - p);
        assert(line.skip(s - p) =~= c@.subrange(s as int, e as int));
    }
    let ghost t = c@.subrange(s as int, e as int);
    let mut h = s;
    while h < e && c[h] == '#'
        invariant
            s <= h <= e <= c@.len(),
            t == c@.subrange(s as int, e as int),
            forall|j: int| 0 <= j < h - s ==> t[j] == '#',
        decreases e - h,
    {
        h = h + 1;
    }
    proof {
        lemma_hash_count(t, h - s);
    }
    let n = h - s;
    if n < 1 || n > 6 || h >= e || c[h] != ' ' {
        return None;
    }
    let ghost after = c@.subrange(h as int, e as int);
    assert(after =~= t.skip(n as int));
    let mut a = h;
    while a < e && white(c[a])
        invariant
            h <= a <= e <= c@.len(),
            after == c@.subrange(h as int, e as int),
            forall|j: int| 0 <= j < a - h ==> is_white(after[j]),
        decreases e - a,
    {
        a = a + 1;
    }
    proof {
        lemma_trim_start(after, a - h);
        assert(after.skip(a - h) =~= c@.subrange(a as int, e as int));
    }
    let ghost t2 = c@.subrange(a as int, e as int);
    let mut z = e;
    while z > a && c[z - 1] == '#'
        invariant
            a <= z <= e <= c@.len(),
            t2 == c@.subrange(a as int, e as int),
            forall|j: int| z - a <= j < t2.len() ==> t2[j] == '#',
        decreases z,
    {
        z = z - 1;
    }
    proof {
        lemma_trailing_hashes(t2, e - z);
        assert(t2.take(t2.len() - trailing_hashes(t2)) =~= c@.subrange(a as int, z as int));
    }
    let ghost t3 = c@.subrange(a as int, z as int);
    let mut w = z;
    while w > a && white(c[w - 1])
        invariant
            a <= w <= z <= c@.len(),
            t3 == c@.subrange(a as int, z as int),
            forall|j: int| w - a <= j < t3.len() ==> is_white(t3[j]),
        decreases w,
    {
        w = w - 1;
    }
    proof {
        lemma_trim_end(t3, w - a);
        assert(t3.take(w - a) =~= c@.subrange(a as int, w as int));
    }
    if w == a {
        None
    } else {
        Some((a, w))
    }
}

/// The title of the first ATX heading (level 1 to 6, hashes then a space) of `text`
/// with a non-empty title: without the hashes, closing hashes and surrounding white
/// space. None when there is no such line.
fn first_heading(text: &str) -> (r: Option<String>)
    ensures
        match r {
            Some(h) => first_heading_of(text@) == Some(h@),
            None => first_heading_of(text@) is None,
        },
{
    let c = chars_of(text);
    let mut p: usize = 0;
    while p < c.len()
        invariant
            p <= c@.len(),
            c@ == text@,
            first_heading_from(c@, p as int) == first_heading_of(c@),
        decreases c@.len() - p,
    {
        let e = exec_line_end(&c, p);
        proof {
            lemma_line_end(c@, p as int);
        }
        let le = if e < c.len() && e > p && c[e - 1] == '\r' {
            e - 1
        } else {
            e
        };
        proof {
            assert(line_at(c@, p as int) == c@.subrange(p as int, le as int));
        }
        match heading_title_range(&c, p, le) {
            Some((a, w)) => {
                let h = chars_between(&c, a, w);
                return Some(h);
            },
            None => {},
        }
        if e >= c.len() {
            p = c.len();
        } else {
            p = e + 1;
        }
    }
    None
}

/// A client that needs no model or network: it places a chunk by its node and by the
/// first heading of the chunk, and gives the same context for the same input.
pub struct DeterministicContextClient;

impl LlmClient for DeterministicContextClient {
    fn synthesize(&self, text: &str, node_id: &str) -> (r: Result<Option<String>, EmbedError>)
        ensures
            r matches Ok(Some(c)) && c@ == deterministic_context(text@, node_id@),
    {
        let mut ctx = String::from_str("出典: ");
        ctx.append(node_id);
        match first_heading(text) {
            Some(h) => {
                ctx.append(" — 「");
                ctx.append(h.as_str());
                ctx.append("」");
            },
            None => {},
        }
        Ok(Some(ctx))
    }
}

/// The context of a chunk by the deterministic client; a failure of the client
/// counts as no context, and embedding goes on without one.
pub fn synthesize_with_fallback(config: &ContextualConfig, text: &str, node_id: &str) -> (r: Result<
    Option<String>,
    EmbedError,
>)
    ensures
        r matches Ok(Some(c)) && c@ == deterministic_context(text@, node_id@),
{
    let client = DeterministicContextClient;
    match client.synthesize(text, node_id) {
        Ok(ctx) => Ok(ctx),
        Err(_) => Ok(None),
    }
}

} // verus!
