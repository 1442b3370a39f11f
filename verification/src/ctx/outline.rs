use vstd::prelude::*;

use crate::subnode::{
    exec_line_end, hash_count, lemma_hash_count, lemma_line_end, lemma_trailing_hashes, lemma_trim_end,
    lemma_trim_start, line_end, trailing_hashes, trim_end, trim_start,
};
use crate::text::{chars_of, is_white, string_from_chars, white};

verus! {

/// `n` levels of two-space indentation.
pub open spec fn indent(n: nat) -> Seq<char>
    decreases n,
{
    if n == 0 {
        Seq::empty()
    } else {
        indent((n - 1) as nat) + "  "@
    }
}

/// The title of a heading from the text after its opening hashes: without leading
/// white space, closing hashes and trailing white space.
pub open spec fn outline_title(after: Seq<char>) -> Seq<char> {
    let t = trim_start(after);
    trim_end(t.take(t.len() - trailing_hashes(t)))
}

/// The outline entry of one line: for an ATX heading of level 1 to 3 whose hashes are
/// followed by a space and whose title is not empty, the title as a list item indented
/// by its level; nothing for any other line.
pub open spec fn outline_line(line: Seq<char>) -> Seq<char> {
    let t = trim_start(line);
    let n = hash_count(t);
    if 1 <= n <= 3 && n < t.len() && t[n as int] == ' ' {
        let title = outline_title(t.skip(n as int));
        if title.len() == 0 {
            Seq::empty()
        } else {
            indent((n - 1) as nat) + "- "@ + title + "\n"@
        }
    } else {
        Seq::empty()
    }
}

/// The line starting at `p`, without its line feed, and without the carriage return
/// that precedes a line feed.
pub open spec fn line_at(c: Seq<char>, p: int) -> Seq<char> {
    let e = line_end(c, p);
    if e < c.len() && e > p && c[e - 1] == '\r' {
        c.subrange(p, e - 1)
    } else {
        c.subrange(p, e)
    }
}

/// The outline of the lines of `c` from position `p` on.
pub open spec fn outline_from(c: Seq<char>, p: int) -> Seq<char>
    decreases c.len() + 1 - p,
{
    if p < 0 || p >= c.len() {
        Seq::empty()
    } else {
        proof {
            lemma_line_end(c, p);
        }
        outline_line(line_at(c, p)) + outline_from(c, line_end(c, p) + 1)
    }
}

/// The heading outline of a text.
pub open spec fn outline(c: Seq<char>) -> Seq<char> {
    outline_from(c, 0)
}

proof fn lemma_indent_len(n: nat)
    ensures
        indent(n).len() == 2 * n,
    decreases n,
{
    reveal_strlit("  ");
    if n > 0 {
        lemma_indent_len((n - 1) as nat);
    }
}

/// Appends the outline entry of the line `c[p..e]`.
#[verifier::rlimit(40)]
fn outline_line_into(c: &Vec<char>, p: usize, e: usize, out: &mut Vec<char>)
    requires
        p <= e <= c@.len(),
    ensures
        final(out)@ == old(out)@ + outline_line(c@.subrange(p as int, e as int)),
{
    let ghost line = c@.subrange(p as int, e as int);
    let mut s = p;
    while s < e && white(c[s])
        invariant
            p <= s <= e <= c@.len(),
            line == c@.subrange(p as int, e as int),
            forall|j: int| 0 <= j < s - p ==> is_white(line[j]),
        decreases e - s,
    {
        s = s + 1;
    }
    proof {
        lemma_trim_start(line, s - p);
        assert(line.skip(s - p) =~= c@.subrange(s as int, e as int));
    }
    let ghost t = c@.subrange(s as int, e as int);
    let mut h = s;
    while h < e && c[h] == '#'
        invariant
            s <= h <= e <= c@.len(),
            t == c@.subrange(s as int, e as int),
            forall|j: int| 0 <= j < h - s ==> t[j] == '#',
        decreases e - h,
    {
        h = h + 1;
    }
    proof {
        lemma_hash_count(t, h - s);
    }
    let n = h - s;
    if n < 1 || n > 3 || h >= e || c[h] != ' ' {
        return;
    }
    let ghost after = c@.subrange(h as int, e as int);
    assert(after =~= t.skip(n as int));
    let mut a = h;
    while a < e && white(c[a])
        invariant
            h <= a <= e <= c@.len(),
            after == c@.subrange(h as int, e as int),
            forall|j: int| 0 <= j < a - h ==> is_white(after[j]),
        decreases e - a,
    {
        a = a + 1;
    }
    proof {
        lemma_trim_start(after, a - h);
        assert(after.skip(a - h) =~= c@.subrange(a as int, e as int));
    }
    let ghost t2 = c@.subrange(a as int, e as int);
    let mut z = e;
    while z > a && c[z - 1] == '#'
        invariant
            a <= z <= e <= c@.len(),
            t2 == c@.subrange(a as int, e as int),
            forall|j: int| z - a <= j < t2.len() ==> t2[j] == '#',
        decreases z,
    {
        z = z - 1;
    }
    proof {
        lemma_trailing_hashes(t2, e - z);
        assert(t2.take(t2.len() - trailing_hashes(t2)) =~= c@.subrange(a as int, z as int));
    }
    let ghost t3 = c@.subrange(a as int, z as int);
    let mut w = z;
    while w > a && white(c[w - 1])
        invariant
            a <= w <= z <= c@.len(),
            t3 == c@.subrange(a as int, z as int),
            forall|j: int| w - a <= j < t3.len() ==> is_white(t3[j]),
        decreases w,
    {
        w = w - 1;
    }
    proof {
        lemma_trim_end(t3, w - a);
        assert(t3.take(w - a) =~= c@.subrange(a as int, w as int));
    }
    if w == a {
        return;
    }
    let ghost before = out@;
    let mut k: usize = 1;
    while k < n
        invariant
            1 <= k <= n <= 3,
            out@ == before + indent((k - 1) as nat),
        decreases n - k,
    {
        out.push(' ');
        out.push(' ');
        k = k + 1;
        proof {
            reveal_strlit("  ");
        }
        assert(out@ =~= before + indent((k - 1) as nat));
    }
    out.push('-');
    out.push(' ');
    proof {
        reveal_strlit("- ");
        assert(out@ =~= before + indent((n - 1) as nat) + "- "@ + c@.subrange(a as int, a as int));
    }
    let mut i = a;
    while i < w
        invariant
            a <= i <= w <= c@.len(),
            out@ == before + indent((n - 1) as nat) + "- "@ + c@.subrange(a as int, i as int),
        decreases w - i,
    {
        proof {
            reveal_strlit("- ");
        }
        out.push(c[i]);
        i = i + 1;
        assert(out@ =~= before + indent((n - 1) as nat) + "- "@ + c@.subrange(a as int, i as int));
    }
    out.push('\n');
    proof {
        reveal_strlit("- ");
        reveal_strlit("\n");
        assert(out@ =~= before + (indent((n - 1) as nat) + "- "@ + c@.subrange(a as int, w as int) + "\n"@));
    }
}

/// The heading outline of `content`: for each line that is an ATX heading of level 1
/// to 3 (hashes, then a space) with a non-empty title, the title as a list item
/// `- title`, indented by two spaces per level below 1, one per line.
pub fn build_outline(content: &str) -> (r: String)
    ensures
        r@ == outline(content@),
{
    let c = chars_of(content);
    let mut out: Vec<char> = Vec::new();
    let mut p: usize = 0;
    while p < c.len()
        invariant
            p <= c@.len(),
            c@ == content@,
            out@ + outline_from(c@, p as int) == outline(c@),
        decreases c@.len() - p,
    {
        let e = exec_line_end(&c, p);
        proof {
            lemma_line_end(c@, p as int);
        }
        let le = if e < c.len() && e > p && c[e - 1] == '\r' {
            e - 1
        } else {
            e
        };
        let ghost before = out@;
        outline_line_into(&c, p, le, &mut out);
        proof {
            assert(line_at(c@, p as int) == c@.subrange(p as int, le as int));
            assert(outline_from(c@, p as int) == outline_line(line_at(c@, p as int)) + outline_from(
                c@,
                e + 1,
            ));
            assert(out@ + outline_from(c@, e + 1) =~= before + outline_from(c@, p as int));
        }
        if e >= c.len() {
            proof {
                assert(outline_from(c@, e + 1) == Seq::<char>::empty());
            }
            p = c.len();
        } else {
            p = e + 1;
        }
    }
    proof {
        assert(outline_from(c@, p as int) == Seq::<char>::empty());
        assert(out@ =~= outline(c@));
    }
    string_from_chars(out.as_slice())
}

} // verus!
