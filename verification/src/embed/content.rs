use vstd::prelude::*;

use crate::subnode::{hex_prefix, nfc, nfc_string, nibble, sha256, sha256_digest};
use crate::text::{chars_of, string_from_chars};

verus! {

/// `s` without its leading byte-order marks (U+FEFF).
pub open spec fn strip_bom(s: Seq<char>) -> Seq<char>
    decreases s.len(),
{
    if s.len() > 0 && s[0] == '\u{feff}' {
        strip_bom(s.drop_first())
    } else {
        s
    }
}

/// `s` with unified line endings: each CR LF pair, and each other CR, becomes LF.
pub open spec fn unify_newlines(s: Seq<char>) -> Seq<char>
    decreases s.len(),
{
    if s.len() == 0 {
        s
    } else if s[0] == '\r' && s.len() > 1 && s[1] == '\n' {
        seq!['\n'] + unify_newlines(s.skip(2))
    } else if s[0] == '\r' {
        seq!['\n'] + unify_newlines(s.drop_first())
    } else {
        seq![s[0]] + unify_newlines(s.drop_first())
    }
}

/// `s` without its trailing line feeds.
pub open spec fn trim_newlines(s: Seq<char>) -> Seq<char>
    decreases s.len(),
{
    if s.len() > 0 && s.last() == '\n' {
        trim_newlines(s.drop_last())
    } else {
        s
    }
}

/// The normal form of a text whose hash identifies its content: byte-order marks
/// removed from the start, line endings unified to LF, Unicode NFC, and trailing
/// line feeds removed.
pub open spec fn normalized(raw: Seq<char>) -> Seq<char> {
    trim_newlines(nfc(unify_newlines(strip_bom(raw))))
}

/// The SHA-256 of the UTF-8 text `s`, as 64 lowercase hexadecimal digits.
pub open spec fn sha256_hex_of(s: Seq<char>) -> Seq<char> {
    hex_prefix(sha256(vstd::utf8::encode_utf8(s)), 32)
}

proof fn lemma_strip_bom(s: Seq<char>, i: int)
    requires
        0 <= i <= s.len(),
        forall|j: int| 0 <= j < i ==> s[j] == '\u{feff}',
        i == s.len() || s[i] != '\u{feff}',
    ensures
        strip_bom(s) == s.skip(i),
    decreases i,
{
    if i > 0 {
        let d = s.drop_first();
        assert forall|j: int| 0 <= j < i - 1 implies d[j] == '\u{feff}' by {
            assert(d[j] == s[j + 1]);
        }
        lemma_strip_bom(d, i - 1);
        assert(d.skip(i - 1) =~= s.skip(i));
    } else {
        assert(s.skip(0) =~= s);
    }
}

proof fn lemma_trim_newlines(s: Seq<char>, j: int)
    requires
        0 <= j <= s.len(),
        forall|k: int| j <= k < s.len() ==> s[k] == '\n',
        j == 0 || s[j - 1] != '\n',
    ensures
        trim_newlines(s) == s.take(j),
    decreases s.len() - j,
{
    if j < s.len() {
        let d = s.drop_last();
        lemma_trim_newlines(d, j);
        assert(d.take(j) =~= s.take(j));
    } else {
        assert(s.take(j) =~= s);
    }
}

/// `c` with unified line endings (see `unify_newlines`).
fn unify_newline_chars(c: &Vec<char>) -> (r: Vec<char>)
    ensures
        r@ == unify_newlines(c@),
{
    let mut out: Vec<char> = Vec::new();
    let mut i: usize = 0;
    assert(c@.skip(0) =~= c@);
    assert(out@ + unify_newlines(c@) =~= unify_newlines(c@));
    while i < c.len()
        invariant
            i <= c@.len(),
            out@ + unify_newlines(c@.skip(i as int)) == unify_newlines(c@),
        decreases c@.len() - i,
    {
        let ghost rest = c@.skip(i as int);
        if c[i] == '\r' && i + 1 < c.len() && c[i + 1] == '\n' {
            proof {
                assert(rest.skip(2) =~= c@.skip(i + 2));
            }
            out.push('\n');
            assert(out@ + unify_newlines(c@.skip(i + 2)) =~= unify_newlines(c@));
            i = i + 2;
        } else {
            proof {
                assert(rest.drop_first() =~= c@.skip(i + 1));
            }
            if c[i] == '\r' {
                out.push('\n');
            } else {
                out.push(c[i]);
            }
            assert(out@ + unify_newlines(c@.skip(i + 1)) =~= unify_newlines(c@));
            i = i + 1;
        }
    }
    assert(unify_newlines(c@.skip(i as int)) =~= Seq::<char>::empty());
    assert(out@ =~= unify_newlines(c@));
    out
}

/// The normal form of a text (see `normalized`): the same text always gives the
/// same content hash, whatever its byte-order mark, line endings, composition of
/// characters or final line feeds.
pub fn normalize_content(raw: &str) -> (r: String)
    ensures
        r@ == normalized(raw@),
{
    let c = chars_of(raw);
    let mut s: usize = 0;
    while s < c.len() && c[s] == '\u{feff}'
        invariant
            s <= c@.len(),
            c@ == raw@,
            forall|j: int| 0 <= j < s ==> c@[j] == '\u{feff}',
        decreases c@.len() - s,
    {
        s = s + 1;
    }
    proof {
        lemma_strip_bom(c@, s as int);
    }
    let mut rest: Vec<char> = Vec::new();
    let mut i = s;
    while i < c.len()
        invariant
            s <= i <= c@.len(),
            rest@ == c@.subrange(s as int, i as int),
        decreases c@.len() - i,
    {
        rest.push(c[i]);
        i = i + 1;
        assert(rest@ =~= c@.subrange(s as int, i as int));
    }
    assert(rest@ =~= c@.skip(s as int));
    let lf = unify_newline_chars(&rest);
    let lf_text = string_from_chars(lf.as_slice());
    let composed = nfc_string(lf_text.as_str());
    let n = chars_of(composed.as_str());
    let mut e = n.len();
    while e > 0 && n[e - 1] == '\n'
        invariant
            e <= n@.len(),
            n@ == composed@,
            forall|k: int| e <= k < n@.len() ==> n@[k] == '\n',
        decreases e,
    {
        e = e - 1;
    }
    proof {
        lemma_trim_newlines(n@, e as int);
    }
    let mut out: Vec<char> = Vec::new();
    let mut k: usize = 0;
    while k < e
        invariant
            k <= e <= n@.len(),
            out@ == n@.take(k as int),
        decreases e - k,
    {
        out.push(n[k]);
        k = k + 1;
        assert(out@ =~= n@.take(k as int));
    }
    string_from_chars(out.as_slice())
}

/// The SHA-256 of the UTF-8 text `s` as 64 lowercase hexadecimal digits.
pub(crate) fn sha256_hex(s: &str) -> (r: String)
    ensures
        r@ == sha256_hex_of(s@),
{
    let digest = sha256_digest(s.as_bytes());
    let mut out: Vec<char> = Vec::new();
    let mut k: usize = 0;
    while k < 32
        invariant
            k <= 32,
            digest@.len() == 32,
            digest@ == sha256(vstd::utf8::encode_utf8(s@)),
            out@ == hex_prefix(digest@, k as int),
        decreases 32 - k,
    {
        let b = digest[k];
        out.push(nibble(b / 16));
        out.push(nibble(b % 16));
        assert(out@ =~= hex_prefix(digest@, k + 1));
        k = k + 1;
    }
    string_from_chars(out.as_slice())
}

/// The content hash of a text: the SHA-256 of its normal form (`normalized`), as 64
/// lowercase hexadecimal digits.
pub fn content_hash_for(content: &str) -> (r: String)
    ensures
        r@ == sha256_hex_of(normalized(content@)),
{
    let normal = normalize_content(content);
    sha256_hex(normal.as_str())
}

} // verus!
