use vstd::prelude::*;

use crate::common::string_views;
use crate::feedback::analyzer::opt_view;
use crate::text::{ascii_alnum, chars_of, is_ascii_alnum, is_lower_hex, is_white, lower_hex, string_from_chars, white};

use sha2::{Digest, Sha256};
use unicode_normalization::UnicodeNormalization;

verus! {

/// A character allowed in an explicit subnode name: ASCII letter, digit, `-` or `_`.
pub open spec fn is_name_char(c: char) -> bool {
    is_ascii_alnum(c) || c == '-' || c == '_'
}

/// An explicit subnode name (`s:<name>`): 1 to 63 characters from `[A-Za-z0-9_-]`,
/// starting and ending with a letter or digit.
pub open spec fn valid_explicit_name(s: Seq<char>) -> bool {
    &&& 1 <= s.len() <= 63
    &&& forall|i: int| 0 <= i < s.len() ==> is_name_char(#[trigger] s[i])
    &&& is_ascii_alnum(s[0])
    &&& is_ascii_alnum(s.last())
}

/// Why an explicit subnode name was refused.
#[derive(Debug, Clone, Copy, PartialEq, Eq, Structural)]
pub enum ExplicitNameError {
    Empty,
    TooLong,
    InvalidCharacter,
    NonAlphanumericEdge,
}

/// Checks an explicit subnode name; the first rule broken, in the order empty,
/// too long, invalid character, non-alphanumeric first or last character, is reported.
pub fn validate_explicit_name(name: &str) -> (r: Result<(), ExplicitNameError>)
    ensures
        r is Ok <==> valid_explicit_name(name@),
        match r {
            Ok(_) => true,
            Err(ExplicitNameError::Empty) => name@.len() == 0,
            Err(ExplicitNameError::TooLong) => name@.len() > 63,
            Err(ExplicitNameError::InvalidCharacter) => 1 <= name@.len() <= 63 && exists|i: int|
                0 <= i < name@.len() && !is_name_char(#[trigger] name@[i]),
            Err(ExplicitNameError::NonAlphanumericEdge) => 1 <= name@.len() <= 63 && (forall|i: int|
                0 <= i < name@.len() ==> is_name_char(#[trigger] name@[i])) && !(is_ascii_alnum(
                name@[0]) && is_ascii_alnum(name@.last())),
        },
{
    let v = chars_of(name);
    if v.len() == 0 {
        return Err(ExplicitNameError::Empty);
    }
    if v.len() > 63 {
        return Err(ExplicitNameError::TooLong);
    }
    let mut i: usize = 0;
    while i < v.len()
        invariant
            v@ == name@,
            1 <= v@.len() <= 63,
            i <= v@.len(),
            forall|j: int| 0 <= j < i ==> is_name_char(#[trigger] v@[j]),
        decreases v.len() - i,
    {
        let c = v[i];
        if !(ascii_alnum(c) || c == '-' || c == '_') {
            assert(!is_name_char(name@[i as int]));
            return Err(ExplicitNameError::InvalidCharacter);
        }
        i = i + 1;
    }
    if !ascii_alnum(v[0]) || !ascii_alnum(v[v.len() - 1]) {
        return Err(ExplicitNameError::NonAlphanumericEdge);
    }
    Ok(())
}

/// An automatically generated fragment: exactly 16 lowercase hexadecimal digits.
pub open spec fn auto_fragment(s: Seq<char>) -> bool {
    s.len() == 16 && forall|i: int| 0 <= i < s.len() ==> is_lower_hex(#[trigger] s[i])
}

/// Whether `fragment` is an automatically generated fragment.
pub fn is_auto_generated_fragment(fragment: &str) -> (r: bool)
    ensures
        r == auto_fragment(fragment@),
{
    let v = chars_of(fragment);
    if v.len() != 16 {
        return false;
    }
    let mut i: usize = 0;
    while i < v.len()
        invariant
            v@ == fragment@,
            i <= v@.len(),
            forall|j: int| 0 <= j < i ==> is_lower_hex(#[trigger] v@[j]),
        decreases v.len() - i,
    {
        if !lower_hex(v[i]) {
            return false;
        }
        i = i + 1;
    }
    true
}


/// The SHA-256 digest of `data`.
pub uninterp spec fn sha256(data: Seq<u8>) -> Seq<u8>;

/// `Sha256::digest`: the 32-byte SHA-256 digest of `data`.
#[verifier::external_body]
pub(crate) fn sha256_digest(data: &[u8]) -> (r: Vec<u8>)
    ensures
        r@ == sha256(data@),
        r@.len() == 32,
{
    Sha256::digest(data).to_vec()
}

/// The canonical composition (Unicode NFC) of `s`.
pub uninterp spec fn nfc(s: Seq<char>) -> Seq<char>;

/// `UnicodeNormalization::nfc`: `s` in Unicode Normalization Form C.
#[verifier::external_body]
pub(crate) fn nfc_string(s: &str) -> (r: String)
    ensures
        r@ == nfc(s@),
{
    s.nfc().collect::<String>()
}

/// The lowercase hexadecimal digit of a nibble.
pub open spec fn nibble_char(d: int) -> char {
    if d < 10 {
        (48 + d) as char
    } else {
        (87 + d) as char
    }
}

/// The first `n` bytes of `b` as lowercase hexadecimal, two digits per byte.
pub open spec fn hex_prefix(b: Seq<u8>, n: int) -> Seq<char>
    decreases n,
{
    if n <= 0 {
        Seq::empty()
    } else {
        hex_prefix(b, n - 1) + seq![nibble_char(b[n - 1] as int / 16), nibble_char(b[n - 1] as int % 16)]
    }
}

/// `parts` joined with `sep` between them.
pub open spec fn join(parts: Seq<Seq<char>>, sep: Seq<char>) -> Seq<char>
    decreases parts.len(),
{
    if parts.len() == 0 {
        Seq::empty()
    } else if parts.len() == 1 {
        parts[0]
    } else {
        join(parts.drop_last(), sep) + sep + parts.last()
    }
}

/// The id of the automatically generated subnode of `parent` with heading path
/// `path`: `{parent}#` and the first 16 lowercase hexadecimal digits of the SHA-256
/// of the UTF-8 text `{parent}|{path joined by |}`.
pub open spec fn subnode_id_of(parent: Seq<char>, path: Seq<Seq<char>>) -> Seq<char> {
    parent + seq!['#'] + hex_prefix(sha256(vstd::utf8::encode_utf8(parent + seq!['|'] + join(path, seq!['|']))), 8)
}

pub(crate) fn nibble(d: u8) -> (c: char)
    requires
        d < 16,
    ensures
        c == nibble_char(d as int),
{
    if d < 10 {
        (48u8 + d) as char
    } else {
        (87u8 + d) as char
    }
}

/// The id of an automatically generated subnode.
pub fn generate_subnode_id(parent: &str, heading_path: &[String]) -> (id: String)
    ensures
        id@ == subnode_id_of(parent@, string_views(heading_path@)),
{
    let ghost hp = string_views(heading_path@);
    let mut text = String::from_str(parent);
    text.append("|");
    let ghost head = text@;
    let mut i: usize = 0;
    while i < heading_path.len()
        invariant
            i <= heading_path@.len(),
            hp == string_views(heading_path@),
            text@ == head + join(hp.take(i as int), seq!['|']),
        decreases heading_path.len() - i,
    {
        proof {
            assert(hp.take(i + 1).drop_last() =~= hp.take(i as int));
            assert(hp.take(i + 1).last() == heading_path@[i as int]@);
        }
        if i > 0 {
            text.append("|");
        }
        text.append(heading_path[i].as_str());
        proof {
            reveal_strlit("|");
            if i == 0 {
                assert(hp.take(1)[0] == hp[0]);
                assert(join(hp.take(0), seq!['|']) =~= Seq::<char>::empty());
            }
            assert(text@ =~= head + join(hp.take(i + 1), seq!['|']));
        }
        i = i + 1;
    }
    assert(hp.take(hp.len() as int) =~= hp);
    assert("|"@ =~= seq!['|']) by {
        reveal_strlit("|");
    }
    let digest = sha256_digest(text.as_str().as_bytes());
    let mut out: Vec<char> = chars_of(parent);
    out.push('#');
    let ghost base = out@;
    let mut k: usize = 0;
    while k < 8
        invariant
            k <= 8,
            digest@.len() == 32,
            out@ == base + hex_prefix(digest@, k as int),
        decreases 8 - k,
    {
        let b = digest[k];
        out.push(nibble(b / 16));
        out.push(nibble(b % 16));
        assert(out@ =~= base + hex_prefix(digest@, k + 1));
        k = k + 1;
    }
    string_from_chars(out.as_slice())
}

/// `s` without the decoration characters `*`, `_` and backtick.
pub open spec fn strip_decoration(s: Seq<char>) -> Seq<char>
    decreases s.len(),
{
    if s.len() == 0 {
        s
    } else {
        let d = strip_decoration(s.drop_last());
        let c = s.last();
        if c == '*' || c == '_' || c == '`' {
            d
        } else {
            d.push(c)
        }
    }
}

/// `s` with ideographic spaces and tabs turned into plain spaces.
pub open spec fn plain_spaces(s: Seq<char>) -> Seq<char> {
    s.map_values(|c: char| if c == '\u{3000}' || c == '\t' { ' ' } else { c })
}

/// The words of `s` (maximal runs without white space) joined by single spaces:
/// `s` trimmed, with each run of white space collapsed to one space. `out` holds the
/// text so far and `gap` whether white space followed its last word.
pub open spec fn collapse_from(s: Seq<char>, out: Seq<char>, gap: bool) -> Seq<char>
    decreases s.len(),
{
    if s.len() == 0 {
        out
    } else if is_white(s[0]) {
        collapse_from(s.drop_first(), out, out.len() > 0)
    } else if gap {
        collapse_from(s.drop_first(), out.push(' ').push(s[0]), false)
    } else {
        collapse_from(s.drop_first(), out.push(s[0]), false)
    }
}

/// A heading as it is compared and hashed: decoration removed, ideographic spaces
/// and tabs made spaces, white space collapsed and trimmed, then NFC.
pub open spec fn normalized_heading(s: Seq<char>) -> Seq<char> {
    nfc(collapse_from(plain_spaces(strip_decoration(s)), Seq::empty(), false))
}

/// Normalizes a heading text (see `normalized_heading`).
pub fn normalize_heading(text: &str) -> (r: String)
    ensures
        r@ == normalized_heading(text@),
{
    let v = chars_of(text);
    let mut a: Vec<char> = Vec::new();
    let mut i: usize = 0;
    while i < v.len()
        invariant
            v@ == text@,
            i <= v@.len(),
            a@ == plain_spaces(strip_decoration(v@.take(i as int))),
        decreases v.len() - i,
    {
        let c = v[i];
        proof {
            assert(v@.take(i + 1).drop_last() =~= v@.take(i as int));
            assert(v@.take(i + 1).last() == c);
        }
        if !(c == '*' || c == '_' || c == '`') {
            a.push(if c == '\u{3000}' || c == '\t' { ' ' } else { c });
        }
        assert(a@ =~= plain_spaces(strip_decoration(v@.take(i + 1))));
        i = i + 1;
    }
    assert(v@.take(v@.len() as int) =~= v@);
    let ghost src = a@;
    let mut out: Vec<char> = Vec::new();
    let mut gap = false;
    let mut j: usize = 0;
    assert(src.skip(0) =~= src);
    while j < a.len()
        invariant
            a@ == src,
            j <= a@.len(),
            collapse_from(src, Seq::empty(), false) == collapse_from(src.skip(j as int), out@, gap),
        decreases a.len() - j,
    {
        let c = a[j];
        proof {
            assert(src.skip(j as int)[0] == c);
            assert(src.skip(j as int).drop_first() =~= src.skip(j + 1));
        }
        if white(c) {
            gap = out.len() > 0;
        } else {
            if gap {
                out.push(' ');
            }
            out.push(c);
            gap = false;
        }
        j = j + 1;
    }
    assert(src.skip(j as int) =~= Seq::<char>::empty());
    let collapsed = string_from_chars(out.as_slice());
    nfc_string(collapsed.as_str())
}


/// A subnode extracted from a heading of a document.
#[derive(Debug, PartialEq, Eq)]
pub struct AutoSubnode {
    pub id: String,
    pub parent_id: String,
    pub heading_path: Vec<String>,
    pub anchor: String,
    pub content_range: (usize, usize),
}

/// An extracted subnode as plain values.
pub struct SubnodeView {
    pub id: Seq<char>,
    pub parent: Seq<char>,
    pub path: Seq<Seq<char>>,
    pub anchor: Seq<char>,
    pub range: (int, int),
}

impl View for AutoSubnode {
    type V = SubnodeView;

    open spec fn view(&self) -> SubnodeView {
        SubnodeView {
            id: self.id@,
            parent: self.parent_id@,
            path: string_views(self.heading_path@),
            anchor: self.anchor@,
            range: (self.content_range.0 as int, self.content_range.1 as int),
        }
    }
}

/// Position of the end of the line starting at `p` (its line feed, or the end).
pub open spec fn line_end(c: Seq<char>, p: int) -> int
    decreases c.len() - p,
{
    if p >= c.len() {
        c.len() as int
    } else if c[p] == '\n' {
        p
    } else {
        line_end(c, p + 1)
    }
}

pub proof fn lemma_line_end(c: Seq<char>, p: int)
    requires
        0 <= p <= c.len(),
    ensures
        p <= line_end(c, p) <= c.len(),
        line_end(c, p) < c.len() ==> c[line_end(c, p)] == '\n',
        forall|i: int| p <= i < line_end(c, p) ==> c[i] != '\n',
    decreases c.len() - p,
{
    if p < c.len() && c[p] != '\n' {
        lemma_line_end(c, p + 1);
    }
}

/// The number of leading `#` of `line`.
pub open spec fn hash_count(line: Seq<char>) -> nat
    decreases line.len(),
{
    if line.len() == 0 || line[0] != '#' {
        0
    } else {
        1 + hash_count(line.drop_first())
    }
}

/// `s` without leading white space.
pub open spec fn trim_start(s: Seq<char>) -> Seq<char>
    decreases s.len(),
{
    if s.len() > 0 && is_white(s[0]) {
        trim_start(s.drop_first())
    } else {
        s
    }
}

/// `s` without trailing white space.
pub open spec fn trim_end(s: Seq<char>) -> Seq<char>
    decreases s.len(),
{
    if s.len() > 0 && is_white(s.last()) {
        trim_end(s.drop_last())
    } else {
        s
    }
}

/// The number of trailing `#` of `s`.
pub open spec fn trailing_hashes(s: Seq<char>) -> nat
    decreases s.len(),
{
    if s.len() > 0 && s.last() == '#' {
        1 + trailing_hashes(s.drop_last())
    } else {
        0
    }
}

/// The text of a heading after its opening hashes: trimmed, and without a closing
/// run of `#` that stands alone (after white space, or as the whole text).
pub open spec fn heading_text(rest: Seq<char>) -> Seq<char> {
    let t = trim_end(trim_start(rest));
    let k = trailing_hashes(t);
    if k == 0 {
        t
    } else if k == t.len() {
        Seq::empty()
    } else if is_white(t[t.len() - k - 1]) {
        trim_end(t.take(t.len() - k))
    } else {
        t
    }
}

/// An ATX heading line: 1 to 6 `#` followed by the end of the line, a space or a
/// tab; its level and text.
pub open spec fn atx(line: Seq<char>) -> Option<(nat, Seq<char>)> {
    let n = hash_count(line);
    if 1 <= n <= 6 && (line.len() == n || line[n as int] == ' ' || line[n as int] == '\t') {
        Some((n, heading_text(line.skip(n as int))))
    } else {
        None
    }
}

/// The heading of the line starting at `p`, if it is one.
pub open spec fn atx_at(c: Seq<char>, p: int) -> Option<(nat, Seq<char>)> {
    atx(c.subrange(p, line_end(c, p)))
}

/// Where the section of a level-`lvl` heading ends: the start of the first line from
/// `q` on that is a heading of level `lvl` or above, or the end of the text.
pub open spec fn section_end(c: Seq<char>, q: int, lvl: nat) -> int
    decreases c.len() + 1 - q,
{
    if q < 0 || q >= c.len() {
        c.len() as int
    } else {
        proof {
            lemma_line_end(c, q);
        }
        match atx_at(c, q) {
            Some((l, _)) => if l <= lvl {
                q
            } else {
                section_end(c, line_end(c, q) + 1, lvl)
            },
            None => section_end(c, line_end(c, q) + 1, lvl),
        }
    }
}

/// The number of UTF-8 bytes of the first `i` characters of `c`.
pub open spec fn bytes_before(c: Seq<char>, i: int) -> int {
    vstd::utf8::encode_utf8(c.take(i)).len() as int
}

/// The subnode of heading path `path` and raw heading text `raw`, with its body
/// from character `body` to `end`.
pub open spec fn subnode_at(
    parent: Seq<char>,
    c: Seq<char>,
    path: Seq<Seq<char>>,
    raw: Seq<char>,
    body: int,
    end: int,
) -> SubnodeView {
    SubnodeView {
        id: subnode_id_of(parent, path),
        parent,
        path,
        anchor: raw,
        range: (bytes_before(c, body), bytes_before(c, end)),
    }
}

/// The subnodes of the headings from the line starting at `p` on, with `h2` the
/// current level-2 heading: a level-1 heading clears it; a level-2 heading (when
/// level 2 is extracted) becomes it and yields a subnode, unless it normalizes to
/// nothing, which clears it; a level-3 heading (when level 3 is extracted) yields a
/// subnode under the current level-2 heading unless it normalizes to nothing; other
/// lines are skipped. A subnode's body runs from after its heading line to the
/// start of the next heading of its level or above.
pub open spec fn extract_from(parent: Seq<char>, c: Seq<char>, levels: Seq<u8>, p: int, h2: Option<Seq<char>>) -> Seq<
    SubnodeView,
>
    decreases c.len() + 1 - p,
{
    if p < 0 || p >= c.len() {
        Seq::empty()
    } else {
        proof {
            lemma_line_end(c, p);
        }
        let e = line_end(c, p);
        let next = e + 1;
        let body = if e < c.len() {
            e + 1
        } else {
            c.len() as int
        };
        match atx_at(c, p) {
            None => extract_from(parent, c, levels, next, h2),
            Some((l, raw)) => if l == 1 {
                extract_from(parent, c, levels, next, None)
            } else if l == 2 && levels.contains(2u8) {
                let n = normalized_heading(raw);
                if n.len() == 0 {
                    extract_from(parent, c, levels, next, None)
                } else {
                    seq![subnode_at(parent, c, seq![n], raw, body, section_end(c, next, 2))] + extract_from(
                        parent,
                        c,
                        levels,
                        next,
                        Some(n),
                    )
                }
            } else if l == 3 && levels.contains(3u8) {
                let n = normalized_heading(raw);
                if n.len() == 0 {
                    extract_from(parent, c, levels, next, h2)
                } else {
                    let path = match h2 {
                        Some(x) => seq![x, n],
                        None => seq![n],
                    };
                    seq![subnode_at(parent, c, path, raw, body, section_end(c, next, 3))] + extract_from(
                        parent,
                        c,
                        levels,
                        next,
                        h2,
                    )
                }
            } else {
                extract_from(parent, c, levels, next, h2)
            },
        }
    }
}


pub(crate) proof fn lemma_hash_count(line: Seq<char>, n: int)
    requires
        0 <= n <= line.len(),
        forall|j: int| 0 <= j < n ==> line[j] == '#',
        n == line.len() || line[n] != '#',
    ensures
        hash_count(line) == n,
    decreases n,
{
    if n > 0 {
        let d = line.drop_first();
        assert forall|j: int| 0 <= j < n - 1 implies d[j] == '#' by {
            assert(d[j] == line[j + 1]);
        }
        lemma_hash_count(d, n - 1);
    }
}

proof fn lemma_hash_count_at_least(line: Seq<char>, m: int)
    requires
        0 <= m <= line.len(),
        forall|j: int| 0 <= j < m ==> line[j] == '#',
    ensures
        hash_count(line) >= m,
    decreases m,
{
    if m > 0 {
        let d = line.drop_first();
        assert forall|j: int| 0 <= j < m - 1 implies d[j] == '#' by {
            assert(d[j] == line[j + 1]);
        }
        lemma_hash_count_at_least(d, m - 1);
    }
}

pub(crate) proof fn lemma_trim_start(s: Seq<char>, i: int)
    requires
        0 <= i <= s.len(),
        forall|j: int| 0 <= j < i ==> is_white(s[j]),
        i == s.len() || !is_white(s[i]),
    ensures
        trim_start(s) == s.skip(i),
    decreases i,
{
    if i > 0 {
        let d = s.drop_first();
        assert forall|j: int| 0 <= j < i - 1 implies is_white(d[j]) by {
            assert(d[j] == s[j + 1]);
        }
        lemma_trim_start(d, i - 1);
        assert(d.skip(i - 1) =~= s.skip(i));
    } else {
        assert(s.skip(0) =~= s);
    }
}

pub(crate) proof fn lemma_trim_end(s: Seq<char>, j: int)
    requires
        0 <= j <= s.len(),
        forall|k: int| j <= k < s.len() ==> is_white(s[k]),
        j == 0 || !is_white(s[j - 1]),
    ensures
        trim_end(s) == s.take(j),
    decreases s.len() - j,
{
    if j < s.len() {
        let d = s.drop_last();
        lemma_trim_end(d, j);
        assert(d.take(j) =~= s.take(j));
    } else {
        assert(s.take(j) =~= s);
    }
}

pub(crate) proof fn lemma_trailing_hashes(s: Seq<char>, k: int)
    requires
        0 <= k <= s.len(),
        forall|j: int| s.len() - k <= j < s.len() ==> s[j] == '#',
        k == s.len() || s[s.len() - k - 1] != '#',
    ensures
        trailing_hashes(s) == k,
    decreases k,
{
    if k > 0 {
        let d = s.drop_last();
        lemma_trailing_hashes(d, k - 1);
    }
}

/// The number of UTF-8 bytes of `c`.
fn utf8_width(c: char) -> (r: usize)
    ensures
        r == vstd::utf8::encode_scalar(c as u32).len(),
        1 <= r <= 4,
{
    let v = c as u32;
    proof {
        vstd::utf8::char_is_scalar(c);
    }
    if v <= 0x7f {
        1
    } else if v <= 0x7ff {
        2
    } else if v <= 0xffff {
        3
    } else {
        4
    }
}

proof fn lemma_encode_push(s: Seq<char>, c: char)
    ensures
        vstd::utf8::encode_utf8(s.push(c)) == vstd::utf8::encode_utf8(s) + vstd::utf8::encode_scalar(c as u32),
    decreases s.len(),
{
    if s.len() == 0 {
        assert(s.push(c).drop_first() =~= Seq::<char>::empty());
        assert(vstd::utf8::encode_utf8(Seq::<char>::empty()) =~= Seq::<u8>::empty());
        assert(vstd::utf8::encode_scalar(c as u32) + Seq::<u8>::empty() =~= vstd::utf8::encode_scalar(c as u32));
    } else {
        lemma_encode_push(s.drop_first(), c);
        assert(s.push(c).drop_first() =~= s.drop_first().push(c));
        assert(s.push(c)[0] == s[0]);
    }
}

proof fn lemma_encode_prefix_len(c: Seq<char>, i: int)
    requires
        0 <= i <= c.len(),
    ensures
        bytes_before(c, i) <= vstd::utf8::encode_utf8(c).len(),
    decreases c.len() - i,
{
    if i < c.len() {
        lemma_encode_prefix_len(c, i + 1);
        lemma_encode_push(c.take(i), c[i]);
        assert(c.take(i + 1) =~= c.take(i).push(c[i]));
    } else {
        assert(c.take(i) =~= c);
    }
}

/// The byte offset of every character position of `c` (and of its end).
pub(crate) fn byte_offsets(c: &Vec<char>, total: usize) -> (r: Vec<usize>)
    requires
        vstd::utf8::encode_utf8(c@).len() == total,
    ensures
        r@.len() == c@.len() + 1,
        forall|i: int| 0 <= i <= c@.len() ==> #[trigger] r@[i] == bytes_before(c@, i),
{
    let mut r: Vec<usize> = Vec::new();
    let mut acc: usize = 0;
    r.push(0);
    assert(c@.take(0) =~= Seq::<char>::empty());
    let mut i: usize = 0;
    while i < c.len()
        invariant
            i <= c@.len(),
            vstd::utf8::encode_utf8(c@).len() == total,
            r@.len() == i + 1,
            acc == bytes_before(c@, i as int),
            forall|k: int| 0 <= k <= i ==> #[trigger] r@[k] == bytes_before(c@, k),
        decreases c.len() - i,
    {
        proof {
            lemma_encode_push(c@.take(i as int), c@[i as int]);
            assert(c@.take(i + 1) =~= c@.take(i as int).push(c@[i as int]));
            lemma_encode_prefix_len(c@, i + 1);
        }
        acc = acc + utf8_width(c[i]);
        r.push(acc);
        i = i + 1;
    }
    r
}

pub(crate) fn exec_line_end(c: &Vec<char>, p: usize) -> (r: usize)
    requires
        p <= c@.len(),
    ensures
        r == line_end(c@, p as int),
{
    let mut i = p;
    while i < c.len() && c[i] != '\n'
        invariant
            p <= i <= c@.len(),
            line_end(c@, p as int) == line_end(c@, i as int),
        decreases c.len() - i,
    {
        i = i + 1;
    }
    i
}

/// The heading of the line `c[p..e]`, if it is one: its level and text.
#[verifier::rlimit(50)]
fn heading_of(c: &Vec<char>, p: usize, e: usize) -> (r: Option<(usize, Vec<char>)>)
    requires
        p <= e <= c@.len(),
    ensures
        match r {
            Some((l, t)) => atx(c@.subrange(p as int, e as int)) == Some((l as nat, t@)),
            None => atx(c@.subrange(p as int, e as int)) is None,
        },
{
    let ghost line = c@.subrange(p as int, e as int);
    let mut k = p;
    while k < e && c[k] == '#' && k - p < 7
        invariant
            p <= k <= e,
            e <= c@.len(),
            line == c@.subrange(p as int, e as int),
            forall|j: int| 0 <= j < k - p ==> line[j] == '#',
        decreases e - k,
    {
        k = k + 1;
    }
    let n = k - p;
    if n == 0 || n > 6 {
        proof {
            if n == 0 {
                lemma_hash_count(line, 0);
            } else {
                lemma_hash_count_at_least(line, n as int);
            }
        }
        return None;
    }
    proof {
        lemma_hash_count(line, n as int);
    }
    if k < e && c[k] != ' ' && c[k] != '\t' {
        return None;
    }
    // rest = c[k..e]
    let ghost rest = line.skip(n as int);
    assert(rest =~= c@.subrange(k as int, e as int));
    let mut a = k;
    while a < e && crate::text::white(c[a])
        invariant
            k <= a <= e,
            e <= c@.len(),
            forall|j: int| k <= j < a ==> is_white(c@[j]),
        decreases e - a,
    {
        a = a + 1;
    }
    let mut b = e;
    while b > a && crate::text::white(c[b - 1])
        invariant
            a <= b <= e,
            e <= c@.len(),
            forall|j: int| b <= j < e ==> is_white(c@[j]),
        decreases b,
    {
        b = b - 1;
    }
    proof {
        lemma_trim_start(rest, a - k);
        let ts = rest.skip(a - k);
        assert(ts =~= c@.subrange(a as int, e as int));
        lemma_trim_end(ts, b - a);
        assert(ts.take(b - a) =~= c@.subrange(a as int, b as int));
    }
    let ghost t = c@.subrange(a as int, b as int);
    let mut h = b;
    while h > a && c[h - 1] == '#'
        invariant
            a <= h <= b,
            b <= c@.len(),
            forall|j: int| h <= j < b ==> c@[j] == '#',
        decreases h,
    {
        h = h - 1;
    }
    proof {
        lemma_trailing_hashes(t, b - h);
    }
    let mut end = b;
    if h < b {
        if h == a {
            end = a;
        } else if crate::text::white(c[h - 1]) {
            let mut m = h;
            while m > a && crate::text::white(c[m - 1])
                invariant
                    a <= m <= h,
                    h <= c@.len(),
                    forall|j: int| m <= j < h ==> is_white(c@[j]),
                decreases m,
            {
                m = m - 1;
            }
            proof {
                let tt = t.take(h - a);
                assert(tt =~= c@.subrange(a as int, h as int));
                lemma_trim_end(tt, m - a);
                assert(tt.take(m - a) =~= c@.subrange(a as int, m as int));
            }
            end = m;
        }
    }
    let mut text: Vec<char> = Vec::new();
    let mut i = a;
    while i < end
        invariant
            a <= i <= end,
            end <= c@.len(),
            text@ == c@.subrange(a as int, i as int),
        decreases end - i,
    {
        text.push(c[i]);
        assert(text@ =~= c@.subrange(a as int, i + 1));
        i = i + 1;
    }
    proof {
        if h < b && h == a {
            assert(text@ =~= Seq::<char>::empty());
        }
    }
    Some((n, text))
}


fn exec_section_end(c: &Vec<char>, q: usize, lvl: usize) -> (r: usize)
    requires
        q <= c@.len() + 1,
    ensures
        r == section_end(c@, q as int, lvl as nat),
        r <= c@.len(),
{
    let mut cur = q;
    while cur < c.len()
        invariant
            cur <= c@.len() + 1,
            section_end(c@, q as int, lvl as nat) == section_end(c@, cur as int, lvl as nat),
        decreases c.len() + 1 - cur,
    {
        let e = exec_line_end(c, cur);
        proof {
            lemma_line_end(c@, cur as int);
        }
        match heading_of(c, cur, e) {
            Some((l, _)) => {
                if l <= lvl {
                    assert(section_end(c@, cur as int, lvl as nat) == cur);
                    return cur;
                }
            },
            None => {},
        }
        if e >= c.len() {
            assert(section_end(c@, cur as int, lvl as nat) == section_end(c@, e + 1, lvl as nat));
            return c.len();
        }
        cur = e + 1;
    }
    c.len()
}


fn levels_contain(levels: &[u8], l: u8) -> (r: bool)
    ensures
        r == levels@.contains(l),
{
    let mut i: usize = 0;
    while i < levels.len()
        invariant
            i <= levels@.len(),
            forall|j: int| 0 <= j < i ==> levels@[j] != l,
        decreases levels.len() - i,
    {
        if levels[i] == l {
            assert(levels@[i as int] == l);
            return true;
        }
        i = i + 1;
    }
    false
}

/// The subnodes of the level-2 and level-3 headings of `content` (see
/// `extract_subnodes_with_levels`).
pub fn extract_subnodes(parent_id: &str, content: &str) -> (r: Vec<AutoSubnode>)
    ensures
        r@.map_values(|s: AutoSubnode| s@) == extract_from(parent_id@, content@, seq![2u8, 3u8], 0, None),
{
    let levels: [u8; 2] = [2, 3];
    assert(levels@ =~= seq![2u8, 3u8]);
    extract_subnodes_with_levels(parent_id, content, &levels)
}

/// The subnodes of the headings of `content` at the given levels (2 and 3 are the
/// levels that yield subnodes), in order of appearance (see `extract_from`); byte
/// ranges are UTF-8 offsets into `content`.
pub fn extract_subnodes_with_levels(parent_id: &str, content: &str, levels: &[u8]) -> (r: Vec<AutoSubnode>)
    ensures
        r@.map_values(|s: AutoSubnode| s@) == extract_from(parent_id@, content@, levels@, 0, None),
{
    let c = chars_of(content);
    let total = content.as_bytes().len();
    let offsets = byte_offsets(&c, total);
    let has2 = levels_contain(levels, 2);
    let has3 = levels_contain(levels, 3);
    let ghost all = extract_from(parent_id@, c@, levels@, 0, None);
    let mut out: Vec<AutoSubnode> = Vec::new();
    let mut h2: Option<String> = None;
    let mut p: usize = 0;
    while p < c.len()
        invariant
            c@ == content@,
            offsets@.len() == c@.len() + 1,
            forall|i: int| 0 <= i <= c@.len() ==> #[trigger] offsets@[i] == bytes_before(c@, i),
            has2 == levels@.contains(2u8),
            has3 == levels@.contains(3u8),
            p <= c@.len() + 1,
            all == out@.map_values(|s: AutoSubnode| s@) + extract_from(
                parent_id@,
                c@,
                levels@,
                p as int,
                opt_view(h2),
            ),
        decreases c.len() + 1 - p,
    {
        let ghost hv = opt_view(h2);
        let e = exec_line_end(&c, p);
        proof {
            lemma_line_end(c@, p as int);
        }
        let body = if e < c.len() { e + 1 } else { c.len() };
        let ghost next = e + 1;
        let ghost before = out@.map_values(|s: AutoSubnode| s@);
        match heading_of(&c, p, e) {
            None => {},
            Some((l, raw)) => {
                if l == 1 {
                    h2 = None;
                } else if l == 2 && has2 {
                    let raw_s = string_from_chars(raw.as_slice());
                    let n = normalize_heading(raw_s.as_str());
                    if n.as_str().is_empty() {
                        h2 = None;
                    } else {
                        let mut path: Vec<String> = Vec::new();
                        path.push(n.clone());
                        assert(string_views(path@) =~= seq![n@]);
                        let end = if e < c.len() { exec_section_end(&c, e + 1, 2) } else { c.len() };
                        let sub = AutoSubnode {
                            id: generate_subnode_id(parent_id, path.as_slice()),
                            parent_id: String::from_str(parent_id),
                            heading_path: path,
                            anchor: raw_s,
                            content_range: (offsets[body], offsets[end]),
                        };
                        let ghost sv = sub@;
                        out.push(sub);
                        proof {
                            assert(sv == subnode_at(parent_id@, c@, seq![n@], raw@, body as int, section_end(c@, next as int, 2)));
                            assert(out@.map_values(|s: AutoSubnode| s@) =~= before.push(sv));
                            assert(before.push(sv) + extract_from(parent_id@, c@, levels@, next as int, Some(n@)) =~= before + (seq![sv] + extract_from(parent_id@, c@, levels@, next as int, Some(n@))));
                        }
                        h2 = Some(n);
                    }
                } else if l == 3 && has3 {
                    let raw_s = string_from_chars(raw.as_slice());
                    let n = normalize_heading(raw_s.as_str());
                    if !n.as_str().is_empty() {
                        let mut path: Vec<String> = Vec::new();
                        match &h2 {
                            Some(x) => {
                                path.push(x.clone());
                            },
                            None => {},
                        }
                        path.push(n);
                        let ghost pv = string_views(path@);
                        proof {
                            match hv {
                                Some(x) => {
                                    assert(pv =~= seq![x, n@]);
                                },
                                None => {
                                    assert(pv =~= seq![n@]);
                                },
                            }
                        }
                        let end = if e < c.len() { exec_section_end(&c, e + 1, 3) } else { c.len() };
                        let sub = AutoSubnode {
                            id: generate_subnode_id(parent_id, path.as_slice()),
                            parent_id: String::from_str(parent_id),
                            heading_path: path,
                            anchor: raw_s,
                            content_range: (offsets[body], offsets[end]),
                        };
                        let ghost sv = sub@;
                        out.push(sub);
                        proof {
                            assert(sv == subnode_at(parent_id@, c@, pv, raw@, body as int, section_end(c@, next as int, 3)));
                            assert(out@.map_values(|s: AutoSubnode| s@) =~= before.push(sv));
                            assert(before.push(sv) + extract_from(parent_id@, c@, levels@, next as int, hv) =~= before + (seq![sv] + extract_from(parent_id@, c@, levels@, next as int, hv)));
                        }
                    }
                }
            },
        }
        proof {
            if e >= c.len() {
                assert(extract_from(parent_id@, c@, levels@, next, opt_view(h2)) =~= Seq::<SubnodeView>::empty());
                assert(extract_from(parent_id@, c@, levels@, c@.len() as int, opt_view(h2)) =~= Seq::<SubnodeView>::empty());
            }
        }
        p = if e < c.len() { e + 1 } else { c.len() };
    }
    proof {
        assert(extract_from(parent_id@, c@, levels@, p as int, opt_view(h2)) =~= Seq::<SubnodeView>::empty());
        assert(out@.map_values(|s: AutoSubnode| s@) + Seq::<SubnodeView>::empty() =~= out@.map_values(|s: AutoSubnode| s@));
    }
    out
}


/// How a subnode came to be.
#[derive(Debug, Clone, Copy, PartialEq, Eq, Structural)]
pub enum SubnodeKind {
    /// Generated from a heading: the fragment is 16 lowercase hexadecimal digits.
    AutoGenerated,
    /// Declared in the graph file.
    Explicit,
}

/// The fragment of `id` after its last `#` (the whole id when it has none).
pub open spec fn fragment_of(id: Seq<char>) -> Seq<char>
    decreases id.len(),
{
    if id.len() == 0 {
        id
    } else if id.last() == '#' {
        Seq::empty()
    } else if id.drop_last().contains('#') {
        fragment_of(id.drop_last()).push(id.last())
    } else {
        id
    }
}

/// The kind of subnode that `id` names: automatically generated when the part after
/// its last `#` is an automatic fragment, explicit otherwise.
pub fn classify_subnode_kind(id: &str) -> (k: SubnodeKind)
    ensures
        k == (if id@.contains('#') && auto_fragment(fragment_of(id@)) {
            SubnodeKind::AutoGenerated
        } else {
            SubnodeKind::Explicit
        }),
{
    let v = chars_of(id);
    let mut i: usize = v.len();
    while i > 0 && v[i - 1] != '#'
        invariant
            v@ == id@,
            i <= v@.len(),
            forall|j: int| i <= j < v@.len() ==> v@[j] != '#',
        decreases i,
    {
        i = i - 1;
    }
    if i == 0 {
        assert(!id@.contains('#')) by {
            if id@.contains('#') {
                let j = choose|j: int| 0 <= j < id@.len() && id@[j] == '#';
                assert(v@[j] != '#');
            }
        }
        return SubnodeKind::Explicit;
    }
    let mut frag: Vec<char> = Vec::new();
    let mut k = i;
    while k < v.len()
        invariant
            i <= k <= v@.len(),
            frag@ == v@.subrange(i as int, k as int),
        decreases v.len() - k,
    {
        frag.push(v[k]);
        assert(frag@ =~= v@.subrange(i as int, k + 1));
        k = k + 1;
    }
    proof {
        lemma_fragment_of(v@, i as int);
        assert(id@.contains('#')) by {
            assert(id@[i - 1] == '#');
        }
    }
    let f = string_from_chars(frag.as_slice());
    if is_auto_generated_fragment(f.as_str()) {
        SubnodeKind::AutoGenerated
    } else {
        SubnodeKind::Explicit
    }
}

proof fn lemma_fragment_of(s: Seq<char>, i: int)
    requires
        0 < i <= s.len(),
        s[i - 1] == '#',
        forall|j: int| i <= j < s.len() ==> s[j] != '#',
    ensures
        fragment_of(s) == s.subrange(i, s.len() as int),
    decreases s.len(),
{
    if i == s.len() {
        assert(s.subrange(i, s.len() as int) =~= Seq::<char>::empty());
    } else {
        let d = s.drop_last();
        assert(d[i - 1] == '#');
        assert(d.contains('#'));
        lemma_fragment_of(d, i);
        assert(s.subrange(i, s.len() as int) =~= d.subrange(i, d.len() as int).push(s.last()));
    }
}

/// The parent-child edges of a graph, in edge order.
pub fn parent_child_edges(graph: &crate::graph::TraceGraph) -> (r: Vec<crate::graph::Edge>)
    ensures
        r@.map_values(|e: crate::graph::Edge| (e.from@, e.to@, e.kind)) == parent_child_of(graph.edge_seq()),
{
    let edges = graph.edges();
    let mut out: Vec<crate::graph::Edge> = Vec::new();
    let mut i: usize = 0;
    while i < edges.len()
        invariant
            i <= edges@.len(),
            edges@ == graph.edge_seq(),
            out@.map_values(|e: crate::graph::Edge| (e.from@, e.to@, e.kind)) == parent_child_of(edges@.take(i as int)),
        decreases edges.len() - i,
    {
        proof {
            assert(edges@.take(i + 1).drop_last() =~= edges@.take(i as int));
            assert(edges@.take(i + 1).last() == edges@[i as int]);
        }
        if edges[i].kind == crate::graph::EdgeKind::ParentChild {
            let ghost before = out@.map_values(|e: crate::graph::Edge| (e.from@, e.to@, e.kind));
            let e = crate::graph::Edge { from: edges[i].from.clone(), to: edges[i].to.clone(), kind: edges[i].kind };
            out.push(e);
            assert(out@.map_values(|e: crate::graph::Edge| (e.from@, e.to@, e.kind)) =~= before.push((edges@[i as int].from@, edges@[i as int].to@, edges@[i as int].kind)));
        }
        i = i + 1;
    }
    assert(edges@.take(edges@.len() as int) =~= edges@);
    out
}

/// The parent-child edges of `edges` as plain values, in order.
pub open spec fn parent_child_of(edges: Seq<crate::graph::Edge>) -> Seq<(Seq<char>, Seq<char>, crate::graph::EdgeKind)>
    decreases edges.len(),
{
    if edges.len() == 0 {
        Seq::empty()
    } else if edges.last().kind == crate::graph::EdgeKind::ParentChild {
        parent_child_of(edges.drop_last()).push((edges.last().from@, edges.last().to@, edges.last().kind))
    } else {
        parent_child_of(edges.drop_last())
    }
}

} // verus!
