use vstd::prelude::*;

use regex::Regex;

verus! {

/// Failure of the embedding layer, as far as the feedback loop reads it.
#[derive(Debug, Clone, PartialEq, Eq)]
pub enum EmbedError {
    /// Contextual retrieval failed for a node.
    ContextualRetrievalFailed { node_id: String, detail: String },
    /// Any other embedding failure.
    Other(String),
}

/// Whether `regex::Regex::new` accepts `pattern`.
pub uninterp spec fn regex_compiles(pattern: Seq<char>) -> bool;

/// What `regex::Regex::replace_all` gives for `text` with the compiled `pattern`
/// and the replacement `replacement`.
pub uninterp spec fn regex_replaced(pattern: Seq<char>, text: Seq<char>, replacement: Seq<char>) -> Seq<char>;

/// `regex::Regex::new(pattern)` followed by `replace_all(text, replacement)`: `None`
/// exactly when the pattern does not compile, else the text with every
/// non-overlapping match replaced.
#[verifier::external_body]
fn replace_all_matches(pattern: &str, text: &str, replacement: &str) -> (r: Option<String>)
    ensures
        match r {
            Some(s) => regex_compiles(pattern@) && s@ == regex_replaced(pattern@, text@, replacement@),
            None => !regex_compiles(pattern@),
        },
{
    match Regex::new(pattern) {
        Ok(re) => Some(re.replace_all(text, replacement).into_owned()),
        Err(_) => None,
    }
}

/// The credential patterns, most specific first.
pub open spec fn credential_patterns() -> Seq<Seq<char>> {
    seq![
        "sk-ant-[A-Za-z0-9_\\-]{6,}"@,
        "sk-[A-Za-z0-9_\\-]{6,}"@,
        "AIza[0-9A-Za-z_\\-]{35}"@,
        "Bearer\\s+[A-Za-z0-9_\\-\\.=/+]{20,}"@
    ]
}

/// The text that replaces a credential.
pub open spec fn redaction() -> Seq<char> {
    "***REDACTED***"@
}

/// `text` after replacing the matches of the first `n` patterns, in order.
pub open spec fn masked_with(patterns: Seq<Seq<char>>, text: Seq<char>) -> Seq<char>
    decreases patterns.len(),
{
    if patterns.len() == 0 {
        text
    } else {
        let before = masked_with(patterns.drop_last(), text);
        if regex_compiles(patterns.last()) {
            regex_replaced(patterns.last(), before, redaction())
        } else {
            before
        }
    }
}

/// Masks credentials (API keys, bearer tokens) in a message: each credential
/// pattern in turn has its matches replaced by the redaction text.
pub fn mask_api_key(message: &str) -> (r: String)
    ensures
        r@ == masked_with(credential_patterns(), message@),
{
    let patterns: [&str; 4] = [
        "sk-ant-[A-Za-z0-9_\\-]{6,}",
        "sk-[A-Za-z0-9_\\-]{6,}",
        "AIza[0-9A-Za-z_\\-]{35}",
        "Bearer\\s+[A-Za-z0-9_\\-\\.=/+]{20,}",
    ];
    let ghost ps = credential_patterns();
    let mut out = String::from_str(message);
    let mut i: usize = 0;
    while i < 4
        invariant
            i <= 4,
            ps == credential_patterns(),
            forall|j: int| 0 <= j < 4 ==> (#[trigger] patterns@[j])@ == ps[j],
            out@ == masked_with(ps.take(i as int), message@),
        decreases 4 - i,
    {
        proof {
            assert(ps.take(i + 1).drop_last() =~= ps.take(i as int));
            assert(ps.take(i + 1).last() == ps[i as int]);
        }
        match replace_all_matches(patterns[i], out.as_str(), "***REDACTED***") {
            Some(s) => {
                out = s;
            },
            None => {},
        }
        i = i + 1;
    }
    assert(ps.take(4) =~= ps);
    out
}

} // verus!
