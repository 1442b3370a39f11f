use vstd::prelude::*;

use crate::embed::error::EmbedError;
use crate::subnode::{hex_prefix, nibble, sha256, sha256_digest};
use crate::text::{decimal, decimal_string};

verus! {

/// The preprocessing profile of a model, part of its version key.
#[derive(Debug, Clone, Copy, PartialEq, Eq, Structural)]
pub enum PreprocessProfile {
    /// No prefix (BERT-like models).
    Plain,
    /// `query:` / `passage:` prefixes (multilingual-e5 models).
    E5Prefix,
}

/// The name of a profile in a version key.
pub open spec fn profile_name(p: PreprocessProfile) -> Seq<char> {
    match p {
        PreprocessProfile::Plain => "plain"@,
        PreprocessProfile::E5Prefix => "e5"@,
    }
}

impl PreprocessProfile {
    fn as_str(&self) -> (r: &'static str)
        ensures
            r@ == profile_name(*self),
    {
        match self {
            PreprocessProfile::Plain => "plain",
            PreprocessProfile::E5Prefix => "e5",
        }
    }
}

/// The outcome of checking the output shape of a model.
#[derive(Debug, Clone, PartialEq)]
pub enum ShapeValidation {
    Valid { hidden_dim: usize },
    Invalid { reason: String },
}

/// The model version key `{model_name}:{first 8 hex digits of the SHA-256 of
/// hashed}:{profile}:{dim}`, where `hashed` is the content of the model file.
pub open spec fn model_version_key(model_name: Seq<char>, hashed: Seq<u8>, profile: PreprocessProfile, dim: nat) -> Seq<
    char,
> {
    model_name + ":"@ + hex_prefix(sha256(hashed), 4) + ":"@ + profile_name(profile) + ":"@ + decimal(dim)
}

/// The version key of a model (see `model_version_key`). The key hashes the bytes of
/// the model file when it could be read (`onnx_bytes`), and the UTF-8 text of its path
/// otherwise, so that the same file gives the same key and another path another key.
pub fn compute_model_version(
    model_name: &str,
    onnx_bytes: Option<&[u8]>,
    onnx_path: &str,
    profile: PreprocessProfile,
    dim: usize,
) -> (r: Result<String, EmbedError>)
    ensures
        r matches Ok(k) && k@ == model_version_key(
            model_name@,
            match onnx_bytes {
                Some(b) => b@,
                None => vstd::utf8::encode_utf8(onnx_path@),
            },
            profile,
            dim as nat,
        ),
{
    let digest = match onnx_bytes {
        Some(b) => sha256_digest(b),
        None => sha256_digest(onnx_path.as_bytes()),
    };
    let mut out: Vec<char> = Vec::new();
    let mut k: usize = 0;
    while k < 4
        invariant
            k <= 4,
            digest@.len() == 32,
            out@ == hex_prefix(digest@, k as int),
        decreases 4 - k,
    {
        let b = digest[k];
        out.push(nibble(b / 16));
        out.push(nibble(b % 16));
        assert(out@ =~= hex_prefix(digest@, k + 1));
        k = k + 1;
    }
    let mut key = String::from_str(model_name);
    key.append(":");
    key.append(crate::text::string_from_chars(out.as_slice()).as_str());
    key.append(":");
    key.append(profile.as_str());
    key.append(":");
    key.append(decimal_string(dim as u64).as_str());
    Ok(key)
}

} // verus!
