use vstd::prelude::*;

use crate::ctx::compiler::opt_str;
use crate::embed::content::{sha256_hex, sha256_hex_of};
use crate::embed::error::EmbedError;

verus! {

/// The embedding of one node. `embedding` holds the vector as stored: its `f32`
/// components as little-endian bytes.
#[derive(Debug, Clone, PartialEq)]
pub struct EmbedResult {
    pub embedding: Vec<u8>,
    pub dim: usize,
    pub model_version: String,
    pub content_hash: String,
    pub context: Option<String>,
    pub context_hash: Option<String>,
}

/// The embedding model of a run: its version key and the dimension of its vectors.
/// The vectors themselves are computed by the model runtime.
pub struct Embedder {
    model_version: String,
    dim: usize,
}

/// The context that an embedding records: a non-empty context as given, else none.
pub open spec fn kept_context(context: Option<&str>) -> Option<Seq<char>> {
    match context {
        Some(c) => if c@.len() > 0 { Some(c@) } else { None },
        None => None,
    }
}

/// The hash of the recorded context.
pub open spec fn kept_context_hash(context: Option<&str>) -> Option<Seq<char>> {
    match kept_context(context) {
        Some(c) => Some(sha256_hex_of(c)),
        None => None,
    }
}

impl Embedder {
    /// The version key of the model.
    pub closed spec fn version(&self) -> Seq<char> {
        self.model_version@
    }

    /// The dimension of the vectors.
    pub closed spec fn dimension(&self) -> usize {
        self.dim
    }

    /// The embedder of a model directory, given where its `model.onnx` and
    /// `tokenizer.json` are and whether they exist: a missing file is a load failure
    /// naming it. This library links no ONNX runtime, so a present model cannot be
    /// loaded and its output shape cannot be checked: that is a shape failure.
    pub fn new(model_version: &str, onnx_path: &str, onnx_exists: bool, tokenizer_path: &str, tokenizer_exists: bool) -> (r:
        Result<Embedder, EmbedError>)
        ensures
            !onnx_exists ==> (r matches Err(EmbedError::ModelLoadFailed { path, reason }) && path@ == onnx_path@
                && reason@ == "model.onnx not found"@),
            onnx_exists && !tokenizer_exists ==> (r matches Err(EmbedError::ModelLoadFailed { path, reason })
                && path@ == tokenizer_path@ && reason@ == "tokenizer.json not found"@),
            onnx_exists && tokenizer_exists ==> (r matches Err(EmbedError::ModelShapeInvalid { reason }) && reason@
                == "onnx backend not compiled (feature \"onnx\" disabled)"@),
    {
        let _ = model_version;
        if !onnx_exists {
            return Err(
                EmbedError::ModelLoadFailed {
                    path: String::from_str(onnx_path),
                    reason: String::from_str("model.onnx not found"),
                },
            );
        }
        if !tokenizer_exists {
            return Err(
                EmbedError::ModelLoadFailed {
                    path: String::from_str(tokenizer_path),
                    reason: String::from_str("tokenizer.json not found"),
                },
            );
        }
        Err(EmbedError::ModelShapeInvalid { reason: String::from_str("onnx backend not compiled (feature \"onnx\" disabled)") })
    }

    /// An embedder for `model_version` and `dim` that holds no model session.
    pub fn stub(model_version: &str, dim: usize) -> (r: Embedder)
        ensures
            r.version() == model_version@,
            r.dimension() == dim,
    {
        Embedder { model_version: String::from_str(model_version), dim }
    }

    /// The dimension of the vectors.
    pub fn dim(&self) -> (r: usize)
        ensures
            r == self.dimension(),
    {
        self.dim
    }

    /// The version key of the model.
    pub fn model_version(&self) -> (r: &str)
        ensures
            r@ == self.version(),
    {
        self.model_version.as_str()
    }

    /// The embedding of `text` whose vector the model gave as `embedding`: the content
    /// hash is the SHA-256 of the text itself (a context never changes it), and a
    /// non-empty `context` is recorded with its SHA-256. Never fails, for an empty text
    /// too.
    pub fn embed_node(&self, text: &str, context: Option<&str>, node_id: &str, embedding: Vec<u8>) -> (r: Result<
        EmbedResult,
        EmbedError,
    >)
        ensures
            r matches Ok(e) && e.embedding@ == embedding@ && e.dim == self.dimension() && e.model_version@
                == self.version() && e.content_hash@ == sha256_hex_of(text@) && opt_str(e.context)
                == kept_context(context) && opt_str(e.context_hash) == kept_context_hash(context),
    {
        let content_hash = sha256_hex(text);
        let (ctx_val, ctx_hash) = match context {
            Some(c) => {
                if c.unicode_len() > 0 {
                    (Some(String::from_str(c)), Some(sha256_hex(c)))
                } else {
                    (None, None)
                }
            },
            None => (None, None),
        };
        Ok(
            EmbedResult {
                embedding,
                dim: self.dim,
                model_version: self.model_version.clone(),
                content_hash,
                context: ctx_val,
                context_hash: ctx_hash,
            },
        )
    }
}

} // verus!
