//! Checks on the embedding service's reply: the vector that a chunk is
//! indexed with must exist and have the model's dimension, or cosine
//! similarities between vectors of different sizes would be meaningless.
use vstd::prelude::*;
use vstd::string::StringExecFns;
use crate::render::{decimal, decimal_string};

verus! {

/// The dimension of the vectors of the embedding model.
pub const EMBED_DIM: usize = 768;

/// The error for a reply without any embedding.
pub const NO_EMBEDDING: &'static str = "ollama returned no embedding";

/// The start of the error for a vector of the wrong dimension.
pub const DIMENSION_MISMATCH: &'static str = "embedding dimension mismatch: expected 768, got ";

/// Why a reply whose first vector has `dim` entries (`None`: no vector)
/// cannot be used, if it cannot.
pub open spec fn reply_error(dim: Option<usize>) -> Option<Seq<char>> {
    match dim {
        None => Some(NO_EMBEDDING@),
        Some(n) => if n == EMBED_DIM {
            None
        } else {
            Some(DIMENSION_MISMATCH@ + decimal(n as nat))
        },
    }
}

/// Check the embedding service's reply, given the length of its first
/// vector (`None` when it returned none): `Ok` exactly when that vector has
/// the model's dimension, else the error message.
pub fn check_embedding_reply(first_dim: Option<usize>) -> (r: Result<(), String>)
    ensures
        r is Ok <==> reply_error(first_dim) is None,
        r matches Err(e) ==> Some(e@) == reply_error(first_dim),
        r is Ok <==> first_dim == Some(768usize),
{
    proof {
        law_only_model_dimension_accepted();
    }
    match first_dim {
        None => Err(String::from_str(NO_EMBEDDING)),
        Some(n) => {
            if n == EMBED_DIM {
                Ok(())
            } else {
                let mut msg = String::from_str(DIMENSION_MISMATCH);
                msg.append(decimal_string(n as u64).as_str());
                Err(msg)
            }
        },
    }
}

/// Law: a reply is accepted exactly when its vector has 768 entries; a
/// reply without a vector, or with a vector of any other length, is refused
/// with a message that names the expected and the received dimension.
pub proof fn law_only_model_dimension_accepted()
    ensures
        reply_error(None) == Some("ollama returned no embedding"@),
        forall|n: usize| #[trigger] reply_error(Some(n)) is None <==> n == 768,
        forall|n: usize| n != 768 ==> #[trigger] reply_error(Some(n))
            == Some("embedding dimension mismatch: expected 768, got "@ + decimal(n as nat)),
{
    reveal_strlit("ollama returned no embedding");
    reveal_strlit("embedding dimension mismatch: expected 768, got ");
}

} // verus!
