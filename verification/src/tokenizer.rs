use vstd::prelude::*;

verus! {

/// Failure of the external tokenizer: the text could not be encoded.
/// No partial dataset is produced when this is returned.
#[derive(Clone, Copy, PartialEq, Eq, Structural, Debug)]
pub struct TokenizationError;

/// The token ids that the r50k byte-pair encoder assigns to a text.
/// The encoder is built from a fixed embedded vocabulary, so the ids
/// are a function of the characters alone.
pub uninterp spec fn encode_of(s: Seq<char>) -> Seq<u32>;

/// Whether the r50k byte-pair encoder can encode a text. The encoder is
/// deterministic, so success too is a function of the characters alone.
pub uninterp spec fn encode_ok_of(s: Seq<char>) -> bool;

/// Relies on tiktoken_rs::r50k_base and tiktoken_rs::CoreBPE::encode with
/// every special token allowed (the same set that
/// CoreBPE::encode_with_special_tokens passes): both build on a fixed
/// embedded vocabulary and have no other state, so whether the encoding
/// succeeds, and the ids it yields, depend on the text alone.
#[verifier::external_body]
pub(crate) fn encode_text(text: &str) -> (r: Result<Vec<u32>, TokenizationError>)
    ensures
        r is Ok <==> encode_ok_of(text@),
        r matches Ok(ids) ==> ids@ == encode_of(text@),
{
    let bpe = match tiktoken_rs::r50k_base() {
        Ok(b) => b,
        Err(_) => return Err(TokenizationError),
    };
    let allowed = bpe.special_tokens();
    match bpe.encode(text, &allowed) {
        Ok((ids, _)) => Ok(ids),
        Err(_) => Err(TokenizationError),
    }
}

} // verus!
