//! Prompt tokenization for the T5Gemma text encoder.
use vstd::prelude::*;
use vstd::string::StringExecFns;

use crate::error::Error;
use tokenizers::Tokenizer as HfTokenizer;

verus! {

#[verifier::external_type_specification]
#[verifier::external_body]
pub struct ExHfTokenizer(HfTokenizer);

/// Metadata key under which a text encoder GGUF holds its tokenizer.
pub const TOKENIZER_JSON_KEY: &'static str = "tokenizer.huggingface.json";

/// Whether `tokenizers::Tokenizer::from_bytes` accepts the JSON text `json`.
pub uninterp spec fn tokenizer_json_accepted(json: Seq<char>) -> bool;

/// Whether the ids `ids` are an encoding that `tokenizers::Tokenizer::encode`
/// may give of `prompt` with `tokenizer`, without special tokens.
pub uninterp spec fn hf_may_encode(tokenizer: HfTokenizer, prompt: Seq<char>, ids: Seq<u32>) -> bool;

/// `tokenizers::Tokenizer::from_bytes` on the bytes of `json`: a tokenizer
/// deserialized from that JSON text, or the text of the deserialization
/// error. Deserializing depends on the text alone, so whether it succeeds is
/// named by `tokenizer_json_accepted`; nothing is claimed of the tokenizer
/// built, nor of the error text.
#[verifier::external_body]
fn hf_tokenizer_from_json(json: &str) -> (r: Result<HfTokenizer, String>)
    ensures
        r is Ok <==> tokenizer_json_accepted(json@),
{
    match HfTokenizer::from_bytes(json.as_bytes()) {
        Ok(tokenizer) => Ok(tokenizer),
        Err(err) => Err(err.to_string()),
    }
}

/// `tokenizers::Tokenizer::encode` of `prompt` without special tokens,
/// then `Encoding::get_ids`: the ids of the prompt's tokens, or the text of
/// the encoding error. The ids returned are an encoding of `prompt` by
/// `tokenizer`, as `hf_may_encode` says; which one is not claimed, since a
/// BPE model may drop merges at random, and neither is when encoding fails.
#[verifier::external_body]
fn hf_encode_ids(tokenizer: &HfTokenizer, prompt: &str) -> (r: Result<Vec<u32>, String>)
    ensures
        r matches Ok(ids) ==> hf_may_encode(*tokenizer, prompt@, ids@),
{
    match tokenizer.encode(prompt, false) {
        Ok(encoding) => Ok(encoding.get_ids().to_vec()),
        Err(err) => Err(err.to_string()),
    }
}

/// The tokenizer of the text encoder.
pub struct Tokenizer {
    inner: HfTokenizer,
}

/// Token ids of a prompt padded to a fixed length, with the mask of the
/// slots that hold a token.
#[derive(Debug, Clone)]
pub struct TokenizedPrompt {
    pub ids: Vec<u32>,
    pub mask: Vec<u32>,
    pub max_len: usize,
}

/// The first `max_len` of `ids`, padded with 0 to `max_len` slots.
pub open spec fn padded_ids(ids: Seq<u32>, max_len: int) -> Seq<u32> {
    Seq::new(max_len as nat, |i: int| if i < ids.len() { ids[i] } else { 0 })
}

/// A mask of `max_len` slots whose first `count` are 1 and the rest 0.
pub open spec fn prefix_mask(count: int, max_len: int) -> Seq<u32> {
    Seq::new(max_len as nat, |i: int| if i < count { 1 } else { 0 })
}

/// Whether `p` holds the token ids `ids` in `max_len` slots.
pub open spec fn is_padded_prompt(p: TokenizedPrompt, ids: Seq<u32>, max_len: int) -> bool {
    &&& p.ids@ == padded_ids(ids, max_len)
    &&& p.mask@ == prefix_mask(ids.len() as int, max_len)
    &&& p.max_len == max_len
}

/// Whether `p` holds, in `max_len` slots, token ids that `tokenizer` may
/// give for `prompt`.
pub open spec fn is_tokenized_prompt(p: TokenizedPrompt, tokenizer: HfTokenizer, prompt: Seq<char>, max_len: int) -> bool {
    exists|ids: Seq<u32>| #[trigger] hf_may_encode(tokenizer, prompt, ids) && is_padded_prompt(p, ids, max_len)
}

impl TokenizedPrompt {
    /// The token ids `ids` in `max_len` slots: the first `max_len` ids, the
    /// remaining slots 0 and unmasked.
    pub fn from_ids(ids: &Vec<u32>, max_len: usize) -> (p: Self)
        ensures
            is_padded_prompt(p, ids@, max_len as int),
            p.ids.len() == max_len && p.mask.len() == max_len,
            forall|i: int| 0 <= i < max_len && i < ids.len() ==> #[trigger] p.ids[i] == ids[i] && p.mask[i] == 1,
            forall|i: int| 0 <= i < max_len && i >= ids.len() ==> #[trigger] p.ids[i] == 0 && p.mask[i] == 0,
    {
        let mut padded: Vec<u32> = Vec::new();
        let mut mask: Vec<u32> = Vec::new();
        for i in 0..max_len
            invariant
                padded@ =~= padded_ids(ids@, max_len as int).take(i as int),
                mask@ =~= prefix_mask(ids.len() as int, max_len as int).take(i as int),
        {
            if i < ids.len() {
                padded.push(ids[i]);
                mask.push(1);
            } else {
                padded.push(0);
                mask.push(0);
            }
        }
        assert(padded@ =~= padded_ids(ids@, max_len as int));
        assert(mask@ =~= prefix_mask(ids.len() as int, max_len as int));
        TokenizedPrompt { ids: padded, mask, max_len }
    }
}

impl Tokenizer {
    /// The tokenizer of the `tokenizers` crate behind this one.
    pub closed spec fn model(&self) -> HfTokenizer {
        self.inner
    }

    /// The tokenizer described by the JSON text a text encoder GGUF holds
    /// under `tokenizer.huggingface.json`, when it holds one.
    pub fn from_gguf(tokenizer_json: Option<String>) -> (r: Result<Self, Error>)
        ensures
            tokenizer_json is None ==> (r matches Err(Error::MissingMetadata(key)) && key@
                == TOKENIZER_JSON_KEY@),
            tokenizer_json matches Some(j) ==> (r is Ok <==> tokenizer_json_accepted(j@)),
            tokenizer_json is Some ==> (r is Ok || r matches Err(Error::Tokenizer(_))),
    {
        match tokenizer_json {
            None => Err(Error::MissingMetadata(String::from_str(TOKENIZER_JSON_KEY))),
            Some(json) => match hf_tokenizer_from_json(json.as_str()) {
                Ok(inner) => Ok(Tokenizer { inner }),
                Err(message) => Err(Error::Tokenizer(message)),
            },
        }
    }

    /// Tokenizes `prompt` without special tokens into `max_len` slots: the
    /// first `max_len` token ids, then 0, with the mask of the slots that
    /// hold a token.
    pub fn encode_sa3_prompt(&self, prompt: &str, max_len: usize) -> (r: Result<TokenizedPrompt, Error>)
        ensures
            match r {
                Ok(p) => is_tokenized_prompt(p, self.model(), prompt@, max_len as int),
                Err(e) => e is Tokenizer,
            },
    {
        match hf_encode_ids(&self.inner, prompt) {
            Ok(ids) => {
                let p = TokenizedPrompt::from_ids(&ids, max_len);
                assert(is_padded_prompt(p, ids@, max_len as int));
                assert(hf_may_encode(self.inner, prompt@, ids@));
                assert(is_tokenized_prompt(p, self.model(), prompt@, max_len as int));
                Ok(p)
            },
            Err(message) => Err(Error::Tokenizer(message)),
        }
    }
}

/// Number of entries of `mask` that are not 0.
pub open spec fn nonzero_count(mask: Seq<u32>) -> int
    decreases mask.len(),
{
    if mask.len() == 0 {
        0
    } else {
        nonzero_count(mask.drop_last()) + if mask.last() != 0 { 1int } else { 0 }
    }
}

/// The first `count` entries of `ids` as signed ids.
pub open spec fn signed_ids(ids: Seq<u32>, count: int) -> Seq<i32> {
    Seq::new(count as nat, |i: int| ids[i] as i32)
}

/// The ids of the tokens a prompt holds, for the text encoder: as many of
/// its first ids as its mask marks, each as a signed id.
pub fn prompt_token_ids(tokens: &TokenizedPrompt) -> (ids: Vec<i32>)
    requires
        nonzero_count(tokens.mask@) <= tokens.ids.len(),
    ensures
        ids@ == signed_ids(tokens.ids@, nonzero_count(tokens.mask@)),
{
    let mut real_len: usize = 0;
    for i in 0..tokens.mask.len()
        invariant
            real_len == nonzero_count(tokens.mask@.take(i as int)),
            real_len <= i,
    {
        assert(tokens.mask@.take(i as int + 1).drop_last() =~= tokens.mask@.take(i as int));
        if tokens.mask[i] != 0 {
            real_len = real_len + 1;
        }
    }
    assert(tokens.mask@.take(tokens.mask.len() as int) =~= tokens.mask@);
    let mut ids: Vec<i32> = Vec::new();
    for i in 0..real_len
        invariant
            real_len <= tokens.ids.len(),
            ids@ =~= signed_ids(tokens.ids@, real_len as int).take(i as int),
    {
        ids.push(tokens.ids[i] as i32);
    }
    assert(ids@ =~= signed_ids(tokens.ids@, real_len as int));
    ids
}

/// A prefix mask of `count` ones in `max_len` slots marks `min(count, max_len)` slots.
pub proof fn lemma_prefix_mask_count(count: int, max_len: int)
    requires
        0 <= count,
        0 <= max_len,
    ensures
        nonzero_count(prefix_mask(count, max_len)) == vstd::math::min(count, max_len),
    decreases max_len,
{
    if max_len > 0 {
        lemma_prefix_mask_count(count, max_len - 1);
        assert(prefix_mask(count, max_len).drop_last() =~= prefix_mask(count, max_len - 1));
    }
}

/// The ids the text encoder reads from a tokenized prompt are the prompt's
/// token ids, cut to the prompt's slots.
pub proof fn lemma_prompt_ids_round_trip(p: TokenizedPrompt, ids: Seq<u32>, max_len: int)
    requires
        0 <= max_len,
        is_padded_prompt(p, ids, max_len),
    ensures
        nonzero_count(p.mask@) <= p.ids.len(),
        signed_ids(p.ids@, nonzero_count(p.mask@)) == Seq::new(
            vstd::math::min(ids.len() as int, max_len) as nat,
            |i: int| ids[i] as i32,
        ),
{
    lemma_prefix_mask_count(ids.len() as int, max_len);
    assert(signed_ids(p.ids@, nonzero_count(p.mask@)) =~= Seq::new(
        vstd::math::min(ids.len() as int, max_len) as nat,
        |i: int| ids[i] as i32,
    ));
}

} // verus!
