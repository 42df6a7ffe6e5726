use vstd::prelude::*;

use crate::ggml_runtime::layout::{gathered, gather_tokens, lemma_gathered_token, lemma_sources_fit};

verus! {

/// Output sample rate of every model, in frames per second.
pub const SAMPLE_RATE: usize = 44_100;
/// Stereo frames covered by one latent step.
pub const SAMPLES_PER_LATENT: usize = 4096;
/// Number of prompt token slots of the cross attention.
pub const PROMPT_LEN: usize = 256;
/// Width of one conditioning token.
pub const COND_DIM: usize = 768;
/// Channels of one latent step.
pub const IO_CHANNELS: usize = 256;


/// Latent steps of a clip whose length rounds up to `ceil_steps` steps: at
/// least one, and rounded up to an even count when the model needs one.
pub fn latent_length(ceil_steps: usize, require_even: bool) -> (t_lat: usize)
    requires
        ceil_steps < usize::MAX,
    ensures
        t_lat == if require_even && vstd::math::max(ceil_steps as int, 1) % 2 != 0 {
            vstd::math::max(ceil_steps as int, 1) + 1
        } else {
            vstd::math::max(ceil_steps as int, 1)
        },
{
    let mut t_lat = if ceil_steps > 1 { ceil_steps } else { 1 };
    if require_even && t_lat % 2 != 0 {
        t_lat = t_lat + 1;
    }
    t_lat
}

/// Entry `t` of a token mask, reading 0 past its end.
pub open spec fn mask_at(mask: Seq<u32>, t: int) -> u32 {
    if t < mask.len() {
        mask[t]
    } else {
        0
    }
}

/// Sources of the cross-attention tokens over `[pad, seconds, prompt tokens...]`:
/// each of the 256 prompt slots takes its prompt token when the mask marks
/// it and the padding token otherwise; the seconds token comes last.
pub open spec fn cross_attn_plan(mask: Seq<u32>) -> Seq<usize> {
    Seq::new(
        (PROMPT_LEN + 1) as nat,
        |t: int| if t == PROMPT_LEN { 1usize } else if mask_at(mask, t) != 0 { (t + 2) as usize } else { 0usize },
    )
}

/// Lays out the cross-attention conditioning: for each of the 256 prompt
/// slots the embedding of its token when the mask marks it, else the
/// padding embedding, then the seconds embedding; 768 values each.
pub fn assemble_cross_attn<T: Copy>(
    mask: &Vec<u32>,
    prompt_embeddings: &Vec<T>,
    pad: &Vec<T>,
    seconds_embed: &Vec<T>,
) -> (cross_attn: Vec<T>)
    requires
        pad.len() == COND_DIM,
        seconds_embed.len() == COND_DIM,
        forall|t: int| 0 <= t < PROMPT_LEN && mask_at(mask@, t) != 0 ==> (t + 1) * COND_DIM <= prompt_embeddings.len(),
        prompt_embeddings.len() <= usize::MAX - 2 * COND_DIM,
    ensures
        cross_attn.len() == (PROMPT_LEN + 1) * COND_DIM,
        forall|t: int, ch: int|
            0 <= t < PROMPT_LEN && 0 <= ch < COND_DIM ==> #[trigger] cross_attn[t * 768 + ch] == if mask_at(mask@, t)
                != 0 {
                prompt_embeddings[t * 768 + ch]
            } else {
                pad[ch]
            },
        forall|ch: int| 0 <= ch < COND_DIM ==> #[trigger] cross_attn[256 * 768 + ch] == seconds_embed[ch],
{
    let mut combined: Vec<T> = Vec::new();
    for i in 0..pad.len()
        invariant
            combined@ == pad@.take(i as int),
    {
        combined.push(pad[i]);
    }
    for i in 0..seconds_embed.len()
        invariant
            combined@ == pad@ + seconds_embed@.take(i as int),
    {
        combined.push(seconds_embed[i]);
    }
    for i in 0..prompt_embeddings.len()
        invariant
            prompt_embeddings.len() <= usize::MAX - 2 * COND_DIM,
            combined@ == pad@ + seconds_embed@ + prompt_embeddings@.take(i as int),
    {
        combined.push(prompt_embeddings[i]);
    }
    assert(pad@ + seconds_embed@ + prompt_embeddings@.take(prompt_embeddings.len() as int) == pad@ + seconds_embed@
        + prompt_embeddings@);
    let mut sources: Vec<usize> = Vec::new();
    for t in 0..PROMPT_LEN + 1
        invariant
            sources@ =~= cross_attn_plan(mask@).take(t as int),
    {
        let marked = if t < mask.len() { mask[t] != 0 } else { false };
        let source = if t == PROMPT_LEN {
            1
        } else if marked {
            t + 2
        } else {
            0
        };
        sources.push(source);
    }
    proof {
        assert(sources@ =~= cross_attn_plan(mask@));
        assert forall|j: int| 0 <= j < sources.len() implies (#[trigger] sources[j] + 1) * 768 <= combined.len() by {
            if j < PROMPT_LEN && mask_at(mask@, j) != 0 {
                assert((j + 3) * 768 == (j + 1) * 768 + 2 * 768);
            }
        }
    }
    let cross_attn = gather_tokens(&combined, COND_DIM, &sources);
    proof {
        assert forall|t: int, ch: int| 0 <= t < PROMPT_LEN && 0 <= ch < COND_DIM implies #[trigger] cross_attn[t * 768 + ch]
            == if mask_at(mask@, t) != 0 {
            prompt_embeddings[t * 768 + ch]
        } else {
            pad[ch]
        } by {
            lemma_gathered_token(combined@, 768, sources@, t, ch);
            if mask_at(mask@, t) != 0 {
                assert((t + 2) * 768 + ch == 2 * 768 + (t * 768 + ch));
            }
        }
        assert forall|ch: int| 0 <= ch < COND_DIM implies #[trigger] cross_attn[256 * 768 + ch] == seconds_embed[ch] by {
            lemma_gathered_token(combined@, 768, sources@, 256, ch);
        }
    }
    cross_attn
}

} // verus!
