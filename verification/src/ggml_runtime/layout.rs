//! Token layouts of the SAME encoder and decoder. A token buffer holds its
//! tokens one after the other, `dim` values each.
use vstd::prelude::*;
use vstd::string::StringExecFns;

use crate::error::{decimal, ggml_error, incomplete_error, is_ggml_error, is_incomplete_error, usize_to_decimal, Error};

verus! {

/// Tokens of the encoder and decoder windows per latent step.
pub const SUB_CHUNK: usize = 17;
/// Patch tokens per latent step.
pub const PATCHES_PER_LATENT: usize = 16;
/// Tokens of one attention window.
pub const WINDOW: usize = 34;

/// The tokens of `src` named by `sources`, in that order.
pub open spec fn gathered<T>(src: Seq<T>, dim: int, sources: Seq<usize>) -> Seq<T> {
    Seq::new((sources.len() * dim) as nat, |k: int| src[sources[k / dim] * dim + k % dim])
}

/// Value `ch` of token `t` sits at `t * dim + ch`, and only there.
pub proof fn lemma_token_position(t: int, ch: int, dim: int)
    requires
        0 <= t,
        0 <= ch < dim,
    ensures
        (t * dim + ch) / dim == t,
        (t * dim + ch) % dim == ch,
{
    vstd::arithmetic::div_mod::lemma_fundamental_div_mod_converse(t * dim + ch, dim, t, ch);
}

/// Every position of a buffer of `count` tokens belongs to one of them.
pub proof fn lemma_position_token(k: int, dim: int, count: int)
    requires
        0 < dim,
        0 <= k < count * dim,
    ensures
        k == (k / dim) * dim + k % dim,
        0 <= k / dim < count,
        0 <= k % dim < dim,
{
    vstd::arithmetic::div_mod::lemma_fundamental_div_mod(k, dim);
    vstd::arithmetic::mul::lemma_mul_is_commutative(dim, k / dim);
    vstd::arithmetic::div_mod::lemma_div_pos_is_pos(k, dim);
    vstd::arithmetic::div_mod::lemma_mod_pos_bound(k, dim);
    if k / dim >= count {
        vstd::arithmetic::mul::lemma_mul_inequality(count, k / dim, dim);
    }
}

/// Token `t` of the gathered buffer is token `sources[t]` of `src`.
pub proof fn lemma_gathered_token<T>(src: Seq<T>, dim: int, sources: Seq<usize>, t: int, ch: int)
    requires
        0 <= t < sources.len(),
        0 <= ch < dim,
    ensures
        gathered(src, dim, sources)[t * dim + ch] == src[sources[t] * dim + ch],
        t * dim + ch < sources.len() * dim,
{
    lemma_token_position(t, ch, dim);
    vstd::arithmetic::mul::lemma_mul_inequality(t + 1, sources.len() as int, dim);
    vstd::arithmetic::mul::lemma_mul_is_distributive_add_other_way(dim, t, 1);
}

/// Copies the tokens of `src` named by `sources`, in that order.
pub fn gather_tokens<T: Copy>(src: &Vec<T>, dim: usize, sources: &Vec<usize>) -> (out: Vec<T>)
    requires
        sources.len() * dim <= usize::MAX,
        forall|j: int| 0 <= j < sources.len() ==> (#[trigger] sources[j] + 1) * dim <= src.len(),
    ensures
        out@ == gathered(src@, dim as int, sources@),
{
    let mut out: Vec<T> = Vec::new();
    assert(0 * dim == 0) by (nonlinear_arith);
    for t in 0..sources.len()
        invariant
            sources.len() * dim <= usize::MAX,
            forall|j: int| 0 <= j < sources.len() ==> (#[trigger] sources[j] + 1) * dim <= src.len(),
            out.len() == t * dim,
            forall|k: int| 0 <= k < out.len() ==> out[k] == src[sources[k / dim as int] * dim + k % dim as int],
    {
        let base = sources[t];
        proof {
            vstd::arithmetic::mul::lemma_mul_is_distributive_add_other_way(dim as int, base as int, 1);
            vstd::arithmetic::mul::lemma_mul_inequality(t as int + 1, sources.len() as int, dim as int);
            vstd::arithmetic::mul::lemma_mul_is_distributive_add_other_way(dim as int, t as int, 1);
        }
        for ch in 0..dim
            invariant
                t < sources.len(),
                base == sources[t as int],
                (base + 1) * dim <= src.len(),
                base * dim + dim == (base + 1) * dim,
                t * dim + dim <= sources.len() * dim,
                out.len() == t * dim + ch,
                forall|k: int| 0 <= k < out.len() ==> out[k] == src[sources[k / dim as int] * dim + k % dim as int],
        {
            proof {
                lemma_token_position(t as int, ch as int, dim as int);
            }
            out.push(src[base * dim + ch]);
        }
    }
    assert(out@ =~= gathered(src@, dim as int, sources@));
    out
}


/// Token `j` of `n` tokens padded on both sides by `shift` tokens: the first
/// `shift` tokens repeat the first ones, the last `shift` tokens repeat the
/// last ones.
pub open spec fn shift_pad_source(n: int, shift: int, j: int) -> int {
    if j < shift {
        j
    } else if j < shift + n {
        j - shift
    } else {
        j - 2 * shift
    }
}

/// Sources of the `n + 2 * shift` tokens of a shift-padded buffer.
pub open spec fn shift_pad_plan(n: int, shift: int) -> Seq<usize> {
    Seq::new((n + 2 * shift) as nat, |j: int| shift_pad_source(n, shift, j) as usize)
}

/// Sources of the `n` tokens left when `shift` tokens are dropped at each side.
pub open spec fn crop_plan(n: int, shift: int) -> Seq<usize> {
    Seq::new(n as nat, |j: int| (j + shift) as usize)
}

/// Sources of the decoder's sequence of `t_lat` latent steps: each step is
/// its latent token followed by 16 copies of the learned token, which sits
/// after the latent tokens.
pub open spec fn decoder_interleave_plan(t_lat: int) -> Seq<usize> {
    Seq::new((t_lat * 17) as nat, |j: int| if j % 17 == 0 { (j / 17) as usize } else { t_lat as usize })
}

/// Sources of the encoder's sequence of `t_lat` latent steps: each step is
/// its 16 patch tokens followed by the learned token, which sits after the
/// patch tokens.
pub open spec fn encoder_interleave_plan(t_lat: int) -> Seq<usize> {
    Seq::new(
        (t_lat * 17) as nat,
        |j: int| if j % 17 < 16 { ((j / 17) * 16 + j % 17) as usize } else { (t_lat * 16) as usize },
    )
}

/// Sources of the 16 patch tokens of each of `t_lat` decoded latent steps:
/// every token of the step but the first.
pub open spec fn decoder_select_plan(t_lat: int) -> Seq<usize> {
    Seq::new((t_lat * 16) as nat, |j: int| ((j / 16) * 17 + 1 + j % 16) as usize)
}

/// Sources of the latent token of each of `t_lat` encoded latent steps: the
/// last token of the step.
pub open spec fn encoder_select_plan(t_lat: int) -> Seq<usize> {
    Seq::new(t_lat as nat, |j: int| (j * 17 + 16) as usize)
}

/// Source tokens that all lie among the first `count` tokens fit in a buffer
/// of `count` tokens.
pub proof fn lemma_sources_fit(sources: Seq<usize>, count: int, dim: int)
    requires
        0 <= dim,
        forall|j: int| 0 <= j < sources.len() ==> #[trigger] sources[j] < count,
    ensures
        forall|j: int| 0 <= j < sources.len() ==> (#[trigger] sources[j] + 1) * dim <= count * dim,
{
    assert forall|j: int| 0 <= j < sources.len() implies (#[trigger] sources[j] + 1) * dim <= count * dim by {
        vstd::arithmetic::mul::lemma_mul_inequality(sources[j] + 1, count, dim);
    }
}

/// `count * dim` values fit whenever `count` is at most `bound` and
/// `bound * dim` values fit.
pub proof fn lemma_count_fits(count: int, bound: int, dim: int)
    requires
        0 <= count <= bound,
        0 <= dim,
    ensures
        count * dim <= bound * dim,
{
    vstd::arithmetic::mul::lemma_mul_inequality(count, bound, dim);
}

/// The first `count` tokens of a buffer.
fn take_tokens<T: Copy>(src: &Vec<T>, len: usize) -> (out: Vec<T>)
    requires
        len <= src.len(),
    ensures
        out@ == src@.take(len as int),
{
    let mut out: Vec<T> = Vec::new();
    for i in 0..len
        invariant
            len <= src.len(),
            out@ == src@.take(i as int),
    {
        out.push(src[i]);
    }
    out
}

/// Pads `n` tokens on both sides by `shift` tokens: the first `shift`
/// tokens repeat at the front and the last `shift` tokens at the back.
pub fn shift_pad_tokens<T: Copy>(tokens: &Vec<T>, dim: usize, n: usize, shift: usize) -> (out: Vec<T>)
    requires
        shift <= n,
        n * dim <= tokens.len(),
        n + 2 * shift <= usize::MAX,
        (n + 2 * shift) * dim <= usize::MAX,
    ensures
        out@ == gathered(tokens@, dim as int, shift_pad_plan(n as int, shift as int)),
        out.len() == (n + 2 * shift) * dim,
        forall|j: int, ch: int|
            0 <= j < shift && 0 <= ch < dim ==> #[trigger] out[j * dim + ch] == tokens[j * dim + ch],
        forall|j: int, ch: int|
            0 <= j < n && 0 <= ch < dim ==> #[trigger] out[(shift + j) * dim + ch] == tokens[j * dim + ch],
        forall|j: int, ch: int|
            0 <= j < shift && 0 <= ch < dim ==> #[trigger] out[(shift + n + j) * dim + ch] == tokens[(n - shift
                + j) * dim + ch],
{
    proof {
        lemma_shift_pad_layout(tokens@, dim as int, n as int, shift as int);
    }
    let mut sources: Vec<usize> = Vec::new();
    for j in 0..n + 2 * shift
        invariant
            shift <= n,
            n + 2 * shift <= usize::MAX,
            sources@ =~= shift_pad_plan(n as int, shift as int).take(j as int),
    {
        let source = if j < shift { j } else if j < shift + n { j - shift } else { j - 2 * shift };
        sources.push(source);
    }
    proof {
        assert(sources@ =~= shift_pad_plan(n as int, shift as int));
        lemma_sources_fit(sources@, n as int, dim as int);
    }
    gather_tokens(tokens, dim, &sources)
}

/// A shift-padded buffer of `n` tokens holds, in order, the first `shift`
/// tokens, all `n` tokens, then the last `shift` tokens.
pub proof fn lemma_shift_pad_layout<T>(tokens: Seq<T>, dim: int, n: int, shift: int)
    requires
        0 <= dim,
        0 <= shift <= n,
        n + 2 * shift <= usize::MAX,
    ensures
        ({
            let out = gathered(tokens, dim, shift_pad_plan(n, shift));
            &&& out.len() == (n + 2 * shift) * dim
            &&& forall|j: int, ch: int|
                0 <= j < shift && 0 <= ch < dim ==> #[trigger] out[j * dim + ch] == tokens[j * dim + ch]
            &&& forall|j: int, ch: int|
                0 <= j < n && 0 <= ch < dim ==> #[trigger] out[(shift + j) * dim + ch] == tokens[j * dim + ch]
            &&& forall|j: int, ch: int|
                0 <= j < shift && 0 <= ch < dim ==> #[trigger] out[(shift + n + j) * dim + ch] == tokens[(n
                    - shift + j) * dim + ch]
        }),
{
    let plan = shift_pad_plan(n, shift);
    let out = gathered(tokens, dim, plan);
    assert forall|j: int, ch: int| 0 <= j < shift && 0 <= ch < dim implies #[trigger] out[j * dim + ch]
        == tokens[j * dim + ch] by {
        lemma_gathered_token(tokens, dim, plan, j, ch);
        assert(plan[j] == j);
    }
    assert forall|j: int, ch: int| 0 <= j < n && 0 <= ch < dim implies #[trigger] out[(shift + j) * dim + ch]
        == tokens[j * dim + ch] by {
        lemma_gathered_token(tokens, dim, plan, shift + j, ch);
        assert(plan[shift + j] == j);
    }
    assert forall|j: int, ch: int| 0 <= j < shift && 0 <= ch < dim implies #[trigger] out[(shift + n + j) * dim
        + ch] == tokens[(n - shift + j) * dim + ch] by {
        lemma_gathered_token(tokens, dim, plan, shift + n + j, ch);
        assert(plan[shift + n + j] == n - shift + j);
    }
}

/// Drops `shift` tokens at each side of `n + 2 * shift` tokens.
pub fn crop_tokens<T: Copy>(tokens: &Vec<T>, dim: usize, n: usize, shift: usize) -> (out: Vec<T>)
    requires
        n + shift <= usize::MAX,
        (n + shift) * dim <= tokens.len(),
    ensures
        out@ == gathered(tokens@, dim as int, crop_plan(n as int, shift as int)),
        out.len() == n * dim,
        forall|j: int, ch: int|
            0 <= j < n && 0 <= ch < dim ==> #[trigger] out[j * dim + ch] == tokens[(shift + j) * dim + ch],
{
    proof {
        lemma_count_fits(n as int, (n + shift) as int, dim as int);
        lemma_crop_layout(tokens@, dim as int, n as int, shift as int);
    }
    let mut sources: Vec<usize> = Vec::new();
    for j in 0..n
        invariant
            n + shift <= usize::MAX,
            (n + shift) * dim <= tokens.len(),
            sources@ =~= crop_plan(n as int, shift as int).take(j as int),
    {
        sources.push(j + shift);
    }
    proof {
        assert(sources@ =~= crop_plan(n as int, shift as int));
        lemma_sources_fit(sources@, (n + shift) as int, dim as int);
    }
    gather_tokens(tokens, dim, &sources)
}

/// Cropping a shift-padded buffer gives the buffer back.
pub proof fn lemma_crop_undoes_shift_pad<T>(tokens: Seq<T>, dim: int, n: int, shift: int)
    requires
        0 < dim,
        0 <= shift <= n,
        n + 2 * shift <= usize::MAX,
        tokens.len() == n * dim,
    ensures
        gathered(gathered(tokens, dim, shift_pad_plan(n, shift)), dim, crop_plan(n, shift)) == tokens,
{
    let padded = gathered(tokens, dim, shift_pad_plan(n, shift));
    let cropped = gathered(padded, dim, crop_plan(n, shift));
    assert forall|k: int| 0 <= k < tokens.len() implies cropped[k] == tokens[k] by {
        lemma_position_token(k, dim, n);
        let t = k / dim;
        let ch = k % dim;
        lemma_gathered_token(padded, dim, crop_plan(n, shift), t, ch);
        lemma_gathered_token(tokens, dim, shift_pad_plan(n, shift), t + shift, ch);
    }
    assert(cropped.len() == tokens.len());
    assert(cropped =~= tokens);
}

/// Lays out the decoder sequence of `t_lat` latent steps: each step is its
/// latent token from `projected`, then 16 copies of the first token of
/// `new_tokens`.
pub fn interleave_decoder_tokens<T: Copy>(
    projected: &Vec<T>,
    new_tokens: &Vec<T>,
    dim: usize,
    t_lat: usize,
) -> (seq: Vec<T>)
    requires
        t_lat * dim <= projected.len(),
        dim <= new_tokens.len(),
        t_lat * 17 * dim <= usize::MAX,
    ensures
        seq@ == gathered(
            projected@.take(t_lat * dim) + new_tokens@.take(dim as int),
            dim as int,
            decoder_interleave_plan(t_lat as int),
        ),
        seq.len() == t_lat * 17 * dim,
        forall|t: int, ch: int|
            0 <= t < t_lat && 0 <= ch < dim ==> #[trigger] seq[(t * 17) * dim + ch] == projected[t * dim + ch],
        forall|t: int, sub: int, ch: int|
            0 <= t < t_lat && 1 <= sub < 17 && 0 <= ch < dim ==> #[trigger] seq[(t * 17 + sub) * dim + ch]
                == new_tokens[ch],
{
    proof {
        lemma_decoder_interleave_layout(projected@, new_tokens@, dim as int, t_lat as int);
        lemma_count_fits(t_lat as int, (t_lat * 17) as int, dim as int);
        lemma_count_fits(t_lat as int + 1, (t_lat * 17 + 1) as int, dim as int);
        vstd::arithmetic::mul::lemma_mul_is_distributive_add_other_way(dim as int, t_lat as int, 1);
    }
    let mut combined = take_tokens(projected, t_lat * dim);
    let mut tail = take_tokens(new_tokens, dim);
    combined.append(&mut tail);
    assert(combined@ =~= projected@.take(t_lat * dim) + new_tokens@.take(dim as int));
    let mut sources: Vec<usize> = Vec::new();
    for lat in 0..t_lat
        invariant
            sources@ =~= decoder_interleave_plan(t_lat as int).take(lat * 17),
    {
        for sub in 0..17usize
            invariant
                lat < t_lat,
                sources@ =~= decoder_interleave_plan(t_lat as int).take(lat * 17 + sub),
        {
            proof {
                vstd::arithmetic::div_mod::lemma_fundamental_div_mod_converse(lat * 17 + sub, 17, lat as int, sub as int);
            }
            let source = if sub == 0 { lat } else { t_lat };
            sources.push(source);
        }
    }
    proof {
        assert(sources@ =~= decoder_interleave_plan(t_lat as int));
        assert forall|j: int| 0 <= j < sources.len() implies #[trigger] sources[j] < t_lat + 1 by {
            vstd::arithmetic::div_mod::lemma_fundamental_div_mod(j, 17);
        }
        lemma_sources_fit(sources@, t_lat + 1, dim as int);
    }
    gather_tokens(&combined, dim, &sources)
}


/// Lays out the encoder sequence of `t_lat` latent steps: each step is its
/// 16 patch tokens from `mapped`, then the first token of `new_tokens`.
pub fn interleave_encoder_tokens<T: Copy>(
    mapped: &Vec<T>,
    new_tokens: &Vec<T>,
    dim: usize,
    t_lat: usize,
) -> (seq: Vec<T>)
    requires
        t_lat * 16 * dim <= mapped.len(),
        dim <= new_tokens.len(),
        t_lat * 17 <= usize::MAX,
        t_lat * 17 * dim <= usize::MAX,
    ensures
        seq@ == gathered(
            mapped@.take(t_lat * 16 * dim) + new_tokens@.take(dim as int),
            dim as int,
            encoder_interleave_plan(t_lat as int),
        ),
        seq.len() == t_lat * 17 * dim,
        forall|t: int, sub: int, ch: int|
            0 <= t < t_lat && 0 <= sub < 16 && 0 <= ch < dim ==> #[trigger] seq[(t * 17 + sub) * dim + ch]
                == mapped[(t * 16 + sub) * dim + ch],
        forall|t: int, ch: int|
            0 <= t < t_lat && 0 <= ch < dim ==> #[trigger] seq[(t * 17 + 16) * dim + ch] == new_tokens[ch],
{
    proof {
        lemma_encoder_interleave_layout(mapped@, new_tokens@, dim as int, t_lat as int);
        lemma_count_fits((t_lat * 16) as int, (t_lat * 17) as int, dim as int);
        lemma_count_fits((t_lat * 16) as int + 1, (t_lat * 17 + 1) as int, dim as int);
        vstd::arithmetic::mul::lemma_mul_is_distributive_add_other_way(dim as int, (t_lat * 16) as int, 1);
    }
    let mut combined = take_tokens(mapped, t_lat * 16 * dim);
    let mut tail = take_tokens(new_tokens, dim);
    combined.append(&mut tail);
    assert(combined@ =~= mapped@.take(t_lat * 16 * dim) + new_tokens@.take(dim as int));
    let mut sources: Vec<usize> = Vec::new();
    for lat in 0..t_lat
        invariant
            t_lat * 17 <= usize::MAX,
            sources@ =~= encoder_interleave_plan(t_lat as int).take(lat * 17),
    {
        for sub in 0..17usize
            invariant
                lat < t_lat,
                t_lat * 17 <= usize::MAX,
                sources@ =~= encoder_interleave_plan(t_lat as int).take(lat * 17 + sub),
        {
            proof {
                vstd::arithmetic::div_mod::lemma_fundamental_div_mod_converse(lat * 17 + sub, 17, lat as int, sub as int);
            }
            let source = if sub < 16 { lat * 16 + sub } else { t_lat * 16 };
            sources.push(source);
        }
    }
    proof {
        assert(sources@ =~= encoder_interleave_plan(t_lat as int));
        assert forall|j: int| 0 <= j < sources.len() implies #[trigger] sources[j] < t_lat * 16 + 1 by {
            vstd::arithmetic::div_mod::lemma_fundamental_div_mod(j, 17);
        }
        lemma_sources_fit(sources@, t_lat * 16 + 1, dim as int);
    }
    gather_tokens(&combined, dim, &sources)
}

/// Picks the 16 patch tokens of each of `t_lat` decoded latent steps of 17
/// tokens: every token of a step but its first.
pub fn select_decoder_tokens<T: Copy>(cropped: &Vec<T>, dim: usize, t_lat: usize) -> (tokens: Vec<T>)
    requires
        t_lat * 17 * dim <= cropped.len(),
        t_lat * 17 <= usize::MAX,
    ensures
        tokens@ == gathered(cropped@, dim as int, decoder_select_plan(t_lat as int)),
        tokens.len() == t_lat * 16 * dim,
        forall|t: int, sub: int, ch: int|
            0 <= t < t_lat && 0 <= sub < 16 && 0 <= ch < dim ==> #[trigger] tokens[(t * 16 + sub) * dim + ch]
                == cropped[(t * 17 + 1 + sub) * dim + ch],
{
    proof {
        lemma_decoder_select_layout(cropped@, dim as int, t_lat as int);
        lemma_count_fits((t_lat * 16) as int, (t_lat * 17) as int, dim as int);
    }
    let mut sources: Vec<usize> = Vec::new();
    for lat in 0..t_lat
        invariant
            t_lat * 17 <= usize::MAX,
            sources@ =~= decoder_select_plan(t_lat as int).take(lat * 16),
    {
        for sub in 0..16usize
            invariant
                lat < t_lat,
                t_lat * 17 <= usize::MAX,
                sources@ =~= decoder_select_plan(t_lat as int).take(lat * 16 + sub),
        {
            proof {
                vstd::arithmetic::div_mod::lemma_fundamental_div_mod_converse(lat * 16 + sub, 16, lat as int, sub as int);
            }
            sources.push(lat * 17 + 1 + sub);
        }
    }
    proof {
        assert(sources@ =~= decoder_select_plan(t_lat as int));
        assert forall|j: int| 0 <= j < sources.len() implies #[trigger] sources[j] < t_lat * 17 by {
            vstd::arithmetic::div_mod::lemma_fundamental_div_mod(j, 16);
        }
        lemma_sources_fit(sources@, (t_lat * 17) as int, dim as int);
    }
    gather_tokens(cropped, dim, &sources)
}

/// Picks the latent token of each of `t_lat` encoded latent steps of 17
/// tokens: the last token of a step.
pub fn select_encoder_tokens<T: Copy>(cropped: &Vec<T>, dim: usize, t_lat: usize) -> (tokens: Vec<T>)
    requires
        t_lat * 17 * dim <= cropped.len(),
        t_lat * 17 <= usize::MAX,
    ensures
        tokens@ == gathered(cropped@, dim as int, encoder_select_plan(t_lat as int)),
        tokens.len() == t_lat * dim,
        forall|t: int, ch: int|
            0 <= t < t_lat && 0 <= ch < dim ==> #[trigger] tokens[t * dim + ch] == cropped[(t * 17 + 16) * dim + ch],
{
    proof {
        lemma_encoder_select_layout(cropped@, dim as int, t_lat as int);
        lemma_count_fits(t_lat as int, (t_lat * 17) as int, dim as int);
    }
    let mut sources: Vec<usize> = Vec::new();
    for lat in 0..t_lat
        invariant
            t_lat * 17 <= usize::MAX,
            sources@ =~= encoder_select_plan(t_lat as int).take(lat as int),
    {
        sources.push(lat * 17 + 16);
    }
    proof {
        assert(sources@ =~= encoder_select_plan(t_lat as int));
        lemma_sources_fit(sources@, (t_lat * 17) as int, dim as int);
    }
    gather_tokens(cropped, dim, &sources)
}


/// Value `ch` of token `t` of a buffer of `count` tokens lies inside it.
pub proof fn lemma_token_inside(t: int, ch: int, count: int, dim: int)
    requires
        0 <= t < count,
        0 <= ch < dim,
    ensures
        0 <= t * dim + ch < count * dim,
{
    vstd::arithmetic::mul::lemma_mul_inequality(t + 1, count, dim);
    vstd::arithmetic::mul::lemma_mul_is_distributive_add_other_way(dim, t, 1);
    vstd::arithmetic::mul::lemma_mul_nonnegative(t, dim);
}

/// Token `s` of latent step `t` in a sequence of steps of `width` tokens.
pub proof fn lemma_step_token(t: int, s: int, width: int)
    requires
        0 <= t,
        0 <= s < width,
    ensures
        (t * width + s) / width == t,
        (t * width + s) % width == s,
{
    vstd::arithmetic::div_mod::lemma_fundamental_div_mod_converse(t * width + s, width, t, s);
}

/// Cropping `n + 2 * shift` tokens keeps token `shift + j` as token `j`.
pub proof fn lemma_crop_layout<T>(tokens: Seq<T>, dim: int, n: int, shift: int)
    requires
        0 <= dim,
        0 <= shift,
        0 <= n,
        n + shift <= usize::MAX,
    ensures
        ({
            let out = gathered(tokens, dim, crop_plan(n, shift));
            &&& out.len() == n * dim
            &&& forall|j: int, ch: int|
                0 <= j < n && 0 <= ch < dim ==> #[trigger] out[j * dim + ch] == tokens[(shift + j) * dim + ch]
        }),
{
    let plan = crop_plan(n, shift);
    assert forall|j: int, ch: int| 0 <= j < n && 0 <= ch < dim implies #[trigger] gathered(tokens, dim, plan)[j
        * dim + ch] == tokens[(shift + j) * dim + ch] by {
        lemma_gathered_token(tokens, dim, plan, j, ch);
    }
}

/// The decoder sequence holds, for each latent step, its latent token, then
/// 16 copies of the learned token.
pub proof fn lemma_decoder_interleave_layout<T>(projected: Seq<T>, new_tokens: Seq<T>, dim: int, t_lat: int)
    requires
        0 <= dim,
        0 <= t_lat,
        t_lat * dim <= projected.len(),
        dim <= new_tokens.len(),
        t_lat <= usize::MAX,
    ensures
        ({
            let out = gathered(projected.take(t_lat * dim) + new_tokens.take(dim), dim, decoder_interleave_plan(t_lat));
            &&& out.len() == t_lat * 17 * dim
            &&& forall|t: int, ch: int|
                0 <= t < t_lat && 0 <= ch < dim ==> #[trigger] out[(t * 17) * dim + ch] == projected[t * dim + ch]
            &&& forall|t: int, sub: int, ch: int|
                0 <= t < t_lat && 1 <= sub < 17 && 0 <= ch < dim ==> #[trigger] out[(t * 17 + sub) * dim + ch]
                    == new_tokens[ch]
        }),
{
    let combined = projected.take(t_lat * dim) + new_tokens.take(dim);
    let plan = decoder_interleave_plan(t_lat);
    let out = gathered(combined, dim, plan);
    assert forall|t: int, ch: int| 0 <= t < t_lat && 0 <= ch < dim implies #[trigger] out[(t * 17) * dim + ch]
        == projected[t * dim + ch] by {
        lemma_step_token(t, 0, 17);
        lemma_token_inside(t * 17, ch, t_lat * 17, dim);
        lemma_gathered_token(combined, dim, plan, t * 17, ch);
        lemma_token_inside(t, ch, t_lat, dim);
    }
    assert forall|t: int, sub: int, ch: int| 0 <= t < t_lat && 1 <= sub < 17 && 0 <= ch < dim implies
        #[trigger] out[(t * 17 + sub) * dim + ch] == new_tokens[ch] by {
        lemma_step_token(t, sub, 17);
        lemma_token_inside(t * 17 + sub, ch, t_lat * 17, dim);
        lemma_gathered_token(combined, dim, plan, t * 17 + sub, ch);
    }
}

/// The encoder sequence holds, for each latent step, its 16 patch tokens in
/// order, then the learned token.
pub proof fn lemma_encoder_interleave_layout<T>(mapped: Seq<T>, new_tokens: Seq<T>, dim: int, t_lat: int)
    requires
        0 <= dim,
        0 <= t_lat,
        t_lat * 16 * dim <= mapped.len(),
        dim <= new_tokens.len(),
        t_lat * 17 <= usize::MAX,
    ensures
        ({
            let out = gathered(
                mapped.take(t_lat * 16 * dim) + new_tokens.take(dim),
                dim,
                encoder_interleave_plan(t_lat),
            );
            &&& out.len() == t_lat * 17 * dim
            &&& forall|t: int, sub: int, ch: int|
                0 <= t < t_lat && 0 <= sub < 16 && 0 <= ch < dim ==> #[trigger] out[(t * 17 + sub) * dim + ch]
                    == mapped[(t * 16 + sub) * dim + ch]
            &&& forall|t: int, ch: int|
                0 <= t < t_lat && 0 <= ch < dim ==> #[trigger] out[(t * 17 + 16) * dim + ch] == new_tokens[ch]
        }),
{
    let combined = mapped.take(t_lat * 16 * dim) + new_tokens.take(dim);
    let plan = encoder_interleave_plan(t_lat);
    let out = gathered(combined, dim, plan);
    assert forall|t: int, sub: int, ch: int| 0 <= t < t_lat && 0 <= sub < 16 && 0 <= ch < dim implies
        #[trigger] out[(t * 17 + sub) * dim + ch] == mapped[(t * 16 + sub) * dim + ch] by {
        lemma_step_token(t, sub, 17);
        lemma_token_inside(t * 17 + sub, ch, t_lat * 17, dim);
        lemma_gathered_token(combined, dim, plan, t * 17 + sub, ch);
        lemma_step_token(t, sub, 16);
        lemma_token_inside(t * 16 + sub, ch, t_lat * 16, dim);
    }
    assert forall|t: int, ch: int| 0 <= t < t_lat && 0 <= ch < dim implies #[trigger] out[(t * 17 + 16) * dim
        + ch] == new_tokens[ch] by {
        lemma_step_token(t, 16, 17);
        lemma_token_inside(t * 17 + 16, ch, t_lat * 17, dim);
        lemma_gathered_token(combined, dim, plan, t * 17 + 16, ch);
    }
}

/// The decoder's patch tokens are, for each latent step, tokens 1 to 16 of
/// its 17, in order.
pub proof fn lemma_decoder_select_layout<T>(cropped: Seq<T>, dim: int, t_lat: int)
    requires
        0 <= dim,
        0 <= t_lat,
        t_lat * 17 <= usize::MAX,
    ensures
        ({
            let out = gathered(cropped, dim, decoder_select_plan(t_lat));
            &&& out.len() == t_lat * 16 * dim
            &&& forall|t: int, sub: int, ch: int|
                0 <= t < t_lat && 0 <= sub < 16 && 0 <= ch < dim ==> #[trigger] out[(t * 16 + sub) * dim + ch]
                    == cropped[(t * 17 + 1 + sub) * dim + ch]
        }),
{
    let plan = decoder_select_plan(t_lat);
    let out = gathered(cropped, dim, plan);
    assert forall|t: int, sub: int, ch: int| 0 <= t < t_lat && 0 <= sub < 16 && 0 <= ch < dim implies
        #[trigger] out[(t * 16 + sub) * dim + ch] == cropped[(t * 17 + 1 + sub) * dim + ch] by {
        lemma_step_token(t, sub, 16);
        lemma_token_inside(t * 16 + sub, ch, t_lat * 16, dim);
        lemma_gathered_token(cropped, dim, plan, t * 16 + sub, ch);
    }
}

/// The encoder's latent tokens are, for each latent step, the last of its
/// 17 tokens.
pub proof fn lemma_encoder_select_layout<T>(cropped: Seq<T>, dim: int, t_lat: int)
    requires
        0 <= dim,
        0 <= t_lat,
        t_lat * 17 <= usize::MAX,
    ensures
        ({
            let out = gathered(cropped, dim, encoder_select_plan(t_lat));
            &&& out.len() == t_lat * dim
            &&& forall|t: int, ch: int|
                0 <= t < t_lat && 0 <= ch < dim ==> #[trigger] out[t * dim + ch] == cropped[(t * 17 + 16) * dim + ch]
        }),
{
    let plan = encoder_select_plan(t_lat);
    assert forall|t: int, ch: int| 0 <= t < t_lat && 0 <= ch < dim implies #[trigger] gathered(cropped, dim, plan)[t
        * dim + ch] == cropped[(t * 17 + 16) * dim + ch] by {
        lemma_gathered_token(cropped, dim, plan, t, ch);
    }
}

/// Transposing puts value `c` of row `r` at `c * rows + r`.
pub proof fn lemma_transposed_layout<T>(src: Seq<T>, rows: int, cols: int)
    requires
        0 < rows,
        0 <= cols,
    ensures
        ({
            let out = transposed(src, rows, cols);
            &&& out.len() == rows * cols
            &&& forall|r: int, c: int|
                0 <= r < rows && 0 <= c < cols ==> #[trigger] out[c * rows + r] == src[r * cols + c]
        }),
{
    vstd::arithmetic::mul::lemma_mul_nonnegative(rows, cols);
    let out = transposed(src, rows, cols);
    assert forall|r: int, c: int| 0 <= r < rows && 0 <= c < cols implies #[trigger] out[c * rows + r] == src[r
        * cols + c] by {
        lemma_step_token(c, r, rows);
        lemma_token_inside(c, r, cols, rows);
        vstd::arithmetic::mul::lemma_mul_is_commutative(cols, rows);
    }
}

/// A `rows` by `cols` matrix, stored row after row, stored column after column.
pub open spec fn transposed<T>(src: Seq<T>, rows: int, cols: int) -> Seq<T> {
    Seq::new((rows * cols) as nat, |k: int| src[(k % rows) * cols + k / rows])
}

/// Stores a `rows` by `cols` matrix, given row after row, column after
/// column: value `c` of row `r` lands at `c * rows + r`.
pub fn transpose<T: Copy>(src: &Vec<T>, rows: usize, cols: usize) -> (out: Vec<T>)
    requires
        0 < rows,
        src.len() == rows * cols,
    ensures
        out@ == transposed(src@, rows as int, cols as int),
        out.len() == rows * cols,
        forall|r: int, c: int| 0 <= r < rows && 0 <= c < cols ==> #[trigger] out[c * rows + r] == src[r * cols + c],
{
    proof {
        lemma_transposed_layout(src@, rows as int, cols as int);
    }
    let mut out: Vec<T> = Vec::new();
    assert(0 * rows == 0) by (nonlinear_arith);
    for c in 0..cols
        invariant
            0 < rows,
            src.len() == rows * cols,
            out.len() == c * rows,
            forall|k: int| 0 <= k < out.len() ==> out[k] == src[(k % rows as int) * cols + k / rows as int],
    {
        proof {
            vstd::arithmetic::mul::lemma_mul_is_distributive_add_other_way(rows as int, c as int, 1);
        }
        for r in 0..rows
            invariant
                0 < rows,
                c < cols,
                src.len() == rows * cols,
                out.len() == c * rows + r,
                c * rows + rows == (c + 1) * rows,
                forall|k: int| 0 <= k < out.len() ==> out[k] == src[(k % rows as int) * cols + k / rows as int],
        {
            proof {
                lemma_token_position(c as int, r as int, rows as int);
                lemma_matrix_position(r as int, c as int, rows as int, cols as int);
            }
            out.push(src[r * cols + c]);
        }
    }
    proof {
        vstd::arithmetic::mul::lemma_mul_is_commutative(rows as int, cols as int);
    }
    assert(out@ =~= transposed(src@, rows as int, cols as int));
    out
}

/// Position `r * cols + c` of a `rows` by `cols` matrix lies inside it.
pub proof fn lemma_matrix_position(r: int, c: int, rows: int, cols: int)
    requires
        0 <= r < rows,
        0 <= c < cols,
    ensures
        0 <= r * cols + c < rows * cols,
{
    vstd::arithmetic::mul::lemma_mul_inequality(r + 1, rows, cols);
    vstd::arithmetic::mul::lemma_mul_is_distributive_add_other_way(cols, r, 1);
    vstd::arithmetic::mul::lemma_mul_nonnegative(r, cols);
}

/// Transposing twice gives the matrix back.
pub proof fn lemma_transpose_twice<T>(src: Seq<T>, rows: int, cols: int)
    requires
        0 < rows,
        0 < cols,
        src.len() == rows * cols,
    ensures
        transposed(transposed(src, rows, cols), cols, rows) == src,
{
    let once = transposed(src, rows, cols);
    let twice = transposed(once, cols, rows);
    vstd::arithmetic::mul::lemma_mul_is_commutative(rows, cols);
    assert forall|k: int| 0 <= k < src.len() implies twice[k] == src[k] by {
        lemma_position_token(k, cols, rows);
        let r = k / cols;
        let c = k % cols;
        let m = c * rows + r;
        lemma_token_position(c, r, rows);
        lemma_matrix_position(c, r, cols, rows);
        assert(twice[k] == once[m]);
    }
    assert(twice =~= src);
}

/// Whether a query token may attend to a key token in the SAME-L decoder's
/// sliding window: the key lies at most 17 tokens before or after it.
pub open spec fn swa_allowed(query: int, key: int) -> bool {
    query - 17 <= key <= query + 17
}

/// The SAME-L decoder's sliding-window attention mask over `n_tokens`
/// tokens, query after query: `mask[query * n_tokens + key]` tells whether
/// `query` may attend to `key`.
pub fn same_l_swa_mask(n_tokens: usize) -> (mask: Vec<bool>)
    requires
        n_tokens * n_tokens <= usize::MAX,
    ensures
        mask.len() == n_tokens * n_tokens,
        forall|query: int, key: int|
            0 <= query < n_tokens && 0 <= key < n_tokens ==> #[trigger] mask[query * n_tokens + key]
                == swa_allowed(query, key),
        forall|query: int, key: int|
            0 <= query < n_tokens && 0 <= key < n_tokens ==> (#[trigger] mask[query * n_tokens + key] <==> (key
                <= query + 17 && query <= key + 17)),
{
    let n = n_tokens;
    let mut mask: Vec<bool> = Vec::new();
    for i in 0..n * n
        invariant
            mask.len() == i,
            forall|k: int| 0 <= k < i ==> !mask[k],
    {
        mask.push(false);
    }
    assert forall|q: int, key: int| 0 <= q < n && 0 <= key < n implies !#[trigger] mask[q * n + key] by {
        lemma_matrix_position(q, key, n as int, n as int);
    }
    assert(n + 35 <= usize::MAX) by (nonlinear_arith)
        requires
            n * n <= usize::MAX,
            usize::MAX >= 0xffff_ffff,
    {
        if n > 36 {
            assert(n * n >= 36 * n);
        }
    }
    for query in 0..n
        invariant
            n * n <= usize::MAX,
            n + 35 <= usize::MAX,
            mask.len() == n * n,
            forall|q: int, key: int|
                0 <= q < n && 0 <= key < n ==> #[trigger] mask[q * n + key] == (q < query && swa_allowed(q, key)),
    {
        let group = query / SUB_CHUNK;
        let query_in_group = query % SUB_CHUNK;
        proof {
            vstd::arithmetic::div_mod::lemma_fundamental_div_mod(query as int, 17);
            lemma_matrix_position(query as int, 0, n as int, n as int);
        }
        let mut window_idx = query_in_group;
        while window_idx <= query_in_group + 2 * SUB_CHUNK
            invariant
                query < n,
                n * n <= usize::MAX,
                n + 35 <= usize::MAX,
                mask.len() == n * n,
                group * 17 + query_in_group == query,
                query_in_group < 17,
                query_in_group <= window_idx <= query_in_group + 35,
                forall|q: int, key: int|
                    0 <= q < n && 0 <= key < n ==> #[trigger] mask[q * n + key] == (if q == query {
                        query <= key + 17 < query + (window_idx - query_in_group)
                    } else {
                        q < query && swa_allowed(q, key)
                    }),
            decreases query_in_group + 35 - window_idx,
        {
            let key = group * SUB_CHUNK + window_idx;
            if key >= SUB_CHUNK {
                let key = key - SUB_CHUNK;
                if key < n {
                    proof {
                        lemma_matrix_position(query as int, key as int, n as int, n as int);
                    }
                    let ghost before = mask@;
                    mask.set(key + query * n, true);
                    proof {
                        assert forall|q: int, k: int| 0 <= q < n && 0 <= k < n && !(q == query && k == key) implies
                            #[trigger] mask[q * n + k] == before[q * n + k] by {
                            lemma_matrix_position(q, k, n as int, n as int);
                            if q * n + k == query * n + key {
                                lemma_token_position(q, k, n as int);
                                lemma_token_position(query as int, key as int, n as int);
                            }
                        }
                    }
                }
            }
            window_idx = window_idx + 1;
        }
    }
    mask
}


/// One decoder pass over the latent steps `[start, end)`, of whose output
/// the steps `[keep_start, keep_end)`, counted from `start`, are kept.
#[derive(Debug, Clone, Copy, PartialEq, Eq)]
pub struct ChunkWindow {
    pub start: usize,
    pub end: usize,
    pub keep_start: usize,
    pub keep_end: usize,
}

/// The window `[start, end)` keeping its steps `[keep_start, keep_end)`.
pub open spec fn chunk_window(start: int, end: int, keep_start: int, keep_end: int) -> ChunkWindow {
    ChunkWindow {
        start: start as usize,
        end: end as usize,
        keep_start: keep_start as usize,
        keep_end: keep_end as usize,
    }
}

/// The passes that decode `t_lat` latent steps `chunk` at a time, each
/// pass seeing `overlap` more steps on each side. Up to `chunk + 2 * overlap`
/// steps are decoded in one pass. Otherwise the first pass covers the first
/// `chunk + 2 * overlap` steps and keeps `chunk + overlap` of them; the
/// middle pass `j` covers steps from `j * chunk` on and keeps `chunk` of
/// them; when steps remain, a last pass covers the last
/// `chunk + 2 * overlap` steps and keeps those that remain.
pub open spec fn decode_chunk_plan(t_lat: int, chunk: int, overlap: int) -> Seq<ChunkWindow> {
    let kernel = chunk + 2 * overlap;
    if t_lat <= kernel {
        seq![chunk_window(0, t_lat, 0, t_lat)]
    } else {
        let middle = (t_lat - kernel) / chunk;
        let rest = t_lat - (chunk + overlap + middle * chunk);
        let first = seq![chunk_window(0, kernel, 0, chunk + overlap)];
        let mids = Seq::new(
            middle as nat,
            |j: int| chunk_window((j + 1) * chunk, (j + 1) * chunk + kernel, overlap, overlap + chunk),
        );
        let last = if rest > 0 {
            seq![chunk_window(t_lat - kernel, t_lat, kernel - rest, kernel)]
        } else {
            Seq::empty()
        };
        first + mids + last
    }
}

/// `j <= x / d` exactly when `j * d <= x`.
pub proof fn lemma_le_div(j: int, x: int, d: int)
    requires
        0 < d,
        0 <= x,
        0 <= j,
    ensures
        j <= x / d <==> j * d <= x,
{
    vstd::arithmetic::div_mod::lemma_fundamental_div_mod(x, d);
    vstd::arithmetic::mul::lemma_mul_is_commutative(d, x / d);
    vstd::arithmetic::div_mod::lemma_mod_pos_bound(x, d);
    if j <= x / d {
        vstd::arithmetic::mul::lemma_mul_inequality(j, x / d, d);
    } else {
        vstd::arithmetic::mul::lemma_mul_inequality(x / d + 1, j, d);
        vstd::arithmetic::mul::lemma_mul_is_distributive_add_other_way(d, x / d, 1);
    }
}

/// The decoder passes over `t_lat` latent steps, `chunk` at a time with
/// `overlap` steps of context on each side.
pub fn same_l_chunk_plan(t_lat: usize, chunk: usize, overlap: usize) -> (plan: Vec<ChunkWindow>)
    requires
        chunk > 0,
        chunk + 2 * overlap <= usize::MAX,
    ensures
        plan@ == decode_chunk_plan(t_lat as int, chunk as int, overlap as int),
{
    let kernel = chunk + 2 * overlap;
    let mut plan: Vec<ChunkWindow> = Vec::new();
    if t_lat <= kernel {
        plan.push(ChunkWindow { start: 0, end: t_lat, keep_start: 0, keep_end: t_lat });
        assert(plan@ =~= decode_chunk_plan(t_lat as int, chunk as int, overlap as int));
        return plan;
    }
    let ghost middle = (t_lat - kernel) / chunk as int;
    let ghost mids = Seq::new(
        middle as nat,
        |j: int| chunk_window((j + 1) * chunk, (j + 1) * chunk + kernel, overlap as int, (overlap + chunk) as int),
    );
    plan.push(ChunkWindow { start: 0, end: kernel, keep_start: 0, keep_end: chunk + overlap });
    let mut i = chunk + overlap;
    let ghost mut j: int = 0;
    proof {
        lemma_le_div(0, t_lat - kernel, chunk as int);
    }
    while i <= t_lat - (chunk + overlap)
        invariant
            chunk > 0,
            kernel == chunk + 2 * overlap,
            kernel < t_lat,
            middle == (t_lat - kernel) / chunk as int,
            0 <= j <= middle,
            mids == Seq::new(
                middle as nat,
                |j: int| chunk_window((j + 1) * chunk, (j + 1) * chunk + kernel, overlap as int, (overlap + chunk) as int),
            ),
            i == chunk + overlap + j * chunk,
            plan@ =~= seq![chunk_window(0, kernel as int, 0, (chunk + overlap) as int)] + mids.take(j),
        decreases t_lat - i,
    {
        proof {
            vstd::arithmetic::mul::lemma_mul_is_distributive_add_other_way(chunk as int, j, 1);
            assert((j + 1) * chunk == j * chunk + chunk);
            lemma_le_div(j + 1, t_lat - kernel, chunk as int);
            assert(j + 1 <= middle);
            assert(mids[j] == chunk_window(i - overlap, i + chunk + overlap, overlap as int, (overlap + chunk) as int));
        }
        plan.push(ChunkWindow { start: i - overlap, end: i + chunk + overlap, keep_start: overlap, keep_end: overlap + chunk });
        i = i + chunk;
        proof {
            j = j + 1;
            assert(mids.take(j) =~= mids.take(j - 1).push(mids[j - 1]));
        }
    }
    proof {
        vstd::arithmetic::mul::lemma_mul_is_distributive_add_other_way(chunk as int, j, 1);
        assert((j + 1) * chunk == j * chunk + chunk);
        lemma_le_div(j + 1, t_lat - kernel, chunk as int);
        assert(j == middle);
        lemma_le_div(j, t_lat - kernel, chunk as int);
        assert(mids.take(j) =~= mids);
    }
    let remaining = t_lat - i;
    if remaining > 0 {
        plan.push(ChunkWindow { start: t_lat - kernel, end: t_lat, keep_start: kernel - remaining, keep_end: kernel });
    }
    assert(plan@ =~= decode_chunk_plan(t_lat as int, chunk as int, overlap as int));
    plan
}


/// First latent step a pass keeps.
pub open spec fn kept_start(w: ChunkWindow) -> int {
    w.start + w.keep_start
}

/// Latent step after the last one a pass keeps.
pub open spec fn kept_end(w: ChunkWindow) -> int {
    w.start + w.keep_end
}

/// Whether a pass covers `kernel` steps (or all `t_lat` of them if fewer)
/// inside `[0, t_lat)` and keeps a non-empty part of them.
pub open spec fn window_well_placed(w: ChunkWindow, t_lat: int, kernel: int) -> bool {
    &&& w.end <= t_lat
    &&& w.end - w.start == vstd::math::min(t_lat, kernel)
    &&& w.keep_start < w.keep_end <= w.end - w.start
}

/// The decoder passes keep, in order, every latent step exactly once: the
/// first pass keeps from step 0 on, each pass keeps from where the one
/// before stopped, the last pass keeps up to the last step, and every pass
/// covers as many steps as one pass may and lies inside the latent steps.
pub proof fn lemma_chunk_plan_tiles(t_lat: usize, chunk: usize, overlap: usize)
    requires
        0 < t_lat,
        0 < chunk,
        t_lat + chunk + 2 * overlap <= usize::MAX,
    ensures
        ({
            let plan = decode_chunk_plan(t_lat as int, chunk as int, overlap as int);
            let kernel = chunk + 2 * overlap;
            &&& plan.len() > 0
            &&& kept_start(plan[0]) == 0
            &&& kept_end(plan[plan.len() - 1]) == t_lat
            &&& forall|j: int| 0 <= j < plan.len() - 1 ==> kept_end(#[trigger] plan[j]) == kept_start(plan[j + 1])
            &&& forall|j: int| 0 <= j < plan.len() ==> window_well_placed(#[trigger] plan[j], t_lat as int, kernel)
        }),
{
    let kernel = chunk + 2 * overlap;
    let plan = decode_chunk_plan(t_lat as int, chunk as int, overlap as int);
    if t_lat <= kernel {
        return;
    }
    let middle = (t_lat - kernel) / chunk as int;
    let rest = t_lat - (chunk + overlap + middle * chunk);
    lemma_le_div(middle, t_lat - kernel, chunk as int);
    lemma_le_div(middle + 1, t_lat - kernel, chunk as int);
    vstd::arithmetic::mul::lemma_mul_is_distributive_add_other_way(chunk as int, middle, 1);
    let first = seq![chunk_window(0, kernel as int, 0, (chunk + overlap) as int)];
    let mids = Seq::new(
        middle as nat,
        |j: int| chunk_window((j + 1) * chunk, (j + 1) * chunk + kernel, overlap as int, (overlap + chunk) as int),
    );
    assert forall|j: int| 0 <= j < middle implies #[trigger] mids[j] == chunk_window(
        (j + 1) * chunk,
        (j + 1) * chunk + kernel,
        overlap as int,
        (overlap + chunk) as int,
    ) && (j + 1) * chunk + kernel <= t_lat && (j + 1) * chunk == j * chunk + chunk by {
        lemma_le_div(j + 1, t_lat - kernel, chunk as int);
        vstd::arithmetic::mul::lemma_mul_is_distributive_add_other_way(chunk as int, j, 1);
        vstd::arithmetic::mul::lemma_mul_nonnegative(j, chunk as int);
    }
    assert forall|j: int| 0 <= j < plan.len() implies window_well_placed(#[trigger] plan[j], t_lat as int, kernel as int) by {
        if j == 0 {
        } else if j <= middle {
            assert(plan[j] == mids[j - 1]);
        } else {
        }
    }
    assert forall|j: int| 0 <= j < plan.len() - 1 implies kept_end(#[trigger] plan[j]) == kept_start(plan[j + 1]) by {
        if j == 0 {
            if middle > 0 {
                assert(plan[1] == mids[0]);
            }
        } else if j < middle {
            assert(plan[j] == mids[j - 1]);
            assert(plan[j + 1] == mids[j]);
        } else {
            assert(plan[j] == mids[j - 1]);
        }
    }
    if rest == 0 && middle > 0 {
        assert(plan[plan.len() - 1] == mids[middle - 1]);
    }
}


/// Values of one latent step of audio patches: 16 patches of 512 values.
pub const PATCH_VALUES_PER_LATENT: usize = 8192;

/// Channels of one latent step.
pub const LATENT: usize = 256;

/// The message of an audio patch buffer of `got` values where `expected` were due.
pub open spec fn patch_mismatch_message(got: nat, expected: nat) -> Seq<char> {
    "SAME encoder patch length mismatch: got "@ + decimal(got) + ", expected "@ + decimal(expected)
}

/// Checks that `audio_patches` holds the 16 patches of 512 values of each
/// of `t_lat` latent steps.
pub fn validate_audio_patches<T>(audio_patches: &[T], t_lat: usize) -> (r: Result<(), Error>)
    requires
        PATCH_VALUES_PER_LATENT * t_lat <= usize::MAX,
    ensures
        r is Ok <==> audio_patches.len() == PATCH_VALUES_PER_LATENT * t_lat,
        r matches Err(e) ==> is_ggml_error(
            e,
            patch_mismatch_message(audio_patches.len() as nat, (PATCH_VALUES_PER_LATENT * t_lat) as nat),
        ),
{
    let expected = PATCH_VALUES_PER_LATENT * t_lat;
    if audio_patches.len() != expected {
        let mut message = String::from_str("SAME encoder patch length mismatch: got ");
        let got = usize_to_decimal(audio_patches.len());
        message.append(got.as_str());
        message.append(", expected ");
        let want = usize_to_decimal(expected);
        message.append(want.as_str());
        return Err(Error::Ggml(message));
    }
    Ok(())
}

/// Checks the input of the SAME-S encoder: the patches of `t_lat` latent
/// steps, `t_lat` positive and even.
pub fn check_same_s_encode<T>(audio_patches: &[T], t_lat: usize) -> (r: Result<(), Error>)
    requires
        PATCH_VALUES_PER_LATENT * t_lat <= usize::MAX,
    ensures
        r is Ok <==> audio_patches.len() == PATCH_VALUES_PER_LATENT * t_lat && t_lat > 0 && t_lat % 2 == 0,
        r matches Err(e) ==> if audio_patches.len() != PATCH_VALUES_PER_LATENT * t_lat {
            is_ggml_error(
                e,
                patch_mismatch_message(audio_patches.len() as nat, (PATCH_VALUES_PER_LATENT * t_lat) as nat),
            )
        } else {
            is_ggml_error(e, "SAME-S encoder requires a positive even latent length"@)
        },
{
    validate_audio_patches(audio_patches, t_lat)?;
    if t_lat == 0 || t_lat % 2 != 0 {
        return Err(ggml_error("SAME-S encoder requires a positive even latent length"));
    }
    Ok(())
}

/// The SAME-L encoder: once its input is checked, it reports that it is
/// not available.
pub fn check_same_l_encode<T>(audio_patches: &[T], t_lat: usize) -> (e: Error)
    requires
        PATCH_VALUES_PER_LATENT * t_lat <= usize::MAX,
    ensures
        if audio_patches.len() != PATCH_VALUES_PER_LATENT * t_lat {
            is_ggml_error(
                e,
                patch_mismatch_message(audio_patches.len() as nat, (PATCH_VALUES_PER_LATENT * t_lat) as nat),
            )
        } else {
            is_incomplete_error(e, "SAME-L encoder ggml runtime is not implemented yet"@)
        },
{
    match validate_audio_patches(audio_patches, t_lat) {
        Err(e) => e,
        Ok(()) => incomplete_error("SAME-L encoder ggml runtime is not implemented yet"),
    }
}

/// Checks the input of the SAME-S decoder: 256 values for each of `t_lat`
/// latent steps, `t_lat` positive and even.
pub fn check_same_s_decode<T>(latents: &[T], t_lat: usize) -> (r: Result<(), Error>)
    requires
        LATENT * t_lat <= usize::MAX,
    ensures
        r is Ok <==> latents.len() == LATENT * t_lat && t_lat > 0 && t_lat % 2 == 0,
        r matches Err(e) ==> if latents.len() != LATENT * t_lat {
            is_ggml_error(e, "SAME-S latent length mismatch"@)
        } else {
            is_ggml_error(e, "SAME-S requires a positive even latent length"@)
        },
{
    if latents.len() != LATENT * t_lat {
        return Err(ggml_error("SAME-S latent length mismatch"));
    }
    if t_lat == 0 || t_lat % 2 != 0 {
        return Err(ggml_error("SAME-S requires a positive even latent length"));
    }
    Ok(())
}

/// Latent steps the SAME-L decoder decodes in one pass at most.
pub const SAME_L_MAX_SINGLE_PASS: usize = 6;

/// Checks the input of the SAME-L decoder, 256 values for each of `t_lat`
/// latent steps with `t_lat` positive, and plans its passes: one pass over
/// up to 6 steps, otherwise passes of 2 steps with 2 steps of context on
/// each side.
pub fn plan_same_l_decode<T>(latents: &[T], t_lat: usize) -> (r: Result<Vec<ChunkWindow>, Error>)
    requires
        LATENT * t_lat <= usize::MAX,
    ensures
        r is Ok <==> latents.len() == LATENT * t_lat && t_lat > 0,
        r matches Ok(plan) ==> plan@ == decode_chunk_plan(t_lat as int, 2, 2),
        r matches Err(e) ==> if latents.len() != LATENT * t_lat {
            is_ggml_error(e, "SAME-L latent length mismatch"@)
        } else {
            is_ggml_error(e, "SAME-L requires a positive latent length"@)
        },
{
    if latents.len() != LATENT * t_lat {
        return Err(ggml_error("SAME-L latent length mismatch"));
    }
    if t_lat == 0 {
        return Err(ggml_error("SAME-L requires a positive latent length"));
    }
    if t_lat > SAME_L_MAX_SINGLE_PASS {
        return Ok(same_l_chunk_plan(t_lat, 2, 2));
    }
    let mut plan: Vec<ChunkWindow> = Vec::new();
    plan.push(ChunkWindow { start: 0, end: t_lat, keep_start: 0, keep_end: t_lat });
    assert(plan@ =~= decode_chunk_plan(t_lat as int, 2, 2));
    Ok(plan)
}


/// The positions `0, 1, ..., n - 1` of `n` tokens, for rotary embeddings.
pub fn token_positions(n: usize) -> (positions: Vec<i32>)
    requires
        n <= 0x8000_0000,
    ensures
        positions.len() == n,
        forall|i: int| 0 <= i < n ==> positions[i] == i,
{
    let mut positions: Vec<i32> = Vec::new();
    for i in 0..n
        invariant
            n <= 0x8000_0000,
            positions.len() == i,
            forall|k: int| 0 <= k < i ==> positions[k] == k,
    {
        positions.push(i as i32);
    }
    positions
}

/// Memory tokens the medium diffusion transformer prepends to its sequence.
pub const DIT_MEMORY_TOKENS: usize = 64;
/// Cross-attention tokens of the medium diffusion transformer: the prompt
/// slots and the seconds token.
pub const DIT_CROSS_TOKENS: usize = 257;
/// Width of the conditioning tokens of the medium diffusion transformer.
pub const DIT_COND_DIM: usize = 768;
/// Values of a timestep embedding.
pub const TIMESTEP_FEATURES: usize = 256;

/// Checks the inputs of one step of the medium diffusion transformer: 256
/// noise values per latent step, 257 cross-attention tokens of 768 values, a
/// global conditioning of 768 values and a timestep embedding of 256.
pub fn check_dit_medium_inputs(
    noise_len: usize,
    t_lat: usize,
    cross_attn_len: usize,
    global_cond_len: usize,
    timestep_len: usize,
) -> (r: Result<(), Error>)
    requires
        LATENT * t_lat <= usize::MAX,
    ensures
        r is Ok <==> noise_len == LATENT * t_lat && cross_attn_len == DIT_CROSS_TOKENS * DIT_COND_DIM
            && global_cond_len == DIT_COND_DIM && timestep_len == TIMESTEP_FEATURES,
        r matches Err(e) ==> if noise_len != LATENT * t_lat {
            is_ggml_error(e, "DiT noise length mismatch"@)
        } else if cross_attn_len != DIT_CROSS_TOKENS * DIT_COND_DIM {
            is_ggml_error(e, "DiT cross attention length mismatch"@)
        } else {
            is_ggml_error(e, "DiT conditioning length mismatch"@)
        },
{
    if noise_len != LATENT * t_lat {
        return Err(ggml_error("DiT noise length mismatch"));
    }
    if cross_attn_len != DIT_CROSS_TOKENS * DIT_COND_DIM {
        return Err(ggml_error("DiT cross attention length mismatch"));
    }
    if global_cond_len != DIT_COND_DIM || timestep_len != TIMESTEP_FEATURES {
        return Err(ggml_error("DiT conditioning length mismatch"));
    }
    Ok(())
}

} // verus!
