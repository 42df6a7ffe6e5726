//! Sample and latent layouts of generation, editing and inpainting.
use vstd::prelude::*;

pub mod conditioning;

use crate::audio::Fade;
use crate::error::{incomplete_error, is_incomplete_error, Error};
use crate::ggml_runtime::layout::{gathered, gather_tokens, lemma_gathered_token, lemma_sources_fit};
use vstd::string::StringExecFns;

verus! {

/// Frames of one channel carried by one encoder patch.
pub const PATCH_FRAMES: usize = 256;
/// Values of one encoder patch: the frames of the left channel, then of the right one.
pub const PATCH_WIDTH: usize = 512;

/// Position, in a patch buffer, of channel `channel` of stereo frame `frame`.
pub open spec fn stereo_patch_index(frame: int, channel: int) -> int {
    (frame / 256) * 512 + channel * 256 + frame % 256
}

/// Stereo frame held at position `k` of a patch buffer.
pub open spec fn patch_frame(k: int) -> int {
    (k / 512) * 256 + k % 256
}

/// Channel held at position `k` of a patch buffer.
pub open spec fn patch_channel(k: int) -> int {
    (k % 512) / 256
}

/// Value at position `k` of the encoder patches of an interleaved stereo
/// buffer whose first `keep` frames are used; later frames read as `fill`.
pub open spec fn encoder_patch_value<T>(samples: Seq<T>, keep: int, fill: T, k: int) -> T {
    if patch_frame(k) < keep {
        samples[2 * patch_frame(k) + patch_channel(k)]
    } else {
        fill
    }
}

/// The encoder patches of an interleaved stereo buffer: `patch_count` patches
/// over its first `keep` frames, later frames reading as `fill`.
pub open spec fn encoder_patches<T>(samples: Seq<T>, keep: int, fill: T, patch_count: int) -> Seq<T> {
    Seq::new((512 * patch_count) as nat, |k: int| encoder_patch_value(samples, keep, fill, k))
}

/// The first `frames` stereo frames of a patch buffer, interleaved.
pub open spec fn stereo_from_patches<T>(patches: Seq<T>, frames: int) -> Seq<T> {
    Seq::new((2 * frames) as nat, |i: int| patches[stereo_patch_index(i / 2, i % 2)])
}

/// Frames an interleaved buffer of `len` samples over `channels` channels holds.
pub open spec fn frame_count(len: int, channels: int) -> int {
    len / channels
}

/// Position `p * 512 + c * 256 + w` holds channel `c` of frame `p * 256 + w`.
pub proof fn lemma_patch_position(p: int, c: int, w: int)
    requires
        0 <= p,
        0 <= c < 2,
        0 <= w < 256,
    ensures
        patch_frame(p * 512 + c * 256 + w) == p * 256 + w,
        patch_channel(p * 512 + c * 256 + w) == c,
        stereo_patch_index(p * 256 + w, c) == p * 512 + c * 256 + w,
{
    let k = p * 512 + c * 256 + w;
    vstd::arithmetic::div_mod::lemma_fundamental_div_mod_converse(k, 512, p, c * 256 + w);
    vstd::arithmetic::div_mod::lemma_fundamental_div_mod_converse(c * 256 + w, 256, c, w);
    vstd::arithmetic::div_mod::lemma_fundamental_div_mod_converse(k, 256, 2 * p + c, w);
    vstd::arithmetic::div_mod::lemma_fundamental_div_mod_converse(p * 256 + w, 256, p, w);
}

/// Every frame and channel has its position in a patch buffer, and reading
/// that position back names the same frame and channel.
pub proof fn lemma_stereo_patch_index(frame: int, channel: int)
    requires
        0 <= frame,
        0 <= channel < 2,
    ensures
        patch_frame(stereo_patch_index(frame, channel)) == frame,
        patch_channel(stereo_patch_index(frame, channel)) == channel,
        0 <= stereo_patch_index(frame, channel) < (frame / 256 + 1) * 512,
{
    vstd::arithmetic::div_mod::lemma_fundamental_div_mod(frame, 256);
    lemma_patch_position(frame / 256, channel, frame % 256);
}

/// Splits the first `target_samples` frames of an interleaved stereo buffer
/// into encoder patches of 256 frames: each patch holds its left-channel
/// frames, then its right-channel frames. Frames past the end of the buffer
/// read as `fill`; a final partial patch is dropped.
pub fn patch_audio_for_encoder<T: Copy>(
    samples: &Vec<T>,
    channels: u16,
    target_samples: usize,
    fill: T,
) -> (patches: Vec<T>)
    requires
        channels > 0,
        2 * vstd::math::min(frame_count(samples.len() as int, channels as int), target_samples as int)
            <= samples.len(),
    ensures
        patches@ == encoder_patches(
            samples@,
            vstd::math::min(frame_count(samples.len() as int, channels as int), target_samples as int),
            fill,
            (target_samples / PATCH_FRAMES) as int,
        ),
        patches.len() == (target_samples / PATCH_FRAMES) * PATCH_WIDTH,
        forall|p: int, c: int, w: int|
            0 <= p < target_samples / PATCH_FRAMES && 0 <= c < 2 && 0 <= w < 256 ==> #[trigger] patches[p * 512 + c
                * 256 + w] == if p * 256 + w < vstd::math::min(
                samples.len() as int / channels as int,
                target_samples as int,
            ) {
                samples[2 * (p * 256 + w) + c]
            } else {
                fill
            },
{
    let frames = samples.len() / channels as usize;
    let keep = if frames < target_samples { frames } else { target_samples };
    let patch_t = target_samples / PATCH_FRAMES;
    let ghost keep_i = vstd::math::min(frame_count(samples.len() as int, channels as int), target_samples as int);
    assert(keep == keep_i);
    let mut patches: Vec<T> = Vec::new();
    for p in 0..patch_t
        invariant
            patch_t == target_samples / PATCH_FRAMES,
            keep == keep_i,
            2 * keep <= samples.len(),
            patches.len() == p * 512,
            forall|k: int| 0 <= k < patches.len() ==> patches[k] == encoder_patch_value(samples@, keep as int, fill, k),
    {
        assert(p * 512 + 512 <= patch_t * 512);
        for c in 0..2usize
            invariant
                p < patch_t,
                patch_t == target_samples / PATCH_FRAMES,
                keep == keep_i,
                2 * keep <= samples.len(),
                patches.len() == p * 512 + c * 256,
                forall|k: int| 0 <= k < patches.len() ==> patches[k] == encoder_patch_value(samples@, keep as int, fill, k),
        {
            for w in 0..256usize
                invariant
                    p < patch_t,
                    c < 2,
                    patch_t == target_samples / PATCH_FRAMES,
                    keep == keep_i,
                    2 * keep <= samples.len(),
                    patches.len() == p * 512 + c * 256 + w,
                    forall|k: int| 0 <= k < patches.len() ==> patches[k] == encoder_patch_value(samples@, keep as int, fill, k),
            {
                proof {
                    lemma_patch_position(p as int, c as int, w as int);
                }
                let frame = p * 256 + w;
                let value = if frame < keep { samples[2 * frame + c] } else { fill };
                patches.push(value);
            }
        }
    }
    assert(patches@ =~= encoder_patches(samples@, keep as int, fill, patch_t as int));
    proof {
        assert forall|p: int, c: int, w: int| 0 <= p < patch_t && 0 <= c < 2 && 0 <= w < 256 implies #[trigger] patches[p
            * 512 + c * 256 + w] == if p * 256 + w < keep {
            samples[2 * (p * 256 + w) + c]
        } else {
            fill
        } by {
            lemma_patch_position(p, c, w);
            assert(p * 512 + c * 256 + w < patch_t * 512) by (nonlinear_arith)
                requires
                    0 <= p < patch_t,
                    0 <= c < 2,
                    0 <= w < 256,
            ;
        }
    }
    patches
}

/// Reads the first `min(target_samples, t_lat * 4096)` stereo frames back
/// out of decoder patches laid out as the encoder patches are, interleaving
/// the two channels.
pub fn patched_decode_stereo<T: Copy>(patches: &Vec<T>, t_lat: usize, target_samples: usize) -> (samples: Vec<T>)
    requires
        t_lat * conditioning::SAMPLES_PER_LATENT <= usize::MAX,
        vstd::math::min(target_samples as int, t_lat * conditioning::SAMPLES_PER_LATENT) == 0
            || stereo_patch_index(
            vstd::math::min(target_samples as int, t_lat * conditioning::SAMPLES_PER_LATENT) - 1,
            1,
        ) < patches.len(),
    ensures
        samples@ == stereo_from_patches(
            patches@,
            vstd::math::min(target_samples as int, t_lat * conditioning::SAMPLES_PER_LATENT),
        ),
        samples.len() == 2 * vstd::math::min(target_samples as int, t_lat * conditioning::SAMPLES_PER_LATENT),
        forall|f: int, c: int|
            0 <= f < vstd::math::min(target_samples as int, t_lat * conditioning::SAMPLES_PER_LATENT) && 0 <= c < 2
                ==> #[trigger] samples[2 * f + c] == patches[(f / 256) * 512 + c * 256 + f % 256],
{
    let total = t_lat * conditioning::SAMPLES_PER_LATENT;
    let keep = if target_samples < total { target_samples } else { total };
    let mut samples: Vec<T> = Vec::new();
    for f in 0..keep
        invariant
            keep == vstd::math::min(target_samples as int, t_lat * conditioning::SAMPLES_PER_LATENT),
            keep == 0 || stereo_patch_index(keep - 1, 1) < patches.len(),
            samples.len() == 2 * f,
            forall|g: int, c: int|
                0 <= g < f && 0 <= c < 2 ==> #[trigger] samples[2 * g + c] == patches[stereo_patch_index(g, c)],
    {
        proof {
            lemma_patch_index_monotonic(f as int, keep - 1);
        }
        let patch_pos = f / 256;
        let within = f % 256;
        let left = patches[within + patch_pos * 512];
        let right = patches[256 + within + patch_pos * 512];
        samples.push(left);
        samples.push(right);
        assert(samples[2 * f as int + 0] == patches[stereo_patch_index(f as int, 0)]);
    }
    assert forall|i: int| 0 <= i < samples.len() implies samples[i] == patches[stereo_patch_index(i / 2, i % 2)] by {
        assert(i == 2 * (i / 2) + i % 2);
        assert(samples[2 * (i / 2) + i % 2] == patches[stereo_patch_index(i / 2, i % 2)]);
    }
    assert(samples@ =~= stereo_from_patches(patches@, keep as int));
    samples
}

/// Reading the encoder patches of a stereo buffer back as stereo frames gives
/// back the buffer's first frames, and the fill value past the frames used.
pub proof fn lemma_patch_round_trip<T>(samples: Seq<T>, keep: int, fill: T, patch_count: int, frames: int)
    requires
        0 <= keep,
        0 <= patch_count,
        0 <= frames <= 256 * patch_count,
    ensures
        stereo_from_patches(encoder_patches(samples, keep, fill, patch_count), frames)
            == Seq::new((2 * frames) as nat, |i: int| if i / 2 < keep { samples[i] } else { fill }),
{
    let patches = encoder_patches(samples, keep, fill, patch_count);
    let lhs = stereo_from_patches(patches, frames);
    let rhs = Seq::new((2 * frames) as nat, |i: int| if i / 2 < keep { samples[i] } else { fill });
    assert forall|i: int| 0 <= i < lhs.len() implies lhs[i] == rhs[i] by {
        let f = i / 2;
        let c = i % 2;
        lemma_stereo_patch_index(f, c);
        assert(f / 256 + 1 <= patch_count) by {
            vstd::arithmetic::div_mod::lemma_div_is_ordered(f, 256 * patch_count - 1, 256);
            vstd::arithmetic::div_mod::lemma_fundamental_div_mod_converse(
                256 * patch_count - 1,
                256,
                patch_count - 1,
                255,
            );
        }
        assert(2 * f + c == i);
    }
    assert(lhs =~= rhs);
}

/// Later frames sit at later positions of a patch buffer.
pub proof fn lemma_patch_index_monotonic(a: int, b: int)
    requires
        0 <= a <= b,
    ensures
        stereo_patch_index(a, 0) <= stereo_patch_index(b, 0),
        stereo_patch_index(a, 1) <= stereo_patch_index(b, 1),
        stereo_patch_index(a, 0) + 256 == stereo_patch_index(a, 1),
{
    vstd::arithmetic::div_mod::lemma_fundamental_div_mod(a, 256);
    vstd::arithmetic::div_mod::lemma_fundamental_div_mod(b, 256);
    vstd::arithmetic::div_mod::lemma_div_is_ordered(a, b, 256);
    if a / 256 < b / 256 {
        assert((a / 256) * 512 + 512 <= (b / 256) * 512);
    } else {
        assert(a % 256 <= b % 256);
    }
}


/// Frames over which an inpainted region fades in and out: 0.05 s at 44.1 kHz.
pub const FADE_FRAMES: usize = 2205;

/// First frame after the fade into the generated region.
pub open spec fn rise_end(start: int, fade: int, frames: int) -> int {
    vstd::math::min(start + fade, frames)
}

/// First frame of the fade back out of the generated region.
pub open spec fn fall_start(start: int, end: int, fade: int) -> int {
    vstd::math::max(if end >= fade { end - fade } else { 0 }, start)
}

/// What `restore_inpaint_waveform` leaves in channel `ch` of frame `frame`,
/// which held `orig`: input frames are copied back before the region and
/// from its end on; the region fades in from the input and back out to it;
/// the rest stays generated. `blend(a, b, fade)` mixes input sample `a` with
/// the sample `b` that was there.
pub open spec fn restored_sample<T, F: Fn(T, T, Fade) -> T>(
    blend: F,
    input: Seq<T>,
    input_frames: int,
    frames: int,
    start: int,
    end: int,
    fade: int,
    frame: int,
    ch: int,
    orig: T,
    out: T,
) -> bool {
    let src = input[2 * vstd::math::min(frame, input_frames - 1) + ch];
    let fs = fall_start(start, end, fade);
    let rising = start <= frame < rise_end(start, fade, frames);
    let falling = end < frames && fs <= frame < end;
    let rise = Fade::Rise { step: (frame - start) as usize, len: fade as usize };
    let fall = Fade::Fall { step: (frame - fs) as usize, len: vstd::math::max(end - fs, 1) as usize };
    if frame < vstd::math::min(start, input_frames) || (end < frames && end <= frame < input_frames) {
        out == input[2 * frame + ch]
    } else if rising && falling {
        exists|mid: T| blend.ensures((src, orig, rise), mid) && blend.ensures((src, mid, fall), out)
    } else if rising {
        blend.ensures((src, orig, rise), out)
    } else if falling {
        blend.ensures((src, orig, fall), out)
    } else {
        out == orig
    }
}

/// Whether `out` is `b` blended with `a` by `first`, then with `a` again by
/// `second`.
pub open spec fn blended_twice<T, F: Fn(T, T, Fade) -> T>(blend: F, a: T, b: T, first: Fade, second: Fade, out: T) -> bool {
    exists|mid: T| blend.ensures((a, b, first), mid) && blend.ensures((a, mid, second), out)
}

/// Restoring an inpainted waveform mixes, at every frame it blends, the
/// input's sample of that same frame (the input's last frame past its end)
/// with the generated sample; it copies the input's frame before the region
/// and from its end on, and leaves every other frame as generated. The fade
/// in runs over the region's first `fade` frames, and the fade out, when the
/// region ends before the output does, over its last `fade` frames.
pub proof fn lemma_restore_blends_same_frame<T, F: Fn(T, T, Fade) -> T>(
    blend: F,
    input: Seq<T>,
    input_frames: int,
    frames: int,
    start: int,
    end: int,
    fade: int,
    frame: int,
    ch: int,
    orig: T,
    out: T,
)
    requires
        restored_sample(blend, input, input_frames, frames, start, end, fade, frame, ch, orig, out),
        0 <= frame < frames,
        0 <= ch < 2,
    ensures
        ({
            let same = input[2 * vstd::math::min(frame, input_frames - 1) + ch];
            let copied = frame < vstd::math::min(start, input_frames) || (end < frames && end <= frame
                < input_frames);
            let rising = start <= frame < vstd::math::min(start + fade, frames);
            let fall_from = vstd::math::max(if end >= fade { end - fade } else { 0 }, start);
            let falling = end < frames && fall_from <= frame < end;
            let rise = Fade::Rise { step: (frame - start) as usize, len: fade as usize };
            let fall = Fade::Fall {
                step: (frame - fall_from) as usize,
                len: vstd::math::max(end - fall_from, 1) as usize,
            };
            &&& copied ==> out == input[2 * frame + ch]
            &&& !copied && rising && !falling ==> blend.ensures((same, orig, rise), out)
            &&& !copied && falling && !rising ==> blend.ensures((same, orig, fall), out)
            &&& !copied && rising && falling ==> blended_twice(blend, same, orig, rise, fall, out)
            &&& !copied && !rising && !falling ==> out == orig
        }),
{
    let same = input[2 * vstd::math::min(frame, input_frames - 1) + ch];
    let fall_from = vstd::math::max(if end >= fade { end - fade } else { 0 }, start);
    let rise = Fade::Rise { step: (frame - start) as usize, len: fade as usize };
    let fall = Fade::Fall { step: (frame - fall_from) as usize, len: vstd::math::max(end - fall_from, 1) as usize };
    let copied = frame < vstd::math::min(start, input_frames) || (end < frames && end <= frame < input_frames);
    let rising = start <= frame < vstd::math::min(start + fade, frames);
    let falling = end < frames && fall_from <= frame < end;
    assert(fall_from == fall_start(start, end, fade));
    assert(copied ==> out == input[2 * frame + ch]);
    assert(!copied && rising && !falling ==> blend.ensures((same, orig, rise), out));
    assert(!copied && falling && !rising ==> blend.ensures((same, orig, fall), out));
    assert(!copied && !rising && !falling ==> out == orig);
    if !copied && rising && falling {
        let mid = choose|mid: T| blend.ensures((same, orig, rise), mid) && blend.ensures((same, mid, fall), out);
        assert(blend.ensures((same, orig, rise), mid) && blend.ensures((same, mid, fall), out));
    }
}

/// Puts the input audio back around an inpainted region of generated stereo
/// samples. The region runs from frame `start_frame` to frame
/// `max(end_frame, start_frame)`. Before the region the input frames are
/// copied back; over the first `FADE_FRAMES` frames of the region the output
/// fades from the input into the generated audio; when the region ends
/// before the output does, the output fades back to the input over the last
/// `FADE_FRAMES` frames of the region and the input frames are copied back
/// from the region's end on. Frames past the end of the input are left as
/// generated, and blended frames past it read its last frame. Nothing is
/// done unless the input is stereo and the output is not empty.
#[verifier::rlimit(60)]
pub fn restore_inpaint_waveform<T: Copy, F: Fn(T, T, Fade) -> T>(
    samples: &mut Vec<T>,
    input: &Vec<T>,
    input_channels: u16,
    start_frame: usize,
    end_frame: usize,
    blend: &F,
)
    requires
        forall|a: T, b: T, fade: Fade| blend.requires((a, b, fade)),
        start_frame <= usize::MAX - FADE_FRAMES,
        input_channels == 2 && old(samples).len() > 0 && start_frame < old(samples).len() / 2
            ==> input.len() / 2 > 0,
    ensures
        final(samples).len() == old(samples).len(),
        input_channels != 2 || old(samples).len() == 0 ==> final(samples)@ == old(samples)@,
        input_channels == 2 && old(samples).len() > 0 ==> {
            let frames = old(samples).len() / 2;
            let end = vstd::math::max(end_frame as int, start_frame as int);
            let fade = vstd::math::min(FADE_FRAMES as int, frames as int);
            &&& forall|frame: int, ch: int|
                0 <= frame < frames && 0 <= ch < 2 ==> #[trigger] restored_sample(
                    *blend,
                    input@,
                    (input.len() / 2) as int,
                    frames as int,
                    start_frame as int,
                    end,
                    fade,
                    frame,
                    ch,
                    old(samples)[2 * frame + ch],
                    final(samples)[2 * frame + ch],
                )
            &&& forall|i: int| 2 * frames <= i < old(samples).len() ==> final(samples)[i] == old(samples)[i]
            &&& forall|frame: int, ch: int|
                0 <= frame < vstd::math::min(start_frame as int, (input.len() / 2) as int) && frame < frames && 0
                    <= ch < 2 ==> #[trigger] final(samples)[2 * frame + ch] == input[2 * frame + ch]
            &&& end < frames ==> forall|frame: int, ch: int|
                end <= frame < vstd::math::min(frames as int, (input.len() / 2) as int) && 0 <= ch < 2
                    ==> #[trigger] final(samples)[2 * frame + ch] == input[2 * frame + ch]
        },
{
    if input_channels != 2 || samples.len() == 0 {
        return;
    }
    let ghost orig = samples@;
    let frames = samples.len() / 2;
    let input_frames = input.len() / 2;
    let start = start_frame;
    let end = if end_frame > start { end_frame } else { start };
    let fade = if FADE_FRAMES < frames { FADE_FRAMES } else { frames };

    // Input frames before the region.
    let prefix_end = if start < frames { start } else { frames };
    let prefix_end = if prefix_end < input_frames { prefix_end } else { input_frames };
    for frame in 0..prefix_end
        invariant
            samples.len() == orig.len(),
            frames == orig.len() / 2,
            input_frames == input.len() / 2,
            prefix_end <= frames,
            prefix_end <= input_frames,
            forall|g: int, ch: int| 0 <= g < frame && 0 <= ch < 2 ==> #[trigger] samples[2 * g + ch] == input[2 * g + ch],
            forall|i: int| 2 * frame <= i < samples.len() ==> samples[i] == orig[i],
    {
        samples.set(2 * frame, input[2 * frame]);
        samples.set(2 * frame + 1, input[2 * frame + 1]);
    }
    let ghost after_prefix = samples@;

    // Fade from the input into the generated region.
    let fade_in_end = if start + fade < frames { start + fade } else { frames };
    let source_last = if input_frames > 0 { input_frames - 1 } else { 0 };
    let mut frame = start;
    while frame < fade_in_end
        invariant
            start <= frame,
            frame <= fade_in_end || frame == start,
            samples.len() == orig.len(),
            frames == orig.len() / 2,
            input_frames == input.len() / 2,
            fade_in_end <= frames,
            start < frames ==> input_frames > 0,
            source_last == if input_frames > 0 { input_frames - 1 } else { 0 },
            forall|a: T, b: T, f: Fade| blend.requires((a, b, f)),
            forall|g: int, ch: int| start <= g < frame && 0 <= ch < 2 ==> blend.ensures(
                (
                    input[2 * vstd::math::min(g, input_frames - 1) + ch],
                    after_prefix[2 * g + ch],
                    Fade::Rise { step: (g - start) as usize, len: fade },
                ),
                #[trigger] samples[2 * g + ch],
            ),
            forall|i: int| 0 <= i < samples.len() && !(2 * start <= i < 2 * frame) ==> samples[i] == after_prefix[i],
        decreases fade_in_end - frame,
    {
        let source = if frame < source_last { frame } else { source_last };
        let step = Fade::Rise { step: frame - start, len: fade };
        let mixed_left = blend(input[2 * source], samples[2 * frame], step);
        samples.set(2 * frame, mixed_left);
        let mixed_right = blend(input[2 * source + 1], samples[2 * frame + 1], step);
        samples.set(2 * frame + 1, mixed_right);
        frame = frame + 1;
    }
    let ghost after_rise = samples@;
    let ghost mut after_fall = after_rise;
    let ghost mut fall_lo: int = 0;
    let ghost mut fall_hi: int = 0;
    let ghost mut fall_n: int = 1;
    let ghost mut suffix_hi: int = 0;

    if end < frames {
        // Fade from the generated region back to the input.
        let fall_from = if end >= fade { end - fade } else { 0 };
        let fall_from = if fall_from > start { fall_from } else { start };
        let fall_len = if end - fall_from > 1 { end - fall_from } else { 1 };
        let mut frame = fall_from;
        while frame < end
            invariant
                fall_from <= frame <= end,
                samples.len() == orig.len(),
                frames == orig.len() / 2,
                input_frames == input.len() / 2,
                end < frames,
                start <= fall_from,
                start < frames ==> input_frames > 0,
                source_last == if input_frames > 0 { input_frames - 1 } else { 0 },
                forall|a: T, b: T, f: Fade| blend.requires((a, b, f)),
                forall|g: int, ch: int| fall_from <= g < frame && 0 <= ch < 2 ==> blend.ensures(
                    (
                        input[2 * vstd::math::min(g, input_frames - 1) + ch],
                        after_rise[2 * g + ch],
                        Fade::Fall { step: (g - fall_from) as usize, len: fall_len },
                    ),
                    #[trigger] samples[2 * g + ch],
                ),
                forall|i: int| 0 <= i < samples.len() && !(2 * fall_from <= i < 2 * frame) ==> samples[i] == after_rise[i],
            decreases end - frame,
        {
            let source = if frame < source_last { frame } else { source_last };
            let step = Fade::Fall { step: frame - fall_from, len: fall_len };
            let mixed_left = blend(input[2 * source], samples[2 * frame], step);
            samples.set(2 * frame, mixed_left);
            let mixed_right = blend(input[2 * source + 1], samples[2 * frame + 1], step);
            samples.set(2 * frame + 1, mixed_right);
            frame = frame + 1;
        }
        proof {
            after_fall = samples@;
            fall_lo = fall_from as int;
            fall_hi = end as int;
            fall_n = fall_len as int;
        }

        // Input frames from the end of the region on.
        let suffix_end = if frames < input_frames { frames } else { input_frames };
        let mut frame = end;
        while frame < suffix_end
            invariant
                samples.len() == orig.len(),
                frames == orig.len() / 2,
                input_frames == input.len() / 2,
                suffix_end <= frames,
                suffix_end <= input_frames,
                end <= frame,
                frame <= suffix_end || frame == end,
                forall|g: int, ch: int| end <= g < frame && 0 <= ch < 2 ==> #[trigger] samples[2 * g + ch] == input[2 * g + ch],
                forall|i: int| 0 <= i < samples.len() && !(2 * end <= i < 2 * frame) ==> samples[i] == after_fall[i],
            decreases suffix_end - frame,
        {
            samples.set(2 * frame, input[2 * frame]);
            samples.set(2 * frame + 1, input[2 * frame + 1]);
            frame = frame + 1;
        }
        proof {
            suffix_hi = suffix_end as int;
        }
    }
    proof {
        assert forall|g: int, ch: int| 0 <= g < frames && 0 <= ch < 2 implies #[trigger] restored_sample(
            *blend,
            input@,
            input_frames as int,
            frames as int,
            start as int,
            end as int,
            fade as int,
            g,
            ch,
            orig[2 * g + ch],
            samples[2 * g + ch],
        ) by {
            let i = 2 * g + ch;
            if g < prefix_end {
                assert(after_prefix[i] == input[i]);
            } else {
                assert(after_prefix[i] == orig[i]);
            }
            if start <= g < fade_in_end {
                assert(blend.ensures(
                    (input[2 * vstd::math::min(g, input_frames - 1) + ch], after_prefix[i],
                        Fade::Rise { step: (g - start) as usize, len: fade }),
                    after_rise[i],
                ));
            } else {
                assert(after_rise[i] == after_prefix[i]);
            }
            if fall_lo <= g < fall_hi {
                assert(blend.ensures(
                    (input[2 * vstd::math::min(g, input_frames - 1) + ch], after_rise[i],
                        Fade::Fall { step: (g - fall_lo) as usize, len: fall_n as usize }),
                    after_fall[i],
                ));
            } else {
                assert(after_fall[i] == after_rise[i]);
            }
            if end <= g < suffix_hi {
                assert(samples[i] == input[i]);
            } else {
                assert(samples[i] == after_fall[i]);
            }
        }
    }
    proof {
        assert forall|g: int, ch: int|
            0 <= g < vstd::math::min(start as int, input_frames as int) && g < frames && 0 <= ch < 2 implies
            #[trigger] samples[2 * g + ch] == input[2 * g + ch] by {
            assert(restored_sample(
                *blend,
                input@,
                input_frames as int,
                frames as int,
                start as int,
                end as int,
                fade as int,
                g,
                ch,
                orig[2 * g + ch],
                samples[2 * g + ch],
            ));
        }
        assert forall|g: int, ch: int|
            end < frames && end <= g < vstd::math::min(frames as int, input_frames as int) && 0 <= ch < 2 implies
            #[trigger] samples[2 * g + ch] == input[2 * g + ch] by {
            assert(restored_sample(
                *blend,
                input@,
                input_frames as int,
                frames as int,
                start as int,
                end as int,
                fade as int,
                g,
                ch,
                orig[2 * g + ch],
                samples[2 * g + ch],
            ));
        }
    }
}




/// The diffusion transformers the runtime runs.
#[derive(Debug, Clone, Copy, PartialEq, Eq)]
pub enum DitComponent {
    SmallSfx,
    SmallMusic,
    Medium,
}

impl DitComponent {
    /// Whether this is the medium model, which pairs with the SAME-L
    /// decoder and takes any latent length.
    pub fn is_medium(&self) -> (r: bool)
        ensures
            r == (*self == DitComponent::Medium),
    {
        match self {
            DitComponent::Medium => true,
            _ => false,
        }
    }
}

/// Whether two strings hold the same characters.
fn same_text(a: &str, b: &str) -> (r: bool)
    ensures
        r == (a@ == b@),
{
    let a = String::from_str(a);
    let b = String::from_str(b);
    a == b
}

/// The diffusion transformer a DiT GGUF names under `sa3.component`
/// (nothing read as the empty name); another name is not supported.
pub fn check_component(component: Option<String>) -> (r: Result<DitComponent, Error>)
    ensures
        ({
            let name = match component {
                Some(c) => c@,
                None => Seq::<char>::empty(),
            };
            &&& name == "dit-small-sfx"@ ==> r == Ok::<DitComponent, Error>(DitComponent::SmallSfx)
            &&& name == "dit-small-music"@ ==> r == Ok::<DitComponent, Error>(DitComponent::SmallMusic)
            &&& name == "dit-medium"@ ==> r == Ok::<DitComponent, Error>(DitComponent::Medium)
            &&& name != "dit-small-sfx"@ && name != "dit-small-music"@ && name != "dit-medium"@ ==> (r matches Err(e)
                && is_incomplete_error(e, "Rust ggml runtime for "@ + name + " is not implemented yet"@))
        }),
{
    let name = match component {
        Some(c) => c,
        None => String::new(),
    };
    proof {
        reveal_strlit("dit-small-sfx");
        reveal_strlit("dit-small-music");
        reveal_strlit("dit-medium");
        assert("dit-small-sfx"@[10] != "dit-small-music"@[10]);
        assert("dit-medium"@[4] != "dit-small-sfx"@[4]);
        assert("dit-medium"@[4] != "dit-small-music"@[4]);
    }
    if same_text(name.as_str(), "dit-small-sfx") {
        Ok(DitComponent::SmallSfx)
    } else if same_text(name.as_str(), "dit-small-music") {
        Ok(DitComponent::SmallMusic)
    } else if same_text(name.as_str(), "dit-medium") {
        Ok(DitComponent::Medium)
    } else {
        let mut message = String::from_str("Rust ggml runtime for ");
        message.append(name.as_str());
        message.append(" is not implemented yet");
        Err(Error::Incomplete(message))
    }
}

/// Whether an encoder GGUF whose `sa3.component` is `component` is the
/// SAME-L encoder.
pub fn is_same_l_encoder(component: Option<String>) -> (r: bool)
    ensures
        r == (component matches Some(c) && c@ == "same-l-encoder"@),
{
    match component {
        Some(c) => same_text(c.as_str(), "same-l-encoder"),
        None => false,
    }
}

/// A part of the runtime that a mode needs, or the error naming it missing.
pub fn require_part<P>(part: Option<P>, message: &str) -> (r: Result<P, Error>)
    ensures
        match part {
            Some(p) => r == Ok::<P, Error>(p),
            None => r matches Err(e) && is_incomplete_error(e, message@),
        },
{
    match part {
        Some(p) => Ok(p),
        None => Err(incomplete_error(message)),
    }
}

/// Mixed into the seed of the noise the sampler adds between steps.
pub const SAMPLER_SEED_MIX: u64 = 0x5A17_3A3D_DEC0_DED5;

/// Seed of the noise the sampler adds between steps.
pub fn sampler_seed(seed: u64) -> (r: u64)
    ensures
        r == seed ^ SAMPLER_SEED_MIX,
{
    seed ^ SAMPLER_SEED_MIX
}

/// Whether latent step `t` keeps the input audio when inpainting the steps
/// `[start_lat, end_lat)`.
pub open spec fn keeps_input(t: int, start_lat: int, end_lat: int) -> bool {
    !(start_lat <= t < end_lat)
}

/// Which of `t_lat` latent steps keep the input audio when the steps
/// `[start_lat, end_lat)` are inpainted.
pub fn inpaint_keep_mask(t_lat: usize, start_lat: usize, end_lat: usize) -> (keep: Vec<bool>)
    ensures
        keep.len() == t_lat,
        forall|t: int| 0 <= t < t_lat ==> keep[t] == keeps_input(t, start_lat as int, end_lat as int),
        forall|t: int| 0 <= t < t_lat ==> (#[trigger] keep[t] <==> (t < start_lat || t >= end_lat)),
{
    let mut keep: Vec<bool> = Vec::new();
    for t in 0..t_lat
        invariant
            keep.len() == t,
            forall|u: int| 0 <= u < t ==> keep[u] == keeps_input(u, start_lat as int, end_lat as int),
    {
        keep.push(!(start_lat <= t && t < end_lat));
    }
    keep
}

/// Sources of the local conditioning of `t_lat` latent steps over
/// `[mask values..., masked latents...]`: each step is its mask value, then
/// its 256 masked latent channels, which the latents hold channel after
/// channel.
pub open spec fn local_conditioning_plan(t_lat: int) -> Seq<usize> {
    Seq::new(
        (t_lat * 257) as nat,
        |j: int| if j % 257 == 0 { (j / 257) as usize } else { (t_lat + (j % 257 - 1) * t_lat + j / 257) as usize },
    )
}

/// The local conditioning holds, for each latent step, its mask value, then
/// channel `c` of its latent, read from a buffer that holds channel after
/// channel.
pub proof fn lemma_local_conditioning_layout<T>(mask_values: Seq<T>, masked_latents: Seq<T>, t_lat: int)
    requires
        mask_values.len() == t_lat,
        masked_latents.len() == 256 * t_lat,
        t_lat * 257 <= usize::MAX,
    ensures
        ({
            let out = gathered(mask_values + masked_latents, 1, local_conditioning_plan(t_lat));
            &&& out.len() == t_lat * 257
            &&& forall|t: int| 0 <= t < t_lat ==> #[trigger] out[t * 257] == mask_values[t]
            &&& forall|t: int, c: int|
                0 <= t < t_lat && 0 <= c < 256 ==> #[trigger] out[t * 257 + 1 + c] == masked_latents[c * t_lat + t]
        }),
{
    let src = mask_values + masked_latents;
    let plan = local_conditioning_plan(t_lat);
    let out = gathered(src, 1, plan);
    assert forall|t: int| 0 <= t < t_lat implies #[trigger] out[t * 257] == mask_values[t] by {
        vstd::arithmetic::div_mod::lemma_fundamental_div_mod_converse(t * 257, 257, t, 0);
        lemma_gathered_token(src, 1, plan, t * 257, 0);
    }
    assert forall|t: int, c: int| 0 <= t < t_lat && 0 <= c < 256 implies #[trigger] out[t * 257 + 1 + c]
        == masked_latents[c * t_lat + t] by {
        vstd::arithmetic::div_mod::lemma_fundamental_div_mod_converse(t * 257 + 1 + c, 257, t, 1 + c);
        lemma_gathered_token(src, 1, plan, t * 257 + 1 + c, 0);
        assert(c * t_lat + t < 256 * t_lat) by (nonlinear_arith)
            requires
                0 <= t < t_lat,
                0 <= c < 256,
        ;
        assert(c * t_lat + t >= 0) by (nonlinear_arith)
            requires
                0 <= t < t_lat,
                0 <= c < 256,
        ;
    }
}

/// Lays out the local conditioning of inpainting: for each of `t_lat`
/// latent steps its mask value, then its 256 latent channels with the mask
/// applied, read from `masked_latents`, which holds channel after channel.
pub fn local_conditioning<T: Copy>(mask_values: &Vec<T>, masked_latents: &Vec<T>, t_lat: usize) -> (local: Vec<T>)
    requires
        mask_values.len() == t_lat,
        masked_latents.len() == conditioning::IO_CHANNELS * t_lat,
        t_lat * 257 <= usize::MAX,
    ensures
        local@ == gathered(mask_values@ + masked_latents@, 1, local_conditioning_plan(t_lat as int)),
        local.len() == t_lat * 257,
        forall|t: int| 0 <= t < t_lat ==> #[trigger] local[t * 257] == mask_values[t],
        forall|t: int, c: int|
            0 <= t < t_lat && 0 <= c < 256 ==> #[trigger] local[t * 257 + 1 + c] == masked_latents[c * t_lat + t],
{
    proof {
        lemma_local_conditioning_layout(mask_values@, masked_latents@, t_lat as int);
    }
    let mut combined: Vec<T> = Vec::new();
    for i in 0..t_lat
        invariant
            mask_values.len() == t_lat,
            combined@ == mask_values@.take(i as int),
    {
        combined.push(mask_values[i]);
    }
    for i in 0..masked_latents.len()
        invariant
            mask_values.len() == t_lat,
            masked_latents.len() == 256 * t_lat,
            t_lat * 257 <= usize::MAX,
            combined@ == mask_values@ + masked_latents@.take(i as int),
    {
        combined.push(masked_latents[i]);
    }
    assert(mask_values@ + masked_latents@.take(masked_latents.len() as int) == mask_values@ + masked_latents@);
    let mut sources: Vec<usize> = Vec::new();
    for t in 0..t_lat
        invariant
            t_lat * 257 <= usize::MAX,
            sources@ =~= local_conditioning_plan(t_lat as int).take(t * 257),
            forall|j: int| 0 <= j < sources.len() ==> #[trigger] sources[j] < t_lat * 257,
    {
        for r in 0..257usize
            invariant
                t < t_lat,
                t_lat * 257 <= usize::MAX,
                sources@ =~= local_conditioning_plan(t_lat as int).take(t * 257 + r),
                forall|j: int| 0 <= j < sources.len() ==> #[trigger] sources[j] < t_lat * 257,
        {
            proof {
                vstd::arithmetic::div_mod::lemma_fundamental_div_mod_converse(t * 257 + r, 257, t as int, r as int);
                if r > 0 {
                    assert(t_lat + (r - 1) * t_lat + t < t_lat * 257) by (nonlinear_arith)
                        requires
                            t < t_lat,
                            0 < r < 257,
                    ;
                }
            }
            let source = if r == 0 { t } else { t_lat + (r - 1) * t_lat + t };
            sources.push(source);
        }
    }
    proof {
        assert(sources@ =~= local_conditioning_plan(t_lat as int));
        lemma_sources_fit(sources@, t_lat * 257, 1);
    }
    gather_tokens(&combined, 1, &sources)
}

/// Puts the input's latents back into the latent steps that keep the input:
/// every channel of those steps reads the input's, the other steps stay as
/// they are. Both buffers hold channel after channel.
pub fn paste_back<T: Copy>(x: &mut Vec<T>, init_latents: &Vec<T>, keep: &Vec<bool>, t_lat: usize)
    requires
        conditioning::IO_CHANNELS * t_lat <= old(x).len(),
        conditioning::IO_CHANNELS * t_lat <= init_latents.len(),
        t_lat <= keep.len(),
    ensures
        final(x).len() == old(x).len(),
        forall|ch: int, t: int|
            0 <= ch < conditioning::IO_CHANNELS && 0 <= t < t_lat ==> #[trigger] final(x)[ch * t_lat + t] == if keep[t] {
                init_latents[ch * t_lat + t]
            } else {
                old(x)[ch * t_lat + t]
            },
        forall|i: int| 256 * t_lat <= i < old(x).len() ==> final(x)[i] == old(x)[i],
{
    let ghost orig = x@;
    for t in 0..t_lat
        invariant
            x.len() == orig.len(),
            256 * t_lat <= orig.len(),
            256 * t_lat <= init_latents.len(),
            t_lat <= keep.len(),
            forall|ch: int, u: int|
                0 <= ch < 256 && 0 <= u < t_lat ==> #[trigger] x[ch * t_lat + u] == if u < t && keep[u] {
                    init_latents[ch * t_lat + u]
                } else {
                    orig[ch * t_lat + u]
                },
            forall|i: int| 256 * t_lat <= i < orig.len() ==> x[i] == orig[i],
    {
        if keep[t] {
            for ch in 0..256usize
                invariant
                    t < t_lat,
                    keep[t as int],
                    x.len() == orig.len(),
                    256 * t_lat <= orig.len(),
                    256 * t_lat <= init_latents.len(),
                    t_lat <= keep.len(),
                    forall|c: int, u: int|
                        0 <= c < 256 && 0 <= u < t_lat ==> #[trigger] x[c * t_lat + u] == if (u < t && keep[u]) || (u == t
                            && c < ch) {
                            init_latents[c * t_lat + u]
                        } else {
                            orig[c * t_lat + u]
                        },
                    forall|i: int| 256 * t_lat <= i < orig.len() ==> x[i] == orig[i],
            {
                proof {
                    crate::ggml_runtime::layout::lemma_matrix_position(ch as int, t as int, 256, t_lat as int);
                }
                let ghost before = x@;
                let idx = ch * t_lat + t;
                x.set(idx, init_latents[idx]);
                proof {
                    assert forall|c: int, u: int| 0 <= c < 256 && 0 <= u < t_lat && !(c == ch && u == t) implies
                        #[trigger] x[c * t_lat + u] == before[c * t_lat + u] by {
                        crate::ggml_runtime::layout::lemma_matrix_position(c, u, 256, t_lat as int);
                        if c * t_lat + u == ch * t_lat + t {
                            crate::ggml_runtime::layout::lemma_token_position(c, u, t_lat as int);
                            crate::ggml_runtime::layout::lemma_token_position(ch as int, t as int, t_lat as int);
                        }
                    }
                }
            }
        }
    }
}

} // verus!
