//! Cross-fades between two interleaved sample buffers, and the checks on
//! the WAV files the runtime reads.
use vstd::prelude::*;
use vstd::string::StringExecFns;

use crate::error::{decimal, is_incomplete_error, usize_to_decimal, Error};

verus! {

/// One step of a linear cross-fade from a first sample towards a second one.
/// `Rise` gives the second sample the weight `step / len`; `Fall` gives it the
/// weight `1 - step / len`.
#[derive(Debug, Clone, Copy, PartialEq, Eq)]
pub enum Fade {
    Rise { step: usize, len: usize },
    Fall { step: usize, len: usize },
}


/// `g * channels + h` lies before frame `f` when `g < f` and `h < channels`.
pub proof fn lemma_frame_offset(g: int, h: int, f: int, channels: int)
    requires
        0 <= g < f,
        0 <= h < channels,
    ensures
        g * channels + h < f * channels,
        g * channels + h + 1 <= f * channels,
{
    vstd::arithmetic::mul::lemma_mul_inequality(g + 1, f, channels);
    vstd::arithmetic::mul::lemma_mul_is_distributive_add_other_way(channels, g, 1);
}

/// `frames * channels` samples fit in a buffer of `len` samples holding at
/// least `frames` whole frames.
pub proof fn lemma_frames_fit(len: int, channels: int, frames: int)
    requires
        0 < channels,
        0 <= len,
        0 <= frames <= len / channels,
    ensures
        frames * channels <= len,
{
    vstd::arithmetic::div_mod::lemma_fundamental_div_mod(len, channels);
    vstd::arithmetic::mul::lemma_mul_inequality(frames, len / channels, channels);
    vstd::arithmetic::mul::lemma_mul_is_commutative(channels, len / channels);
}

/// Appends `tail` to `prefix`, both interleaved over `channels` channels, and
/// fades over the first frames of the tail from the last frame of the prefix
/// into the tail. The fade covers `min(fade_hint, prefix frames, tail
/// frames)` frames; step `f` of it has `blend` mix the prefix's last frame
/// into the tail's frame `f` with the tail weighted `f / fade`.
pub fn splice_continuation<T: Copy, F: Fn(T, T, Fade) -> T>(
    prefix: &Vec<T>,
    tail: &Vec<T>,
    channels: u16,
    fade_hint: usize,
    blend: &F,
) -> (samples: Vec<T>)
    requires
        channels > 0,
        prefix.len() >= channels,
        prefix.len() + tail.len() <= usize::MAX,
        forall|a: T, b: T, fade: Fade| blend.requires((a, b, fade)),
    ensures
        ({
            let c = channels as int;
            let fade = vstd::math::min(
                vstd::math::min(fade_hint as int, prefix.len() as int / c),
                tail.len() as int / c,
            );
            let last = prefix.len() as int / c - 1;
            &&& samples.len() == prefix.len() + tail.len()
            &&& forall|i: int| 0 <= i < prefix.len() ==> samples[i] == prefix[i]
            &&& forall|f: int, h: int|
                0 <= f < fade && 0 <= h < c ==> blend.ensures(
                    (prefix[last * c + h], tail[f * c + h], Fade::Rise { step: f as usize, len: fade as usize }),
                    #[trigger] samples[prefix.len() + f * c + h],
                )
            &&& forall|j: int| fade * c <= j < tail.len() ==> samples[prefix.len() + j] == tail[j]
        }),
{
    let c = channels as usize;
    let prefix_frames = prefix.len() / c;
    let tail_frames = tail.len() / c;
    let fade = if fade_hint < prefix_frames { fade_hint } else { prefix_frames };
    let fade = if fade < tail_frames { fade } else { tail_frames };
    let tail_start = prefix.len();
    proof {
        lemma_frames_fit(prefix.len() as int, c as int, prefix_frames as int);
        lemma_frames_fit(tail.len() as int, c as int, fade as int);
        vstd::arithmetic::div_mod::lemma_fundamental_div_mod(prefix.len() as int, c as int);
        assert(prefix_frames >= 1) by {
            vstd::arithmetic::div_mod::lemma_div_is_ordered(c as int, prefix.len() as int, c as int);
            vstd::arithmetic::div_mod::lemma_div_by_self(c as int);
        }
    }
    let last = prefix_frames - 1;
    proof {
        lemma_frame_offset(last as int, (c - 1) as int, prefix_frames as int, c as int);
    }
    let mut samples: Vec<T> = Vec::new();
    for i in 0..prefix.len()
        invariant
            samples@ == prefix@.subrange(0, i as int),
    {
        samples.push(prefix[i]);
    }
    for j in 0..tail.len()
        invariant
            samples@ == prefix@ + tail@.subrange(0, j as int),
    {
        samples.push(tail[j]);
    }
    let ghost joined = samples@;
    assert(joined == prefix@ + tail@);
    for f in 0..fade
        invariant
            c == channels,
            c > 0,
            fade * c <= tail.len(),
            last * c + c <= prefix.len(),
            tail_start == prefix.len(),
            joined == prefix@ + tail@,
            samples.len() == joined.len(),
            forall|a: T, b: T, fd: Fade| blend.requires((a, b, fd)),
            forall|g: int, h: int|
                0 <= g < f && 0 <= h < c ==> blend.ensures(
                    (prefix[last * c + h], tail[g * c + h], Fade::Rise { step: g as usize, len: fade }),
                    #[trigger] samples[prefix.len() + g * c + h],
                ),
            forall|i: int| 0 <= i < samples.len() && !(tail_start <= i < tail_start + f * c) ==> samples[i] == joined[i],
    {
        proof {
            lemma_frame_offset(f as int, (c - 1) as int, fade as int, c as int);
        }
        for h in 0..c
            invariant
                c == channels,
                c > 0,
                f < fade,
                f * c + c <= fade * c,
                fade * c <= tail.len(),
                last * c + c <= prefix.len(),
                tail_start == prefix.len(),
                joined == prefix@ + tail@,
                samples.len() == joined.len(),
                forall|a: T, b: T, fd: Fade| blend.requires((a, b, fd)),
                forall|g: int, k: int|
                    0 <= g < f && 0 <= k < c ==> blend.ensures(
                        (prefix[last * c + k], tail[g * c + k], Fade::Rise { step: g as usize, len: fade }),
                        #[trigger] samples[prefix.len() + g * c + k],
                    ),
                forall|k: int|
                    0 <= k < h ==> blend.ensures(
                        (prefix[last * c + k], tail[f * c + k], Fade::Rise { step: f as usize, len: fade }),
                        #[trigger] samples[prefix.len() + f * c + k],
                    ),
                forall|i: int| 0 <= i < samples.len() && !(tail_start <= i < tail_start + f * c + h) ==> samples[i] == joined[i],
        {
            let mixed = blend(prefix[last * c + h], tail[f * c + h], Fade::Rise { step: f, len: fade });
            let ghost before = samples@;
            samples.set(tail_start + f * c + h, mixed);
            proof {
                assert forall|g: int, k: int| 0 <= g < f && 0 <= k < c implies
                    #[trigger] samples[prefix.len() + g * c + k] == before[prefix.len() + g * c + k] by {
                    lemma_frame_offset(g, k, f as int, c as int);
                }
            }
        }
        proof {
            vstd::arithmetic::mul::lemma_mul_is_distributive_add_other_way(c as int, f as int, 1);
        }
    }
    proof {
        assert forall|i: int| 0 <= i < prefix.len() implies samples[i] == prefix[i] by {
            assert(samples[i] == joined[i]);
        }
        assert forall|j: int| fade * c <= j < tail.len() implies samples[prefix.len() + j] == tail[j] by {
            assert(samples[prefix.len() + j] == joined[prefix.len() + j]);
        }
    }
    samples
}

/// The message of an input WAV file with `channels` channels at `rate` Hz.
pub open spec fn wav_layout_message(channels: nat, rate: nat) -> Seq<char> {
    "input WAV must be stereo 44.1 kHz for now, got "@ + decimal(channels) + " channels at "@ + decimal(rate)
        + " Hz"@
}

/// Checks that an input WAV file is stereo at 44.1 kHz.
pub fn check_input_wav(channels: u16, sample_rate: u32) -> (r: Result<(), Error>)
    ensures
        r is Ok <==> channels == 2 && sample_rate == 44_100,
        r matches Err(e) ==> is_incomplete_error(e, wav_layout_message(channels as nat, sample_rate as nat)),
{
    if channels == 2 && sample_rate == 44_100 {
        Ok(())
    } else {
        let mut message = String::from_str("input WAV must be stereo 44.1 kHz for now, got ");
        let c = usize_to_decimal(channels as usize);
        message.append(c.as_str());
        message.append(" channels at ");
        let h = usize_to_decimal(sample_rate as usize);
        message.append(h.as_str());
        message.append(" Hz");
        Err(Error::Incomplete(message))
    }
}

/// How the samples of a WAV file are stored.
#[derive(Debug, Clone, Copy, PartialEq, Eq)]
pub enum WavSampleFormat {
    Int,
    Float,
}

/// The sample encodings the runtime reads.
#[derive(Debug, Clone, Copy, PartialEq, Eq)]
pub enum WavSampleKind {
    /// 16-bit integers, read as `sample / i16::MAX`.
    Int16,
    /// 32-bit floats, read as they are.
    Float32,
}

/// The name of a sample format as it shows in messages.
pub open spec fn format_name(format: WavSampleFormat) -> Seq<char> {
    match format {
        WavSampleFormat::Int => "Int"@,
        WavSampleFormat::Float => "Float"@,
    }
}

/// The message of an input WAV file whose samples are `bits`-bit `format`.
pub open spec fn wav_format_message(format: WavSampleFormat, bits: nat) -> Seq<char> {
    "unsupported input WAV format: "@ + format_name(format) + " "@ + decimal(bits) + " bits"@
}

/// The sample encoding of an input WAV file: 16-bit integers or 32-bit
/// floats; any other is not supported.
pub fn input_sample_kind(format: WavSampleFormat, bits_per_sample: u16) -> (r: Result<WavSampleKind, Error>)
    ensures
        format == WavSampleFormat::Int && bits_per_sample == 16 ==> r == Ok::<WavSampleKind, Error>(
            WavSampleKind::Int16,
        ),
        format == WavSampleFormat::Float && bits_per_sample == 32 ==> r == Ok::<WavSampleKind, Error>(
            WavSampleKind::Float32,
        ),
        !(format == WavSampleFormat::Int && bits_per_sample == 16) && !(format == WavSampleFormat::Float
            && bits_per_sample == 32) ==> (r matches Err(e) && is_incomplete_error(
            e,
            wav_format_message(format, bits_per_sample as nat),
        )),
{
    match (format, bits_per_sample) {
        (WavSampleFormat::Int, 16) => Ok(WavSampleKind::Int16),
        (WavSampleFormat::Float, 32) => Ok(WavSampleKind::Float32),
        _ => {
            let mut message = String::from_str("unsupported input WAV format: ");
            match format {
                WavSampleFormat::Int => message.append("Int"),
                WavSampleFormat::Float => message.append("Float"),
            }
            message.append(" ");
            let b = usize_to_decimal(bits_per_sample as usize);
            message.append(b.as_str());
            message.append(" bits");
            Err(Error::Incomplete(message))
        },
    }
}

} // verus!
