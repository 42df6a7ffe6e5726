use stable_audio::audio::{splice_continuation, Fade};
use stable_audio::sa3::conditioning::{
    assemble_cross_attn, latent_length, COND_DIM, PROMPT_LEN, SAMPLE_RATE,
};
use stable_audio::sa3::{
    check_component, inpaint_keep_mask, is_same_l_encoder, local_conditioning, paste_back,
    patch_audio_for_encoder, patched_decode_stereo, require_part, restore_inpaint_waveform,
    sampler_seed, DitComponent, FADE_FRAMES, SAMPLER_SEED_MIX,
};
use stable_audio::Error;

/// Linear cross-fade of an input sample `a` into a generated sample `b`.
fn blend(a: f32, b: f32, fade: Fade) -> f32 {
    let gen_mix = match fade {
        Fade::Rise { step, len } => step as f32 / len as f32,
        Fade::Fall { step, len } => 1.0 - step as f32 / len as f32,
    };
    a * (1.0 - gen_mix) + b * gen_mix
}

fn seconds_to_frame(seconds: f32, max_frames: usize) -> usize {
    (seconds * SAMPLE_RATE as f32).round().clamp(0.0, max_frames as f32) as usize
}

fn ramp_input(frames: usize) -> Vec<f32> {
    (0..frames)
        .flat_map(|frame| {
            let value = frame as f32 / frames as f32;
            [value, -value]
        })
        .collect::<Vec<_>>()
}

#[test]
fn restore_inpaint_waveform_preserves_unmasked_regions() {
    let frames = SAMPLE_RATE * 3;
    let input_samples = ramp_input(frames);
    let mut output = vec![0.5f32; input_samples.len()];
    let out_frames = output.len() / 2;
    let start = seconds_to_frame(1.0, out_frames);
    let end = seconds_to_frame(2.0, out_frames);

    restore_inpaint_waveform(&mut output, &input_samples, 2, start, end, &blend);

    let start = SAMPLE_RATE * 2;
    for frame in 0..SAMPLE_RATE {
        assert_eq!(output[frame * 2], input_samples[frame * 2]);
        assert_eq!(output[frame * 2 + 1], input_samples[frame * 2 + 1]);
    }
    for frame in start..frames {
        assert_eq!(output[frame * 2], input_samples[frame * 2]);
        assert_eq!(output[frame * 2 + 1], input_samples[frame * 2 + 1]);
    }
}

#[test]
fn restore_inpaint_waveform_fades_at_both_edges() {
    let frames = SAMPLE_RATE * 3;
    let input_samples = ramp_input(frames);
    let mut output = vec![0.5f32; input_samples.len()];
    restore_inpaint_waveform(&mut output, &input_samples, 2, 44_100, 88_200, &blend);
    // First frame of the region: the fade has not started, the input is kept.
    assert_eq!(output[44_100 * 2], input_samples[44_100 * 2]);
    // Halfway through the rise: half input, half generated.
    let mid = 44_100 + 1_000;
    let w = 1_000f32 / 2_205f32;
    let expected = input_samples[mid * 2] * (1.0 - w) + 0.5 * w;
    assert!((output[mid * 2] - expected).abs() < 1e-6);
    // The middle of the region stays generated.
    assert_eq!(output[66_000 * 2], 0.5);
    assert_eq!(output[66_000 * 2 + 1], 0.5);
    // First frame of the fall is still fully generated.
    let fall = 88_200 - FADE_FRAMES;
    assert_eq!(output[fall * 2], 0.5);
}

#[test]
fn restore_inpaint_waveform_leaves_non_stereo_input_alone() {
    let input_samples = vec![0.25f32; 300];
    let mut output = vec![0.5f32; 300];
    restore_inpaint_waveform(&mut output, &input_samples, 1, 10, 20, &blend);
    assert!(output.iter().all(|v| *v == 0.5));
}

#[test]
fn restore_inpaint_waveform_keeps_output_past_short_input() {
    let input_samples = vec![0.25f32; 20];
    let mut output = vec![0.5f32; 40];
    restore_inpaint_waveform(&mut output, &input_samples, 2, 15, 15, &blend);
    // The input frames are copied back before the region.
    for frame in 0..10 {
        assert_eq!(output[frame * 2], 0.25);
    }
    // Past the input and before the region, the output stays generated.
    for frame in 10..15 {
        assert_eq!(output[frame * 2], 0.5);
    }
    // The fade into the region reads the input's last frame.
    assert_eq!(output[15 * 2], 0.25);
    assert!(output[19 * 2] > 0.25 && output[19 * 2] < 0.5);
}

#[test]
fn fade_frames_is_fifty_milliseconds() {
    assert_eq!(FADE_FRAMES, (SAMPLE_RATE as f32 * 0.05).round() as usize);
}

#[test]
fn encoder_patches_round_trip_through_decoder_layout() {
    let frames = 4096usize;
    let samples: Vec<i32> = (0..frames as i32 * 2).collect();
    let patches = patch_audio_for_encoder(&samples, 2, frames, -1);
    assert_eq!(patches.len(), 16 * 512);
    // Patch 0 holds the left channel, then the right channel.
    assert_eq!(patches[0], 0);
    assert_eq!(patches[1], 2);
    assert_eq!(patches[256], 1);
    assert_eq!(patches[512], 512);
    let back = patched_decode_stereo(&patches, 1, frames);
    assert_eq!(back, samples);
}

#[test]
fn encoder_patches_fill_past_the_input() {
    let samples: Vec<i32> = vec![7; 20];
    let patches = patch_audio_for_encoder(&samples, 2, 300, -1);
    assert_eq!(patches.len(), 512);
    assert_eq!(patches[9], 7);
    assert_eq!(patches[10], -1);
    assert_eq!(patches[256 + 9], 7);
    assert_eq!(patches[256 + 10], -1);
    let back = patched_decode_stereo(&patches, 1, 12);
    assert_eq!(back, vec![7, 7, 7, 7, 7, 7, 7, 7, 7, 7, 7, 7, 7, 7, 7, 7, 7, 7, 7, 7, -1, -1, -1, -1]);
}

#[test]
fn decoded_stereo_is_cut_to_the_latent_length() {
    let patches: Vec<u16> = (0..16 * 512).map(|i| i as u16).collect();
    let back = patched_decode_stereo(&patches, 1, 10_000);
    assert_eq!(back.len(), 2 * 4096);
    let back = patched_decode_stereo(&patches, 0, 10_000);
    assert!(back.is_empty());
}

#[test]
fn splice_continuation_fades_into_the_tail() {
    let prefix = vec![1.0f32; 8];
    let tail = vec![0.0f32; 8];
    let out = splice_continuation(&prefix, &tail, 2, 2, &blend);
    assert_eq!(out.len(), 16);
    assert_eq!(&out[..8], &prefix[..]);
    // Step 0 of the fade: the tail weighted 0, so the prefix's last frame.
    assert_eq!(out[8], 1.0);
    assert_eq!(out[9], 1.0);
    // Step 1 of 2: half and half.
    assert_eq!(out[10], 0.5);
    assert_eq!(out[11], 0.5);
    assert_eq!(&out[12..], &[0.0f32; 4][..]);
}

#[test]
fn splice_continuation_fade_is_bounded_by_the_tail() {
    let prefix = vec![1.0f32; 8];
    let tail = vec![0.0f32; 2];
    let out = splice_continuation(&prefix, &tail, 2, 100, &blend);
    assert_eq!(out, vec![1.0f32; 10]);
}

#[test]
fn check_component_names_the_models() {
    assert!(matches!(check_component(Some("dit-small-sfx".to_string())), Ok(DitComponent::SmallSfx)));
    assert!(matches!(check_component(Some("dit-small-music".to_string())), Ok(DitComponent::SmallMusic)));
    assert!(matches!(check_component(Some("dit-medium".to_string())), Ok(DitComponent::Medium)));
    assert!(DitComponent::Medium.is_medium());
    assert!(!DitComponent::SmallSfx.is_medium());
}

#[test]
fn check_component_refuses_other_models() {
    match check_component(Some("dit-large".to_string())) {
        Err(Error::Incomplete(m)) => assert_eq!(m, "Rust ggml runtime for dit-large is not implemented yet"),
        other => panic!("unexpected {:?}", other),
    }
    match check_component(None) {
        Err(Error::Incomplete(m)) => assert_eq!(m, "Rust ggml runtime for  is not implemented yet"),
        other => panic!("unexpected {:?}", other),
    }
}

#[test]
fn same_l_encoder_is_recognised_by_name() {
    assert!(is_same_l_encoder(Some("same-l-encoder".to_string())));
    assert!(!is_same_l_encoder(Some("same-s-encoder".to_string())));
    assert!(!is_same_l_encoder(None));
}

#[test]
fn require_part_names_what_is_missing() {
    assert_eq!(require_part(Some(3u8), "encoder").unwrap(), 3);
    match require_part::<u8>(None, "audio editing requires an encoder") {
        Err(Error::Incomplete(m)) => assert_eq!(m, "audio editing requires an encoder"),
        other => panic!("unexpected {:?}", other),
    }
}

#[test]
fn sampler_seed_mixes_the_seed() {
    assert_eq!(sampler_seed(0), SAMPLER_SEED_MIX);
    assert_eq!(sampler_seed(SAMPLER_SEED_MIX), 0);
    assert_eq!(sampler_seed(1), 0x5A17_3A3D_DEC0_DED4);
}

#[test]
fn keep_mask_marks_steps_outside_the_region() {
    assert_eq!(inpaint_keep_mask(6, 2, 4), vec![true, true, false, false, true, true]);
    assert_eq!(inpaint_keep_mask(3, 2, 1), vec![true, true, true]);
    assert!(inpaint_keep_mask(0, 0, 5).is_empty());
}

#[test]
fn local_conditioning_interleaves_mask_and_latents() {
    let t_lat = 2usize;
    let mask = vec![1000u32, 1001];
    // Channel after channel: channel c, step t holds c * 2 + t.
    let latents: Vec<u32> = (0..256 * t_lat as u32).collect();
    let local = local_conditioning(&mask, &latents, t_lat);
    assert_eq!(local.len(), 2 * 257);
    assert_eq!(local[0], 1000);
    assert_eq!(local[1], 0);
    assert_eq!(local[2], 2);
    assert_eq!(local[256], 510);
    assert_eq!(local[257], 1001);
    assert_eq!(local[258], 1);
    assert_eq!(local[513], 511);
}

#[test]
fn paste_back_restores_kept_steps() {
    let t_lat = 2usize;
    let mut x = vec![0u8; 256 * t_lat + 3];
    let init = vec![9u8; 256 * t_lat];
    let keep = vec![true, false];
    paste_back(&mut x, &init, &keep, t_lat);
    for ch in 0..256 {
        assert_eq!(x[ch * t_lat], 9);
        assert_eq!(x[ch * t_lat + 1], 0);
    }
    assert_eq!(&x[512..], &[0, 0, 0]);
}

#[test]
fn latent_length_rounds_up_for_even_models() {
    assert_eq!(latent_length(0, false), 1);
    assert_eq!(latent_length(0, true), 2);
    assert_eq!(latent_length(5, true), 6);
    assert_eq!(latent_length(5, false), 5);
    assert_eq!(latent_length(8, true), 8);
}

#[test]
fn cross_attention_takes_prompt_tokens_where_masked() {
    let mut mask = vec![0u32; PROMPT_LEN];
    mask[0] = 1;
    mask[1] = 1;
    let prompt: Vec<u16> = (0..(2 * COND_DIM) as u16).collect();
    let pad = vec![7u16; COND_DIM];
    let seconds = vec![9u16; COND_DIM];
    let cross = assemble_cross_attn(&mask, &prompt, &pad, &seconds);
    assert_eq!(cross.len(), (PROMPT_LEN + 1) * COND_DIM);
    assert_eq!(cross[0], 0);
    assert_eq!(cross[COND_DIM + 5], (COND_DIM + 5) as u16);
    assert_eq!(cross[2 * COND_DIM], 7);
    assert_eq!(cross[255 * COND_DIM + 767], 7);
    assert_eq!(cross[256 * COND_DIM], 9);
}
