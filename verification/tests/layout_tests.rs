use stable_audio::ggml_runtime::layout::{
    check_dit_medium_inputs, check_same_l_encode, check_same_s_decode, check_same_s_encode,
    crop_tokens, gather_tokens, interleave_decoder_tokens, interleave_encoder_tokens,
    plan_same_l_decode, same_l_chunk_plan, same_l_swa_mask, select_decoder_tokens,
    select_encoder_tokens, shift_pad_tokens, token_positions, transpose, validate_audio_patches,
    ChunkWindow, DIT_COND_DIM, DIT_CROSS_TOKENS, TIMESTEP_FEATURES,
};
use stable_audio::Error;

fn window(start: usize, end: usize, keep_start: usize, keep_end: usize) -> ChunkWindow {
    ChunkWindow { start, end, keep_start, keep_end }
}

#[test]
fn gather_copies_whole_tokens() {
    let src = vec![10, 11, 20, 21, 30, 31];
    assert_eq!(gather_tokens(&src, 2, &vec![2, 0, 2]), vec![30, 31, 10, 11, 30, 31]);
    assert!(gather_tokens(&src, 2, &vec![]).is_empty());
}

#[test]
fn shift_pad_repeats_the_edge_tokens() {
    let tokens = vec![1, 2, 3, 4];
    // Two tokens of width 2, padded by one token on each side.
    let padded = shift_pad_tokens(&tokens, 2, 2, 1);
    assert_eq!(padded, vec![1, 2, 1, 2, 3, 4, 3, 4]);
}

#[test]
fn crop_undoes_shift_pad() {
    let tokens: Vec<u32> = (0..12).collect();
    for shift in 0..=4usize {
        let padded = shift_pad_tokens(&tokens, 3, 4, shift);
        assert_eq!(padded.len(), 3 * (4 + 2 * shift));
        assert_eq!(crop_tokens(&padded, 3, 4, shift), tokens);
    }
}

#[test]
fn decoder_sequence_repeats_the_learned_token() {
    let projected = vec![1u8, 2];
    let new_tokens = vec![9u8];
    let seq = interleave_decoder_tokens(&projected, &new_tokens, 1, 2);
    let mut expected = vec![1u8];
    expected.extend(std::iter::repeat(9u8).take(16));
    expected.push(2);
    expected.extend(std::iter::repeat(9u8).take(16));
    assert_eq!(seq, expected);
}

#[test]
fn encoder_sequence_ends_each_step_with_the_learned_token() {
    let mapped: Vec<u8> = (0..32).collect();
    let new_tokens = vec![99u8];
    let seq = interleave_encoder_tokens(&mapped, &new_tokens, 1, 2);
    assert_eq!(seq.len(), 34);
    assert_eq!(&seq[..16], &mapped[..16]);
    assert_eq!(seq[16], 99);
    assert_eq!(&seq[17..33], &mapped[16..]);
    assert_eq!(seq[33], 99);
}

#[test]
fn selections_pick_the_right_tokens() {
    let cropped: Vec<u16> = (0..34).collect();
    let dec = select_decoder_tokens(&cropped, 1, 2);
    let expected: Vec<u16> = (1..17).chain(18..34).collect();
    assert_eq!(dec, expected);
    assert_eq!(select_encoder_tokens(&cropped, 1, 2), vec![16, 33]);
}

#[test]
fn transpose_swaps_rows_and_columns() {
    let m = vec![1, 2, 3, 4, 5, 6];
    let t = transpose(&m, 2, 3);
    assert_eq!(t, vec![1, 4, 2, 5, 3, 6]);
    assert_eq!(transpose(&t, 3, 2), m);
}

#[test]
fn sliding_window_mask_covers_seventeen_tokens_each_way() {
    let n = 40usize;
    let mask = same_l_swa_mask(n);
    assert_eq!(mask.len(), n * n);
    for q in 0..n {
        for k in 0..n {
            let allowed = (q as i64 - k as i64).abs() <= 17;
            assert_eq!(mask[q * n + k], allowed, "query {} key {}", q, k);
        }
    }
    assert!(same_l_swa_mask(0).is_empty());
}

#[test]
fn chunk_plan_of_a_short_clip_is_one_pass() {
    assert_eq!(same_l_chunk_plan(5, 2, 2), vec![window(0, 5, 0, 5)]);
    assert_eq!(same_l_chunk_plan(6, 2, 2), vec![window(0, 6, 0, 6)]);
}

#[test]
fn chunk_plan_tiles_the_latent_steps() {
    assert_eq!(
        same_l_chunk_plan(10, 2, 2),
        vec![window(0, 6, 0, 4), window(2, 8, 2, 4), window(4, 10, 2, 4), window(4, 10, 4, 6)]
    );
    assert_eq!(
        same_l_chunk_plan(9, 2, 2),
        vec![window(0, 6, 0, 4), window(2, 8, 2, 4), window(3, 9, 3, 6)]
    );
    // Each latent step is kept exactly once, in order.
    for t_lat in 1..40usize {
        let plan = same_l_chunk_plan(t_lat, 2, 2);
        let mut next = 0;
        for w in &plan {
            assert_eq!(w.start + w.keep_start, next);
            next = w.start + w.keep_end;
            assert!(w.end <= t_lat);
        }
        assert_eq!(next, t_lat);
    }
}

#[test]
fn patch_count_is_checked() {
    let patches = vec![0u8; 8192 * 2];
    assert!(validate_audio_patches(&patches, 2).is_ok());
    match validate_audio_patches(&patches, 3) {
        Err(Error::Ggml(m)) => assert_eq!(m, "SAME encoder patch length mismatch: got 16384, expected 24576"),
        other => panic!("unexpected {:?}", other),
    }
}

#[test]
fn same_s_encoder_needs_an_even_length() {
    let patches = vec![0u8; 8192];
    match check_same_s_encode(&patches, 1) {
        Err(Error::Ggml(m)) => assert_eq!(m, "SAME-S encoder requires a positive even latent length"),
        other => panic!("unexpected {:?}", other),
    }
    assert!(check_same_s_encode(&vec![0u8; 8192 * 4], 4).is_ok());
    match check_same_s_encode(&patches, 2) {
        Err(Error::Ggml(m)) => assert_eq!(m, "SAME encoder patch length mismatch: got 8192, expected 16384"),
        other => panic!("unexpected {:?}", other),
    }
}

#[test]
fn same_l_encoder_is_not_available() {
    match check_same_l_encode(&vec![0u8; 8192], 1) {
        Error::Incomplete(m) => assert_eq!(m, "SAME-L encoder ggml runtime is not implemented yet"),
        other => panic!("unexpected {:?}", other),
    }
    match check_same_l_encode(&vec![0u8; 10], 1) {
        Error::Ggml(m) => assert_eq!(m, "SAME encoder patch length mismatch: got 10, expected 8192"),
        other => panic!("unexpected {:?}", other),
    }
}

#[test]
fn same_s_decoder_checks_its_latents() {
    assert!(check_same_s_decode(&vec![0u8; 512], 2).is_ok());
    match check_same_s_decode(&vec![0u8; 256], 2) {
        Err(Error::Ggml(m)) => assert_eq!(m, "SAME-S latent length mismatch"),
        other => panic!("unexpected {:?}", other),
    }
    match check_same_s_decode(&vec![0u8; 256], 1) {
        Err(Error::Ggml(m)) => assert_eq!(m, "SAME-S requires a positive even latent length"),
        other => panic!("unexpected {:?}", other),
    }
    match check_same_s_decode::<u8>(&[], 0) {
        Err(Error::Ggml(m)) => assert_eq!(m, "SAME-S requires a positive even latent length"),
        other => panic!("unexpected {:?}", other),
    }
}

#[test]
fn same_l_decoder_plans_its_passes() {
    let plan = plan_same_l_decode(&vec![0u8; 256 * 10], 10).unwrap();
    assert_eq!(plan.len(), 4);
    match plan_same_l_decode(&vec![0u8; 256], 2) {
        Err(Error::Ggml(m)) => assert_eq!(m, "SAME-L latent length mismatch"),
        other => panic!("unexpected {:?}", other),
    }
    match plan_same_l_decode::<u8>(&[], 0) {
        Err(Error::Ggml(m)) => assert_eq!(m, "SAME-L requires a positive latent length"),
        other => panic!("unexpected {:?}", other),
    }
}

#[test]
fn positions_count_up() {
    assert_eq!(token_positions(4), vec![0, 1, 2, 3]);
    assert!(token_positions(0).is_empty());
}

#[test]
fn dit_medium_inputs_are_checked_in_order() {
    let cross = DIT_CROSS_TOKENS * DIT_COND_DIM;
    assert!(check_dit_medium_inputs(512, 2, cross, DIT_COND_DIM, TIMESTEP_FEATURES).is_ok());
    match check_dit_medium_inputs(511, 2, cross, DIT_COND_DIM, TIMESTEP_FEATURES) {
        Err(Error::Ggml(m)) => assert_eq!(m, "DiT noise length mismatch"),
        other => panic!("unexpected {:?}", other),
    }
    match check_dit_medium_inputs(512, 2, cross - 1, DIT_COND_DIM, TIMESTEP_FEATURES) {
        Err(Error::Ggml(m)) => assert_eq!(m, "DiT cross attention length mismatch"),
        other => panic!("unexpected {:?}", other),
    }
    match check_dit_medium_inputs(512, 2, cross, DIT_COND_DIM, 1) {
        Err(Error::Ggml(m)) => assert_eq!(m, "DiT conditioning length mismatch"),
        other => panic!("unexpected {:?}", other),
    }
}
