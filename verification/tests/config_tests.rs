use std::path::PathBuf;

use stable_audio::error::{ggml_error, incomplete_error};
use stable_audio::sa3::conditioning::{SAMPLES_PER_LATENT, SAMPLE_RATE};
use stable_audio::{
    continuation_tail_prompt, continuation_tail_seed, Error, StableAudioConfig, CONTINUATION_PROMPT_PREFIX,
    CONTINUATION_SEED_MIX, DEFAULT_STEPS,
};

fn config() -> StableAudioConfig {
    StableAudioConfig::new(PathBuf::from("dit.gguf"), PathBuf::from("dec.gguf"), PathBuf::from("t5.gguf"))
}

#[test]
fn new_config_has_defaults() {
    let c = config();
    assert_eq!(c.dit_path, PathBuf::from("dit.gguf"));
    assert_eq!(c.decoder_path, PathBuf::from("dec.gguf"));
    assert_eq!(c.text_encoder_path, PathBuf::from("t5.gguf"));
    assert_eq!(c.encoder_path, None);
    assert_eq!(c.steps, 8);
    assert_eq!(DEFAULT_STEPS, 8);
    assert_eq!(c.seed, 0);
}

#[test]
fn builders_set_one_field() {
    let c = config().encoder_path(PathBuf::from("enc.gguf")).steps(30).seed(42);
    assert_eq!(c.encoder_path, Some(PathBuf::from("enc.gguf")));
    assert_eq!(c.steps, 30);
    assert_eq!(c.seed, 42);
    assert_eq!(c.dit_path, PathBuf::from("dit.gguf"));
}

#[test]
fn requests_fall_back_to_the_config() {
    let c = config().steps(12).seed(7);
    assert_eq!(c.resolve_steps(None), 12);
    assert_eq!(c.resolve_steps(Some(4)), 4);
    assert_eq!(c.resolve_seed(None), 7);
    assert_eq!(c.resolve_seed(Some(9)), 9);
}

#[test]
fn continuation_seed_is_mixed() {
    assert_eq!(continuation_tail_seed(0), CONTINUATION_SEED_MIX);
    assert_eq!(continuation_tail_seed(CONTINUATION_SEED_MIX), 0);
    assert_eq!(continuation_tail_seed(1), 0xC0A7_1A10);
}

#[test]
fn error_builders_keep_the_message() {
    assert!(matches!(ggml_error("boom"), Error::Ggml(m) if m == "boom"));
    assert!(matches!(incomplete_error("later"), Error::Incomplete(m) if m == "later"));
}

#[test]
fn output_is_stereo_at_44k() {
    assert_eq!(SAMPLE_RATE, 44_100);
    assert_eq!(SAMPLES_PER_LATENT, 4096);
}

#[test]
fn continuation_tail_prompt_asks_for_full_length_music() {
    assert_eq!(
        continuation_tail_prompt("warm slap bass groove"),
        "continuous full-duration music with no fade out and no silence, warm slap bass groove"
    );
    assert_eq!(continuation_tail_prompt(""), CONTINUATION_PROMPT_PREFIX);
}
