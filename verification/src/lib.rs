//! Verified core of a Stable Audio 3 inference runtime: the GGUF bookkeeping,
//! the prompt tokenization layout, the token layouts of the SAME encoder and
//! decoder, and the sample and latent layouts used for generation, editing,
//! inpainting and continuation.
use vstd::prelude::*;

pub mod audio;
pub mod error;
pub mod ggml_runtime;
pub mod sa3;
pub mod text;

pub use error::Error;

use vstd::string::StringExecFns;

verus! {

#[verifier::external_type_specification]
#[verifier::external_body]
pub struct ExPathBuf(std::path::PathBuf);

/// `PathBuf::clone` from std; nothing is claimed of the copy.
pub assume_specification[ <std::path::PathBuf as Clone>::clone ](path: &std::path::PathBuf) -> std::path::PathBuf;

/// Paths of the model bundle and the default sampling parameters.
#[derive(Debug, Clone)]
pub struct StableAudioConfig {
    pub dit_path: std::path::PathBuf,
    pub decoder_path: std::path::PathBuf,
    pub text_encoder_path: std::path::PathBuf,
    pub encoder_path: Option<std::path::PathBuf>,
    pub steps: usize,
    pub seed: u64,
}

/// Number of sampling steps a fresh configuration uses.
pub const DEFAULT_STEPS: usize = 8;

impl StableAudioConfig {
    /// A configuration for the three mandatory model files, with no encoder,
    /// eight sampling steps and seed zero.
    pub fn new(
        dit_path: std::path::PathBuf,
        decoder_path: std::path::PathBuf,
        text_encoder_path: std::path::PathBuf,
    ) -> (config: Self)
        ensures
            config.dit_path == dit_path,
            config.decoder_path == decoder_path,
            config.text_encoder_path == text_encoder_path,
            config.encoder_path is None,
            config.steps == DEFAULT_STEPS,
            config.seed == 0,
    {
        StableAudioConfig {
            dit_path,
            decoder_path,
            text_encoder_path,
            encoder_path: None,
            steps: DEFAULT_STEPS,
            seed: 0,
        }
    }

    /// Sets the audio encoder model file; every other field is kept.
    pub fn encoder_path(self, encoder_path: std::path::PathBuf) -> (config: Self)
        ensures
            config == (Self { encoder_path: Some(encoder_path), ..self }),
    {
        let mut config = self;
        config.encoder_path = Some(encoder_path);
        config
    }

    /// Sets the default number of sampling steps; every other field is kept.
    pub fn steps(self, steps: usize) -> (config: Self)
        ensures
            config == (Self { steps, ..self }),
    {
        let mut config = self;
        config.steps = steps;
        config
    }

    /// Sampling steps of a request: its own when it names them, else the
    /// configured default.
    pub fn resolve_steps(&self, steps: Option<usize>) -> (r: usize)
        ensures
            r == match steps {
                Some(s) => s,
                None => self.steps,
            },
    {
        match steps {
            Some(s) => s,
            None => self.steps,
        }
    }

    /// Seed of a request: its own when it names one, else the configured
    /// default.
    pub fn resolve_seed(&self, seed: Option<u64>) -> (r: u64)
        ensures
            r == match seed {
                Some(s) => s,
                None => self.seed,
            },
    {
        match seed {
            Some(s) => s,
            None => self.seed,
        }
    }

    /// Sets the default seed; every other field is kept.
    pub fn seed(self, seed: u64) -> (config: Self)
        ensures
            config == (Self { seed, ..self }),
    {
        let mut config = self;
        config.seed = seed;
        config
    }
}

/// Mixed into the seed of a continuation's fallback tail.
pub const CONTINUATION_SEED_MIX: u64 = 0xC0A7_1A11;

/// Seed of the fallback tail of a continuation.
pub fn continuation_tail_seed(seed: u64) -> (r: u64)
    ensures
        r == seed ^ CONTINUATION_SEED_MIX,
{
    seed ^ CONTINUATION_SEED_MIX
}

/// Put before the prompt of a continuation's fallback tail.
pub const CONTINUATION_PROMPT_PREFIX: &'static str = "continuous full-duration music with no fade out and no silence, ";

/// Prompt of the fallback tail of a continuation: the prompt, asked for as
/// full-length music with no fade out.
pub fn continuation_tail_prompt(prompt: &str) -> (r: String)
    ensures
        r@ == CONTINUATION_PROMPT_PREFIX@ + prompt@,
{
    let mut r = String::from_str(CONTINUATION_PROMPT_PREFIX);
    r.append(prompt);
    r
}

} // verus!
