use stable_audio::audio::{check_input_wav, input_sample_kind, WavSampleFormat, WavSampleKind};
use stable_audio::error::escape_nul;
use stable_audio::Error;

#[test]
fn input_wav_must_be_stereo_44k() {
    assert!(check_input_wav(2, 44_100).is_ok());
    match check_input_wav(1, 48_000) {
        Err(Error::Incomplete(m)) => {
            assert_eq!(m, "input WAV must be stereo 44.1 kHz for now, got 1 channels at 48000 Hz")
        }
        other => panic!("unexpected {:?}", other),
    }
    match check_input_wav(2, 22_050) {
        Err(Error::Incomplete(m)) => {
            assert_eq!(m, "input WAV must be stereo 44.1 kHz for now, got 2 channels at 22050 Hz")
        }
        other => panic!("unexpected {:?}", other),
    }
}

#[test]
fn input_sample_formats() {
    assert_eq!(input_sample_kind(WavSampleFormat::Int, 16).unwrap(), WavSampleKind::Int16);
    assert_eq!(input_sample_kind(WavSampleFormat::Float, 32).unwrap(), WavSampleKind::Float32);
    match input_sample_kind(WavSampleFormat::Int, 24) {
        Err(Error::Incomplete(m)) => assert_eq!(m, "unsupported input WAV format: Int 24 bits"),
        other => panic!("unexpected {:?}", other),
    }
    match input_sample_kind(WavSampleFormat::Float, 64) {
        Err(Error::Incomplete(m)) => assert_eq!(m, "unsupported input WAV format: Float 64 bits"),
        other => panic!("unexpected {:?}", other),
    }
}

#[test]
fn nul_characters_are_escaped() {
    assert_eq!(escape_nul("plain"), "plain");
    assert_eq!(escape_nul("a\0b"), "a\\0b");
    assert_eq!(escape_nul("\0\0"), "\\0\\0");
    assert_eq!(escape_nul("é\0"), "é\\0");
    assert!(!escape_nul("x\0y").contains('\0'));
    assert_eq!(escape_nul(""), "");
}
