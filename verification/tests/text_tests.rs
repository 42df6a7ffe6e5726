use stable_audio::text::{prompt_token_ids, TokenizedPrompt, Tokenizer, TOKENIZER_JSON_KEY};
use stable_audio::Error;

const WORD_LEVEL_JSON: &str = r#"{
  "version": "1.0",
  "truncation": null,
  "padding": null,
  "added_tokens": [],
  "normalizer": null,
  "pre_tokenizer": {"type": "Whitespace"},
  "post_processor": null,
  "decoder": null,
  "model": {"type": "WordLevel", "vocab": {"[UNK]": 0, "dog": 1, "barks": 2, "loudly": 3}, "unk_token": "[UNK]"}
}"#;

#[test]
fn from_ids_pads_and_masks() {
    let p = TokenizedPrompt::from_ids(&vec![5, 6], 4);
    assert_eq!(p.ids, vec![5, 6, 0, 0]);
    assert_eq!(p.mask, vec![1, 1, 0, 0]);
    assert_eq!(p.max_len, 4);
}

#[test]
fn from_ids_truncates_long_prompts() {
    let p = TokenizedPrompt::from_ids(&vec![1, 2, 3, 4, 5], 3);
    assert_eq!(p.ids, vec![1, 2, 3]);
    assert_eq!(p.mask, vec![1, 1, 1]);
}

#[test]
fn prompt_ids_round_trip() {
    let p = TokenizedPrompt::from_ids(&vec![7, 8, 9], 256);
    assert_eq!(prompt_token_ids(&p), vec![7, 8, 9]);
    let p = TokenizedPrompt::from_ids(&vec![], 4);
    assert!(prompt_token_ids(&p).is_empty());
}

#[test]
fn tokenizer_needs_its_metadata() {
    match Tokenizer::from_gguf(None) {
        Err(Error::MissingMetadata(key)) => assert_eq!(key, TOKENIZER_JSON_KEY),
        _ => panic!("expected missing metadata"),
    }
    assert_eq!(TOKENIZER_JSON_KEY, "tokenizer.huggingface.json");
}

#[test]
fn tokenizer_refuses_bad_json() {
    assert!(matches!(Tokenizer::from_gguf(Some("not json".to_string())), Err(Error::Tokenizer(_))));
}

#[test]
fn tokenizer_encodes_prompts_into_slots() {
    let tokenizer = match Tokenizer::from_gguf(Some(WORD_LEVEL_JSON.to_string())) {
        Ok(t) => t,
        Err(e) => panic!("tokenizer did not load: {:?}", e),
    };
    let p = tokenizer.encode_sa3_prompt("dog barks loudly", 5).unwrap();
    assert_eq!(p.ids, vec![1, 2, 3, 0, 0]);
    assert_eq!(p.mask, vec![1, 1, 1, 0, 0]);
    assert_eq!(prompt_token_ids(&p), vec![1, 2, 3]);
    let p = tokenizer.encode_sa3_prompt("dog barks loudly", 2).unwrap();
    assert_eq!(p.ids, vec![1, 2]);
}
