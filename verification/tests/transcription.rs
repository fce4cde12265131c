use spoko_whisper::transcription::{auth_scheme, finish_transcription, plan_transcription, truncate_str, AuthScheme};

#[test]
fn truncate_keeps_short_strings() {
    assert_eq!(truncate_str("hello", 5), "hello");
    assert_eq!(truncate_str("hello", 10), "hello");
    assert_eq!(truncate_str("", 0), "");
}

#[test]
fn truncate_cuts_at_byte_limit() {
    assert_eq!(truncate_str("hello", 3), "hel");
    assert_eq!(truncate_str("hello", 0), "");
}

#[test]
fn truncate_never_splits_a_character() {
    // "пр" is 4 bytes; 3 bytes would split the second letter.
    assert_eq!(truncate_str("привіт", 3), "п");
    assert_eq!(truncate_str("привіт", 4), "пр");
    assert_eq!(truncate_str("a€b", 2), "a");
    assert_eq!(truncate_str("a€b", 4), "a€");
}

#[test]
fn unknown_key_is_rejected() {
    let e = plan_transcription("nope", "uk", "", "", "").unwrap_err();
    assert_eq!(e, "Unknown API key format. Supported: wsk-, sk_, gsk, sk-");
}

#[test]
fn self_hosted_uses_chosen_model_and_prompt() {
    let p = plan_transcription("wsk-1", "uk", "Kubernetes Verus", "large-v3", "earlier words").unwrap();
    assert_eq!(p.provider.name, "Self-Hosted (spoko.dev)");
    assert_eq!(p.model, "large-v3");
    assert_eq!(p.language.as_deref(), Some("uk"));
    assert_eq!(p.prompt.as_deref(), Some("earlier words. Kubernetes Verus"));
    assert_eq!(p.auth, AuthScheme::Bearer);
}

#[test]
fn self_hosted_falls_back_to_default_model() {
    let p = plan_transcription("wsk-1", "", "", "", "").unwrap();
    assert_eq!(p.model, "Systran/faster-whisper-small");
    assert_eq!(p.language, None);
    assert_eq!(p.prompt, None);
}

#[test]
fn prompt_with_only_vocabulary_or_only_previous_text() {
    let p = plan_transcription("wsk-1", "", "words", "", "").unwrap();
    assert_eq!(p.prompt.as_deref(), Some("words"));
    let p = plan_transcription("wsk-1", "", "", "", "before").unwrap();
    assert_eq!(p.prompt.as_deref(), Some("before"));
}

#[test]
fn prompt_is_bounded() {
    let previous = "я".repeat(300); // 600 bytes, cut to 400
    let vocabulary = "x".repeat(1000);
    let p = plan_transcription("wsk-1", "", &vocabulary, "", &previous).unwrap();
    let prompt = p.prompt.unwrap();
    assert_eq!(prompt.len(), 900);
    assert!(prompt.starts_with(&"я".repeat(200)));
    assert!(prompt[400..].starts_with(". xxx"));
}

#[test]
fn other_providers_ignore_model_choice_and_prompt() {
    let p = plan_transcription("sk-1", "en", "vocab", "my-model", "prev").unwrap();
    assert_eq!(p.model, "whisper-1");
    assert_eq!(p.prompt, None);
    assert_eq!(p.language.as_deref(), Some("en"));
    assert_eq!(p.auth, AuthScheme::Bearer);
    let p = plan_transcription("sk_1", "", "", "", "").unwrap();
    assert_eq!(p.auth, AuthScheme::ApiKeyHeader);
    assert_eq!(auth_scheme(&p.provider), AuthScheme::ApiKeyHeader);
}

#[test]
fn reply_text_is_trimmed() {
    assert_eq!(finish_transcription("  Привіт \n").unwrap(), "Привіт");
}

#[test]
fn empty_reply_is_an_error() {
    assert_eq!(finish_transcription(" \t ").unwrap_err(), "Transcription returned empty text");
    assert_eq!(finish_transcription("").unwrap_err(), "Transcription returned empty text");
}
