use spoko_whisper::providers::detect_provider;

#[test]
fn self_hosted_key() {
    let p = detect_provider("wsk-123").unwrap();
    assert_eq!(p.name, "Self-Hosted (spoko.dev)");
    assert_eq!(p.url, "https://whisper.spoko.dev/v1/audio/transcriptions");
    assert_eq!(p.default_model, "Systran/faster-whisper-small");
    assert_eq!(p.response_format, "verbose_json");
    assert_eq!(p.auth_header, "Bearer");
    assert!(p.supports_vocabulary);
    assert!(p.supports_model_choice);
}

#[test]
fn elevenlabs_key() {
    let p = detect_provider("sk_abc").unwrap();
    assert_eq!(p.name, "ElevenLabs");
    assert_eq!(p.url, "https://api.elevenlabs.io/v1/speech-to-text");
    assert_eq!(p.default_model, "scribe_v1");
    assert_eq!(p.response_format, "json");
    assert_eq!(p.auth_header, "xi-api-key");
    assert!(!p.supports_vocabulary);
    assert!(!p.supports_model_choice);
}

#[test]
fn groq_key() {
    let p = detect_provider("gsk_xyz").unwrap();
    assert_eq!(p.name, "Groq");
    assert_eq!(p.default_model, "whisper-large-v3");
}

#[test]
fn openai_key() {
    let p = detect_provider("sk-proj-1").unwrap();
    assert_eq!(p.name, "OpenAI");
    assert_eq!(p.url, "https://api.openai.com/v1/audio/transcriptions");
    assert_eq!(p.default_model, "whisper-1");
}

#[test]
fn unknown_keys() {
    assert!(detect_provider("").is_none());
    assert!(detect_provider("sk").is_none());
    assert!(detect_provider("wsk").is_none());
    assert!(detect_provider("abc").is_none());
    assert!(detect_provider(" sk-1").is_none());
}
