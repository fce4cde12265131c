//! Speech-to-text providers, recognised from the shape of the API key.

use vstd::prelude::*;
use crate::text::chars_of;

verus! {

/// The services a key can belong to.
#[derive(Debug, Clone, Copy, PartialEq, Eq, Structural)]
pub enum ProviderKind {
    SelfHosted,
    ElevenLabs,
    Groq,
    OpenAI,
}

/// Connection details of a speech-to-text service.
#[derive(Debug, Clone)]
pub struct ApiProvider {
    pub name: String,
    pub url: String,
    pub default_model: String,
    pub response_format: String,
    pub auth_header: String,
    pub supports_vocabulary: bool,
    pub supports_model_choice: bool,
}

/// `key` begins with `p`.
pub open spec fn has_prefix(key: Seq<char>, p: Seq<char>) -> bool {
    p.len() <= key.len() && key.take(p.len() as int) == p
}

/// The service a key belongs to, tested in this order: `wsk-`, `sk_`,
/// `gsk`, `sk-`.
pub open spec fn provider_kind(key: Seq<char>) -> Option<ProviderKind> {
    if has_prefix(key, seq!['w', 's', 'k', '-']) {
        Some(ProviderKind::SelfHosted)
    } else if has_prefix(key, seq!['s', 'k', '_']) {
        Some(ProviderKind::ElevenLabs)
    } else if has_prefix(key, seq!['g', 's', 'k']) {
        Some(ProviderKind::Groq)
    } else if has_prefix(key, seq!['s', 'k', '-']) {
        Some(ProviderKind::OpenAI)
    } else {
        None
    }
}

impl ApiProvider {
    /// The provider holds the fixed connection details of `kind`.
    pub open spec fn describes(self, kind: ProviderKind) -> bool {
        match kind {
            ProviderKind::SelfHosted => {
                &&& self.name@ == "Self-Hosted (spoko.dev)"@
                &&& self.url@ == "https://whisper.spoko.dev/v1/audio/transcriptions"@
                &&& self.default_model@ == "Systran/faster-whisper-small"@
                &&& self.response_format@ == "verbose_json"@
                &&& self.auth_header@ == "Bearer"@
                &&& self.supports_vocabulary
                &&& self.supports_model_choice
            },
            ProviderKind::ElevenLabs => {
                &&& self.name@ == "ElevenLabs"@
                &&& self.url@ == "https://api.elevenlabs.io/v1/speech-to-text"@
                &&& self.default_model@ == "scribe_v1"@
                &&& self.response_format@ == "json"@
                &&& self.auth_header@ == "xi-api-key"@
                &&& !self.supports_vocabulary
                &&& !self.supports_model_choice
            },
            ProviderKind::Groq => {
                &&& self.name@ == "Groq"@
                &&& self.url@ == "https://api.groq.com/openai/v1/audio/transcriptions"@
                &&& self.default_model@ == "whisper-large-v3"@
                &&& self.response_format@ == "verbose_json"@
                &&& self.auth_header@ == "Bearer"@
                &&& !self.supports_vocabulary
                &&& !self.supports_model_choice
            },
            ProviderKind::OpenAI => {
                &&& self.name@ == "OpenAI"@
                &&& self.url@ == "https://api.openai.com/v1/audio/transcriptions"@
                &&& self.default_model@ == "whisper-1"@
                &&& self.response_format@ == "verbose_json"@
                &&& self.auth_header@ == "Bearer"@
                &&& !self.supports_vocabulary
                &&& !self.supports_model_choice
            },
        }
    }
}

/// Whether the characters `key` begin with `p`.
fn starts_with(key: &Vec<char>, p: &Vec<char>) -> (r: bool)
    ensures
        r == has_prefix(key@, p@),
{
    if p.len() > key.len() {
        return false;
    }
    let mut i: usize = 0;
    while i < p.len()
        invariant
            i <= p.len() <= key.len(),
            forall|k: int| 0 <= k < i ==> key@[k] == p@[k],
        decreases p.len() - i,
    {
        if key[i] != p[i] {
            assert(key@.take(p.len() as int)[i as int] != p@[i as int]);
            return false;
        }
        i = i + 1;
    }
    assert(key@.take(p.len() as int) =~= p@);
    true
}

/// The provider that `api_key` belongs to, or `None` for a key of unknown
/// shape.
pub fn detect_provider(api_key: &str) -> (r: Option<ApiProvider>)
    ensures
        match provider_kind(api_key@) {
            Some(kind) => r is Some && r->0.describes(kind),
            None => r is None,
        },
{
    let key = chars_of(api_key);
    let wsk: Vec<char> = vec!['w', 's', 'k', '-'];
    let sk_underscore: Vec<char> = vec!['s', 'k', '_'];
    let gsk: Vec<char> = vec!['g', 's', 'k'];
    let sk_dash: Vec<char> = vec!['s', 'k', '-'];
    assert(wsk@ =~= seq!['w', 's', 'k', '-']);
    assert(sk_underscore@ =~= seq!['s', 'k', '_']);
    assert(gsk@ =~= seq!['g', 's', 'k']);
    assert(sk_dash@ =~= seq!['s', 'k', '-']);
    if starts_with(&key, &wsk) {
        Some(
            ApiProvider {
                name: "Self-Hosted (spoko.dev)".to_owned(),
                url: "https://whisper.spoko.dev/v1/audio/transcriptions".to_owned(),
                default_model: "Systran/faster-whisper-small".to_owned(),
                response_format: "verbose_json".to_owned(),
                auth_header: "Bearer".to_owned(),
                supports_vocabulary: true,
                supports_model_choice: true,
            },
        )
    } else if starts_with(&key, &sk_underscore) {
        Some(
            ApiProvider {
                name: "ElevenLabs".to_owned(),
                url: "https://api.elevenlabs.io/v1/speech-to-text".to_owned(),
                default_model: "scribe_v1".to_owned(),
                response_format: "json".to_owned(),
                auth_header: "xi-api-key".to_owned(),
                supports_vocabulary: false,
                supports_model_choice: false,
            },
        )
    } else if starts_with(&key, &gsk) {
        Some(
            ApiProvider {
                name: "Groq".to_owned(),
                url: "https://api.groq.com/openai/v1/audio/transcriptions".to_owned(),
                default_model: "whisper-large-v3".to_owned(),
                response_format: "verbose_json".to_owned(),
                auth_header: "Bearer".to_owned(),
                supports_vocabulary: false,
                supports_model_choice: false,
            },
        )
    } else if starts_with(&key, &sk_dash) {
        Some(
            ApiProvider {
                name: "OpenAI".to_owned(),
                url: "https://api.openai.com/v1/audio/transcriptions".to_owned(),
                default_model: "whisper-1".to_owned(),
                response_format: "verbose_json".to_owned(),
                auth_header: "Bearer".to_owned(),
                supports_vocabulary: false,
                supports_model_choice: false,
            },
        )
    } else {
        None
    }
}

} // verus!
