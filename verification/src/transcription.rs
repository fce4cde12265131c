//! What is sent to a speech-to-text service, and what is made of its reply.
//! The request itself is made by the application.

use vstd::prelude::*;
use vstd::utf8::{decode_utf8, encode_utf8, is_char_boundary, valid_utf8};
use crate::providers::{ApiProvider, detect_provider, provider_kind};
use crate::text::{chars_eq, chars_of, join, join_with, string_of, trim, trim_chars};

verus! {

/// Body of a service reply.
#[derive(Debug, Clone)]
pub struct TranscriptionResponse {
    pub text: String,
}

/// How the API key is presented to the service.
#[derive(Debug, Clone, Copy, PartialEq, Eq, Structural)]
pub enum AuthScheme {
    /// An `xi-api-key` header holding the key.
    ApiKeyHeader,
    /// An `Authorization: Bearer` header.
    Bearer,
}

/// Everything the application needs to send one transcription request.
#[derive(Debug, Clone)]
pub struct TranscriptionPlan {
    pub provider: ApiProvider,
    pub model: String,
    pub language: Option<String>,
    pub prompt: Option<String>,
    pub auth: AuthScheme,
}

/// The largest character boundary of `bytes` at or below `k` (0 at least).
pub open spec fn floor_boundary(bytes: Seq<u8>, k: int) -> int
    decreases k,
{
    if k <= 0 {
        0
    } else if is_char_boundary(bytes, k) {
        k
    } else {
        floor_boundary(bytes, k - 1)
    }
}

/// The longest prefix of `s` whose UTF-8 encoding has at most `max_bytes`
/// bytes.
pub open spec fn truncated_chars(s: Seq<char>, max_bytes: int) -> Seq<char> {
    let b = encode_utf8(s);
    if b.len() <= max_bytes {
        s
    } else {
        decode_utf8(b.take(floor_boundary(b, max_bytes)))
    }
}

/// Byte budget for the previous transcription in a prompt.
pub open spec fn previous_text_budget() -> int {
    400
}

/// Byte budget for a whole prompt.
pub open spec fn prompt_budget() -> int {
    900
}

/// Separator between the parts of a prompt.
pub open spec fn prompt_separator() -> Seq<char> {
    seq!['.', ' ']
}

/// The parts of a prompt: the (shortened) previous transcription, then the
/// vocabulary, each only when non-empty.
pub open spec fn prompt_parts(previous: Seq<char>, vocabulary: Seq<char>) -> Seq<Seq<char>> {
    let first = if previous.len() > 0 {
        seq![truncated_chars(previous, previous_text_budget())]
    } else {
        seq![]
    };
    if vocabulary.len() > 0 {
        first.push(vocabulary)
    } else {
        first
    }
}

/// The prompt sent to a service that takes one, if any.
pub open spec fn prompt_for(previous: Seq<char>, vocabulary: Seq<char>) -> Option<Seq<char>> {
    let joined = join_with(prompt_parts(previous, vocabulary), prompt_separator());
    if joined.len() > 0 {
        Some(truncated_chars(joined, prompt_budget()))
    } else {
        None
    }
}

/// The characters of an optional string.
pub open spec fn opt_view(o: Option<String>) -> Option<Seq<char>> {
    match o {
        Some(s) => Some(s@),
        None => None,
    }
}

/// How a provider with authentication header `header` takes its key.
pub open spec fn auth_scheme_for(header: Seq<char>) -> AuthScheme {
    if header == "xi-api-key"@ {
        AuthScheme::ApiKeyHeader
    } else {
        AuthScheme::Bearer
    }
}

/// The message for a key of unknown shape.
pub open spec fn unknown_key_message() -> Seq<char> {
    "Unknown API key format. Supported: wsk-, sk_, gsk, sk-"@
}

/// The message for a reply with no text.
pub open spec fn empty_text_message() -> Seq<char> {
    "Transcription returned empty text"@
}

/// `floor_boundary` lands on a character boundary between 0 and `k`.
proof fn lemma_floor_boundary(bytes: Seq<u8>, k: int)
    requires
        valid_utf8(bytes),
    ensures
        0 <= floor_boundary(bytes, k),
        k >= 0 ==> floor_boundary(bytes, k) <= k,
        is_char_boundary(bytes, floor_boundary(bytes, k)),
    decreases k,
{
    if k > 0 && !is_char_boundary(bytes, k) {
        lemma_floor_boundary(bytes, k - 1);
    }
}

/// Truncation never splits a character: the result is a prefix of the text
/// whose UTF-8 encoding fits the byte budget.
pub proof fn law_truncation_fits(s: Seq<char>, max_bytes: int)
    requires
        max_bytes >= 0,
    ensures
        encode_utf8(truncated_chars(s, max_bytes)).len() <= max_bytes,
        truncated_chars(s, max_bytes).len() <= s.len(),
        s.take(truncated_chars(s, max_bytes).len() as int) == truncated_chars(s, max_bytes),
{
    broadcast use vstd::utf8::group_utf8_lib;

    let b = encode_utf8(s);
    if b.len() <= max_bytes {
        assert(s.take(s.len() as int) =~= s);
    } else {
        let k = floor_boundary(b, max_bytes);
        lemma_floor_boundary(b, max_bytes);
        vstd::utf8::valid_utf8_split(b, k);
        vstd::utf8::decode_utf8_split(b, k);
        assert(b.take(k) =~= b.subrange(0, k));
        let t = decode_utf8(b.take(k));
        assert(encode_utf8(t) == b.take(k));
        assert(decode_utf8(b) == s);
        assert(s =~= t + decode_utf8(b.subrange(k, b.len() as int)));
        assert(s.take(t.len() as int) =~= t);
    }
}

/// A prompt never exceeds its byte budget.
pub proof fn law_prompt_within_budget(previous: Seq<char>, vocabulary: Seq<char>)
    ensures
        prompt_for(previous, vocabulary) matches Some(p) ==> encode_utf8(p).len()
            <= prompt_budget(),
{
    let joined = join_with(prompt_parts(previous, vocabulary), prompt_separator());
    law_truncation_fits(joined, prompt_budget());
}

/// Truncates `s` to at most `max_bytes` bytes without splitting a UTF-8
/// character.
pub fn truncate_str(s: &str, max_bytes: usize) -> (r: &str)
    ensures
        r@ == truncated_chars(s@, max_bytes as int),
{
    broadcast use vstd::utf8::group_utf8_lib;

    let bytes = s.as_bytes();
    if bytes.len() <= max_bytes {
        return s;
    }
    let ghost b = encode_utf8(s@);
    let mut end: usize = max_bytes;
    while end > 0 && !s.is_char_boundary(end)
        invariant
            end <= max_bytes,
            b == encode_utf8(s@),
            floor_boundary(b, end as int) == floor_boundary(b, max_bytes as int),
        decreases end,
    {
        end = end - 1;
    }
    assert(floor_boundary(b, end as int) == end);
    assert(is_char_boundary(b, end as int));
    let (head, _) = s.split_at(end);
    assert(encode_utf8(head@) =~= b.take(end as int));
    head
}

/// How `provider` takes its key: `xi-api-key` header or bearer token.
pub fn auth_scheme(provider: &ApiProvider) -> (r: AuthScheme)
    ensures
        r == auth_scheme_for(provider.auth_header@),
{
    let header = chars_of(provider.auth_header.as_str());
    let xi = chars_of("xi-api-key");
    if chars_eq(&header, &xi) {
        AuthScheme::ApiKeyHeader
    } else {
        AuthScheme::Bearer
    }
}

/// The prompt: previous transcription (at most 400 bytes) and vocabulary
/// joined by ". ", the whole at most 900 bytes; `None` when both are empty.
fn build_prompt(previous_text: &str, vocabulary: &str) -> (r: Option<String>)
    ensures
        opt_view(r) == prompt_for(previous_text@, vocabulary@),
{
    let mut parts: Vec<Vec<char>> = Vec::new();
    if !previous_text.is_empty() {
        let prev = truncate_str(previous_text, 400);
        parts.push(chars_of(prev));
    }
    if !vocabulary.is_empty() {
        parts.push(chars_of(vocabulary));
    }
    assert(crate::text::seqs_of(parts@) =~= prompt_parts(previous_text@, vocabulary@));
    let sep: Vec<char> = vec!['.', ' '];
    assert(sep@ =~= prompt_separator());
    let joined = join(&parts, &sep);
    if joined.len() > 0 {
        let prompt = string_of(&joined);
        let truncated = truncate_str(prompt.as_str(), 900);
        Some(truncated.to_owned())
    } else {
        None
    }
}

/// Plans a transcription request: picks the provider from the key, the
/// model (the user's choice where the provider allows one), the language
/// (when set), the prompt (for providers that take one) and the
/// authentication scheme.
pub fn plan_transcription(
    api_key: &str,
    language: &str,
    vocabulary: &str,
    model_override: &str,
    previous_text: &str,
) -> (r: Result<TranscriptionPlan, String>)
    ensures
        match r {
            Ok(p) => {
                &&& provider_kind(api_key@) matches Some(kind)
                &&& p.provider.describes(kind)
                &&& p.model@ == (if p.provider.supports_model_choice && model_override@.len() > 0 {
                    model_override@
                } else {
                    p.provider.default_model@
                })
                &&& opt_view(p.language) == (if language@.len() > 0 {
                    Some(language@)
                } else {
                    None::<Seq<char>>
                })
                &&& opt_view(p.prompt) == (if p.provider.supports_vocabulary {
                    prompt_for(previous_text@, vocabulary@)
                } else {
                    None
                })
                &&& p.auth == auth_scheme_for(p.provider.auth_header@)
            },
            Err(e) => provider_kind(api_key@) is None && e@ == unknown_key_message(),
        },
{
    let provider = match detect_provider(api_key) {
        Some(p) => p,
        None => {
            return Err("Unknown API key format. Supported: wsk-, sk_, gsk, sk-".to_owned());
        },
    };
    let model = if provider.supports_model_choice && !model_override.is_empty() {
        model_override.to_owned()
    } else {
        provider.default_model.clone()
    };
    let lang = if !language.is_empty() {
        Some(language.to_owned())
    } else {
        None
    };
    let prompt = if provider.supports_vocabulary {
        build_prompt(previous_text, vocabulary)
    } else {
        None
    };
    let auth = auth_scheme(&provider);
    Ok(TranscriptionPlan { provider, model, language: lang, prompt, auth })
}

/// The text of a reply, trimmed; an error when nothing is left.
pub fn finish_transcription(text: &str) -> (r: Result<String, String>)
    ensures
        match r {
            Ok(t) => t@ == trim(text@) && t@.len() > 0,
            Err(e) => trim(text@).len() == 0 && e@ == empty_text_message(),
        },
{
    let chars = chars_of(text);
    let trimmed = trim_chars(&chars);
    if trimmed.len() == 0 {
        return Err("Transcription returned empty text".to_owned());
    }
    Ok(string_of(&trimmed))
}

} // verus!
