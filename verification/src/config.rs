//! Settings and transcription history, as kept in memory; reading and
//! writing the settings file is the application's part.

use vstd::prelude::*;
use crate::text::{
    chars_of, join, join_with, lemma_words_of_join, lemma_words_wf, space, split_whitespace,
    string_of, words,
};

verus! {

/// One past transcription.
#[derive(Debug, Clone)]
pub struct HistoryEntry {
    pub text: String,
    pub timestamp: String,
    /// File stem of the saved recording and text (e.g. "20260414-193500"),
    /// when the pair was saved.
    pub dataset_id: Option<String>,
}

/// User settings and transcription history.
#[derive(Debug, Clone)]
pub struct AppConfig {
    pub api_key: String,
    pub language: String,
    pub model: String,
    pub sounds_enabled: bool,
    pub auto_paste: bool,
    pub dataset_collection_enabled: bool,
    pub history: Vec<HistoryEntry>,
}

/// Most history entries kept.
pub open spec fn history_limit() -> nat {
    50
}

/// The history once `e` is added in front, cut to the limit.
pub open spec fn with_new_entry(h: Seq<HistoryEntry>, e: HistoryEntry) -> Seq<HistoryEntry> {
    let n = seq![e] + h;
    if n.len() > history_limit() {
        n.take(history_limit() as int)
    } else {
        n
    }
}

/// Default language.
pub open spec fn default_language() -> Seq<char> {
    "uk"@
}

/// Default model.
pub open spec fn default_model() -> Seq<char> {
    "Systran/faster-whisper-small"@
}

/// Message for a history index that does not exist.
pub open spec fn index_error_message() -> Seq<char> {
    "Index out of bounds"@
}

/// Adding to the history puts the new entry first, keeps the previous
/// entries in order behind it, and never leaves more than 50.
pub proof fn law_history_newest_first(h: Seq<HistoryEntry>, e: HistoryEntry)
    ensures
        with_new_entry(h, e).len() <= history_limit(),
        with_new_entry(h, e).len() == (if h.len() + 1 <= history_limit() {
            h.len() + 1
        } else {
            history_limit()
        }),
        with_new_entry(h, e)[0] == e,
        forall|i: int| 1 <= i < with_new_entry(h, e).len() ==> #[trigger] with_new_entry(h, e)[i] == h[i - 1],
{
}

impl AppConfig {
    /// The two configurations agree on everything but the history.
    pub open spec fn same_settings(self, other: AppConfig) -> bool {
        &&& self.api_key == other.api_key
        &&& self.language == other.language
        &&& self.model == other.model
        &&& self.sounds_enabled == other.sounds_enabled
        &&& self.auto_paste == other.auto_paste
        &&& self.dataset_collection_enabled == other.dataset_collection_enabled
    }

    /// Adds `entry` as the newest history entry, keeping at most 50.
    pub fn add_history_entry(&mut self, entry: HistoryEntry)
        ensures
            final(self).history@ == with_new_entry(old(self).history@, entry),
            final(self).same_settings(*old(self)),
    {
        self.history.insert(0, entry);
        if self.history.len() > 50 {
            self.history.truncate(50);
        }
    }

    /// Adds a transcription, stamped with the current local time, as the
    /// newest history entry, keeping at most 50.
    pub fn add_history(&mut self, text: String, dataset_id: Option<String>)
        ensures
            final(self).history@.len() > 0,
            final(self).history@[0].text == text,
            final(self).history@[0].dataset_id == dataset_id,
            final(self).history@ == with_new_entry(old(self).history@, final(self).history@[0]),
            final(self).same_settings(*old(self)),
    {
        let entry = HistoryEntry { text, timestamp: local_timestamp(), dataset_id };
        self.add_history_entry(entry);
    }

    /// Removes history entry `index`; an index past the end changes nothing.
    pub fn delete_history_entry(&mut self, index: usize)
        ensures
            final(self).history@ == (if index < old(self).history@.len() {
                old(self).history@.remove(index as int)
            } else {
                old(self).history@
            }),
            final(self).same_settings(*old(self)),
    {
        if index < self.history.len() {
            self.history.remove(index);
        }
    }

    /// Replaces the text of history entry `index`, returning its previous
    /// text and its dataset id; an error for an index past the end.
    pub fn update_history_text(&mut self, index: usize, new_text: String) -> (r: Result<
        (String, Option<String>),
        String,
    >)
        ensures
            final(self).same_settings(*old(self)),
            match r {
                Ok((old_text, dataset_id)) => {
                    &&& index < old(self).history@.len()
                    &&& old_text == old(self).history@[index as int].text
                    &&& dataset_id == old(self).history@[index as int].dataset_id
                    &&& final(self).history@ == old(self).history@.update(
                        index as int,
                        HistoryEntry { text: new_text, ..old(self).history@[index as int] },
                    )
                },
                Err(e) => {
                    &&& index >= old(self).history@.len()
                    &&& e@ == index_error_message()
                    &&& final(self).history@ == old(self).history@
                },
            },
    {
        if index >= self.history.len() {
            return Err("Index out of bounds".to_owned());
        }
        let ghost before = self.history@;
        let mut entry = self.history.remove(index);
        let old_text = entry.text;
        let dataset_id = entry.dataset_id.clone();
        entry.text = new_text;
        self.history.insert(index, entry);
        assert(self.history@ =~= before.update(
            index as int,
            HistoryEntry { text: new_text, ..before[index as int] },
        ));
        Ok((old_text, dataset_id))
    }
}

impl Default for AppConfig {
    fn default() -> (r: Self)
        ensures
            r.api_key@.len() == 0,
            r.language@ == default_language(),
            r.model@ == default_model(),
            r.sounds_enabled,
            r.auto_paste,
            r.dataset_collection_enabled,
            r.history@.len() == 0,
    {
        AppConfig {
            api_key: String::new(),
            language: "uk".to_owned(),
            model: "Systran/faster-whisper-small".to_owned(),
            sounds_enabled: true,
            auto_paste: true,
            dataset_collection_enabled: true,
            history: Vec::new(),
        }
    }
}

/// The current local date and time as `YYYY-MM-DD HH:MM:SS`
/// (`chrono::Local::now` formatted by `DateTime::format`). Nothing is said
/// of the value: it is a clock reading.
#[verifier::external_body]
fn local_timestamp() -> String {
    chrono::Local::now().format("%Y-%m-%d %H:%M:%S").to_string()
}

/// Settings taken over from an older configuration: its key and language
/// where present (defaults otherwise), and its history texts added oldest
/// first, so the newest ends up in front; at most 50 are kept.
pub fn import_from_hammerspoon(
    api_key: Option<String>,
    language: Option<String>,
    history: Option<Vec<String>>,
) -> (r: AppConfig)
    ensures
        r.api_key@ == (match api_key {
            Some(k) => k@,
            None => Seq::<char>::empty(),
        }),
        r.language@ == (match language {
            Some(l) => l@,
            None => default_language(),
        }),
        r.model@ == default_model(),
        r.sounds_enabled,
        r.auto_paste,
        r.dataset_collection_enabled,
        ({
            let texts = match history {
                Some(h) => h@,
                None => Seq::<String>::empty(),
            };
            let kept = if texts.len() < history_limit() {
                texts.len()
            } else {
                history_limit()
            };
            &&& r.history@.len() == kept
            &&& forall|i: int|
                0 <= i < kept ==> #[trigger] r.history@[i].text == texts[texts.len() - 1 - i]
                    && r.history@[i].dataset_id is None
        }),
{
    let mut config = AppConfig::default();
    if let Some(key) = api_key {
        config.api_key = key;
    }
    if let Some(lang) = language {
        config.language = lang;
    }
    let ghost base = config;
    if let Some(texts) = history {
        let mut i: usize = 0;
        while i < texts.len()
            invariant
                i <= texts.len(),
                config.same_settings(base),
                config.history@.len() == (if i < history_limit() {
                    i as nat
                } else {
                    history_limit()
                }),
                forall|k: int|
                    0 <= k < config.history@.len() ==> #[trigger] config.history@[k].text
                        == texts@[i - 1 - k] && config.history@[k].dataset_id is None,
            decreases texts.len() - i,
        {
            let ghost prev = config.history@;
            config.add_history(texts[i].clone(), None);
            assert forall|k: int| 0 <= k < config.history@.len() implies #[trigger] config.history@[
                k
            ].text == texts@[i - k] && config.history@[k].dataset_id is None by {
                if k > 0 {
                    assert(config.history@[k] == prev[k - 1]);
                }
            }
            i = i + 1;
        }
    }
    config
}

/// Normalising a vocabulary twice gives the same text as once.
pub proof fn law_normalize_vocabulary_stable(content: Seq<char>)
    ensures
        join_with(words(join_with(words(content), space())), space()) == join_with(
            words(content),
            space(),
        ),
{
    lemma_words_wf(content);
    lemma_words_of_join(words(content));
}

/// The vocabulary file's words, separated by single spaces.
pub fn normalize_vocabulary(content: &str) -> (r: String)
    ensures
        r@ == join_with(words(content@), space()),
{
    let chars = chars_of(content);
    let ws = split_whitespace(&chars);
    let sep: Vec<char> = vec![' '];
    assert(sep@ =~= space());
    let joined = join(&ws, &sep);
    string_of(&joined)
}

} // verus!
