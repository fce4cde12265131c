use spoko_whisper::config::{import_from_hammerspoon, normalize_vocabulary, AppConfig, HistoryEntry};

fn entry(t: &str) -> HistoryEntry {
    HistoryEntry { text: t.to_string(), timestamp: "2026-01-01 00:00:00".to_string(), dataset_id: None }
}

#[test]
fn default_settings() {
    let c = AppConfig::default();
    assert_eq!(c.api_key, "");
    assert_eq!(c.language, "uk");
    assert_eq!(c.model, "Systran/faster-whisper-small");
    assert!(c.sounds_enabled && c.auto_paste && c.dataset_collection_enabled);
    assert!(c.history.is_empty());
}

#[test]
fn newest_history_entry_first() {
    let mut c = AppConfig::default();
    c.add_history("first".to_string(), None);
    c.add_history("second".to_string(), Some("20260101-000000".to_string()));
    assert_eq!(c.history.len(), 2);
    assert_eq!(c.history[0].text, "second");
    assert_eq!(c.history[0].dataset_id.as_deref(), Some("20260101-000000"));
    assert_eq!(c.history[1].text, "first");
    // YYYY-MM-DD HH:MM:SS
    assert_eq!(c.history[0].timestamp.len(), 19);
}

#[test]
fn history_keeps_fifty_entries() {
    let mut c = AppConfig::default();
    for i in 0..60 {
        c.add_history_entry(entry(&i.to_string()));
    }
    assert_eq!(c.history.len(), 50);
    assert_eq!(c.history[0].text, "59");
    assert_eq!(c.history[49].text, "10");
}

#[test]
fn delete_entry() {
    let mut c = AppConfig::default();
    for t in ["a", "b", "c"] {
        c.add_history_entry(entry(t));
    }
    c.delete_history_entry(1);
    let texts: Vec<&str> = c.history.iter().map(|e| e.text.as_str()).collect();
    assert_eq!(texts, vec!["c", "a"]);
    c.delete_history_entry(5);
    assert_eq!(c.history.len(), 2);
}

#[test]
fn update_entry_text() {
    let mut c = AppConfig::default();
    c.add_history_entry(HistoryEntry { text: "old".into(), timestamp: "t".into(), dataset_id: Some("id1".into()) });
    let (old, id) = c.update_history_text(0, "new".to_string()).unwrap();
    assert_eq!(old, "old");
    assert_eq!(id.as_deref(), Some("id1"));
    assert_eq!(c.history[0].text, "new");
    assert_eq!(c.history[0].timestamp, "t");
    assert_eq!(c.update_history_text(1, "x".to_string()).unwrap_err(), "Index out of bounds");
}

#[test]
fn import_takes_key_language_and_history() {
    let c = import_from_hammerspoon(
        Some("sk-1".to_string()),
        None,
        Some(vec!["one".to_string(), "two".to_string(), "three".to_string()]),
    );
    assert_eq!(c.api_key, "sk-1");
    assert_eq!(c.language, "uk");
    let texts: Vec<&str> = c.history.iter().map(|e| e.text.as_str()).collect();
    assert_eq!(texts, vec!["three", "two", "one"]);
    assert!(c.history.iter().all(|e| e.dataset_id.is_none()));
}

#[test]
fn import_without_anything_gives_defaults() {
    let c = import_from_hammerspoon(None, Some("en".to_string()), None);
    assert_eq!(c.api_key, "");
    assert_eq!(c.language, "en");
    assert!(c.history.is_empty());
}

#[test]
fn import_keeps_fifty_newest() {
    let texts: Vec<String> = (0..70).map(|i| i.to_string()).collect();
    let c = import_from_hammerspoon(None, None, Some(texts));
    assert_eq!(c.history.len(), 50);
    assert_eq!(c.history[0].text, "69");
    assert_eq!(c.history[49].text, "20");
}

#[test]
fn vocabulary_is_one_line_of_words() {
    assert_eq!(normalize_vocabulary("Kubernetes\nVerus  Tauri\r\n\n  spoko\n"), "Kubernetes Verus Tauri spoko");
    assert_eq!(normalize_vocabulary(""), "");
    let once = normalize_vocabulary(" a \n b ");
    assert_eq!(normalize_vocabulary(&once), once);
}
