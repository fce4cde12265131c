use spoko_whisper::vocabulary::{extend_vocabulary, learn_new_words};

#[test]
fn learns_words_new_to_the_correction() {
    let w = learn_new_words("я люблю кубер нетіс", "я люблю Kubernetes, дуже.");
    assert_eq!(w, vec!["Kubernetes", "дуже"]);
}

#[test]
fn one_byte_words_are_not_learned_but_one_letter_cyrillic_is() {
    let w = learn_new_words("", "a b ї cd");
    assert_eq!(w, vec!["ї", "cd"]);
}

#[test]
fn nothing_new_nothing_learned() {
    assert!(learn_new_words("same words here", "same, words. here").is_empty());
    assert_eq!(extend_vocabulary("anything", &vec![]), None);
}

#[test]
fn repeated_new_words_are_kept() {
    let w = learn_new_words("x", "Tauri Tauri");
    assert_eq!(w, vec!["Tauri", "Tauri"]);
}

#[test]
fn adds_section_and_new_words() {
    let out = extend_vocabulary("Verus", &vec!["Tauri".to_string(), "Rust".to_string()]).unwrap();
    assert_eq!(out, "Verus\n\n# Auto-learned from corrections\nTauri, Rust\n");
}

#[test]
fn known_words_are_reinforced_on_their_own_line() {
    let existing = "Verus\n\n# Auto-learned from corrections\nTauri\n";
    let out = extend_vocabulary(existing, &vec!["Tauri".to_string(), "Rust".to_string()]).unwrap();
    assert_eq!(out, format!("{}Rust\nTauri\n", existing));
}

#[test]
fn only_reinforcements() {
    let existing = "# Auto-learned\nTauri\n";
    let out = extend_vocabulary(existing, &vec!["Tauri".to_string()]).unwrap();
    assert_eq!(out, "# Auto-learned\nTauri\nTauri\n");
}

#[test]
fn update_keeps_existing_text_and_writes_every_word() {
    let existing = "Kubernetes\nVerus";
    let learned = vec!["Verus".to_string(), "Tauri".to_string(), "Rust".to_string()];
    let out = extend_vocabulary(existing, &learned).unwrap();
    assert!(out.starts_with(existing));
    for w in &learned {
        assert!(out[existing.len()..].contains(w.as_str()));
    }
}
