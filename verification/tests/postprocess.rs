use spoko_whisper::postprocess::cleanup;

#[test]
fn test_remove_triple_repeat() {
    let input = "як це має працювати, як це має працювати, як це має працювати, як це має працювати";
    let result = cleanup(input);
    assert_eq!(result, "як це має працювати,");
}

#[test]
fn test_keep_double() {
    let input = "добре, добре, поїхали";
    let result = cleanup(input);
    assert_eq!(result, "добре, добре, поїхали");
}

#[test]
fn test_word_repeat() {
    let input = "так так так так так";
    let result = cleanup(input);
    assert_eq!(result, "так так");
}

#[test]
fn test_normal_text_unchanged() {
    let input = "Привіт, як справи? Все добре.";
    let result = cleanup(input);
    assert_eq!(result, "Привіт, як справи? Все добре.");
}

#[test]
fn cleanup_trims_surrounding_whitespace() {
    assert_eq!(cleanup("  привіт  "), "привіт");
    assert_eq!(cleanup("\n\t"), "");
    assert_eq!(cleanup(""), "");
}

#[test]
fn cleanup_keeps_inner_spacing_of_short_text() {
    // Fewer than three words: only trimmed.
    assert_eq!(cleanup("  a   b  "), "a   b");
}

#[test]
fn cleanup_normalises_spacing_of_longer_text() {
    // Three or more words are re-joined with single spaces.
    assert_eq!(cleanup("a  b\tc"), "a b c");
}

#[test]
fn cleanup_collapses_two_word_phrase() {
    assert_eq!(cleanup("so good so good so good end"), "so good end");
}

#[test]
fn cleanup_ignores_trailing_punctuation_when_matching() {
    assert_eq!(cleanup("yes please! yes please. yes please?"), "yes please!");
}

#[test]
fn cleanup_keeps_phrase_repeated_twice() {
    assert_eq!(cleanup("go on go on stop"), "go on go on stop");
}

#[test]
fn cleanup_caps_word_runs_inside_text() {
    assert_eq!(cleanup("a b b b b c c c d"), "a b b c c d");
}

#[test]
fn cleanup_word_repeat_is_exact_not_punctuation_blind() {
    // Word-level capping compares words exactly.
    assert_eq!(cleanup("no, no no no"), "no, no no");
}

#[test]
fn cleanup_never_leaves_three_equal_words_in_a_row() {
    let samples = [
        "x x x x x x x x x",
        "a a a b b b a a a",
        "one two one two one two one two",
        "la la la la, la la",
    ];
    for s in samples {
        let out = cleanup(s);
        let ws: Vec<&str> = out.split_whitespace().collect();
        for i in 2..ws.len() {
            assert!(!(ws[i] == ws[i - 1] && ws[i - 1] == ws[i - 2]), "{:?}", out);
        }
    }
}

#[test]
fn cleanup_only_removes_words() {
    let input = "ну ну ну ось так, ось так, ось так, ось так і все все все";
    let out = cleanup(input);
    let in_words: Vec<&str> = input.split_whitespace().collect();
    let out_words: Vec<&str> = out.split_whitespace().collect();
    assert!(out_words.len() <= in_words.len());
    for w in &out_words {
        assert!(in_words.contains(w), "{:?}", w);
    }
    assert_eq!(out, "ну ну ось так, і все все");
}

#[test]
fn cleanup_keeps_word_order_and_never_grows() {
    for input in [
        "a b a a b a a a a b a a b a",
        "  ну ну ну ось так, ось так, ось так, ось так і все все все  ",
        "x\t\ty  z",
        "",
    ] {
        let out = cleanup(input);
        assert!(out.len() <= input.len());
        let in_words: Vec<&str> = input.split_whitespace().collect();
        let mut pos = 0;
        for w in out.split_whitespace() {
            while pos < in_words.len() && in_words[pos] != w {
                pos += 1;
            }
            assert!(pos < in_words.len(), "{:?} out of order in {:?}", w, out);
            pos += 1;
        }
    }
}
