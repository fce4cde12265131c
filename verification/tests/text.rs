use spoko_whisper::text::{chars_of, is_whitespace, join, split_pieces, split_whitespace, string_of, trim_chars};

fn v(s: &str) -> Vec<char> {
    s.chars().collect()
}

#[test]
fn whitespace_matches_std_for_every_char() {
    for u in 0u32..=0x10FFFF {
        if let Some(c) = char::from_u32(u) {
            assert_eq!(is_whitespace(c), c.is_whitespace(), "U+{:04X}", u);
        }
    }
}

#[test]
fn chars_and_strings_round_trip() {
    let s = "Привіт, світ!";
    assert_eq!(chars_of(s), v(s));
    assert_eq!(string_of(&v(s)), s);
}

#[test]
fn split_whitespace_matches_std() {
    for s in ["", "  ", "a", " a  b\tc\n", "\u{3000}x\u{00A0}y ", "так  так"] {
        let ours: Vec<String> = split_whitespace(&v(s)).iter().map(|w| w.iter().collect()).collect();
        let std_words: Vec<String> = s.split_whitespace().map(|w| w.to_string()).collect();
        assert_eq!(ours, std_words, "{:?}", s);
    }
}

#[test]
fn split_pieces_also_breaks_at_commas_and_periods() {
    let ours: Vec<String> = split_pieces(&v("a,b. c,,d"), true).iter().map(|w| w.iter().collect()).collect();
    assert_eq!(ours, vec!["a", "b", "c", "d"]);
}

#[test]
fn join_puts_separator_between_pieces() {
    let ws = vec![v("a"), v("bc"), v("d")];
    assert_eq!(join(&ws, &v(", ")), v("a, bc, d"));
    assert_eq!(join(&vec![], &v(", ")), v(""));
    assert_eq!(join(&vec![v("x")], &v(", ")), v("x"));
}

#[test]
fn trim_matches_std() {
    for s in ["", "   ", " a ", "\u{2003}b c\u{3000}", "x"] {
        let ours: String = trim_chars(&v(s)).iter().collect();
        assert_eq!(ours, s.trim(), "{:?}", s);
    }
}
