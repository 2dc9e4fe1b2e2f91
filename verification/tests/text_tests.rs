use rst4tex::text::{collapse_chars, collapse_whitespace, skip_ws, split_words, trim_chars};

fn cs(s: &str) -> Vec<char> {
    s.chars().collect()
}

fn st(v: &[char]) -> String {
    v.iter().collect()
}

#[test]
fn collapse_whitespace_joins_words_with_single_spaces() {
    assert_eq!(collapse_whitespace("  a \t b\n\nc  "), "a b c");
}

#[test]
fn collapse_whitespace_of_blank_text_is_empty() {
    assert_eq!(collapse_whitespace(""), "");
    assert_eq!(collapse_whitespace(" \t\r\n "), "");
}

#[test]
fn collapse_whitespace_treats_unicode_spaces_as_whitespace() {
    assert_eq!(collapse_whitespace("a\u{a0}\u{2003}b\u{3000}"), "a b");
}

#[test]
fn collapse_is_idempotent_on_an_example() {
    let once = collapse_whitespace("  x  y\tz ");
    assert_eq!(once, "x y z");
    assert_eq!(collapse_whitespace(&once), once);
}

#[test]
fn collapse_chars_keeps_the_words() {
    let out = collapse_chars(&cs(" one\n two  three "));
    assert_eq!(st(&out), "one two three");
    let words: Vec<String> = split_words(&out).iter().map(|w| st(w)).collect();
    assert_eq!(words, vec!["one", "two", "three"]);
}

#[test]
fn skip_ws_moves_past_whitespace() {
    assert_eq!(skip_ws("ab   cd", 2), 5);
    assert_eq!(skip_ws("ab   cd", 0), 0);
}

#[test]
fn skip_ws_stops_at_the_end() {
    assert_eq!(skip_ws("ab  ", 2), 4);
    assert_eq!(skip_ws("ab", 2), 2);
    assert_eq!(skip_ws("", 0), 0);
}

#[test]
fn skip_ws_counts_bytes_of_multibyte_whitespace() {
    // U+3000 takes three bytes, U+00A0 two.
    assert_eq!(skip_ws("x\u{3000}\u{a0}y", 1), 6);
    // A position past a multibyte letter is a byte offset too.
    assert_eq!(skip_ws("\u{e9} z", 2), 3);
}

#[test]
fn trim_chars_removes_both_ends() {
    assert_eq!(st(&trim_chars(&cs("\t key \n"))), "key");
    assert_eq!(st(&trim_chars(&cs("   "))), "");
}
