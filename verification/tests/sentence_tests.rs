use rst4tex::sentences::{is_abbreviation, is_decimal_point, is_sentence_closer, split_sentences};

fn cs(s: &str) -> Vec<char> {
    s.chars().collect()
}

fn split(s: &str) -> Vec<String> {
    split_sentences(&cs(s)).iter().map(|p| p.iter().collect()).collect()
}

#[test]
fn split_sentences_at_marks_before_capitals() {
    assert_eq!(split("One. Two! Three? Four"), vec!["One.", "Two!", "Three?", "Four"]);
}

#[test]
fn split_sentences_of_empty_text() {
    assert!(split("").is_empty());
    assert!(split("   ").is_empty());
}

#[test]
fn split_sentences_needs_whitespace_after_the_mark() {
    assert_eq!(split("Hi!There. Now"), vec!["Hi!There.", "Now"]);
    // A word with a dot inside counts as an abbreviation.
    assert_eq!(split("a.b. C"), vec!["a.b. C"]);
}

#[test]
fn split_sentences_after_question_before_lower_case() {
    assert_eq!(split("Why? because. and so"), vec!["Why?", "because. and so"]);
}

#[test]
fn split_sentences_with_closers() {
    assert_eq!(split("(Done.) Next"), vec!["(Done.)", "Next"]);
    assert_eq!(split("Said \u{201c}hi.\u{201d} Ok"), vec!["Said \u{201c}hi.\u{201d}", "Ok"]);
}

#[test]
fn split_sentences_at_the_end_with_trailing_space() {
    assert_eq!(split("One. Two.  "), vec!["One.", "Two."]);
}

#[test]
fn decimal_points_are_between_digits() {
    let s = cs("3.14 x. 5.");
    assert!(is_decimal_point(&s, 1));
    assert!(!is_decimal_point(&s, 6));
    assert!(!is_decimal_point(&s, 9));
    assert!(!is_decimal_point(&s, 0));
    assert!(!is_decimal_point(&s, 42));
}

#[test]
fn abbreviations_are_recognised() {
    let s = cs("see e.g. this");
    assert!(is_abbreviation(&s, 7));
    let s = cs("cf. that");
    assert!(is_abbreviation(&s, 2));
    let s = cs("Smith et al. showed");
    assert!(is_abbreviation(&s, 11));
    let s = cs("by J. Doe");
    assert!(is_abbreviation(&s, 4));
    let s = cs("by j. Doe");
    assert!(!is_abbreviation(&s, 4));
    let s = cs("(see Ref.) now");
    assert!(is_abbreviation(&s, 8));
    let s = cs("the end. Now");
    assert!(!is_abbreviation(&s, 7));
}

#[test]
fn sentence_closers_are_quotes_and_brackets() {
    for c in [')', ']', '}', '"', '\'', '\u{2019}', '\u{201d}', '\u{bb}'] {
        assert!(is_sentence_closer(c));
    }
    assert!(!is_sentence_closer('.'));
    assert!(!is_sentence_closer('('));
}

#[test]
fn sentences_joined_by_spaces_give_the_collapsed_text_back() {
    let text = "  First one.  Second   one!\tThird? fourth e.g. here.\n";
    let collapsed = rst4tex::text::collapse_whitespace(text);
    let joined = split(&collapsed).join(" ");
    assert_eq!(joined, collapsed);
    assert_eq!(split(&collapsed), vec!["First one.", "Second one!", "Third?", "fourth e.g. here."]);
}

#[test]
fn sentences_of_collapsed_text_are_non_empty_and_trimmed() {
    let collapsed = rst4tex::text::collapse_whitespace(" One.  Two?  \"Three.\" four. Five ");
    for p in split(&collapsed) {
        assert!(!p.is_empty());
        assert_eq!(p.trim(), p);
    }
    assert_eq!(split(&collapsed).join(" "), collapsed);
}
