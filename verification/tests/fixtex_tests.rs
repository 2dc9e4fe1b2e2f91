use rst4tex::fixtex::{
    begin_env_at_start, contains_unescaped_percent, display_math_ends,
    display_math_ends_after_start, display_math_starts, end_env_at_start, flush_paragraph,
    is_command_barrier, is_ignored_env, leading_ws, line_contains_end_env, lines, process,
    starts_command, starts_supported_paragraph_prefix, take_paragraph_prefix, MathMode,
};

fn cs(s: &str) -> Vec<char> {
    s.chars().collect()
}

fn st(v: &[char]) -> String {
    v.iter().collect()
}

#[test]
fn process_puts_each_sentence_on_its_own_line() {
    assert_eq!(process("This is one. This is two.\n"), "This is one.\nThis is two.\n");
}

#[test]
fn process_joins_a_sentence_that_spans_lines() {
    assert_eq!(
        process("First sentence\ncontinues here. Second.\n"),
        "First sentence continues here.\nSecond.\n"
    );
}

#[test]
fn process_collapses_double_whitespace_in_paragraphs() {
    assert_eq!(process("Too   many\tspaces.   \n"), "Too many spaces.\n");
}

#[test]
fn process_does_not_split_before_lower_case() {
    assert_eq!(process("It is e.g. fine. ok then.\n"), "It is e.g. fine. ok then.\n");
}

#[test]
fn process_does_not_split_decimals_or_abbreviations() {
    assert_eq!(process("Pi is 3.14 roughly. Yes.\n"), "Pi is 3.14 roughly.\nYes.\n");
    assert_eq!(process("See Fig. 3 now. Done.\n"), "See Fig. 3 now.\nDone.\n");
    assert_eq!(process("Dr. Who arrived. Then.\n"), "Dr. Who arrived.\nThen.\n");
    assert_eq!(process("A. Einstein said. Yes.\n"), "A. Einstein said.\nYes.\n");
    assert_eq!(process("Doe ET AL. Showed it. Ok.\n"), "Doe ET AL. Showed it.\nOk.\n");
    assert_eq!(process("In the U.S. Today. Ok.\n"), "In the U.S. Today.\nOk.\n");
}

#[test]
fn process_keeps_closing_quotes_with_the_sentence() {
    assert_eq!(
        process("He said \"Stop.\" Then left.\n"),
        "He said \"Stop.\"\nThen left.\n"
    );
    assert_eq!(process("Really? (Yes!) Good.\n"), "Really?\n(Yes!)\nGood.\n");
}

#[test]
fn process_leaves_comments_and_percent_lines() {
    assert_eq!(
        process("% comment. Two.\nText. More.\n50% of it. Rest.\n"),
        "% comment. Two.\nText.\nMore.\n50% of it. Rest.\n"
    );
    assert_eq!(process("50\\% of it. Rest.\n"), "50\\% of it.\nRest.\n");
}

#[test]
fn process_leaves_ignored_environments() {
    let tex = "\\begin{equation}\na. B. c\n\\end{equation}\nXen. Yak.\n";
    assert_eq!(process(tex), "\\begin{equation}\na. B. c\n\\end{equation}\nXen.\nYak.\n");
}

#[test]
fn process_formats_inside_other_environments() {
    let tex = "\\begin{itemize}\n  \\item First. Second.\n\\end{itemize}\n";
    assert_eq!(
        process(tex),
        "\\begin{itemize}\n  \\item First.\n        Second.\n\\end{itemize}\n"
    );
}

#[test]
fn process_leaves_display_math() {
    assert_eq!(process("\\[\nx. Yes.\n\\]\nAnn. Bob.\n"), "\\[\nx. Yes.\n\\]\nAnn.\nBob.\n");
    assert_eq!(process("$$ a. Bc. $$\nAnn. Bob.\n"), "$$ a. Bc. $$\nAnn.\nBob.\n");
}

#[test]
fn process_keeps_blank_lines_between_paragraphs() {
    assert_eq!(process("Ann. Bob.\n\nCid.\n"), "Ann.\nBob.\n\nCid.\n");
}

#[test]
fn process_keeps_initials_with_the_name() {
    assert_eq!(process("A. B. Smith wrote. Then.\n"), "A. B. Smith wrote.\nThen.\n");
}

#[test]
fn process_keeps_command_lines() {
    assert_eq!(
        process("Intro text.\n\\section{Intro. Here}\nMore. Text.\n"),
        "Intro text.\n\\section{Intro. Here}\nMore.\nText.\n"
    );
    assert_eq!(process("Line one. Two \\\\\nNext.\n"), "Line one. Two \\\\\nNext.\n");
}

#[test]
fn process_reindents_paragraphs_and_keeps_noindent() {
    assert_eq!(process("  Indented one. Two.\n"), "Indented one.\nTwo.\n");
    assert_eq!(process("\\noindent Text. More.\n"), "\\noindent Text.\nMore.\n");
}

#[test]
fn process_ends_the_last_line() {
    assert_eq!(process("One. Two."), "One.\nTwo.\n");
    assert_eq!(process(""), "");
}

#[test]
fn process_is_stable_on_formatted_text() {
    let once = process("A first one. A second\none. \\item X. Y.\n");
    assert_eq!(process(&once), once);
}

#[test]
fn lines_split_like_str_lines() {
    let ls: Vec<String> = lines(&cs("a\r\nb\n\nc\r")).iter().map(|l| st(l)).collect();
    assert_eq!(ls, vec!["a", "b", "", "c\r"]);
    assert!(lines(&cs("")).is_empty());
}

#[test]
fn environment_lines_are_recognised() {
    assert_eq!(begin_env_at_start(&cs("\\begin{figure*}[t]")).map(|e| st(&e)), Some("figure*".to_string()));
    assert_eq!(begin_env_at_start(&cs(" \\begin{x}")), None);
    assert_eq!(begin_env_at_start(&cs("\\begin{x")), None);
    assert_eq!(end_env_at_start(&cs("\\end{table}")).map(|e| st(&e)), Some("table".to_string()));
    assert!(line_contains_end_env(&cs("x \\end{align} y"), &cs("align")));
    assert!(!line_contains_end_env(&cs("x \\end{align*}"), &cs("align")));
    assert!(is_ignored_env(&cs("tikzpicture")));
    assert!(is_ignored_env(&cs("align*")));
    assert!(!is_ignored_env(&cs("itemize")));
    assert!(!is_ignored_env(&cs("document")));
}

#[test]
fn display_math_delimiters_are_recognised() {
    assert!(matches!(display_math_starts(&cs("\\[ x")), Some(MathMode::Bracket)));
    assert!(matches!(display_math_starts(&cs("$$x")), Some(MathMode::Dollars)));
    assert!(display_math_starts(&cs("$x$")).is_none());
    assert!(display_math_ends(&cs("a \\]"), &MathMode::Bracket));
    assert!(!display_math_ends(&cs("a $$"), &MathMode::Bracket));
    assert!(display_math_ends_after_start(&cs("$$ x $$"), &MathMode::Dollars));
    assert!(!display_math_ends_after_start(&cs("$$ x"), &MathMode::Dollars));
    assert!(!display_math_ends_after_start(&cs("\\]"), &MathMode::Bracket));
}

#[test]
fn percent_signs_are_told_apart() {
    assert!(contains_unescaped_percent(&cs("a % b")));
    assert!(!contains_unescaped_percent(&cs("a \\% b")));
    assert!(contains_unescaped_percent(&cs("a \\\\% b")));
    assert!(!contains_unescaped_percent(&cs("plain")));
}

#[test]
fn command_lines_and_prefixes_are_recognised() {
    assert!(starts_command(&cs("\\item x"), "\\item"));
    assert!(starts_command(&cs("\\item"), "\\item"));
    assert!(starts_command(&cs("\\item[a]"), "\\item"));
    assert!(!starts_command(&cs("\\itemize"), "\\item"));
    assert!(starts_supported_paragraph_prefix(&cs("\\noindent Text")));
    assert!(!starts_supported_paragraph_prefix(&cs("\\section{x}")));
    assert!(is_command_barrier(&cs("  \\section{x}")));
    assert!(is_command_barrier(&cs("text \\\\")));
    assert!(!is_command_barrier(&cs("\\item text")));
    assert!(!is_command_barrier(&cs("text")));
}

#[test]
fn paragraph_prefixes_are_split_off() {
    let (p, c, r) = take_paragraph_prefix(&cs("\\item[(a)]  First. Second.")).unwrap();
    assert_eq!(st(&p), "\\item[(a)]  ");
    assert_eq!(st(&c), " ".repeat(12));
    assert_eq!(st(&r), "First. Second.");
    let (p, c, r) = take_paragraph_prefix(&cs("\\noindent  Text")).unwrap();
    assert_eq!((st(&p), st(&c), st(&r)), ("\\noindent  ".to_string(), String::new(), "Text".to_string()));
    assert!(take_paragraph_prefix(&cs("Text")).is_none());
}

#[test]
fn leading_ws_is_the_indentation() {
    assert_eq!(st(&leading_ws(&cs(" \t x "))), " \t ");
    assert_eq!(st(&leading_ws(&cs("   "))), "   ");
}

#[test]
fn flush_paragraph_writes_sentences_and_empties_the_paragraph() {
    let mut out = cs("> ");
    let mut para = vec![cs("  One. Two"), cs("  three.  "), cs("")];
    flush_paragraph(&mut out, &mut para, &cs("    "));
    assert_eq!(st(&out), ">     One.\n    Two three.\n");
    assert!(para.is_empty());
    let mut empty: Vec<Vec<char>> = Vec::new();
    flush_paragraph(&mut out, &mut empty, &cs("  "));
    assert_eq!(st(&out), ">     One.\n    Two three.\n");
}

#[test]
fn process_merges_runs_of_blank_lines() {
    assert_eq!(process("Ann.\n\n\n  \nBob.\n"), "Ann.\n\nBob.\n");
    assert_eq!(process("\n\nAnn.\n"), "\nAnn.\n");
}

#[test]
fn process_removes_trailing_whitespace_from_kept_lines() {
    assert_eq!(
        process("% note  \n\\section{A}\t \n\\begin{itemize} \n\\end{itemize}  \n"),
        "% note\n\\section{A}\n\\begin{itemize}\n\\end{itemize}\n"
    );
}

#[test]
fn process_keeps_trailing_whitespace_inside_verbatim() {
    let tex = "\\begin{verbatim}\ncode  \n\n\n\\end{verbatim}\n";
    assert_eq!(process(tex), tex);
}

#[test]
fn process_indents_environment_bodies() {
    let tex = "\\begin{itemize}\n\\item One.\n\\end{itemize}\n";
    assert_eq!(process(tex), "\\begin{itemize}\n  \\item One.\n\\end{itemize}\n");
}

#[test]
fn process_indents_nested_environments_but_not_the_document() {
    let tex = "\\begin{document}\n\\section{Intro}\nText. More.\n\\begin{itemize}\n\\item A one.\n\\begin{enumerate}\n    \\item Deep.\n\\end{enumerate}\n\\end{itemize}\n\\end{document}\n";
    assert_eq!(
        process(tex),
        "\\begin{document}\n\\section{Intro}\nText.\nMore.\n\\begin{itemize}\n  \\item A one.\n  \\begin{enumerate}\n    \\item Deep.\n  \\end{enumerate}\n\\end{itemize}\n\\end{document}\n"
    );
}

#[test]
fn process_indents_the_lines_around_kept_environments() {
    let tex = "\\begin{center}\n\\begin{equation}\n   x = 1\n\\end{equation}\n\\end{center}\n";
    assert_eq!(
        process(tex),
        "\\begin{center}\n  \\begin{equation}\n   x = 1\n  \\end{equation}\n\\end{center}\n"
    );
}

#[test]
fn process_splits_captions_into_sentences() {
    let out = process("\\caption{First sentence. Second sentence.}\n");
    assert_eq!(out, "\\caption{First sentence.\n         Second sentence.}\n");
    let squeeze = |t: &str| t.split_whitespace().collect::<String>();
    assert_eq!(squeeze(&out), squeeze("\\caption{First sentence. Second sentence.}\n"));
}

#[test]
fn process_splits_captions_in_figures() {
    let tex = "\\begin{figure}[t]\n\\centering\n\\subcaption[short]{One. Two.}\\label{f} \n\\caption{Only one.}\n\\end{figure}\n";
    assert_eq!(
        process(tex),
        "\\begin{figure}[t]\n  \\centering\n  \\subcaption[short]{One.\n                     Two.}\\label{f}\n  \\caption{Only one.}\n\\end{figure}\n"
    );
}

#[test]
fn process_keeps_a_caption_that_continues_on_the_next_line() {
    let tex = "\\caption{First. Second\nthird.}\n";
    assert_eq!(process(tex), tex);
}

#[test]
fn process_twice_is_process_once_on_plain_text() {
    let text = "  A first line\ncontinues here.   Second one! third?\n\n\n  Next paragraph.\nEnd";
    let once = process(text);
    assert_eq!(once, "A first line continues here.\nSecond one!\nthird?\n\nNext paragraph.\nEnd\n");
    assert_eq!(process(&once), once);
}
