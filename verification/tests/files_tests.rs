use rst4tex::files::{arg_present, backup_name, find_bib_names, find_include_names, input_path_from_args};

fn cs(s: &str) -> Vec<char> {
    s.chars().collect()
}

fn st(v: &[char]) -> String {
    v.iter().collect()
}

fn names(v: Vec<Vec<char>>) -> Vec<String> {
    v.iter().map(|n| st(n)).collect()
}

#[test]
fn find_bib_names_reads_bibliography_and_addbibresource() {
    let tex = "\\bibliography{refs, more.bib,}\n\\addbibresource[label=x]{ extra.bib }\n";
    assert_eq!(names(find_bib_names(&cs(tex))), vec!["refs", "more.bib", "extra.bib"]);
}

#[test]
fn find_bib_names_of_text_without_bibliography() {
    assert!(find_bib_names(&cs("\\cite{a}")).is_empty());
}

#[test]
fn find_include_names_reads_include_input_and_subfile() {
    let tex = "\\include{ch1}\n\\input{sec/a.tex}\n\\subfile{ part }\n\\include{}\n";
    assert_eq!(names(find_include_names(&cs(tex))), vec!["ch1", "sec/a.tex", "part"]);
}

#[test]
fn find_include_names_ignores_longer_command_names() {
    assert!(find_include_names(&cs("\\includegraphics{fig.png} \\inputenc{x}")).is_empty());
}

#[test]
fn backup_name_appends_bak() {
    assert_eq!(st(&backup_name(Some(cs("main.tex")))), "main.tex.bak");
    assert_eq!(st(&backup_name(None)), "backup.bak");
}

#[test]
fn input_path_from_args_takes_the_single_positional() {
    let args = vec![cs("--no-delete"), cs("main.tex")];
    assert_eq!(input_path_from_args(&args).map(|p| st(&p)), Some("main.tex".to_string()));
}

#[test]
fn input_path_from_args_refuses_none_or_several() {
    assert_eq!(input_path_from_args(&Vec::new()), None);
    assert_eq!(input_path_from_args(&vec![cs("--x")]), None);
    assert_eq!(input_path_from_args(&vec![cs("a.tex"), cs("b.tex")]), None);
}

#[test]
fn arg_present_matches_whole_arguments() {
    let args = vec![cs("main.tex"), cs("--no-delete")];
    assert!(arg_present(&args, &cs("--no-delete")));
    assert!(!arg_present(&args, &cs("--no")));
}
