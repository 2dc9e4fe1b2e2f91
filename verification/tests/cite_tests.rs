use rst4tex::cite::{
    cite_group_at, collect_used_citation_keys, is_cite_cmd, keys_of_group, lookup_year,
    rewrite_tex_citations, KeyYear, Rename,
};

fn cs(s: &str) -> Vec<char> {
    s.chars().collect()
}

fn st(v: &[char]) -> String {
    v.iter().collect()
}

#[test]
fn is_cite_cmd_accepts_citation_commands() {
    for c in ["cite", "citep", "citet", "parencite", "textcite", "autocites", "nocite", "Cite", "footcite"] {
        assert!(is_cite_cmd(&cs(c)), "{}", c);
    }
}

#[test]
fn is_cite_cmd_rejects_definitions_and_other_commands() {
    for c in ["newcite", "renewcite", "DeclareCiteCommand", "providecite", "ref", "label", "section"] {
        assert!(!is_cite_cmd(&cs(c)), "{}", c);
    }
}

#[test]
fn cite_group_at_finds_the_key_group() {
    let tex = cs("x \\cite[p.~5]{a, b} y");
    let (cmd, s, e) = cite_group_at(&tex, 2).unwrap();
    assert_eq!(st(&cmd), "cite");
    assert_eq!((s, e), (14, 18));
    assert_eq!(st(&tex[s..e]), "a, b");
}

#[test]
fn cite_group_at_skips_star_spaces_and_options() {
    let tex = cs("\\textcite* [see] [p. 3] {k1}");
    let (cmd, s, e) = cite_group_at(&tex, 0).unwrap();
    assert_eq!(st(&cmd), "textcite");
    assert_eq!(st(&tex[s..e]), "k1");
}

#[test]
fn cite_group_at_rejects_other_positions() {
    let tex = cs("x \\ref{a} \\cite");
    assert!(cite_group_at(&tex, 0).is_none());
    assert!(cite_group_at(&tex, 2).is_none());
    assert!(cite_group_at(&tex, 10).is_none());
    assert!(cite_group_at(&tex, 100).is_none());
    assert!(cite_group_at(&cs("\\cite{open"), 0).is_none());
}

#[test]
fn keys_of_group_splits_and_trims() {
    let ks: Vec<String> = keys_of_group(&cs(" a ,b,, c ")).iter().map(|k| st(k)).collect();
    assert_eq!(ks, vec!["a", "b", "c"]);
}

#[test]
fn collect_used_citation_keys_lists_every_key() {
    let (keys, all) = collect_used_citation_keys(&cs("\\cite{a,b} text \\citep[x]{ c } \\cite{a}"));
    let ks: Vec<String> = keys.iter().map(|k| st(k)).collect();
    assert_eq!(ks, vec!["a", "b", "c", "a"]);
    assert!(!all);
}

#[test]
fn collect_used_citation_keys_sees_the_star() {
    let (keys, all) = collect_used_citation_keys(&cs("\\nocite{*}"));
    let ks: Vec<String> = keys.iter().map(|k| st(k)).collect();
    assert_eq!(ks, vec!["*"]);
    assert!(all);
}

#[test]
fn collect_used_citation_keys_of_text_without_citations() {
    let (keys, all) = collect_used_citation_keys(&cs("plain \\emph{text} \\\\ end"));
    assert!(keys.is_empty());
    assert!(!all);
}

fn renames() -> Vec<Rename> {
    vec![
        Rename { old: cs("a"), new: cs("x1") },
        Rename { old: cs("b"), new: cs("x2") },
    ]
}

fn years() -> Vec<KeyYear> {
    vec![KeyYear { key: cs("x1"), year: 2010 }, KeyYear { key: cs("x2"), year: 2000 }]
}

#[test]
fn lookup_year_defaults_to_9999() {
    assert_eq!(lookup_year(&years(), &cs("x2")), 2000);
    assert_eq!(lookup_year(&years(), &cs("zz")), 9999);
}

#[test]
fn rewrite_renames_and_sorts_by_year() {
    let out = rewrite_tex_citations(&cs("See \\cite{a, b, zz}."), &renames(), &years());
    assert_eq!(st(&out), "See \\cite{x2,x1,zz}.");
}

#[test]
fn rewrite_keeps_order_for_nocite_and_star() {
    let out = rewrite_tex_citations(&cs("\\nocite{a,b} \\cite{*,b,a}"), &renames(), &years());
    assert_eq!(st(&out), "\\nocite{x1,x2} \\cite{*,x2,x1}");
}

#[test]
fn rewrite_sort_is_stable_for_equal_years() {
    let ys = vec![KeyYear { key: cs("p"), year: 1990 }, KeyYear { key: cs("q"), year: 1990 }];
    let out = rewrite_tex_citations(&cs("\\cite{q,p,r}"), &Vec::new(), &ys);
    assert_eq!(st(&out), "\\cite{q,p,r}");
}

#[test]
fn rewrite_leaves_other_text_alone() {
    let tex = "No citations \\ref{a} here.\n";
    let out = rewrite_tex_citations(&cs(tex), &renames(), &years());
    assert_eq!(st(&out), tex);
}
