use rst4tex::fixbib::fix_bibliography;

fn cs(s: &str) -> Vec<char> {
    s.chars().collect()
}

fn st(v: &[char]) -> String {
    v.iter().collect()
}

const BIB_A: &str = "@Article{Key1,\n  author = {Doe, John},\n  title = {A Study},\n  year = 2020\n}\n\n\
@Article{Dup,\n  author = {Doe, John},\n  title = {{A} Study},\n  year = {2020}\n}\n";

const BIB_B: &str = "@string{x = \"y\"}\n\
@Book{Key3,\n  author = {Smith, Anna},\n  title = {Older Work},\n  year = 1999\n}\n\n\
@Misc{Unused,\n  author = {Brown, Bob},\n  title = {Never Cited},\n  date = {2001-05-01}\n}\n";

const KEY1: &str = "@Article{doestudy2020,\n  author = {Doe, John},\n  title = {A Study},\n  year = 2020\n}\n\n";
const KEY3: &str = "@Book{smitholder1999,\n  author = {Smith, Anna},\n  title = {Older Work},\n  year = 1999\n}\n\n";
const UNUSED: &str = "@Misc{brownnever2001,\n  author = {Brown, Bob},\n  title = {Never Cited},\n  date = {2001-05-01}\n}\n\n";

fn bibs() -> Vec<Vec<char>> {
    vec![cs(BIB_A), cs(BIB_B)]
}

fn renames(out: &rst4tex::fixbib::FixOutput) -> Vec<(String, String)> {
    out.renames.iter().map(|r| (st(&r.old), st(&r.new))).collect()
}

#[test]
fn fix_merges_duplicates_and_drops_unused_entries() {
    let texs = vec![cs("See \\cite{Key1, Key3} and \\citep{Dup}.\n")];
    let out = fix_bibliography(&texs, &bibs(), false);
    assert_eq!(out.entry_count, 4);
    assert_eq!(out.kept_count, 2);
    assert_eq!(out.bib_texts.len(), 2);
    assert_eq!(st(&out.bib_texts[0]), KEY1);
    assert_eq!(st(&out.bib_texts[1]), format!("@string{{x = \"y\"}}\n\n{}", KEY3));
    let used: Vec<String> = out.used_keys.iter().map(|k| st(k)).collect();
    assert_eq!(used, vec!["Key1", "Key3", "Dup"]);
    assert!(out.missing.is_empty());
}

#[test]
fn fix_rewrites_citations_to_new_keys_sorted_by_year() {
    let texs = vec![cs("See \\cite{Key1, Key3} and \\citep{Dup}.\n"), cs("\\cite[p.~2]{Dup}\n")];
    let out = fix_bibliography(&texs, &bibs(), false);
    assert_eq!(
        st(&out.tex_texts[0]),
        "See \\cite{smitholder1999,doestudy2020} and \\citep{doestudy2020}.\n"
    );
    assert_eq!(st(&out.tex_texts[1]), "\\cite[p.~2]{doestudy2020}\n");
}

#[test]
fn fix_renames_every_cited_key_to_a_kept_entry() {
    let texs = vec![cs("\\cite{Key1,Key3,Dup}")];
    let out = fix_bibliography(&texs, &bibs(), false);
    assert_eq!(
        renames(&out),
        vec![
            ("Key1".to_string(), "doestudy2020".to_string()),
            ("Dup".to_string(), "doestudy2020".to_string()),
            ("Key3".to_string(), "smitholder1999".to_string()),
        ]
    );
}

#[test]
fn fix_with_no_delete_keeps_unused_entries() {
    let texs = vec![cs("\\cite{Key1}")];
    let out = fix_bibliography(&texs, &bibs(), true);
    assert_eq!(out.kept_count, 3);
    assert_eq!(st(&out.bib_texts[0]), KEY1);
    assert_eq!(st(&out.bib_texts[1]), format!("@string{{x = \"y\"}}\n\n{}{}", KEY3, UNUSED));
    assert_eq!(
        renames(&out),
        vec![
            ("Key1".to_string(), "doestudy2020".to_string()),
            ("Dup".to_string(), "doestudy2020".to_string()),
            ("Key3".to_string(), "smitholder1999".to_string()),
            ("Unused".to_string(), "brownnever2001".to_string()),
        ]
    );
}

#[test]
fn fix_with_star_citation_keeps_everything() {
    let texs = vec![cs("\\nocite{*}\n")];
    let out = fix_bibliography(&texs, &bibs(), false);
    assert_eq!(out.kept_count, 3);
    assert!(out.missing.is_empty());
    assert_eq!(st(&out.tex_texts[0]), "\\nocite{*}\n");
}

#[test]
fn fix_without_citations_drops_every_entry() {
    let texs = vec![cs("No citations.\n")];
    let out = fix_bibliography(&texs, &bibs(), false);
    assert_eq!(out.kept_count, 0);
    assert_eq!(st(&out.bib_texts[0]), "");
    assert_eq!(st(&out.bib_texts[1]), "@string{x = \"y\"}\n\n");
    assert!(out.renames.is_empty());
}

#[test]
fn fix_reports_missing_keys() {
    let texs = vec![cs("\\cite{Key1,Ghost} \\cite{Ghost}")];
    let out = fix_bibliography(&texs, &bibs(), false);
    let missing: Vec<String> = out.missing.iter().map(|k| st(k)).collect();
    assert_eq!(missing, vec!["Ghost"]);
    assert_eq!(st(&out.tex_texts[0]), "\\cite{doestudy2020,Ghost} \\cite{Ghost}");
}

#[test]
fn fix_gives_clashing_new_keys_a_counter() {
    let bib = "@article{a, author = {Doe, John}, title = {A Study}, year = 2020}\n\
@article{b, author = {Doe, Jane}, title = {A Study of Cats}, year = 2020}\n";
    let texs = vec![cs("\\cite{a,b}")];
    let out = fix_bibliography(&texs, &vec![cs(bib)], false);
    assert_eq!(out.kept_count, 2);
    assert_eq!(
        renames(&out),
        vec![
            ("a".to_string(), "doestudy2020".to_string()),
            ("b".to_string(), "doestudy2020_2".to_string()),
        ]
    );
    assert_eq!(st(&out.tex_texts[0]), "\\cite{doestudy2020,doestudy2020_2}");
}

#[test]
fn fix_prefers_the_cited_duplicate_as_representative() {
    let bib = "@article{first, author = {Doe, John}, title = {A Study}, year = 2020, note = {one}}\n\
@article{second, author = {Doe, John}, title = {A Study}, year = 2020, note = {two}}\n";
    let texs = vec![cs("\\cite{second}")];
    let out = fix_bibliography(&texs, &vec![cs(bib)], false);
    assert_eq!(out.kept_count, 1);
    assert_eq!(
        st(&out.bib_texts[0]),
        "@article{doestudy2020,\n author = {Doe, John}, title = {A Study}, year = 2020, note = {two}\n}\n\n"
    );
}

#[test]
fn render_writes_kept_entries_in_entry_order() {
    let (_, es) = rst4tex::bib::parse_bib(&cs("@misc{a, note = {1}}\n@misc{b, note = {2}}\n"), 0);
    let specials: Vec<Vec<Vec<char>>> = vec![Vec::new()];
    let out = rst4tex::fixbib::render_bib_files(&specials, &es, &vec![1, 0], &vec![cs("kb"), cs("ka")]);
    assert_eq!(st(&out[0]), "@misc{ka,\n note = {1}\n}\n\n@misc{kb,\n note = {2}\n}\n\n");
    let out = rst4tex::fixbib::render_bib_files(&specials, &es, &vec![7, 1], &vec![cs("x"), cs("kb")]);
    assert_eq!(st(&out[0]), "@misc{kb,\n note = {2}\n}\n\n");
}
