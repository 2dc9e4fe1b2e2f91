use rst4tex::bib::{get_field_lit, parse_bib, parse_fields};

fn cs(s: &str) -> Vec<char> {
    s.chars().collect()
}

fn st(v: &[char]) -> String {
    v.iter().collect()
}

const RAW: &str = "@string{foo = \"bar\"}\n\
@Article{Key1,\n  author = {Doe, John},\n  title = {A Study},\n  year = 2020\n}\n\
@misc{nocomma}\n\
@book( Key2 , title=\"T\")\n\
@misc{ ,title={Empty key}}\n";

#[test]
fn parse_bib_separates_entries_and_specials() {
    let (specials, entries) = parse_bib(&cs(RAW), 3);
    let sp: Vec<String> = specials.iter().map(|s| st(s)).collect();
    assert_eq!(
        sp,
        vec!["@string{foo = \"bar\"}", "@misc{nocomma}", "@misc{ ,title={Empty key}}"]
    );
    assert_eq!(entries.len(), 2);
    assert_eq!(entries[0].file_idx, 3);
    assert_eq!(st(&entries[0].kind), "Article");
    assert_eq!(st(&entries[0].old_key), "Key1");
    assert_eq!(
        st(&entries[0].body),
        "\n  author = {Doe, John},\n  title = {A Study},\n  year = 2020\n"
    );
    assert_eq!(st(&entries[1].kind), "book");
    assert_eq!(st(&entries[1].old_key), "Key2");
    assert_eq!(st(&entries[1].body), " title=\"T\"");
}

#[test]
fn parse_bib_reads_the_fields_of_entries() {
    let (_, entries) = parse_bib(&cs(RAW), 0);
    let f = &entries[0].fields;
    assert_eq!(get_field_lit(f, "author").map(|v| st(&v)), Some("{Doe, John}".to_string()));
    assert_eq!(get_field_lit(f, "title").map(|v| st(&v)), Some("{A Study}".to_string()));
    assert_eq!(get_field_lit(f, "year").map(|v| st(&v)), Some("2020".to_string()));
    assert_eq!(get_field_lit(f, "journal"), None);
    let g = &entries[1].fields;
    assert_eq!(get_field_lit(g, "title").map(|v| st(&v)), Some("\"T\"".to_string()));
}

#[test]
fn parse_bib_of_text_without_entries() {
    let (specials, entries) = parse_bib(&cs("no entries here @ 42"), 0);
    assert!(specials.is_empty());
    assert!(entries.is_empty());
}

#[test]
fn parse_bib_keeps_comment_and_preamble_as_specials() {
    let raw = "@Comment{jabref-meta: x}\n@preamble{\"\\newcommand{\\a}{b}\"}\n";
    let (specials, entries) = parse_bib(&cs(raw), 0);
    assert!(entries.is_empty());
    let sp: Vec<String> = specials.iter().map(|s| st(s)).collect();
    assert_eq!(sp, vec!["@Comment{jabref-meta: x}", "@preamble{\"\\newcommand{\\a}{b}\"}"]);
}

#[test]
fn parse_bib_stops_at_an_unclosed_entry() {
    let raw = "@article{a, title={x}}\n@article{b, title={y}\n";
    let (_, entries) = parse_bib(&cs(raw), 0);
    assert_eq!(entries.len(), 1);
    assert_eq!(st(&entries[0].old_key), "a");
}

#[test]
fn parse_fields_lowercases_names_and_trims_values() {
    let fields = parse_fields(&cs(" Title = { A, B } , YEAR=\"19,99\", note = x\\,y"));
    assert_eq!(fields.len(), 3);
    assert_eq!(st(&fields[0].name), "title");
    assert_eq!(st(&fields[0].value), "{ A, B }");
    assert_eq!(st(&fields[1].name), "year");
    assert_eq!(st(&fields[1].value), "\"19,99\"");
    assert_eq!(st(&fields[2].name), "note");
    assert_eq!(st(&fields[2].value), "x\\,y");
}

#[test]
fn parse_fields_skips_names_without_a_value() {
    let fields = parse_fields(&cs("flag, year = 2001"));
    assert_eq!(fields.len(), 1);
    assert_eq!(st(&fields[0].name), "year");
    assert_eq!(st(&fields[0].value), "2001");
}

#[test]
fn get_field_takes_the_last_of_repeated_names() {
    let fields = parse_fields(&cs("year = 1990, year = 1991"));
    assert_eq!(get_field_lit(&fields, "year").map(|v| st(&v)), Some("1991".to_string()));
}
