use rst4tex::bib::parse_bib;
use rst4tex::fold::ascii_fold_char;
use rst4tex::keys::{
    author_component, entry_signature, entry_year, entry_year_i32, first_four_digit_year,
    join_words, latex_plain, make_new_key, title_component, to_decimal, unique_key,
    words_from_latex,
};

fn cs(s: &str) -> Vec<char> {
    s.chars().collect()
}

fn st(v: &[char]) -> String {
    v.iter().collect()
}

fn words(s: &str) -> Vec<String> {
    words_from_latex(&cs(s)).iter().map(|w| st(w)).collect()
}

#[test]
fn words_from_latex_strips_braces_and_commands() {
    assert_eq!(words("{The {Quick} Brown}"), vec!["the", "quick", "brown"]);
    assert_eq!(words("\\emph{Deep} Learning"), vec!["deep", "learning"]);
    assert_eq!(words("\"Quoted Title\""), vec!["quoted", "title"]);
    assert_eq!(words("  "), Vec::<String>::new());
}

#[test]
fn words_from_latex_folds_accents() {
    assert_eq!(words("Caf\u{e9} Cr\u{e8}me"), vec!["cafe", "creme"]);
    assert_eq!(words("Stra\u{df}e"), vec!["strasse"]);
    assert_eq!(words("M\u{fc}ller"), vec!["muller"]);
    assert_eq!(words("e\u{301}te\u{301}"), vec!["ete"]);
}

#[test]
fn words_from_latex_lowercases_other_letters() {
    // The Kelvin sign lowercases to an ASCII `k`.
    assert_eq!(words("\u{212a}elvin"), vec!["kelvin"]);
    // A Greek letter lowercases to a letter outside ASCII and splits words.
    assert_eq!(words("a\u{3a9}b"), vec!["a", "b"]);
}

#[test]
fn latex_plain_joins_words_with_spaces() {
    assert_eq!(st(&latex_plain(&cs("{Doe, John}"))), "doe john");
    assert_eq!(st(&latex_plain(&cs("{}"))), "");
}

#[test]
fn join_words_puts_the_separator_between() {
    let parts = vec![cs("a"), cs("bc"), cs("")];
    assert_eq!(st(&join_words(&parts, ',')), "a,bc,");
    assert_eq!(st(&join_words(&Vec::new(), ',')), "");
}

#[test]
fn author_component_takes_the_family_name() {
    assert_eq!(st(&author_component(&cs("Doe, John and Smith, Jane"))), "doe");
    assert_eq!(st(&author_component(&cs("John von Neumann"))), "neumann");
    assert_eq!(st(&author_component(&cs("van der Berg, Anna"))), "vanderberg");
    assert_eq!(st(&author_component(&cs("{Doe, John}"))), "doe");
}

#[test]
fn author_component_of_no_author_is_anon() {
    assert_eq!(st(&author_component(&cs(""))), "anon");
    assert_eq!(st(&author_component(&cs("{}"))), "anon");
}

#[test]
fn title_component_skips_stop_words() {
    assert_eq!(st(&title_component(&cs("On the Origin of Species"))), "origin");
    assert_eq!(st(&title_component(&cs("{A Study}"))), "study");
}

#[test]
fn title_component_of_only_stop_words_is_untitled() {
    assert_eq!(st(&title_component(&cs("The"))), "untitled");
    assert_eq!(st(&title_component(&cs(""))), "untitled");
}

#[test]
fn first_four_digit_year_finds_the_first_run() {
    assert_eq!(first_four_digit_year(&cs("circa 1999-2000")).map(|v| st(&v)), Some("1999".to_string()));
    assert_eq!(first_four_digit_year(&cs("12345")).map(|v| st(&v)), Some("1234".to_string()));
    assert_eq!(first_four_digit_year(&cs("99")), None);
    assert_eq!(first_four_digit_year(&cs("")), None);
}

const RAW: &str = "@Article{Key1,\n  author = {Doe, John},\n  title = {A Study},\n  year = 2020\n}\n\
@misc{NoTitle, editor = {Roe, R.}, date = {2003-01-02}}\n\
@misc{Bare, note = {nothing}}\n";

#[test]
fn entry_year_reads_year_then_date() {
    let (_, es) = parse_bib(&cs(RAW), 0);
    assert_eq!(entry_year(&es[0]).map(|v| st(&v)), Some("2020".to_string()));
    assert_eq!(entry_year(&es[1]).map(|v| st(&v)), Some("2003".to_string()));
    assert_eq!(entry_year(&es[2]), None);
    assert_eq!(entry_year_i32(&es[0]), Some(2020));
    assert_eq!(entry_year_i32(&es[1]), Some(2003));
    assert_eq!(entry_year_i32(&es[2]), None);
}

#[test]
fn make_new_key_is_author_title_year() {
    let (_, es) = parse_bib(&cs(RAW), 0);
    assert_eq!(st(&make_new_key(&es[0])), "doestudy2020");
    assert_eq!(st(&make_new_key(&es[1])), "roeuntitled2003");
    assert_eq!(st(&make_new_key(&es[2])), "anonuntitled0000");
}

#[test]
fn entry_signature_uses_author_title_year_or_the_key() {
    let (_, es) = parse_bib(&cs(RAW), 0);
    assert_eq!(st(&entry_signature(&es[0])), "doe john|a study|2020");
    assert_eq!(st(&entry_signature(&es[1])), "key:notitle");
    assert_eq!(st(&entry_signature(&es[2])), "key:bare");
}

#[test]
fn unique_key_appends_a_counter() {
    let mut used: Vec<Vec<char>> = Vec::new();
    assert_eq!(st(&unique_key(cs("a"), &mut used)), "a");
    assert_eq!(st(&unique_key(cs("a"), &mut used)), "a_2");
    assert_eq!(st(&unique_key(cs("a"), &mut used)), "a_3");
    assert_eq!(st(&unique_key(cs("b"), &mut used)), "b");
    let all: Vec<String> = used.iter().map(|k| st(k)).collect();
    assert_eq!(all, vec!["a", "a_2", "a_3", "b"]);
}

#[test]
fn to_decimal_writes_digits() {
    assert_eq!(st(&to_decimal(0)), "0");
    assert_eq!(st(&to_decimal(7)), "7");
    assert_eq!(st(&to_decimal(1024)), "1024");
}

#[test]
fn ascii_fold_char_maps_accented_letters() {
    assert_eq!(ascii_fold_char('\u{e9}').map(|v| st(&v)), Some("e".to_string()));
    assert_eq!(ascii_fold_char('\u{c5}').map(|v| st(&v)), Some("a".to_string()));
    assert_eq!(ascii_fold_char('\u{df}').map(|v| st(&v)), Some("ss".to_string()));
    assert_eq!(ascii_fold_char('\u{152}').map(|v| st(&v)), Some("oe".to_string()));
    assert_eq!(ascii_fold_char('\u{fe}').map(|v| st(&v)), Some("th".to_string()));
    assert_eq!(ascii_fold_char('\u{301}').map(|v| st(&v)), Some("".to_string()));
    assert_eq!(ascii_fold_char('x'), None);
    assert_eq!(ascii_fold_char('\u{3a9}'), None);
}

#[test]
fn make_new_key_is_lower_case_ascii() {
    let raw = "@book{x, author = {\u{d8}rsted, H. C.}, title = {\u{dc}ber \u{c4}pfel}, year = {ca. 1820}}";
    let (_, es) = parse_bib(&cs(raw), 0);
    assert_eq!(st(&make_new_key(&es[0])), "orsteduber1820");
}

#[test]
fn make_new_key_joins_the_parts_without_separators() {
    let raw = "@article{e, author = {Einstein, A.}, title = {On the Electrodynamics of Moving Bodies}, year = 1905}";
    let (_, es) = parse_bib(&cs(raw), 0);
    assert_eq!(st(&make_new_key(&es[0])), "einsteinelectrodynamics1905");
}

#[test]
fn entry_signature_ignores_keys_markup_case_and_accents() {
    let raw = "@article{One, author = {M\u{fc}ller, Hans}, title = {{Deep}   \\emph{Learning}}, year = {2019}}\n\
@book{two, editor = {MULLER, hans}, title = \"deep learning\", date = {2019-03-01}}\n";
    let (_, es) = parse_bib(&cs(raw), 0);
    assert_eq!(entry_signature(&es[0]), entry_signature(&es[1]));
    assert_eq!(st(&entry_signature(&es[0])), "muller hans|deep learning|2019");
}
