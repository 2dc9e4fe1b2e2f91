//! Tools that tidy LaTeX sources: a bibliography fixer and a text formatter.
pub mod chars;
pub mod text;
pub mod scan;
pub mod bib;
pub mod fold;
pub mod keys;
pub mod cite;
pub mod fixbib;
pub mod sentences;
pub mod fixtex;
pub mod files;
pub mod laws;
pub mod intent;
