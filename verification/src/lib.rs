use vstd::prelude::*;

pub mod candidates;
pub mod config;
pub mod files;
pub mod fingerprints;
pub mod json;
pub mod language;
pub mod normalize;
pub mod order;
pub mod output;
pub mod ranking;
pub mod sorted;
pub mod matcher;
pub mod parse;
pub mod paths;
pub mod report;
pub mod syntax;
pub mod text;

verus! {

/// What can stop a scan.
#[derive(Debug)]
pub enum DryerError {
    /// A glob pattern could not be compiled.
    Glob { pattern: String, source: globset::Error },
    /// No parser could be set up for a language.
    ParserLanguage { language: language::Language, message: String },
    /// A file could not be parsed.
    Parse { path: String },
}

} // verus!
