use vstd::prelude::*;

verus! {

/// Where a candidate stands in the source.
#[derive(Debug)]
pub struct Location {
    pub file: String,
    pub start_line: usize,
    pub end_line: usize,
    pub kind: String,
    pub name: Option<String>,
}

/// Two candidates whose structure is alike. Their similarity score is
/// `shared_fingerprints / total_fingerprints` (zero when they have none).
#[derive(Debug)]
pub struct DuplicateCandidate {
    pub language: String,
    pub left: Location,
    pub right: Location,
    pub left_nodes: usize,
    pub right_nodes: usize,
    pub shared_fingerprints: usize,
    pub total_fingerprints: usize,
}

/// The pairs of duplicate candidates that a scan found.
#[derive(Debug)]
pub struct Report {
    pub candidates: Vec<DuplicateCandidate>,
}

} // verus!
