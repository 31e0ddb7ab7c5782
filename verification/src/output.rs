use vstd::prelude::*;

use crate::candidates::opt_view;
use crate::json::{JsonValue, JsonView, json_view, fields_view, items_view, json_str, json_object, json_array, push_field, push_item, pretty_json, to_pretty_json, json_member, json_item, json_len, first_member};
use crate::report::{DuplicateCandidate, Location, Report};

verus! {

/// The character of a decimal digit.
pub open spec fn digit_char(d: nat) -> char {
    if d == 0 { '0' }
    else if d == 1 { '1' }
    else if d == 2 { '2' }
    else if d == 3 { '3' }
    else if d == 4 { '4' }
    else if d == 5 { '5' }
    else if d == 6 { '6' }
    else if d == 7 { '7' }
    else if d == 8 { '8' }
    else { '9' }
}

/// A number written in decimal, without leading zeros.
pub open spec fn decimal_text(n: nat) -> Seq<char>
    decreases n,
{
    if n < 10 {
        seq![digit_char(n)]
    } else {
        decimal_text(n / 10).push(digit_char(n % 10))
    }
}

fn digit_text(d: usize) -> (r: &'static str)
    requires
        d < 10,
    ensures
        r@ == seq![digit_char(d as nat)],
{
    proof {
        reveal_strlit("0");
        reveal_strlit("1");
        reveal_strlit("2");
        reveal_strlit("3");
        reveal_strlit("4");
        reveal_strlit("5");
        reveal_strlit("6");
        reveal_strlit("7");
        reveal_strlit("8");
        reveal_strlit("9");
    }
    if d == 0 { "0" }
    else if d == 1 { "1" }
    else if d == 2 { "2" }
    else if d == 3 { "3" }
    else if d == 4 { "4" }
    else if d == 5 { "5" }
    else if d == 6 { "6" }
    else if d == 7 { "7" }
    else if d == 8 { "8" }
    else { "9" }
}

/// A number written in decimal.
pub fn decimal(n: usize) -> (r: String)
    ensures
        r@ == decimal_text(n as nat),
    decreases n,
{
    if n < 10 {
        return String::from_str(digit_text(n));
    }
    let mut s = decimal(n / 10);
    s.append(digit_text(n % 10));
    s
}

/// How a report line shows where a candidate stands:
/// `file:start-end kind`, then ` name` when it has one.
pub open spec fn location_text(l: Location) -> Seq<char> {
    let base = l.file@ + ":"@ + decimal_text(l.start_line as nat) + "-"@ + decimal_text(l.end_line as nat) + " "@ + l.kind@;
    match opt_view(l.name) {
        Some(name) => base + " "@ + name,
        None => base,
    }
}

/// Where a candidate stands, as a report line shows it.
pub fn format_location(location: &Location) -> (r: String)
    ensures
        r@ == location_text(*location),
{
    let mut out = location.file.clone();
    out.append(":");
    out.append(decimal(location.start_line).as_str());
    out.append("-");
    out.append(decimal(location.end_line).as_str());
    out.append(" ");
    out.append(location.kind.as_str());
    match &location.name {
        Some(name) => {
            out.append(" ");
            out.append(name.as_str());
        },
        None => {},
    }
    out
}

/// How the text report shows one pair, given its score as text:
/// a `DUPLICATE` line, then the two locations, each indented by two spaces.
pub open spec fn candidate_text(c: DuplicateCandidate, score: Seq<char>) -> Seq<char> {
    "DUPLICATE "@ + c.language@ + " score="@ + score + "\n  "@ + location_text(c.left) + "\n  "@ + location_text(c.right)
}

/// One pair of the text report, given its score as text.
pub fn format_candidate(candidate: &DuplicateCandidate, score: &str) -> (r: String)
    ensures
        r@ == candidate_text(*candidate, score@),
{
    let mut out = String::from_str("DUPLICATE ");
    out.append(candidate.language.as_str());
    out.append(" score=");
    out.append(score);
    out.append("\n  ");
    out.append(format_location(&candidate.left).as_str());
    out.append("\n  ");
    out.append(format_location(&candidate.right).as_str());
    out
}

/// The blocks of the first `n` pairs, each ended by a newline and set apart
/// from the one before by an empty line.
pub open spec fn blocks_text(cands: Seq<DuplicateCandidate>, scores: Seq<Seq<char>>, n: int) -> Seq<char>
    decreases n,
{
    if n <= 0 {
        Seq::empty()
    } else {
        blocks_text(cands, scores, n - 1) + (if n > 1 { "\n"@ } else { Seq::empty() }) + candidate_text(cands[n - 1], scores[n - 1])
            + "\n"@
    }
}

/// The text report: a line saying that nothing was found, or one block per
/// pair with `scores[k]` as the score of pair `k`.
pub open spec fn report_text(cands: Seq<DuplicateCandidate>, scores: Seq<Seq<char>>) -> Seq<char> {
    if cands.len() == 0 {
        "No duplicate candidates found.\n"@
    } else {
        blocks_text(cands, scores, cands.len() as int)
    }
}

/// The text report, given the score of each pair as text.
pub fn format_text(report: &Report, scores: &Vec<String>) -> (r: String)
    requires
        scores@.len() == report.candidates@.len(),
    ensures
        r@ == report_text(report.candidates@, crate::config::string_views(scores@)),
{
    let ghost sv = crate::config::string_views(scores@);
    if report.candidates.len() == 0 {
        return String::from_str("No duplicate candidates found.\n");
    }
    let mut out = String::new();
    let mut index: usize = 0;
    while index < report.candidates.len()
        invariant
            sv == crate::config::string_views(scores@),
            scores@.len() == report.candidates@.len(),
            0 <= index <= report.candidates@.len(),
            out@ == blocks_text(report.candidates@, sv, index as int),
        decreases report.candidates@.len() - index,
    {
        if index > 0 {
            out.append("\n");
        }
        out.append(format_candidate(&report.candidates[index], scores[index].as_str()).as_str());
        out.append("\n");
        index = index + 1;
    }
    out
}

/// The SARIF location of a candidate: its file and its first and last lines.
pub open spec fn spec_sarif_location(l: Location) -> JsonView {
    JsonView::Object(seq![
        ("physicalLocation"@, JsonView::Object(seq![
            ("artifactLocation"@, JsonView::Object(seq![("uri"@, JsonView::Str(l.file@))])),
            ("region"@, JsonView::Object(seq![
                ("startLine"@, JsonView::Int(l.start_line as u64)),
                ("endLine"@, JsonView::Int(l.end_line as u64)),
            ])),
        ])),
    ])
}

/// The message of a SARIF result for a pair, given its score as text.
pub open spec fn sarif_message(c: DuplicateCandidate, score: Seq<char>) -> Seq<char> {
    "Structural duplicate candidate with score "@ + score + ": "@ + location_text(c.left) + " and "@ + location_text(c.right)
}

/// The SARIF result for a pair, given its score as text: a warning of the
/// structural duplicate rule, with a message and the two locations.
pub open spec fn spec_sarif_result(c: DuplicateCandidate, score: Seq<char>) -> JsonView {
    JsonView::Object(seq![
        ("ruleId"@, JsonView::Str("structural-duplicate"@)),
        ("level"@, JsonView::Str("warning"@)),
        ("message"@, JsonView::Object(seq![("text"@, JsonView::Str(sarif_message(c, score)))])),
        ("locations"@, JsonView::Array(seq![spec_sarif_location(c.left), spec_sarif_location(c.right)])),
    ])
}

/// The SARIF results of the first `n` pairs, in order.
pub open spec fn sarif_results(cands: Seq<DuplicateCandidate>, scores: Seq<Seq<char>>, n: int) -> Seq<JsonView>
    decreases n,
{
    if n <= 0 {
        Seq::empty()
    } else {
        sarif_results(cands, scores, n - 1).push(spec_sarif_result(cands[n - 1], scores[n - 1]))
    }
}

/// The tool that a SARIF report names, with its one rule.
pub open spec fn sarif_tool() -> JsonView {
    JsonView::Object(seq![
        ("driver"@, JsonView::Object(seq![
            ("name"@, JsonView::Str("dryer"@)),
            ("informationUri"@, JsonView::Str("https://github.com/unclebob/dry4clj"@)),
            ("rules"@, JsonView::Array(seq![JsonView::Object(seq![
                ("id"@, JsonView::Str("structural-duplicate"@)),
                ("name"@, JsonView::Str("Structural duplicate candidate"@)),
                ("shortDescription"@, JsonView::Object(seq![("text"@, JsonView::Str("Structurally similar code was found"@))])),
            ])])),
        ])),
    ])
}

/// The SARIF 2.1.0 report: one run of the tool, with one result per pair,
/// `scores[k]` being the score of pair `k` as text.
pub open spec fn spec_sarif_document(cands: Seq<DuplicateCandidate>, scores: Seq<Seq<char>>) -> JsonView {
    JsonView::Object(seq![
        ("$schema"@, JsonView::Str("https://json.schemastore.org/sarif-2.1.0.json"@)),
        ("version"@, JsonView::Str("2.1.0"@)),
        ("runs"@, JsonView::Array(seq![JsonView::Object(seq![
            ("tool"@, sarif_tool()),
            ("results"@, JsonView::Array(sarif_results(cands, scores, cands.len() as int))),
        ])])),
    ])
}

fn sarif_location(location: &Location) -> (r: JsonValue)
    ensures
        json_view(r) == spec_sarif_location(*location),
{
    let mut artifact: Vec<(String, JsonValue)> = Vec::new();
    push_field(&mut artifact, "uri", json_str(location.file.as_str()));
    assert(fields_view(artifact@) =~= seq![("uri"@, JsonView::Str(location.file@))]);
    let mut region: Vec<(String, JsonValue)> = Vec::new();
    push_field(&mut region, "startLine", JsonValue::Int(location.start_line as u64));
    push_field(&mut region, "endLine", JsonValue::Int(location.end_line as u64));
    assert(fields_view(region@) =~= seq![
        ("startLine"@, JsonView::Int(location.start_line as u64)),
        ("endLine"@, JsonView::Int(location.end_line as u64)),
    ]);
    let artifact_value = json_object(artifact);
    let region_value = json_object(region);
    let mut physical: Vec<(String, JsonValue)> = Vec::new();
    push_field(&mut physical, "artifactLocation", artifact_value);
    push_field(&mut physical, "region", region_value);
    assert(fields_view(physical@) =~= seq![
        ("artifactLocation"@, JsonView::Object(seq![("uri"@, JsonView::Str(location.file@))])),
        ("region"@, JsonView::Object(seq![
            ("startLine"@, JsonView::Int(location.start_line as u64)),
            ("endLine"@, JsonView::Int(location.end_line as u64)),
        ])),
    ]);
    let physical_value = json_object(physical);
    let mut outer: Vec<(String, JsonValue)> = Vec::new();
    push_field(&mut outer, "physicalLocation", physical_value);
    assert(fields_view(outer@) =~= seq![("physicalLocation"@, json_view(physical_value))]);
    json_object(outer)
}

fn sarif_result(candidate: &DuplicateCandidate, score: &str) -> (r: JsonValue)
    ensures
        json_view(r) == spec_sarif_result(*candidate, score@),
{
    let mut message = String::from_str("Structural duplicate candidate with score ");
    message.append(score);
    message.append(": ");
    message.append(format_location(&candidate.left).as_str());
    message.append(" and ");
    message.append(format_location(&candidate.right).as_str());
    let mut text: Vec<(String, JsonValue)> = Vec::new();
    push_field(&mut text, "text", json_str(message.as_str()));
    assert(fields_view(text@) =~= seq![("text"@, JsonView::Str(sarif_message(*candidate, score@)))]);
    let message_value = json_object(text);
    let left = sarif_location(&candidate.left);
    let right = sarif_location(&candidate.right);
    let mut locations: Vec<JsonValue> = Vec::new();
    push_item(&mut locations, left);
    push_item(&mut locations, right);
    assert(items_view(locations@) =~= seq![spec_sarif_location(candidate.left), spec_sarif_location(candidate.right)]);
    let locations_value = json_array(locations);
    let mut fields: Vec<(String, JsonValue)> = Vec::new();
    push_field(&mut fields, "ruleId", json_str("structural-duplicate"));
    push_field(&mut fields, "level", json_str("warning"));
    push_field(&mut fields, "message", message_value);
    push_field(&mut fields, "locations", locations_value);
    assert(fields_view(fields@) =~= seq![
        ("ruleId"@, JsonView::Str("structural-duplicate"@)),
        ("level"@, JsonView::Str("warning"@)),
        ("message"@, json_view(message_value)),
        ("locations"@, json_view(locations_value)),
    ]);
    json_object(fields)
}

fn sarif_tool_value() -> (r: JsonValue)
    ensures
        json_view(r) == sarif_tool(),
{
    let mut description: Vec<(String, JsonValue)> = Vec::new();
    push_field(&mut description, "text", json_str("Structurally similar code was found"));
    assert(fields_view(description@) =~= seq![("text"@, JsonView::Str("Structurally similar code was found"@))]);
    let description_value = json_object(description);
    let mut rule: Vec<(String, JsonValue)> = Vec::new();
    push_field(&mut rule, "id", json_str("structural-duplicate"));
    push_field(&mut rule, "name", json_str("Structural duplicate candidate"));
    push_field(&mut rule, "shortDescription", description_value);
    assert(fields_view(rule@) =~= seq![
        ("id"@, JsonView::Str("structural-duplicate"@)),
        ("name"@, JsonView::Str("Structural duplicate candidate"@)),
        ("shortDescription"@, json_view(description_value)),
    ]);
    let rule_value = json_object(rule);
    let mut rules: Vec<JsonValue> = Vec::new();
    push_item(&mut rules, rule_value);
    assert(items_view(rules@) =~= seq![json_view(rule_value)]);
    let rules_value = json_array(rules);
    let mut driver: Vec<(String, JsonValue)> = Vec::new();
    push_field(&mut driver, "name", json_str("dryer"));
    push_field(&mut driver, "informationUri", json_str("https://github.com/unclebob/dry4clj"));
    push_field(&mut driver, "rules", rules_value);
    assert(fields_view(driver@) =~= seq![
        ("name"@, JsonView::Str("dryer"@)),
        ("informationUri"@, JsonView::Str("https://github.com/unclebob/dry4clj"@)),
        ("rules"@, json_view(rules_value)),
    ]);
    let driver_value = json_object(driver);
    let mut tool: Vec<(String, JsonValue)> = Vec::new();
    push_field(&mut tool, "driver", driver_value);
    assert(fields_view(tool@) =~= seq![("driver"@, json_view(driver_value))]);
    json_object(tool)
}

/// The SARIF report as a JSON document, given the score of each pair as text.
pub fn sarif_document(report: &Report, scores: &Vec<String>) -> (r: JsonValue)
    requires
        scores@.len() == report.candidates@.len(),
    ensures
        json_view(r) == spec_sarif_document(report.candidates@, crate::config::string_views(scores@)),
{
    let ghost sv = crate::config::string_views(scores@);
    let mut results: Vec<JsonValue> = Vec::new();
    let mut index: usize = 0;
    assert(items_view(results@) =~= sarif_results(report.candidates@, sv, 0));
    while index < report.candidates.len()
        invariant
            sv == crate::config::string_views(scores@),
            scores@.len() == report.candidates@.len(),
            0 <= index <= report.candidates@.len(),
            items_view(results@) == sarif_results(report.candidates@, sv, index as int),
        decreases report.candidates@.len() - index,
    {
        push_item(&mut results, sarif_result(&report.candidates[index], scores[index].as_str()));
        index = index + 1;
    }
    let results_value = json_array(results);
    let tool_value = sarif_tool_value();
    let mut run: Vec<(String, JsonValue)> = Vec::new();
    push_field(&mut run, "tool", tool_value);
    push_field(&mut run, "results", results_value);
    assert(fields_view(run@) =~= seq![("tool"@, json_view(tool_value)), ("results"@, json_view(results_value))]);
    let run_value = json_object(run);
    let mut runs: Vec<JsonValue> = Vec::new();
    push_item(&mut runs, run_value);
    assert(items_view(runs@) =~= seq![json_view(run_value)]);
    let runs_value = json_array(runs);
    let mut document: Vec<(String, JsonValue)> = Vec::new();
    push_field(&mut document, "$schema", json_str("https://json.schemastore.org/sarif-2.1.0.json"));
    push_field(&mut document, "version", json_str("2.1.0"));
    push_field(&mut document, "runs", runs_value);
    assert(fields_view(document@) =~= seq![
        ("$schema"@, JsonView::Str("https://json.schemastore.org/sarif-2.1.0.json"@)),
        ("version"@, JsonView::Str("2.1.0"@)),
        ("runs"@, json_view(runs_value)),
    ]);
    json_object(document)
}

/// The SARIF report, written as pretty-printed JSON, given the score of each
/// pair as text.
pub fn format_sarif(report: &Report, scores: &Vec<String>) -> (r: String)
    requires
        scores@.len() == report.candidates@.len(),
    ensures
        r@ == pretty_json(spec_sarif_document(report.candidates@, crate::config::string_views(scores@))),
{
    to_pretty_json(&sarif_document(report, scores))
}

/// `v` is a SARIF location of the file and lines of `l`: its
/// `physicalLocation.artifactLocation.uri` is the file and its
/// `physicalLocation.region` holds the start and end lines.
pub open spec fn locates(v: JsonView, l: Location) -> bool {
    let physical = json_member(v, "physicalLocation"@);
    &&& physical is Some
    &&& json_member(physical.unwrap(), "artifactLocation"@) matches Some(artifact)
        && json_member(artifact, "uri"@) == Some(JsonView::Str(l.file@))
    &&& json_member(physical.unwrap(), "region"@) matches Some(region)
        && json_member(region, "startLine"@) == Some(JsonView::Int(l.start_line as u64))
        && json_member(region, "endLine"@) == Some(JsonView::Int(l.end_line as u64))
}

proof fn lemma_location_locates(l: Location)
    ensures
        locates(spec_sarif_location(l), l),
{
    reveal_with_fuel(first_member, 3);
    reveal_strlit("startLine");
    reveal_strlit("endLine");
    reveal_strlit("artifactLocation");
    reveal_strlit("region");
    assert("startLine"@[0] != "endLine"@[0]);
    assert("artifactLocation"@[0] != "region"@[0]);
}

/// The SARIF result of a pair is a warning of the structural duplicate rule
/// that locates both candidates, the left one first, and whose message gives
/// the score and both locations.
pub proof fn lemma_sarif_result_locates_both(c: DuplicateCandidate, score: Seq<char>)
    ensures
        json_member(spec_sarif_result(c, score), "ruleId"@) == Some(JsonView::Str("structural-duplicate"@)),
        json_member(spec_sarif_result(c, score), "level"@) == Some(JsonView::Str("warning"@)),
        json_member(spec_sarif_result(c, score), "message"@) matches Some(m)
            && json_member(m, "text"@) == Some(JsonView::Str(
                "Structural duplicate candidate with score "@ + score + ": "@ + location_text(c.left) + " and "@
                    + location_text(c.right),
            )),
        json_member(spec_sarif_result(c, score), "locations"@) matches Some(locs)
            && json_len(locs) == Some(2nat)
            && locates(json_item(locs, 0).unwrap(), c.left)
            && locates(json_item(locs, 1).unwrap(), c.right),
{
    reveal_with_fuel(first_member, 5);
    reveal_strlit("ruleId");
    reveal_strlit("level");
    reveal_strlit("message");
    reveal_strlit("locations");
    assert("ruleId"@[0] != "level"@[0]);
    assert("ruleId"@[0] != "message"@[0]);
    assert("ruleId"@[0] != "locations"@[0]);
    assert("level"@[1] != "locations"@[1]);
    assert("message"@[0] != "locations"@[0]);
    assert("level"@[0] != "message"@[0]);
    lemma_location_locates(c.left);
    lemma_location_locates(c.right);
}

proof fn lemma_sarif_results_items(cands: Seq<DuplicateCandidate>, scores: Seq<Seq<char>>, n: int)
    requires
        0 <= n,
    ensures
        sarif_results(cands, scores, n).len() == n,
        forall|k: int| 0 <= k < n ==> #[trigger] sarif_results(cands, scores, n)[k] == spec_sarif_result(cands[k], scores[k]),
    decreases n,
{
    if n > 0 {
        lemma_sarif_results_items(cands, scores, n - 1);
    }
}

/// The first run of a SARIF document.
pub open spec fn run_of(doc: JsonView) -> JsonView {
    json_item(json_member(doc, "runs"@).unwrap(), 0).unwrap()
}

/// The SARIF document is version 2.1.0 with one run whose results are one
/// per pair, in the order of the pairs: result `k` is that of pair `k`.
pub proof fn lemma_sarif_document_results(cands: Seq<DuplicateCandidate>, scores: Seq<Seq<char>>, k: int)
    requires
        0 <= k < cands.len(),
    ensures
        json_member(spec_sarif_document(cands, scores), "version"@) == Some(JsonView::Str("2.1.0"@)),
        json_member(spec_sarif_document(cands, scores), "runs"@) is Some,
        json_len(json_member(spec_sarif_document(cands, scores), "runs"@).unwrap()) == Some(1nat),
        json_item(json_member(spec_sarif_document(cands, scores), "runs"@).unwrap(), 0) is Some,
        json_member(run_of(spec_sarif_document(cands, scores)), "results"@) is Some,
        json_len(json_member(run_of(spec_sarif_document(cands, scores)), "results"@).unwrap()) == Some(cands.len()),
        json_item(json_member(run_of(spec_sarif_document(cands, scores)), "results"@).unwrap(), k)
            == Some(spec_sarif_result(cands[k], scores[k])),
{
    reveal_with_fuel(first_member, 4);
    reveal_strlit("$schema");
    reveal_strlit("version");
    reveal_strlit("runs");
    reveal_strlit("tool");
    reveal_strlit("results");
    assert("$schema"@[0] != "version"@[0]);
    assert("$schema"@[0] != "runs"@[0]);
    assert("version"@[0] != "runs"@[0]);
    assert("tool"@[0] != "results"@[0]);
    lemma_sarif_results_items(cands, scores, cands.len() as int);
}

} // verus!
